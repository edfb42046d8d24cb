use vstd::prelude::*;

use crate::decimal::{fixed_value, parse_fixed, point_at};
use crate::trading_pair::{pair_text, TradingPair};
use crate::tri_pair::{reads_as, Ticker};

verus! {

/// One instrument of the exchange's metadata.
#[derive(Debug)]
pub struct SymbolInfo {
    pub symbol: String,
    pub base_asset: String,
    pub quote_asset: String,
    /// `TRADING` for an instrument that trades now
    pub status: String,
    /// the lot step as a decimal, when the instrument states one
    pub step_size: Option<String>,
}

/// Why the catalog could not be built.
#[derive(Debug, Clone, Copy, PartialEq, Eq, Structural)]
pub enum CatalogError {
    /// an active instrument has an empty asset, one holding `/`, or the
    /// same asset on both sides
    BadAsset,
    /// an active instrument's lot step is not a decimal in range
    BadStep,
    /// more active instruments than pair ids
    TooMany,
}

pub open spec fn is_active(e: SymbolInfo) -> bool {
    e.status@ == seq!['T', 'R', 'A', 'D', 'I', 'N', 'G']
}

/// The active instruments, in order.
pub open spec fn actives(s: Seq<SymbolInfo>) -> Seq<SymbolInfo> {
    s.filter(|e: SymbolInfo| is_active(e))
}

/// The lot step that `e` states reads as `v`; no step reads as 0.
pub open spec fn step_is(e: SymbolInfo, v: u64) -> bool {
    match e.step_size {
        None => v == 0,
        Some(s) => reads_as(s@, v),
    }
}

/// The assets of `e` are usable and differ.
pub open spec fn assets_ok(e: SymbolInfo) -> bool {
    &&& TradingPair::asset_ok(e.base_asset@)
    &&& TradingPair::asset_ok(e.quote_asset@)
    &&& e.base_asset@ != e.quote_asset@
}

/// The lot step of `e` reads as a `u64`.
pub open spec fn step_ok(e: SymbolInfo) -> bool {
    exists|v: u64| step_is(e, v)
}

/// `e` can enter the catalog.
pub open spec fn entry_ok(e: SymbolInfo) -> bool {
    assets_ok(e) && step_ok(e)
}

/// `a[n]` is the first entry that cannot enter the catalog, and it comes
/// while pair ids are left.
pub open spec fn first_bad(a: Seq<SymbolInfo>, n: int) -> bool {
    &&& 0 <= n < a.len()
    &&& n < u32::MAX
    &&& forall|m: int| 0 <= m < n ==> entry_ok(#[trigger] a[m])
    &&& !entry_ok(a[n])
}

/// `p` is the pair with id `idx` made from `e` and the fee `fee`.
pub open spec fn pair_from(p: TradingPair, e: SymbolInfo, idx: int, fee: u64) -> bool {
    &&& p.idx == idx
    &&& p.symbol@ == e.symbol@
    &&& p.symbol_id@ == pair_text(e.base_asset@, e.quote_asset@)
    &&& p.base_asset@ == e.base_asset@
    &&& p.quote_asset@ == e.quote_asset@
    &&& step_is(e, p.step)
    &&& p.fee == fee
    &&& p.tick == Ticker::empty_spec()
}

/// Whether `a` is a usable asset name.
fn asset_usable(a: &String) -> (r: bool)
    ensures
        r == TradingPair::asset_ok(a@),
{
    let s = a.as_str();
    let len = s.unicode_len();
    if len == 0 {
        return false;
    }
    let mut i: usize = 0;
    while i < len
        invariant
            len == a@.len(),
            s@ == a@,
            i <= len,
            forall|m: int| 0 <= m < i ==> a@[m] != '/',
        decreases len - i,
    {
        if s.get_char(i) == '/' {
            assert(a@.contains('/'));
            return false;
        }
        i = i + 1;
    }
    true
}

fn is_trading(e: &SymbolInfo) -> (r: bool)
    ensures
        r == is_active(*e),
{
    proof {
        reveal_strlit("TRADING");
    }
    let t = String::from_str("TRADING");
    assert(t@ =~= seq!['T', 'R', 'A', 'D', 'I', 'N', 'G']);
    e.status == t
}

/// The catalog: the active instruments in order, numbered from 1, each with
/// the fee multiplier `fee` (in units of 10^-8). Fails when an active
/// instrument cannot enter it.
pub fn get_pairs(symbols: &Vec<SymbolInfo>, fee: u64) -> (r: Result<Vec<TradingPair>, CatalogError>)
    ensures
        match r {
            Ok(v) => {
                &&& v@.len() == actives(symbols@).len()
                &&& forall|n: int| 0 <= n < v@.len() ==> pair_from(#[trigger] v@[n], actives(symbols@)[n], n + 1, fee)
                &&& forall|n: int| 0 <= n < v@.len() ==> (#[trigger] v@[n]).wf()
            },
            Err(e) => match e {
                CatalogError::TooMany => {
                    &&& actives(symbols@).len() > u32::MAX
                    &&& forall|m: int| 0 <= m < u32::MAX ==> entry_ok(#[trigger] actives(symbols@)[m])
                },
                CatalogError::BadAsset => exists|n: int|
                    #[trigger] first_bad(actives(symbols@), n) && !assets_ok(actives(symbols@)[n]),
                CatalogError::BadStep => exists|n: int|
                    #[trigger] first_bad(actives(symbols@), n) && assets_ok(actives(symbols@)[n]) && !step_ok(
                        actives(symbols@)[n],
                    ),
            },
        },
        r is Ok <==> (forall|n: int| 0 <= n < actives(symbols@).len() ==> entry_ok(#[trigger] actives(symbols@)[n]))
            && actives(symbols@).len() <= u32::MAX,
{
    let mut pairs: Vec<TradingPair> = Vec::new();
    let mut idx: u64 = 1;
    let mut i: usize = 0;
    while i < symbols.len()
        invariant
            i <= symbols@.len(),
            pairs@.len() == actives(symbols@.take(i as int)).len(),
            idx == pairs@.len() + 1,
            pairs@.len() <= u32::MAX,
            forall|n: int| 0 <= n < pairs@.len() ==> pair_from(#[trigger] pairs@[n], actives(symbols@.take(i as int))[n], n + 1, fee),
            forall|n: int| 0 <= n < pairs@.len() ==> (#[trigger] pairs@[n]).wf(),
            forall|n: int| 0 <= n < pairs@.len() ==> entry_ok(#[trigger] actives(symbols@.take(i as int))[n]),
        decreases symbols@.len() - i,
    {
        let e = &symbols[i];
        let ghost before = symbols@.take(i as int);
        proof {
            assert(symbols@.take(i + 1).drop_last() =~= before);
            reveal(Seq::filter);
            assert(symbols@.take(i + 1).last() == *e);
        }
        if is_trading(e) {
            proof {
                assert(actives(symbols@.take(i + 1)) == actives(before).push(*e));
            }
            if idx > u32::MAX as u64 {
                proof {
                    lemma_actives_prefix(symbols@, i + 1);
                    assert forall|m: int| 0 <= m < u32::MAX implies entry_ok(#[trigger] actives(symbols@)[m]) by {
                        assert(actives(symbols@)[m] == actives(symbols@.take(i + 1))[m]);
                        assert(actives(symbols@.take(i + 1))[m] == actives(before)[m]);
                    }
                }
                return Err(CatalogError::TooMany);
            }
            let ok_assets = asset_usable(&e.base_asset) && asset_usable(&e.quote_asset) && e.base_asset != e.quote_asset;
            let step: Option<u64> = match &e.step_size {
                None => Some(0),
                Some(s) => parse_fixed(s.as_str()),
            };
            if !ok_assets || step.is_none() {
                proof {
                    lemma_actives_prefix(symbols@, i + 1);
                    let n = actives(before).len() as int;
                    assert(actives(symbols@.take(i + 1))[n] == *e);
                    assert(actives(symbols@)[n] == *e);
                    if ok_assets {
                        assert forall|v: u64| !step_is(*e, v) by {
                            match e.step_size {
                                None => {},
                                Some(s) => {
                                    if reads_as(s@, v) {
                                        let k = choose|k: int| point_at(s@, k) && v == fixed_value(s@, k);
                                    }
                                },
                            }
                        }
                    }
                    assert forall|m: int| 0 <= m < n implies entry_ok(#[trigger] actives(symbols@)[m]) by {
                        assert(actives(symbols@)[m] == actives(symbols@.take(i + 1))[m]);
                        assert(actives(symbols@.take(i + 1))[m] == actives(before)[m]);
                    }
                    assert(!entry_ok(actives(symbols@)[n]));
                    assert(first_bad(actives(symbols@), n));
                }
                if !ok_assets {
                    return Err(CatalogError::BadAsset);
                }
                return Err(CatalogError::BadStep);
            }
            let step = step.unwrap();
            let p = TradingPair::new(
                idx as u32,
                e.symbol.clone(),
                e.base_asset.clone(),
                e.quote_asset.clone(),
                step,
                fee,
            );
            proof {
                assert(step_is(*e, step));
            }
            pairs.push(p);
            idx = idx + 1;
        } else {
            proof {
                assert(actives(symbols@.take(i + 1)) == actives(before));
            }
        }
        i = i + 1;
    }
    proof {
        assert(symbols@.take(i as int) =~= symbols@);
    }
    Ok(pairs)
}

/// The active instruments of a prefix open the list of all of them.
proof fn lemma_actives_prefix(s: Seq<SymbolInfo>, i: int)
    requires
        0 <= i <= s.len(),
    ensures
        actives(s.take(i)).len() <= actives(s).len(),
        forall|n: int| 0 <= n < actives(s.take(i)).len() ==> #[trigger] actives(s)[n] == actives(s.take(i))[n],
    decreases s.len() - i,
{
    if i < s.len() {
        lemma_actives_prefix(s, i + 1);
        assert(s.take(i + 1).drop_last() =~= s.take(i));
        reveal(Seq::filter);
    } else {
        assert(s.take(i) =~= s);
    }
}

} // verus!
