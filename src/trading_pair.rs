use vstd::prelude::*;

use crate::tri_pair::Ticker;

verus! {

/// The text `base/quote` that names a pair by its assets.
pub open spec fn pair_text(base: Seq<char>, quote: Seq<char>) -> Seq<char> {
    base + seq!['/'] + quote
}

/// A trading pair: an id, the exchange symbol, its two assets, the lot step
/// and fee multiplier (both in units of 10^-8) and the latest quote.
#[derive(Debug)]
pub struct TradingPair {
    pub idx: u32,
    pub symbol: String,
    pub symbol_id: String,
    pub base_asset: String,
    pub quote_asset: String,
    pub step: u64,
    pub tick: Ticker,
    pub fee: u64,
}

/// Builds `base/quote`.
pub fn join_assets(base: &String, quote: &String) -> (r: String)
    ensures
        r@ == pair_text(base@, quote@),
{
    let mut s = base.clone();
    proof {
        reveal_strlit("/");
    }
    s.append("/");
    s.append(quote.as_str());
    s
}

impl TradingPair {
    /// An asset name is usable when it is not empty and holds no `/`.
    pub open spec fn asset_ok(a: Seq<char>) -> bool {
        a.len() > 0 && !a.contains('/')
    }

    /// A pair is well formed when both assets are usable and differ.
    pub open spec fn wf(&self) -> bool {
        &&& Self::asset_ok(self.base_asset@)
        &&& Self::asset_ok(self.quote_asset@)
        &&& self.base_asset@ != self.quote_asset@
    }

    pub open spec fn spec_has_asset(&self, asset: Seq<char>) -> bool {
        asset == self.quote_asset@ || asset == self.base_asset@
    }

    pub fn new(idx: u32, symbol: String, base_asset: String, quote_asset: String, step: u64, fee: u64) -> (r: TradingPair)
        ensures
            r.idx == idx,
            r.symbol@ == symbol@,
            r.symbol_id@ == pair_text(base_asset@, quote_asset@),
            r.base_asset@ == base_asset@,
            r.quote_asset@ == quote_asset@,
            r.step == step,
            r.fee == fee,
            r.tick == Ticker::empty_spec(),
    {
        let symbol_id = join_assets(&base_asset, &quote_asset);
        TradingPair {
            idx,
            symbol,
            symbol_id,
            base_asset,
            quote_asset,
            step,
            tick: Ticker::empty(),
            fee,
        }
    }

    pub fn get_symbol(&self) -> (r: String)
        ensures
            r@ == self.symbol@,
    {
        self.symbol.clone()
    }

    pub fn get_symbol_id(&self) -> (r: String)
        ensures
            r@ == self.symbol_id@,
    {
        self.symbol_id.clone()
    }

    pub fn get_symbol_idx(&self) -> (r: u32)
        ensures
            r == self.idx,
    {
        self.idx
    }

    pub fn get_step(&self) -> (r: u64)
        ensures
            r == self.step,
    {
        self.step
    }

    pub fn quote(&self) -> (r: String)
        ensures
            r@ == self.quote_asset@,
    {
        self.quote_asset.clone()
    }

    pub fn base(&self) -> (r: String)
        ensures
            r@ == self.base_asset@,
    {
        self.base_asset.clone()
    }

    pub fn get_base_asset(&self) -> (r: String)
        ensures
            r@ == self.base_asset@,
    {
        self.base_asset.clone()
    }

    pub fn get_quote_asset(&self) -> (r: String)
        ensures
            r@ == self.quote_asset@,
    {
        self.quote_asset.clone()
    }

    pub fn has_asset(&self, asset: String) -> (r: bool)
        ensures
            r == self.spec_has_asset(asset@),
    {
        asset == self.quote_asset || asset == self.base_asset
    }

    /// The asset on the other side of `asset`, or the empty string when
    /// the pair does not hold `asset`.
    pub fn get_the_other(&self, asset: String) -> (r: String)
        ensures
            asset@ == self.quote_asset@ ==> r@ == self.base_asset@,
            asset@ != self.quote_asset@ && asset@ == self.base_asset@ ==> r@ == self.quote_asset@,
            !self.spec_has_asset(asset@) ==> r@.len() == 0,
    {
        if asset == self.quote_asset {
            self.base_asset.clone()
        } else if asset == self.base_asset {
            self.quote_asset.clone()
        } else {
            String::new()
        }
    }

    pub fn text(&self) -> (r: String)
        ensures
            r@ == pair_text(self.base_asset@, self.quote_asset@),
    {
        join_assets(&self.base_asset, &self.quote_asset)
    }

    /// Economic identity: the same unordered set of assets.
    pub open spec fn same_assets(&self, other: &TradingPair) -> bool {
        (other.quote_asset@ == self.quote_asset@ && other.base_asset@ == self.base_asset@)
            || (other.quote_asset@ == self.base_asset@ && other.base_asset@ == self.quote_asset@)
    }
}

impl PartialEq for TradingPair {
    fn eq(&self, other: &Self) -> (r: bool) {
        (other.quote_asset == self.quote_asset && other.base_asset == self.base_asset)
            || (other.quote_asset == self.base_asset && other.base_asset == self.quote_asset)
    }
}

impl vstd::std_specs::cmp::PartialEqSpecImpl for TradingPair {
    open spec fn obeys_eq_spec() -> bool {
        true
    }

    open spec fn eq_spec(&self, other: &TradingPair) -> bool {
        self.same_assets(other)
    }
}

} // verus!
