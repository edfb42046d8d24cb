use vstd::prelude::*;

use crate::decimal::{fixed_value, parse_fixed, point_at};
use crate::trading_pair::{pair_text, TradingPair};

verus! {

/// Trade direction of one leg: buy or sell the pair's base asset.
#[derive(Debug, Clone, Copy, PartialEq, Eq, Structural)]
pub enum Side {
    SideBuy,
    SideSell,
}

/// Best ask and best bid of one pair: index 0 is the price, index 1 the
/// quantity, both in units of 10^-8. A zero ask price means no quote yet.
#[derive(Debug, Clone, Copy)]
pub struct Ticker {
    pub idx: u32,
    pub ba: [u64; 2],
    pub bb: [u64; 2],
}

impl Ticker {
    pub open spec fn empty_spec() -> Ticker {
        Ticker { idx: 0, ba: [0u64, 0u64], bb: [0u64, 0u64] }
    }

    /// The quote that no tick has filled yet.
    pub fn empty() -> (r: Ticker)
        ensures
            r == Ticker::empty_spec(),
    {
        Ticker { idx: 0, ba: [0, 0], bb: [0, 0] }
    }
}

/// The decimal `s` reads as `v` units of 10^-8.
pub open spec fn reads_as(s: Seq<char>, v: u64) -> bool {
    exists|k: int| point_at(s, k) && v == fixed_value(s, k)
}

/// The decimal `s` reads as a value that fits in a `u64`.
pub open spec fn readable(s: Seq<char>) -> bool {
    exists|k: int| point_at(s, k) && fixed_value(s, k) <= u64::MAX
}

impl Ticker {
    /// The quote of pair id `idx` from the four decimals of a feed event.
    /// Each must be plain digits with at most eight after the point (the
    /// exchange's precision; no sign, no exponent) and fit in a `u64` once
    /// counted in units of 10^-8. `None` when one of them does not.
    pub fn from(idx: u32, best_ask: &str, best_ask_qty: &str, best_bid: &str, best_bid_qty: &str) -> (r: Option<Ticker>)
        ensures
            match r {
                Some(t) => {
                    &&& t.idx == idx
                    &&& reads_as(best_ask@, t.ba[0])
                    &&& reads_as(best_ask_qty@, t.ba[1])
                    &&& reads_as(best_bid@, t.bb[0])
                    &&& reads_as(best_bid_qty@, t.bb[1])
                },
                None => !(readable(best_ask@) && readable(best_ask_qty@) && readable(best_bid@) && readable(
                    best_bid_qty@,
                )),
            },
    {
        let a = parse_fixed(best_ask);
        let aq = parse_fixed(best_ask_qty);
        let b = parse_fixed(best_bid);
        let bq = parse_fixed(best_bid_qty);
        match (a, aq, b, bq) {
            (Some(a), Some(aq), Some(b), Some(bq)) => Some(Ticker { idx, ba: [a, aq], bb: [b, bq] }),
            _ => None,
        }
    }
}

/// Whether all three quotes have a best-ask price: a zero price means the
/// pair has not been quoted yet, and no profit is computed over it.
pub fn asks_ready(t0: &Ticker, t1: &Ticker, t2: &Ticker) -> (r: bool)
    ensures
        r == (t0.ba[0] != 0 && t1.ba[0] != 0 && t2.ba[0] != 0),
{
    t0.ba[0] != 0 && t1.ba[0] != 0 && t2.ba[0] != 0
}

impl Default for Ticker {
    fn default() -> (r: Ticker)
        ensures
            r == Ticker::empty_spec(),
    {
        Ticker::empty()
    }
}

/// Relies on string_join's `Join::join`: the items in order, with the
/// separator between each two of them.
#[verifier::external_body]
fn join_three(sep: &str, a: &String, b: &String, c: &String) -> (r: String)
    ensures
        r@ == a@ + sep@ + b@ + sep@ + c@,
{
    string_join::Join::join(&sep, [a.as_str(), b.as_str(), c.as_str()])
}

/// The name of a triangle: its three currencies joined by `-`.
pub open spec fn tri_name(a: Seq<char>, b: Seq<char>, c: Seq<char>) -> Seq<char> {
    a + seq!['-'] + b + seq!['-'] + c
}

/// A three-leg cycle: the coin it starts from, its name, the ids of the
/// pair it trades on each leg and the direction of each leg.
#[derive(Debug)]
pub struct TriPair {
    pub coin: String,
    pub name: String,
    pub dirs: [Side; 3],
    pub pairs: [u32; 3],
    pub pairs_name: [String; 3],
}

/// The bridge `c` can close a cycle that starts by buying on `a`: its
/// assets include the quote asset of `a`.
pub open spec fn bridge_fits(a: TradingPair, c: TradingPair) -> bool {
    a.quote_asset@ == c.quote_asset@ || a.quote_asset@ == c.base_asset@
}

/// Directions of the legs of a cycle over `a`, some pair and the bridge `c`.
pub open spec fn tri_dirs(a: TradingPair, c: TradingPair) -> [Side; 3] {
    if a.quote_asset@ == c.quote_asset@ {
        [Side::SideBuy, Side::SideSell, Side::SideSell]
    } else {
        [Side::SideBuy, Side::SideSell, Side::SideBuy]
    }
}

/// The currency the bridge leads to from the quote asset of `a`.
pub open spec fn bridge_far(a: TradingPair, c: TradingPair) -> Seq<char> {
    if a.quote_asset@ == c.quote_asset@ {
        c.base_asset@
    } else {
        c.quote_asset@
    }
}

impl TriPair {
    /// `self` is the cycle of `coin` that buys on `a`, sells on `b` and
    /// closes on the bridge `c`.
    pub open spec fn built_from(&self, coin: Seq<char>, a: TradingPair, b: TradingPair, c: TradingPair) -> bool {
        &&& self.coin@ == coin
        &&& self.pairs[0] == a.idx
        &&& self.pairs[1] == b.idx
        &&& self.pairs[2] == c.idx
        &&& self.dirs == tri_dirs(a, c)
        &&& self.name@ == tri_name(a.base_asset@, a.quote_asset@, bridge_far(a, c))
        &&& self.pairs_name[0]@ == pair_text(a.base_asset@, a.quote_asset@)
        &&& self.pairs_name[1]@ == pair_text(b.base_asset@, b.quote_asset@)
        &&& self.pairs_name[2]@ == pair_text(c.base_asset@, c.quote_asset@)
    }

    /// Builds the cycle over `pairs[0]`, `pairs[1]` and the bridge `pairs[2]`.
    pub fn new(coin: String, pairs: Vec<&TradingPair>) -> (r: TriPair)
        requires
            pairs@.len() == 3,
            bridge_fits(*pairs@[0], *pairs@[2]),
        ensures
            r.built_from(coin@, *pairs@[0], *pairs@[1], *pairs@[2]),
    {
        let a = pairs[0];
        let b = pairs[1];
        let c = pairs[2];
        let n_pairs: [u32; 3] = [a.get_symbol_idx(), b.get_symbol_idx(), c.get_symbol_idx()];
        let pairs_name: [String; 3] = [a.text(), b.text(), c.text()];
        let dirs: [Side; 3];
        let far: &String;
        if a.quote_asset == c.quote_asset {
            dirs = [Side::SideBuy, Side::SideSell, Side::SideSell];
            far = &c.base_asset;
        } else {
            dirs = [Side::SideBuy, Side::SideSell, Side::SideBuy];
            far = &c.quote_asset;
        }
        proof {
            reveal_strlit("-");
        }
        let name = join_three("-", &a.base_asset, &a.quote_asset, far);
        let r = TriPair { coin, name, dirs, pairs: n_pairs, pairs_name };
        assert(r.dirs == tri_dirs(*a, *c));
        assert(r.name@ == tri_name(a.base_asset@, a.quote_asset@, bridge_far(*a, *c)));
        r
    }
}


/// `p` trades `x` against `y`: its symbol text is `x/y`.
pub open spec fn connects(p: TradingPair, x: Seq<char>, y: Seq<char>) -> bool {
    p.base_asset@ == x && p.quote_asset@ == y
}

/// `p` trades `x` against `y` in one direction or the other.
pub open spec fn links(p: TradingPair, x: Seq<char>, y: Seq<char>) -> bool {
    connects(p, x, y) || connects(p, y, x)
}

/// `pairs[k]` links two currencies found at two positions of `base_quotes`.
pub open spec fn is_bridge(pairs: Seq<TradingPair>, base_quotes: Seq<String>, k: int) -> bool {
    &&& 0 <= k < pairs.len()
    &&& exists|a: int, b: int|
        0 <= a < b < base_quotes.len() && #[trigger] links(pairs[k], base_quotes[a]@, base_quotes[b]@)
}

/// Every id of `bridges` is an index of `pairs`.
pub open spec fn indices_in(bridges: Seq<usize>, n: int) -> bool {
    forall|m: int| 0 <= m < bridges.len() ==> #[trigger] bridges[m] < n
}

/// The first position at or after `m` of `pairs` whose text is `x/y`.
pub open spec fn first_pair(pairs: Seq<TradingPair>, x: Seq<char>, y: Seq<char>, m: int) -> Option<int>
    decreases pairs.len() - m,
{
    if m < 0 || m >= pairs.len() {
        None
    } else if connects(pairs[m], x, y) {
        Some(m)
    } else {
        first_pair(pairs, x, y, m + 1)
    }
}

/// The first id at or after position `m` of `ids` whose pair has text `x/y`.
pub open spec fn first_conn(pairs: Seq<TradingPair>, ids: Seq<usize>, x: Seq<char>, y: Seq<char>, m: int) -> Option<usize>
    decreases ids.len() - m,
{
    if m < 0 || m >= ids.len() {
        None
    } else if connects(pairs[ids[m] as int], x, y) {
        Some(ids[m])
    } else {
        first_conn(pairs, ids, x, y, m + 1)
    }
}

/// The bridge that closes a cycle from quote asset `x` to `y`: the first
/// listed `x/y`, else the first listed `y/x`.
pub open spec fn pick_bridge(pairs: Seq<TradingPair>, bridges: Seq<usize>, x: Seq<char>, y: Seq<char>) -> Option<usize> {
    match first_conn(pairs, bridges, x, y, 0) {
        Some(k) => Some(k),
        None => first_conn(pairs, bridges, y, x, 0),
    }
}

/// The first index of `pairs` whose symbol text is `x/y`.
fn find_pair(pairs: &Vec<TradingPair>, x: &String, y: &String) -> (r: Option<usize>)
    ensures
        match r {
            Some(k) => k < pairs@.len() && connects(pairs@[k as int], x@, y@),
            None => forall|k: int| 0 <= k < pairs@.len() ==> !connects(#[trigger] pairs@[k], x@, y@),
        },
        r == match first_pair(pairs@, x@, y@, 0) {
            Some(k) => Some(k as usize),
            None => None::<usize>,
        },
{
    let mut k: usize = 0;
    while k < pairs.len()
        invariant
            k <= pairs@.len(),
            first_pair(pairs@, x@, y@, 0) == first_pair(pairs@, x@, y@, k as int),
            forall|m: int| 0 <= m < k ==> !connects(#[trigger] pairs@[m], x@, y@),
        decreases pairs@.len() - k,
    {
        if pairs[k].base_asset == *x && pairs[k].quote_asset == *y {
            return Some(k);
        }
        k = k + 1;
    }
    None
}

/// The bridge registered for the currencies at positions `i` and `j` of
/// `base_quotes`: the first pair `c1/c2`, else the first pair `c2/c1`.
pub open spec fn bridge_choice(pairs: Seq<TradingPair>, base_quotes: Seq<String>, i: int, j: int) -> Option<int> {
    match first_pair(pairs, base_quotes[i]@, base_quotes[j]@, 0) {
        Some(k) => Some(k),
        None => first_pair(pairs, base_quotes[j]@, base_quotes[i]@, 0),
    }
}

/// The bridges registered for the positions `(i, j2)`, `i < j2 < j`, in order.
pub open spec fn bridge_row(pairs: Seq<TradingPair>, base_quotes: Seq<String>, i: int, j: int) -> Seq<usize>
    decreases j - i,
{
    if j <= i + 1 {
        Seq::empty()
    } else {
        let prev = bridge_row(pairs, base_quotes, i, j - 1);
        match bridge_choice(pairs, base_quotes, i, j - 1) {
            Some(k) => prev.push(k as usize),
            None => prev,
        }
    }
}

/// The bridges registered for all positions `(i2, j)` with `i2 < i`, in
/// lexicographic order: at most one for each two positions.
pub open spec fn bridge_rows(pairs: Seq<TradingPair>, base_quotes: Seq<String>, i: int) -> Seq<usize>
    decreases i,
{
    if i <= 0 {
        Seq::empty()
    } else {
        bridge_rows(pairs, base_quotes, i - 1) + bridge_row(pairs, base_quotes, i - 1, base_quotes.len() as int)
    }
}

proof fn lemma_bridge_step(bp: Seq<usize>, pairs: Seq<TradingPair>, base_quotes: Seq<String>, i: int, j: int, found: Option<usize>) -> (nb: Seq<usize>)
    requires
        0 <= i < j,
        bp == bridge_rows(pairs, base_quotes, i) + bridge_row(pairs, base_quotes, i, j),
        found == match bridge_choice(pairs, base_quotes, i, j) {
            Some(k) => Some(k as usize),
            None => None::<usize>,
        },
    ensures
        nb == match found {
            Some(k) => bp.push(k),
            None => bp,
        },
        nb == bridge_rows(pairs, base_quotes, i) + bridge_row(pairs, base_quotes, i, j + 1),
{
    let nb = match found {
        Some(k) => bp.push(k),
        None => bp,
    };
    assert(nb =~= bridge_rows(pairs, base_quotes, i) + bridge_row(pairs, base_quotes, i, j + 1));
    nb
}

/// For each two currencies at two positions of `base_quotes`, the index of
/// the pair `c1/c2`, or else of `c2/c1`, when the catalog has one.
fn get_bridge_pairs(pairs: &Vec<TradingPair>, base_quotes: &Vec<String>) -> (r: Vec<usize>)
    ensures
        r@ == bridge_rows(pairs@, base_quotes@, base_quotes@.len() as int),
        bridges_sound(pairs@, base_quotes@, r@),
        bridges_complete(pairs@, base_quotes@, r@),
{
    let mut bp: Vec<usize> = Vec::new();
    let l = base_quotes.len();
    let mut i: usize = 0;
    while i < l
        invariant
            l == base_quotes@.len(),
            i <= l,
            bp@ == bridge_rows(pairs@, base_quotes@, i as int),
            indices_in(bp@, pairs@.len() as int),
            forall|m: int| 0 <= m < bp@.len() ==> is_bridge(pairs@, base_quotes@, #[trigger] bp@[m] as int),
            forall|a: int, b: int, k: int|
                0 <= a < i && a < b < l && 0 <= k < pairs@.len()
                    && #[trigger] links(pairs@[k], base_quotes@[a]@, base_quotes@[b]@) ==> exists|m: int|
                    0 <= m < bp@.len() && #[trigger] links(
                        pairs@[bp@[m] as int],
                        base_quotes@[a]@,
                        base_quotes@[b]@,
                    ),
        decreases l - i,
    {
        let mut j: usize = i + 1;
        assert(bp@ =~= bridge_rows(pairs@, base_quotes@, i as int) + bridge_row(pairs@, base_quotes@, i as int, j as int));
        while j < l
            invariant
                l == base_quotes@.len(),
                i < l,
                i + 1 <= j <= l,
                bp@ == bridge_rows(pairs@, base_quotes@, i as int) + bridge_row(pairs@, base_quotes@, i as int, j as int),
                indices_in(bp@, pairs@.len() as int),
                forall|m: int| 0 <= m < bp@.len() ==> is_bridge(pairs@, base_quotes@, #[trigger] bp@[m] as int),
                forall|a: int, b: int, k: int|
                    ((0 <= a < i && a < b < l) || (a == i && i < b < j)) && 0 <= k < pairs@.len()
                        && #[trigger] links(pairs@[k], base_quotes@[a]@, base_quotes@[b]@) ==> exists|m: int|
                        0 <= m < bp@.len() && #[trigger] links(
                            pairs@[bp@[m] as int],
                            base_quotes@[a]@,
                            base_quotes@[b]@,
                        ),
            decreases l - j,
        {
            let t1 = &base_quotes[i];
            let t2 = &base_quotes[j];
            let found = match find_pair(pairs, t1, t2) {
                Some(k) => Some(k),
                None => find_pair(pairs, t2, t1),
            };
            let ghost old_bp = bp@;
            let ghost nb = lemma_bridge_step(old_bp, pairs@, base_quotes@, i as int, j as int, found);
            if let Some(k) = found {
                assert(links(pairs@[k as int], base_quotes@[i as int]@, base_quotes@[j as int]@));
                bp.push(k);
                assert(bp@[old_bp.len() as int] == k);
                assert forall|a: int, b: int, k2: int|
                    ((0 <= a < i && a < b < l) || (a == i && i < b < j + 1)) && 0 <= k2 < pairs@.len()
                        && #[trigger] links(pairs@[k2], base_quotes@[a]@, base_quotes@[b]@) implies exists|m: int|
                        0 <= m < bp@.len() && #[trigger] links(
                            pairs@[bp@[m] as int],
                            base_quotes@[a]@,
                            base_quotes@[b]@,
                        ) by {
                    if a == i && b == j {
                        assert(links(pairs@[bp@[old_bp.len() as int] as int], base_quotes@[a]@, base_quotes@[b]@));
                    } else {
                        let m = choose|m: int|
                            0 <= m < old_bp.len() && #[trigger] links(
                                pairs@[old_bp[m] as int],
                                base_quotes@[a]@,
                                base_quotes@[b]@,
                            );
                        assert(bp@[m] == old_bp[m]);
                    }
                }
            }
            assert(bp@ == nb);
            j = j + 1;
        }
        assert(bp@ =~= bridge_rows(pairs@, base_quotes@, i + 1));
        i = i + 1;
    }
    proof {
        reveal(bridges_sound);
        reveal(bridges_complete);
    }
    bp
}

/// The bridge among `bridges` whose text is `x/y`, or else `y/x`.
fn find_bridge(pairs: &Vec<TradingPair>, bridges: &Vec<usize>, x: &String, y: &String) -> (r: Option<usize>)
    requires
        indices_in(bridges@, pairs@.len() as int),
    ensures
        match r {
            Some(k) => bridges@.contains(k) && links(pairs@[k as int], x@, y@),
            None => forall|m: int| 0 <= m < bridges@.len() ==> !links(#[trigger] pairs@[bridges@[m] as int], x@, y@),
        },
        r == pick_bridge(pairs@, bridges@, x@, y@),
{
    let mut m: usize = 0;
    while m < bridges.len()
        invariant
            m <= bridges@.len(),
            indices_in(bridges@, pairs@.len() as int),
            first_conn(pairs@, bridges@, x@, y@, 0) == first_conn(pairs@, bridges@, x@, y@, m as int),
            forall|n: int| 0 <= n < m ==> !connects(#[trigger] pairs@[bridges@[n] as int], x@, y@),
        decreases bridges@.len() - m,
    {
        let k = bridges[m];
        if pairs[k].base_asset == *x && pairs[k].quote_asset == *y {
            return Some(k);
        }
        m = m + 1;
    }
    let mut m: usize = 0;
    while m < bridges.len()
        invariant
            m <= bridges@.len(),
            indices_in(bridges@, pairs@.len() as int),
            forall|n: int| 0 <= n < bridges@.len() ==> !connects(#[trigger] pairs@[bridges@[n] as int], x@, y@),
            forall|n: int| 0 <= n < m ==> !connects(#[trigger] pairs@[bridges@[n] as int], y@, x@),
            first_conn(pairs@, bridges@, x@, y@, 0) is None,
            first_conn(pairs@, bridges@, y@, x@, 0) == first_conn(pairs@, bridges@, y@, x@, m as int),
        decreases bridges@.len() - m,
    {
        let k = bridges[m];
        if pairs[k].base_asset == *y && pairs[k].quote_asset == *x {
            return Some(k);
        }
        m = m + 1;
    }
    None
}


/// Positions `i < j` of two pairs of `coin` whose quote assets the bridge
/// `pairs[k]`, one of `bridges`, links.
pub open spec fn coin_combo(pairs: Seq<TradingPair>, bridges: Seq<usize>, coin: Seq<char>, i: int, j: int, k: int) -> bool {
    &&& 0 <= i < j < pairs.len()
    &&& pairs[i].base_asset@ == coin
    &&& pairs[j].base_asset@ == coin
    &&& 0 <= k < pairs.len()
    &&& exists|m: int| 0 <= m < bridges.len() && #[trigger] bridges[m] as int == k
    &&& links(pairs[k], pairs[i].quote_asset@, pairs[j].quote_asset@)
}

/// `t` is the cycle of `coin` over some combination of `pairs` and `bridges`.
pub open spec fn made_of(t: TriPair, pairs: Seq<TradingPair>, bridges: Seq<usize>, coin: Seq<char>) -> bool {
    exists|i: int, j: int, k: int|
        coin_combo(pairs, bridges, coin, i, j, k) && #[trigger] t.built_from(coin, pairs[i], pairs[j], pairs[k])
}

/// The bridge that closes the cycle of `coin` over `pairs[i]` and `pairs[j]`,
/// when both are pairs of `coin` and some listed bridge fits.
pub open spec fn combo_at(pairs: Seq<TradingPair>, bridges: Seq<usize>, coin: Seq<char>, i: int, j: int) -> Option<usize> {
    if pairs[i].base_asset@ == coin && pairs[j].base_asset@ == coin {
        pick_bridge(pairs, bridges, pairs[i].quote_asset@, pairs[j].quote_asset@)
    } else {
        None
    }
}

/// The combinations `(i, j2, k)` of `coin` with `i < j2 < j`, in order.
pub open spec fn coin_row(pairs: Seq<TradingPair>, bridges: Seq<usize>, coin: Seq<char>, i: int, j: int) -> Seq<(int, int, int)>
    decreases j - i,
{
    if j <= i + 1 {
        Seq::empty()
    } else {
        let prev = coin_row(pairs, bridges, coin, i, j - 1);
        match combo_at(pairs, bridges, coin, i, j - 1) {
            Some(k) => prev.push((i, j - 1, k as int)),
            None => prev,
        }
    }
}

/// The combinations `(i2, j, k)` of `coin` with `i2 < i`, in lexicographic
/// order of `(i2, j)`.
pub open spec fn coin_rows(pairs: Seq<TradingPair>, bridges: Seq<usize>, coin: Seq<char>, i: int) -> Seq<(int, int, int)>
    decreases i,
{
    if i <= 0 {
        Seq::empty()
    } else {
        coin_rows(pairs, bridges, coin, i - 1) + coin_row(pairs, bridges, coin, i - 1, pairs.len() as int)
    }
}

/// `v` is, cycle by cycle, the cycle of `coin` built from the combinations `c`.
pub open spec fn built_seq(v: Seq<TriPair>, pairs: Seq<TradingPair>, coin: Seq<char>, c: Seq<(int, int, int)>) -> bool {
    &&& v.len() == c.len()
    &&& forall|t: int| 0 <= t < v.len() ==> (#[trigger] v[t]).built_from(coin, pairs[c[t].0], pairs[c[t].1], pairs[c[t].2])
}

proof fn lemma_built_push(
    v: Seq<TriPair>,
    x: TriPair,
    pairs: Seq<TradingPair>,
    coin: Seq<char>,
    a: Seq<(int, int, int)>,
    b: Seq<(int, int, int)>,
    e: (int, int, int),
)
    requires
        built_seq(v, pairs, coin, a + b),
        x.built_from(coin, pairs[e.0], pairs[e.1], pairs[e.2]),
    ensures
        built_seq(v.push(x), pairs, coin, a + b.push(e)),
{
    let c = a + b.push(e);
    assert(c =~= (a + b).push(e));
    assert forall|t: int| 0 <= t < v.len() + 1 implies (#[trigger] v.push(x)[t]).built_from(coin, pairs[c[t].0], pairs[c[t].1], pairs[c[t].2]) by {
        if t < v.len() {
            assert(v.push(x)[t] == v[t]);
            assert(c[t] == (a + b)[t]);
        }
    }
}

proof fn lemma_coin_row_empty(pairs: Seq<TradingPair>, bridges: Seq<usize>, coin: Seq<char>, i: int, j: int)
    requires
        0 <= i < pairs.len(),
        pairs[i].base_asset@ != coin,
    ensures
        coin_row(pairs, bridges, coin, i, j) == Seq::<(int, int, int)>::empty(),
    decreases j - i,
{
    if j > i + 1 {
        lemma_coin_row_empty(pairs, bridges, coin, i, j - 1);
    }
}

/// `t` is the cycle of `coin` over a combination whose positions come
/// before `(i, j)` in lexicographic order.
pub open spec fn made_before(t: TriPair, pairs: Seq<TradingPair>, bridges: Seq<usize>, coin: Seq<char>, i: int, j: int) -> bool {
    exists|i2: int, j2: int, k: int|
        coin_combo(pairs, bridges, coin, i2, j2, k) && (i2 < i || (i2 == i && j2 < j)) && #[trigger] t.built_from(
            coin,
            pairs[i2],
            pairs[j2],
            pairs[k],
        )
}

/// No two pairs of the catalog share an id.
pub open spec fn ids_unique(pairs: Seq<TradingPair>) -> bool {
    forall|n: int, m: int| 0 <= n < m < pairs.len() ==> #[trigger] pairs[n].idx != #[trigger] pairs[m].idx
}

/// No two cycles of `v` buy and sell on the same two pairs.
pub open spec fn no_repeat(v: Seq<TriPair>) -> bool {
    forall|t1: int, t2: int|
        0 <= t1 < t2 < v.len() ==> (#[trigger] v[t1]).pairs[0] != (#[trigger] v[t2]).pairs[0] || v[t1].pairs[1]
            != v[t2].pairs[1]
}

proof fn lemma_made_before_weaken(
    t: TriPair,
    pairs: Seq<TradingPair>,
    bridges: Seq<usize>,
    coin: Seq<char>,
    i: int,
    j: int,
    i2: int,
    j2: int,
)
    requires
        made_before(t, pairs, bridges, coin, i, j),
        i < i2 || (i == i2 && j <= j2),
    ensures
        made_before(t, pairs, bridges, coin, i2, j2),
        made_of(t, pairs, bridges, coin),
{
    let (a, b, k) = choose|a: int, b: int, k: int|
        coin_combo(pairs, bridges, coin, a, b, k) && (a < i || (a == i && b < j)) && #[trigger] t.built_from(
            coin,
            pairs[a],
            pairs[b],
            pairs[k],
        );
    assert(t.built_from(coin, pairs[a], pairs[b], pairs[k]));
}

proof fn lemma_push_no_repeat(
    v: Seq<TriPair>,
    x: TriPair,
    pairs: Seq<TradingPair>,
    bridges: Seq<usize>,
    coin: Seq<char>,
    i: int,
    j: int,
    k: int,
)
    requires
        ids_unique(pairs),
        no_repeat(v),
        forall|t: int| 0 <= t < v.len() ==> made_before(#[trigger] v[t], pairs, bridges, coin, i, j),
        coin_combo(pairs, bridges, coin, i, j, k),
        x.built_from(coin, pairs[i], pairs[j], pairs[k]),
    ensures
        no_repeat(v.push(x)),
{
    let w = v.push(x);
    assert forall|t1: int, t2: int|
        0 <= t1 < t2 < w.len() implies (#[trigger] w[t1]).pairs[0] != (#[trigger] w[t2]).pairs[0] || w[t1].pairs[1]
            != w[t2].pairs[1] by {
        if t2 == v.len() {
            assert(w[t1] == v[t1]);
            assert(made_before(v[t1], pairs, bridges, coin, i, j));
            let (a, b, c) = choose|a: int, b: int, c: int|
                coin_combo(pairs, bridges, coin, a, b, c) && (a < i || (a == i && b < j)) && #[trigger] v[t1].built_from(
                    coin,
                    pairs[a],
                    pairs[b],
                    pairs[c],
                );
            if a != i {
                if a < i {
                    assert(pairs[a].idx != pairs[i].idx);
                } else {
                    assert(pairs[i].idx != pairs[a].idx);
                }
            } else {
                if b < j {
                    assert(pairs[b].idx != pairs[j].idx);
                }
            }
        } else {
            assert(w[t1] == v[t1]);
            assert(w[t2] == v[t2]);
        }
    }
}

/// Some cycle of `v` is the one of `coin` over `pairs[i]` and `pairs[j]`.
pub open spec fn found_in(v: Seq<TriPair>, pairs: Seq<TradingPair>, bridges: Seq<usize>, coin: Seq<char>, i: int, j: int) -> bool {
    exists|t: int, k: int|
        0 <= t < v.len() && coin_combo(pairs, bridges, coin, i, j, k) && #[trigger] v[t].built_from(
            coin,
            pairs[i],
            pairs[j],
            pairs[k],
        )
}

proof fn lemma_found_in_grows(
    v: Seq<TriPair>,
    w: Seq<TriPair>,
    pairs: Seq<TradingPair>,
    bridges: Seq<usize>,
    coin: Seq<char>,
    i: int,
    j: int,
)
    requires
        found_in(v, pairs, bridges, coin, i, j),
        v.len() <= w.len(),
        forall|t: int| 0 <= t < v.len() ==> w[t] == v[t],
    ensures
        found_in(w, pairs, bridges, coin, i, j),
{
    let (t, k) = choose|t: int, k: int|
        0 <= t < v.len() && coin_combo(pairs, bridges, coin, i, j, k) && #[trigger] v[t].built_from(
            coin,
            pairs[i],
            pairs[j],
            pairs[k],
        );
    assert(w[t].built_from(coin, pairs[i], pairs[j], pairs[k]));
}

/// The state of the scan of `find_coin_tri_pairs` before `(i, j)`.
#[verifier::opaque]
pub open spec fn coin_scan(v: Seq<TriPair>, pairs: Seq<TradingPair>, bridges: Seq<usize>, coin: Seq<char>, i: int, j: int) -> bool {
    &&& forall|t: int| 0 <= t < v.len() ==> made_before(#[trigger] v[t], pairs, bridges, coin, i, j)
    &&& ids_unique(pairs) ==> no_repeat(v)
    &&& forall|i2: int, j2: int, k: int|
        (i2 < i || (i2 == i && j2 < j)) && #[trigger] coin_combo(pairs, bridges, coin, i2, j2, k) ==> found_in(
            v,
            pairs,
            bridges,
            coin,
            i2,
            j2,
        )
}

proof fn lemma_coin_step_push(
    v: Seq<TriPair>,
    x: TriPair,
    pairs: Seq<TradingPair>,
    bridges: Seq<usize>,
    coin: Seq<char>,
    i: int,
    j: int,
    k: int,
)
    requires
        coin_scan(v, pairs, bridges, coin, i, j),
        coin_combo(pairs, bridges, coin, i, j, k),
        x.built_from(coin, pairs[i], pairs[j], pairs[k]),
    ensures
        coin_scan(v.push(x), pairs, bridges, coin, i, j + 1),
{
    reveal(coin_scan);
    let w = v.push(x);
    if ids_unique(pairs) {
        lemma_push_no_repeat(v, x, pairs, bridges, coin, i, j, k);
    }
    assert forall|t: int| 0 <= t < w.len() implies made_before(#[trigger] w[t], pairs, bridges, coin, i, j + 1) by {
        if t < v.len() {
            assert(w[t] == v[t]);
            lemma_made_before_weaken(v[t], pairs, bridges, coin, i, j, i, j + 1);
        } else {
            assert(w[t].built_from(coin, pairs[i], pairs[j], pairs[k]));
        }
    }
    assert forall|i2: int, j2: int, k2: int|
        (i2 < i || (i2 == i && j2 < j + 1)) && #[trigger] coin_combo(pairs, bridges, coin, i2, j2, k2) implies found_in(
            w,
            pairs,
            bridges,
            coin,
            i2,
            j2,
        ) by {
        if i2 == i && j2 == j {
            assert(w[v.len() as int].built_from(coin, pairs[i], pairs[j], pairs[k]));
        } else {
            lemma_found_in_grows(v, w, pairs, bridges, coin, i2, j2);
        }
    }
}

proof fn lemma_coin_step_skip(v: Seq<TriPair>, pairs: Seq<TradingPair>, bridges: Seq<usize>, coin: Seq<char>, i: int, j: int)
    requires
        coin_scan(v, pairs, bridges, coin, i, j),
        forall|k: int| !coin_combo(pairs, bridges, coin, i, j, k),
    ensures
        coin_scan(v, pairs, bridges, coin, i, j + 1),
{
    reveal(coin_scan);
    assert forall|t: int| 0 <= t < v.len() implies made_before(#[trigger] v[t], pairs, bridges, coin, i, j + 1) by {
        lemma_made_before_weaken(v[t], pairs, bridges, coin, i, j, i, j + 1);
    }
}

/// All cycles of `coin`: for each two pairs of `coin`, in catalog order,
/// whose quote assets a bridge links, the cycle that buys on the first,
/// sells on the second and closes on the bridge. `None` when there is none.
pub fn find_coin_tri_pairs(coin: &str, pairs: &Vec<TradingPair>, bridges: &Vec<usize>) -> (r: Option<Vec<TriPair>>)
    requires
        indices_in(bridges@, pairs@.len() as int),
    ensures
        match r {
            Some(v) => {
                &&& built_seq(v@, pairs@, coin@, coin_rows(pairs@, bridges@, coin@, pairs@.len() as int))
                &&& v@.len() > 0
                &&& forall|t: int| 0 <= t < v@.len() ==> made_of(#[trigger] v@[t], pairs@, bridges@, coin@)
                &&& ids_unique(pairs@) ==> no_repeat(v@)
                &&& forall|i: int, j: int, k: int|
                    #[trigger] coin_combo(pairs@, bridges@, coin@, i, j, k) ==> found_in(
                        v@,
                        pairs@,
                        bridges@,
                        coin@,
                        i,
                        j,
                    )
            },
            None => {
                &&& coin_rows(pairs@, bridges@, coin@, pairs@.len() as int).len() == 0
                &&& forall|i: int, j: int, k: int| !#[trigger] coin_combo(pairs@, bridges@, coin@, i, j, k)
            },
        },
{
    let pairs_len = pairs.len();
    let mut tri_pairs: Vec<TriPair> = Vec::new();
    let coin_s = String::from_str(coin);
    let mut i: usize = 0;
    while i < pairs_len
        invariant
            pairs_len == pairs@.len(),
            i <= pairs_len,
            built_seq(tri_pairs@, pairs@, coin@, coin_rows(pairs@, bridges@, coin@, i as int)),
            coin_s@ == coin@,
            indices_in(bridges@, pairs@.len() as int),
            forall|t: int| 0 <= t < tri_pairs@.len() ==> made_before(#[trigger] tri_pairs@[t], pairs@, bridges@, coin@, i as int, 0),
            ids_unique(pairs@) ==> no_repeat(tri_pairs@),
            forall|i2: int, j: int, k: int|
                i2 < i && #[trigger] coin_combo(pairs@, bridges@, coin@, i2, j, k) ==> found_in(
                    tri_pairs@,
                    pairs@,
                    bridges@,
                    coin@,
                    i2,
                    j,
                ),
        decreases pairs_len - i,
    {
        let pair_a = &pairs[i];
        if pair_a.base_asset == coin_s {
            let mut j: usize = i + 1;
            proof {
                assert(coin_rows(pairs@, bridges@, coin@, i as int) + coin_row(pairs@, bridges@, coin@, i as int, j as int)
                    =~= coin_rows(pairs@, bridges@, coin@, i as int));
                reveal(coin_scan);
                assert forall|t: int| 0 <= t < tri_pairs@.len() implies made_before(#[trigger] tri_pairs@[t], pairs@, bridges@, coin@, i as int, j as int) by {
                    lemma_made_before_weaken(tri_pairs@[t], pairs@, bridges@, coin@, i as int, 0, i as int, j as int);
                }
            }
            while j < pairs_len
                invariant
                    pairs_len == pairs@.len(),
                    i < pairs_len,
                    i + 1 <= j <= pairs_len,
                    coin_s@ == coin@,
                    *pair_a == pairs@[i as int],
                    pair_a.base_asset@ == coin@,
                    indices_in(bridges@, pairs@.len() as int),
                    coin_scan(tri_pairs@, pairs@, bridges@, coin@, i as int, j as int),
                    built_seq(
                        tri_pairs@,
                        pairs@,
                        coin@,
                        coin_rows(pairs@, bridges@, coin@, i as int) + coin_row(pairs@, bridges@, coin@, i as int, j as int),
                    ),
                decreases pairs_len - j,
            {
                let pair_b = &pairs[j];
                let ghost old_v = tri_pairs@;
                if pair_b.base_asset == coin_s {
                    if let Some(k) = find_bridge(pairs, bridges, &pair_a.quote_asset, &pair_b.quote_asset) {
                        let cs = &pairs[k];
                        let tp = TriPair::new(coin_s.clone(), vec![pair_a, pair_b, cs]);
                        tri_pairs.push(tp);
                        proof {
                            lemma_coin_step_push(old_v, tp, pairs@, bridges@, coin@, i as int, j as int, k as int);
                            assert(combo_at(pairs@, bridges@, coin@, i as int, j as int) == Some(k));
                            lemma_built_push(
                                old_v,
                                tp,
                                pairs@,
                                coin@,
                                coin_rows(pairs@, bridges@, coin@, i as int),
                                coin_row(pairs@, bridges@, coin@, i as int, j as int),
                                (i as int, j as int, k as int),
                            );
                            assert(coin_row(pairs@, bridges@, coin@, i as int, j + 1) == coin_row(
                                pairs@,
                                bridges@,
                                coin@,
                                i as int,
                                j as int,
                            ).push((i as int, j as int, k as int)));
                        }
                    } else {
                        proof {
                            assert forall|k2: int| !coin_combo(pairs@, bridges@, coin@, i as int, j as int, k2) by {
                                if coin_combo(pairs@, bridges@, coin@, i as int, j as int, k2) {
                                    let m = choose|m: int| 0 <= m < bridges@.len() && #[trigger] bridges@[m] as int == k2;
                                    assert(!links(pairs@[bridges@[m] as int], pair_a.quote_asset@, pair_b.quote_asset@));
                                }
                            }
                            lemma_coin_step_skip(old_v, pairs@, bridges@, coin@, i as int, j as int);
                            assert(coin_row(pairs@, bridges@, coin@, i as int, j + 1) == coin_row(pairs@, bridges@, coin@, i as int, j as int));
                        }
                    }
                } else {
                    proof {
                        lemma_coin_step_skip(old_v, pairs@, bridges@, coin@, i as int, j as int);
                        assert(coin_row(pairs@, bridges@, coin@, i as int, j + 1) == coin_row(pairs@, bridges@, coin@, i as int, j as int));
                    }
                }
                j = j + 1;
            }
        }
        proof {
            if pair_a.base_asset@ != coin@ {
                lemma_coin_row_empty(pairs@, bridges@, coin@, i as int, pairs_len as int);
            }
            assert(coin_rows(pairs@, bridges@, coin@, i + 1) =~= coin_rows(pairs@, bridges@, coin@, i as int) + coin_row(
                pairs@,
                bridges@,
                coin@,
                i as int,
                pairs_len as int,
            ));
            reveal(coin_scan);
            assert forall|t: int| 0 <= t < tri_pairs@.len() implies made_before(#[trigger] tri_pairs@[t], pairs@, bridges@, coin@, i + 1, 0) by {
                if pair_a.base_asset@ == coin@ {
                    lemma_made_before_weaken(tri_pairs@[t], pairs@, bridges@, coin@, i as int, pairs_len as int, i + 1, 0);
                } else {
                    lemma_made_before_weaken(tri_pairs@[t], pairs@, bridges@, coin@, i as int, 0, i + 1, 0);
                }
            }
        }
        i = i + 1;
    }
    proof {
        assert forall|t: int| 0 <= t < tri_pairs@.len() implies made_of(#[trigger] tri_pairs@[t], pairs@, bridges@, coin@) by {
            lemma_made_before_weaken(tri_pairs@[t], pairs@, bridges@, coin@, i as int, 0, i as int, 0);
        }
    }
    if tri_pairs.len() == 0 {
        assert forall|i2: int, j: int, k: int| !#[trigger] coin_combo(pairs@, bridges@, coin@, i2, j, k) by {
            if coin_combo(pairs@, bridges@, coin@, i2, j, k) {
                assert(found_in(tri_pairs@, pairs@, bridges@, coin@, i2, j));
            }
        }
        return None;
    }
    Some(tri_pairs)
}


/// Some entry of `coins` is `coin`.
pub open spec fn lists(coins: Seq<String>, coin: Seq<char>) -> bool {
    exists|n: int| 0 <= n < coins.len() && #[trigger] coins[n]@ == coin
}

pub open spec fn spec_has_coin(coins: Option<Vec<String>>, coin: Seq<char>) -> bool {
    match coins {
        None => false,
        Some(v) => lists(v@, coin),
    }
}

/// Whether the optional list `coins` is present and names `coin`.
pub fn vec_has_coin(coins: &Option<Vec<String>>, coin: &String) -> (r: bool)
    ensures
        r == spec_has_coin(*coins, coin@),
{
    match coins.as_ref() {
        None => false,
        Some(v) => {
            let mut n: usize = 0;
            while n < v.len()
                invariant
                    n <= v@.len(),
                    spec_has_coin(*coins, coin@) == lists(v@, coin@),
                    forall|m: int| 0 <= m < n ==> #[trigger] v@[m]@ != coin@,
                decreases v@.len() - n,
            {
                if v[n] == *coin {
                    assert(v@[n as int]@ == coin@);
                    return true;
                }
                n = n + 1;
            }
            false
        },
    }
}

/// The allow-list, when given, names `coin`, and the deny-list, when given,
/// does not.
pub open spec fn coin_allowed(allow: Option<Vec<String>>, deny: Option<Vec<String>>, coin: Seq<char>) -> bool {
    &&& (allow is Some ==> spec_has_coin(allow, coin))
    &&& !(deny is Some && spec_has_coin(deny, coin))
}

/// Positions `i < j` of two pairs of `coin` whose quote assets the bridge
/// `pairs[k]` links, `pairs[k]` linking two currencies of `base_quotes`.
pub open spec fn tri_combo(pairs: Seq<TradingPair>, base_quotes: Seq<String>, coin: Seq<char>, i: int, j: int, k: int) -> bool {
    &&& 0 <= i < j < pairs.len()
    &&& pairs[i].base_asset@ == coin
    &&& pairs[j].base_asset@ == coin
    &&& is_bridge(pairs, base_quotes, k)
    &&& links(pairs[k], pairs[i].quote_asset@, pairs[j].quote_asset@)
}

/// `t` is a cycle over a combination of `pairs` with a bridge of `base_quotes`.
pub open spec fn derived_from(t: TriPair, pairs: Seq<TradingPair>, base_quotes: Seq<String>) -> bool {
    exists|i: int, j: int, k: int|
        tri_combo(pairs, base_quotes, t.coin@, i, j, k) && #[trigger] t.built_from(
            t.coin@,
            pairs[i],
            pairs[j],
            pairs[k],
        )
}

/// Some cycle of `v` is the one over `pairs[i]`, `pairs[j]` and a bridge.
pub open spec fn derived_in(v: Seq<TriPair>, pairs: Seq<TradingPair>, base_quotes: Seq<String>, i: int, j: int) -> bool {
    exists|t: int, k: int|
        0 <= t < v.len() && tri_combo(pairs, base_quotes, pairs[i].base_asset@, i, j, k)
            && #[trigger] v[t].built_from(pairs[i].base_asset@, pairs[i], pairs[j], pairs[k])
}

/// Every pair has usable, distinct assets and no two pairs share an id.
pub open spec fn catalog_wf(pairs: Seq<TradingPair>) -> bool {
    &&& forall|n: int| 0 <= n < pairs.len() ==> (#[trigger] pairs[n]).wf()
    &&& forall|n: int, m: int| 0 <= n < m < pairs.len() ==> #[trigger] pairs[n].idx != #[trigger] pairs[m].idx
}

/// The three ids of `t` differ; the pairs with the first two ids hold the
/// coin and the pair with the third does not.
pub open spec fn legs_hold_coin(t: TriPair, pairs: Seq<TradingPair>) -> bool {
    &&& t.pairs[0] != t.pairs[1] && t.pairs[0] != t.pairs[2] && t.pairs[1] != t.pairs[2]
    &&& forall|n: int|
        0 <= n < pairs.len() ==> {
            &&& (#[trigger] pairs[n].idx == t.pairs[0] ==> pairs[n].spec_has_asset(t.coin@))
            &&& (pairs[n].idx == t.pairs[1] ==> pairs[n].spec_has_asset(t.coin@))
            &&& (pairs[n].idx == t.pairs[2] ==> !pairs[n].spec_has_asset(t.coin@))
        }
}

/// The bridges of `tri_combo` are the listed ones.
proof fn lemma_bridge_listed(pairs: Seq<TradingPair>, base_quotes: Seq<String>, bridges: Seq<usize>, i: int, j: int, k: int)
    requires
        bridges_sound(pairs, base_quotes, bridges),
        bridges_complete(pairs, base_quotes, bridges),
        tri_combo(pairs, base_quotes, pairs[i].base_asset@, i, j, k),
    ensures
        exists|m: int|
            0 <= m < bridges.len() && coin_combo(pairs, bridges, pairs[i].base_asset@, i, j, #[trigger] bridges[m] as int),
{
    reveal(bridges_sound);
    reveal(bridges_complete);
    let (a, b) = choose|a: int, b: int|
        0 <= a < b < base_quotes.len() && #[trigger] links(pairs[k], base_quotes[a]@, base_quotes[b]@);
    let m = choose|m: int|
        0 <= m < bridges.len() && #[trigger] links(pairs[bridges[m] as int], base_quotes[a]@, base_quotes[b]@);
    assert(coin_combo(pairs, bridges, pairs[i].base_asset@, i, j, bridges[m] as int));
}

proof fn lemma_combo_found(
    pairs: Seq<TradingPair>,
    base_quotes: Seq<String>,
    bridges: Seq<usize>,
    coin: Seq<char>,
    fv: Seq<TriPair>,
    i: int,
    j: int,
    k: int,
)
    requires
        bridges_sound(pairs, base_quotes, bridges),
        bridges_complete(pairs, base_quotes, bridges),
        forall|i: int, j: int, k: int|
            #[trigger] coin_combo(pairs, bridges, coin, i, j, k) ==> found_in(fv, pairs, bridges, coin, i, j),
        coin == pairs[i].base_asset@,
        tri_combo(pairs, base_quotes, coin, i, j, k),
    ensures
        found_in(fv, pairs, bridges, coin, i, j),
{
    lemma_bridge_listed(pairs, base_quotes, bridges, i, j, k);
    let m = choose|m: int|
        0 <= m < bridges.len() && coin_combo(pairs, bridges, pairs[i].base_asset@, i, j, #[trigger] bridges[m] as int);
    assert(coin_combo(pairs, bridges, coin, i, j, bridges[m] as int));
}

proof fn lemma_made_of_derived(t: TriPair, pairs: Seq<TradingPair>, base_quotes: Seq<String>, bridges: Seq<usize>, coin: Seq<char>)
    requires
        bridges_sound(pairs, base_quotes, bridges),
        made_of(t, pairs, bridges, coin),
    ensures
        derived_from(t, pairs, base_quotes),
        t.coin@ == coin,
{
    reveal(bridges_sound);
    let (i, j, k) = choose|i: int, j: int, k: int|
        coin_combo(pairs, bridges, coin, i, j, k) && #[trigger] t.built_from(coin, pairs[i], pairs[j], pairs[k]);
    let m = choose|m: int| 0 <= m < bridges.len() && #[trigger] bridges[m] as int == k;
    assert(is_bridge(pairs, base_quotes, bridges[m] as int));
    assert(tri_combo(pairs, base_quotes, t.coin@, i, j, k));
}

proof fn lemma_found_derived(
    old_v: Seq<TriPair>,
    fv: Seq<TriPair>,
    pairs: Seq<TradingPair>,
    base_quotes: Seq<String>,
    bridges: Seq<usize>,
    i: int,
    j: int,
)
    requires
        bridges_sound(pairs, base_quotes, bridges),
        found_in(fv, pairs, bridges, pairs[i].base_asset@, i, j),
    ensures
        derived_in(old_v + fv, pairs, base_quotes, i, j),
{
    reveal(bridges_sound);
    let coin = pairs[i].base_asset@;
    let (t, k) = choose|t: int, k: int|
        0 <= t < fv.len() && coin_combo(pairs, bridges, coin, i, j, k) && #[trigger] fv[t].built_from(
            coin,
            pairs[i],
            pairs[j],
            pairs[k],
        );
    let m = choose|m: int| 0 <= m < bridges.len() && #[trigger] bridges[m] as int == k;
    assert(is_bridge(pairs, base_quotes, bridges[m] as int));
    assert(tri_combo(pairs, base_quotes, coin, i, j, k));
    assert((old_v + fv)[old_v.len() + t] == fv[t]);
    assert((old_v + fv)[old_v.len() + t].built_from(coin, pairs[i], pairs[j], pairs[k]));
}

proof fn lemma_derived_in_grows(
    v: Seq<TriPair>,
    w: Seq<TriPair>,
    pairs: Seq<TradingPair>,
    base_quotes: Seq<String>,
    i: int,
    j: int,
)
    requires
        derived_in(v, pairs, base_quotes, i, j),
        v.len() <= w.len(),
        forall|t: int| 0 <= t < v.len() ==> w[t] == v[t],
    ensures
        derived_in(w, pairs, base_quotes, i, j),
{
    let (t, k) = choose|t: int, k: int|
        0 <= t < v.len() && tri_combo(pairs, base_quotes, pairs[i].base_asset@, i, j, k)
            && #[trigger] v[t].built_from(pairs[i].base_asset@, pairs[i], pairs[j], pairs[k]);
    assert(w[t].built_from(pairs[i].base_asset@, pairs[i], pairs[j], pairs[k]));
}

proof fn lemma_derived_legs(t: TriPair, pairs: Seq<TradingPair>, base_quotes: Seq<String>)
    requires
        catalog_wf(pairs),
        derived_from(t, pairs, base_quotes),
    ensures
        legs_hold_coin(t, pairs),
{
    let (i, j, k) = choose|i: int, j: int, k: int|
        tri_combo(pairs, base_quotes, t.coin@, i, j, k) && #[trigger] t.built_from(
            t.coin@,
            pairs[i],
            pairs[j],
            pairs[k],
        );
    assert(pairs[i].wf() && pairs[j].wf() && pairs[k].wf());
    assert(k != i && k != j);
    assert forall|n: int| 0 <= n < pairs.len() implies {
        &&& (#[trigger] pairs[n].idx == t.pairs[0] ==> pairs[n].spec_has_asset(t.coin@))
        &&& (pairs[n].idx == t.pairs[1] ==> pairs[n].spec_has_asset(t.coin@))
        &&& (pairs[n].idx == t.pairs[2] ==> !pairs[n].spec_has_asset(t.coin@))
    } by {
        if n != i && n != j && n != k {
            assert(pairs[n].idx != pairs[i].idx);
            assert(pairs[n].idx != pairs[j].idx);
            assert(pairs[n].idx != pairs[k].idx);
        }
        assert(pairs[n].wf());
    }
    if i < k {
        assert(pairs[i].idx != pairs[k].idx);
    } else {
        assert(pairs[k].idx != pairs[i].idx);
    }
    if j < k {
        assert(pairs[j].idx != pairs[k].idx);
    } else {
        assert(pairs[k].idx != pairs[j].idx);
    }
}

/// Each listed bridge is an index of `pairs` that links two currencies of
/// `base_quotes`.
#[verifier::opaque]
pub open spec fn bridges_sound(pairs: Seq<TradingPair>, base_quotes: Seq<String>, bridges: Seq<usize>) -> bool {
    &&& indices_in(bridges, pairs.len() as int)
    &&& forall|m: int| 0 <= m < bridges.len() ==> is_bridge(pairs, base_quotes, #[trigger] bridges[m] as int)
}

/// Each two currencies of `base_quotes` that a pair links are linked by a
/// listed bridge.
#[verifier::opaque]
pub open spec fn bridges_complete(pairs: Seq<TradingPair>, base_quotes: Seq<String>, bridges: Seq<usize>) -> bool {
    forall|a: int, b: int, k: int|
        0 <= a < b < base_quotes.len() && 0 <= k < pairs.len()
            && #[trigger] links(pairs[k], base_quotes[a]@, base_quotes[b]@) ==> exists|m: int|
            0 <= m < bridges.len() && #[trigger] links(
                pairs[bridges[m] as int],
                base_quotes[a]@,
                base_quotes[b]@,
            )
}

/// Every cycle of `v` is derived from the catalog and its coin is allowed.
pub open spec fn derive_sound(
    v: Seq<TriPair>,
    pairs: Seq<TradingPair>,
    base_quotes: Seq<String>,
    allow: Option<Vec<String>>,
    deny: Option<Vec<String>>,
) -> bool {
    forall|t: int|
        0 <= t < v.len() ==> {
            &&& derived_from(#[trigger] v[t], pairs, base_quotes)
            &&& coin_allowed(allow, deny, v[t].coin@)
        }
}

/// `v` holds the cycles of every allowed coin among the first `c` of `coins`.
#[verifier::opaque]
pub open spec fn derive_done(
    v: Seq<TriPair>,
    pairs: Seq<TradingPair>,
    base_quotes: Seq<String>,
    allow: Option<Vec<String>>,
    deny: Option<Vec<String>>,
    coins: Seq<String>,
    c: int,
) -> bool {
    forall|i: int, j: int, k: int, q: int|
        0 <= q < c && coins[q]@ == pairs[i].base_asset@ && #[trigger] tri_combo(
            pairs,
            base_quotes,
            pairs[i].base_asset@,
            i,
            j,
            k,
        ) && coin_allowed(allow, deny, #[trigger] coins[q]@) ==> derived_in(v, pairs, base_quotes, i, j)
}

proof fn lemma_coin_appended(
    old_v: Seq<TriPair>,
    fv: Seq<TriPair>,
    pairs: Seq<TradingPair>,
    base_quotes: Seq<String>,
    bridges: Seq<usize>,
    allow: Option<Vec<String>>,
    deny: Option<Vec<String>>,
    coins: Seq<String>,
    c: int,
)
    requires
        0 <= c < coins.len(),
        bridges_sound(pairs, base_quotes, bridges),
        bridges_complete(pairs, base_quotes, bridges),
        derive_sound(old_v, pairs, base_quotes, allow, deny),
        derive_done(old_v, pairs, base_quotes, allow, deny, coins, c),
        coin_allowed(allow, deny, coins[c]@),
        forall|t: int| 0 <= t < fv.len() ==> made_of(#[trigger] fv[t], pairs, bridges, coins[c]@),
        forall|i: int, j: int, k: int|
            #[trigger] coin_combo(pairs, bridges, coins[c]@, i, j, k) ==> found_in(fv, pairs, bridges, coins[c]@, i, j),
    ensures
        derive_sound(old_v + fv, pairs, base_quotes, allow, deny),
        derive_done(old_v + fv, pairs, base_quotes, allow, deny, coins, c + 1),
{
    reveal(derive_done);
    let w = old_v + fv;
    let coin = coins[c]@;
    assert forall|t: int| 0 <= t < w.len() implies {
        &&& derived_from(#[trigger] w[t], pairs, base_quotes)
        &&& coin_allowed(allow, deny, w[t].coin@)
    } by {
        if t >= old_v.len() {
            assert(w[t] == fv[t - old_v.len()]);
            lemma_made_of_derived(fv[t - old_v.len()], pairs, base_quotes, bridges, coin);
        } else {
            assert(w[t] == old_v[t]);
        }
    }
    assert forall|i: int, j: int, k: int, q: int|
        0 <= q < c + 1 && coins[q]@ == pairs[i].base_asset@ && #[trigger] tri_combo(
            pairs,
            base_quotes,
            pairs[i].base_asset@,
            i,
            j,
            k,
        ) && coin_allowed(allow, deny, #[trigger] coins[q]@) implies derived_in(w, pairs, base_quotes, i, j) by {
        if q == c {
            lemma_combo_found(pairs, base_quotes, bridges, coin, fv, i, j, k);
            lemma_found_derived(old_v, fv, pairs, base_quotes, bridges, i, j);
        } else {
            lemma_derived_in_grows(old_v, w, pairs, base_quotes, i, j);
        }
    }
}

/// `coin` is among the first `c` of `coins`.
pub open spec fn listed_before(coins: Seq<String>, coin: Seq<char>, c: int) -> bool {
    exists|q: int| 0 <= q < c && #[trigger] coins[q]@ == coin
}

/// The coin of every cycle of `v` is among the first `c` of `coins`.
pub open spec fn coins_before(v: Seq<TriPair>, coins: Seq<String>, c: int) -> bool {
    forall|t: int| 0 <= t < v.len() ==> listed_before(coins, (#[trigger] v[t]).coin@, c)
}

/// No coin is listed twice.
pub open spec fn coins_distinct(coins: Seq<String>) -> bool {
    forall|q1: int, q2: int| 0 <= q1 < q2 < coins.len() ==> (#[trigger] coins[q1])@ != (#[trigger] coins[q2])@
}

proof fn lemma_append_no_repeat(
    old_v: Seq<TriPair>,
    fv: Seq<TriPair>,
    pairs: Seq<TradingPair>,
    base_quotes: Seq<String>,
    coins: Seq<String>,
    c: int,
)
    requires
        0 <= c < coins.len(),
        ids_unique(pairs),
        coins_distinct(coins),
        no_repeat(old_v),
        no_repeat(fv),
        coins_before(old_v, coins, c),
        forall|t: int| 0 <= t < old_v.len() ==> derived_from(#[trigger] old_v[t], pairs, base_quotes),
        forall|t: int| 0 <= t < fv.len() ==> derived_from(#[trigger] fv[t], pairs, base_quotes) && fv[t].coin@ == coins[c]@,
    ensures
        no_repeat(old_v + fv),
        coins_before(old_v + fv, coins, c + 1),
{
    let w = old_v + fv;
    assert forall|t1: int, t2: int|
        0 <= t1 < t2 < w.len() implies (#[trigger] w[t1]).pairs[0] != (#[trigger] w[t2]).pairs[0] || w[t1].pairs[1]
            != w[t2].pairs[1] by {
        if t2 < old_v.len() {
            assert(w[t1] == old_v[t1] && w[t2] == old_v[t2]);
        } else if t1 >= old_v.len() {
            assert(w[t1] == fv[t1 - old_v.len()] && w[t2] == fv[t2 - old_v.len()]);
        } else {
            let x = old_v[t1];
            let y = fv[t2 - old_v.len()];
            assert(w[t1] == x && w[t2] == y);
            let q = choose|q: int| 0 <= q < c && #[trigger] coins[q]@ == x.coin@;
            assert(coins[q]@ != coins[c]@);
            assert(derived_from(x, pairs, base_quotes));
            assert(derived_from(y, pairs, base_quotes));
            let (i1, j1, k1) = choose|i: int, j: int, k: int|
                tri_combo(pairs, base_quotes, x.coin@, i, j, k) && #[trigger] x.built_from(x.coin@, pairs[i], pairs[j], pairs[k]);
            let (i2, j2, k2) = choose|i: int, j: int, k: int|
                tri_combo(pairs, base_quotes, y.coin@, i, j, k) && #[trigger] y.built_from(y.coin@, pairs[i], pairs[j], pairs[k]);
            if i1 < i2 {
                assert(pairs[i1].idx != pairs[i2].idx);
            } else if i2 < i1 {
                assert(pairs[i2].idx != pairs[i1].idx);
            }
        }
    }
    assert forall|t: int| 0 <= t < w.len() implies listed_before(coins, (#[trigger] w[t]).coin@, c + 1) by {
        if t < old_v.len() {
            assert(w[t] == old_v[t]);
            let q = choose|q: int| 0 <= q < c && #[trigger] coins[q]@ == old_v[t].coin@;
        } else {
            assert(w[t] == fv[t - old_v.len()]);
            assert(coins[c]@ == w[t].coin@);
        }
    }
}

proof fn lemma_coin_empty(
    v: Seq<TriPair>,
    pairs: Seq<TradingPair>,
    base_quotes: Seq<String>,
    bridges: Seq<usize>,
    allow: Option<Vec<String>>,
    deny: Option<Vec<String>>,
    coins: Seq<String>,
    c: int,
)
    requires
        0 <= c < coins.len(),
        bridges_sound(pairs, base_quotes, bridges),
        bridges_complete(pairs, base_quotes, bridges),
        derive_done(v, pairs, base_quotes, allow, deny, coins, c),
        !coin_allowed(allow, deny, coins[c]@) || forall|i: int, j: int, k: int|
            !#[trigger] coin_combo(pairs, bridges, coins[c]@, i, j, k),
    ensures
        derive_done(v, pairs, base_quotes, allow, deny, coins, c + 1),
{
    reveal(derive_done);
    assert forall|i: int, j: int, k: int, q: int|
        0 <= q < c + 1 && coins[q]@ == pairs[i].base_asset@ && #[trigger] tri_combo(
            pairs,
            base_quotes,
            pairs[i].base_asset@,
            i,
            j,
            k,
        ) && coin_allowed(allow, deny, #[trigger] coins[q]@) implies derived_in(v, pairs, base_quotes, i, j) by {
        if q == c {
            lemma_bridge_listed(pairs, base_quotes, bridges, i, j, k);
        }
    }
}

/// The base assets of `pairs[..n]`, each once, in order of first appearance.
pub open spec fn first_coins(pairs: Seq<TradingPair>, n: int) -> Seq<Seq<char>>
    decreases n,
{
    if n <= 0 {
        Seq::empty()
    } else {
        let prev = first_coins(pairs, n - 1);
        if prev.contains(pairs[n - 1].base_asset@) {
            prev
        } else {
            prev.push(pairs[n - 1].base_asset@)
        }
    }
}

pub open spec fn coin_views(coins: Seq<String>) -> Seq<Seq<char>> {
    coins.map_values(|s: String| s@)
}

/// The combinations `c`, each with the coin `coin`.
pub open spec fn tag_coin(coin: Seq<char>, c: Seq<(int, int, int)>) -> Seq<(Seq<char>, (int, int, int))> {
    c.map_values(|e: (int, int, int)| (coin, e))
}

/// The combinations of the allowed coins among `coins[..c]`, coin by coin.
pub open spec fn derive_combos(
    pairs: Seq<TradingPair>,
    bridges: Seq<usize>,
    coins: Seq<Seq<char>>,
    allow: Option<Vec<String>>,
    deny: Option<Vec<String>>,
    c: int,
) -> Seq<(Seq<char>, (int, int, int))>
    decreases c,
{
    if c <= 0 {
        Seq::empty()
    } else {
        let prev = derive_combos(pairs, bridges, coins, allow, deny, c - 1);
        if coin_allowed(allow, deny, coins[c - 1]) {
            prev + tag_coin(coins[c - 1], coin_rows(pairs, bridges, coins[c - 1], pairs.len() as int))
        } else {
            prev
        }
    }
}

/// `v` is, cycle by cycle, the cycle built from the tagged combinations `c`.
pub open spec fn built_all(v: Seq<TriPair>, pairs: Seq<TradingPair>, c: Seq<(Seq<char>, (int, int, int))>) -> bool {
    &&& v.len() == c.len()
    &&& forall|t: int|
        0 <= t < v.len() ==> (#[trigger] v[t]).built_from(c[t].0, pairs[c[t].1.0], pairs[c[t].1.1], pairs[c[t].1.2])
}

proof fn lemma_built_append(
    v: Seq<TriPair>,
    fv: Seq<TriPair>,
    pairs: Seq<TradingPair>,
    a: Seq<(Seq<char>, (int, int, int))>,
    coin: Seq<char>,
    b: Seq<(int, int, int)>,
)
    requires
        built_all(v, pairs, a),
        built_seq(fv, pairs, coin, b),
    ensures
        built_all(v + fv, pairs, a + tag_coin(coin, b)),
{
    let c = a + tag_coin(coin, b);
    assert forall|t: int| 0 <= t < v.len() + fv.len() implies (#[trigger] (v + fv)[t]).built_from(
        c[t].0,
        pairs[c[t].1.0],
        pairs[c[t].1.1],
        pairs[c[t].1.2],
    ) by {
        if t < v.len() {
            assert((v + fv)[t] == v[t]);
            assert(c[t] == a[t]);
        } else {
            assert((v + fv)[t] == fv[t - v.len()]);
            assert(c[t] == (coin, b[t - v.len()]));
        }
    }
}

/// Derivation is reproducible: two results for the same catalog, bridge
/// currencies and lists are the same cycles, field by field, in the same
/// order.
pub proof fn lemma_derive_reproducible(
    r1: Seq<TriPair>,
    r2: Seq<TriPair>,
    pairs: Seq<TradingPair>,
    c: Seq<(Seq<char>, (int, int, int))>,
)
    requires
        built_all(r1, pairs, c),
        built_all(r2, pairs, c),
    ensures
        r1.len() == r2.len(),
        forall|t: int|
            0 <= t < r1.len() ==> {
                &&& (#[trigger] r1[t]).coin@ == r2[t].coin@
                &&& r1[t].name@ == r2[t].name@
                &&& r1[t].pairs == r2[t].pairs
                &&& r1[t].dirs == r2[t].dirs
                &&& r1[t].pairs_name[0]@ == r2[t].pairs_name[0]@
                &&& r1[t].pairs_name[1]@ == r2[t].pairs_name[1]@
                &&& r1[t].pairs_name[2]@ == r2[t].pairs_name[2]@
            },
{
    assert forall|t: int| 0 <= t < r1.len() implies {
        &&& (#[trigger] r1[t]).coin@ == r2[t].coin@
        &&& r1[t].name@ == r2[t].name@
        &&& r1[t].pairs == r2[t].pairs
        &&& r1[t].dirs == r2[t].dirs
        &&& r1[t].pairs_name[0]@ == r2[t].pairs_name[0]@
        &&& r1[t].pairs_name[1]@ == r2[t].pairs_name[1]@
        &&& r1[t].pairs_name[2]@ == r2[t].pairs_name[2]@
    } by {
        assert(r1[t].built_from(c[t].0, pairs[c[t].1.0], pairs[c[t].1.1], pairs[c[t].1.2]));
        assert(r2[t].built_from(c[t].0, pairs[c[t].1.0], pairs[c[t].1.1], pairs[c[t].1.2]));
    }
}

/// All triangle cycles of the catalog: the base assets are taken in order of
/// first appearance, filtered by the allow- and deny-lists, and the cycles
/// of each follow as `find_coin_tri_pairs` gives them.
pub fn derive_tri_pairs(
    pairs: &Vec<TradingPair>,
    base_quotes: &Vec<String>,
    allow_coins: Option<Vec<String>>,
    exclude_coins: Option<Vec<String>>,
) -> (r: Vec<TriPair>)
    ensures
        derive_post(r@, pairs@, base_quotes@, allow_coins, exclude_coins),
        catalog_wf(pairs@) ==> forall|t: int| 0 <= t < r@.len() ==> legs_hold_coin(#[trigger] r@[t], pairs@),
        ids_unique(pairs@) ==> no_repeat(r@),
        built_all(
            r@,
            pairs@,
            derive_combos(
                pairs@,
                bridge_rows(pairs@, base_quotes@, base_quotes@.len() as int),
                first_coins(pairs@, pairs@.len() as int),
                allow_coins,
                exclude_coins,
                first_coins(pairs@, pairs@.len() as int).len() as int,
            ),
        ),
{
    let bridges = get_bridge_pairs(pairs, base_quotes);
    // the base assets, in order of first appearance
    let mut coins: Vec<String> = Vec::new();
    let mut n: usize = 0;
    while n < pairs.len()
        invariant
            n <= pairs@.len(),
            forall|m: int| 0 <= m < n ==> lists(coins@, #[trigger] pairs@[m].base_asset@),
            coins_distinct(coins@),
            coin_views(coins@) == first_coins(pairs@, n as int),
        decreases pairs@.len() - n,
    {
        let base = &pairs[n].base_asset;
        let listed = Some(coins);
        let known = vec_has_coin(&listed, base);
        coins = listed.unwrap();
        proof {
            if known {
                let q = choose|q: int| 0 <= q < coins@.len() && #[trigger] coins@[q]@ == base@;
                assert(coin_views(coins@)[q] == base@);
                assert(first_coins(pairs@, n as int).contains(base@));
            } else {
                assert(!first_coins(pairs@, n as int).contains(base@)) by {
                    if first_coins(pairs@, n as int).contains(base@) {
                        let q = choose|q: int| 0 <= q < coin_views(coins@).len() && coin_views(coins@)[q] == base@;
                        assert(coins@[q]@ == base@);
                    }
                }
            }
        }
        if !known {
            let ghost old_c = coins@;
            coins.push(base.clone());
            assert forall|q1: int, q2: int| 0 <= q1 < q2 < coins@.len() implies (#[trigger] coins@[q1])@ != (#[trigger] coins@[q2])@ by {
                if q2 == old_c.len() {
                    assert(coins@[q1] == old_c[q1]);
                    assert(old_c[q1]@ != base@);
                } else {
                    assert(coins@[q1] == old_c[q1] && coins@[q2] == old_c[q2]);
                }
            }
            assert forall|m: int| 0 <= m < n + 1 implies lists(coins@, #[trigger] pairs@[m].base_asset@) by {
                if m < n {
                    let q = choose|q: int| 0 <= q < old_c.len() && #[trigger] old_c[q]@ == pairs@[m].base_asset@;
                    assert(coins@[q] == old_c[q]);
                } else {
                    assert(coins@[old_c.len() as int]@ == pairs@[m].base_asset@);
                }
            }
            assert(coin_views(coins@) =~= coin_views(old_c).push(base@));
        }
        n = n + 1;
    }
    let mut tri_pairs: Vec<TriPair> = Vec::new();
    proof {
        reveal(derive_done);
    }
    let mut c: usize = 0;
    while c < coins.len()
        invariant
            c <= coins@.len(),
            coin_views(coins@) == first_coins(pairs@, pairs@.len() as int),
            bridges@ == bridge_rows(pairs@, base_quotes@, base_quotes@.len() as int),
            built_all(tri_pairs@, pairs@, derive_combos(pairs@, bridges@, coin_views(coins@), allow_coins, exclude_coins, c as int)),
            bridges_sound(pairs@, base_quotes@, bridges@),
            bridges_complete(pairs@, base_quotes@, bridges@),
            forall|m: int| 0 <= m < pairs@.len() ==> lists(coins@, #[trigger] pairs@[m].base_asset@),
            derive_sound(tri_pairs@, pairs@, base_quotes@, allow_coins, exclude_coins),
            derive_done(tri_pairs@, pairs@, base_quotes@, allow_coins, exclude_coins, coins@, c as int),
            coins_distinct(coins@),
            coins_before(tri_pairs@, coins@, c as int),
            ids_unique(pairs@) ==> no_repeat(tri_pairs@),
        decreases coins@.len() - c,
    {
        let coin = &coins[c];
        let skip = (allow_coins.is_some() && !vec_has_coin(&allow_coins, coin))
            || (exclude_coins.is_some() && vec_has_coin(&exclude_coins, coin));
        proof {
            reveal(bridges_sound);
        }
        let found = if skip {
            None
        } else {
            find_coin_tri_pairs(coin.as_str(), pairs, &bridges)
        };
        match found {
            Some(found) => {
                let ghost old_v = tri_pairs@;
                let mut found = found;
                let ghost fv = found@;
                tri_pairs.append(&mut found);
                proof {
                    let cv = coin_views(coins@);
                    assert(cv[c as int] == coins@[c as int]@);
                    lemma_built_append(
                        old_v,
                        fv,
                        pairs@,
                        derive_combos(pairs@, bridges@, cv, allow_coins, exclude_coins, c as int),
                        cv[c as int],
                        coin_rows(pairs@, bridges@, cv[c as int], pairs@.len() as int),
                    );
                    lemma_coin_appended(old_v, fv, pairs@, base_quotes@, bridges@, allow_coins, exclude_coins, coins@, c as int);
                    assert forall|t: int| 0 <= t < fv.len() implies derived_from(#[trigger] fv[t], pairs@, base_quotes@) && fv[t].coin@ == coins@[c as int]@ by {
                        lemma_made_of_derived(fv[t], pairs@, base_quotes@, bridges@, coins@[c as int]@);
                    }
                    if ids_unique(pairs@) {
                        lemma_append_no_repeat(old_v, fv, pairs@, base_quotes@, coins@, c as int);
                    } else {
                        assert forall|t: int| 0 <= t < tri_pairs@.len() implies listed_before(coins@, (#[trigger] tri_pairs@[t]).coin@, c + 1) by {
                            if t < old_v.len() {
                                assert(tri_pairs@[t] == old_v[t]);
                                let q = choose|q: int| 0 <= q < c && #[trigger] coins@[q]@ == old_v[t].coin@;
                            } else {
                                assert(tri_pairs@[t] == fv[t - old_v.len()]);
                                assert(coins@[c as int]@ == tri_pairs@[t].coin@);
                            }
                        }
                    }
                }
            },
            None => {
                proof {
                    let cv = coin_views(coins@);
                    assert(cv[c as int] == coins@[c as int]@);
                    if !skip {
                        assert(tag_coin(cv[c as int], coin_rows(pairs@, bridges@, cv[c as int], pairs@.len() as int)) =~= Seq::empty());
                    }
                    assert(derive_combos(pairs@, bridges@, cv, allow_coins, exclude_coins, c + 1) =~= derive_combos(
                        pairs@,
                        bridges@,
                        cv,
                        allow_coins,
                        exclude_coins,
                        c as int,
                    ));
                    assert forall|t: int| 0 <= t < tri_pairs@.len() implies listed_before(coins@, (#[trigger] tri_pairs@[t]).coin@, c + 1) by {
                        let q = choose|q: int| 0 <= q < c && #[trigger] coins@[q]@ == tri_pairs@[t].coin@;
                    }
                    lemma_coin_empty(tri_pairs@, pairs@, base_quotes@, bridges@, allow_coins, exclude_coins, coins@, c as int);
                }
            },
        }
        c = c + 1;
    }
    proof {
        reveal(derive_done);
        if catalog_wf(pairs@) {
            assert forall|t: int| 0 <= t < tri_pairs@.len() implies legs_hold_coin(#[trigger] tri_pairs@[t], pairs@) by {
                lemma_derived_legs(tri_pairs@[t], pairs@, base_quotes@);
            }
        }
        assert forall|i: int, j: int, k: int|
            #[trigger] tri_combo(pairs@, base_quotes@, pairs@[i].base_asset@, i, j, k) && coin_allowed(
                allow_coins,
                exclude_coins,
                pairs@[i].base_asset@,
            ) implies derived_in(tri_pairs@, pairs@, base_quotes@, i, j) by {
            let q = choose|q: int| 0 <= q < coins@.len() && #[trigger] coins@[q]@ == pairs@[i].base_asset@;
        }
    }
    tri_pairs
}


/// One of the three legs of `t` trades on pair id `p`.
pub open spec fn trades_on(t: TriPair, p: int) -> bool {
    t.pairs[0] as int == p || t.pairs[1] as int == p || t.pairs[2] as int == p
}

/// Every pair id of `tris` lies in `1..=n`.
pub open spec fn ids_within(tris: Seq<TriPair>, n: int) -> bool {
    forall|t: int, k: int| 0 <= t < tris.len() && 0 <= k < 3 ==> 1 <= #[trigger] tris[t].pairs[k] <= n
}

/// `index[p]` lists the positions in `tris` of exactly the cycles that
/// trade on pair id `p + 1`.
pub open spec fn index_exact(tris: Seq<TriPair>, index: Seq<Vec<usize>>) -> bool {
    &&& ids_within(tris, index.len() as int)
    &&& forall|p: int, t: int|
        0 <= p < index.len() && 0 <= t < tris.len() ==> (#[trigger] index[p]@.contains(t as usize) <==> trades_on(
            #[trigger] tris[t],
            p + 1,
        ))
    &&& forall|p: int, m: int| 0 <= p < index.len() && 0 <= m < index[p]@.len() ==> #[trigger] index[p]@[m] < tris.len()
    &&& forall|p: int, m: int, n: int|
        0 <= p < index.len() && 0 <= m < n < index[p]@.len() ==> #[trigger] index[p]@[m] < #[trigger] index[p]@[n]
}

/// The pair ids under whose bucket the cycle at position `t` is listed.
pub open spec fn buckets_holding(index: Seq<Vec<usize>>, t: int) -> Set<int> {
    Set::new(|id: int| 1 <= id <= index.len() && index[id - 1]@.contains(t as usize))
}

impl TriPair {
    /// The three pair ids of a cycle differ.
    pub open spec fn wf(&self) -> bool {
        self.pairs[0] != self.pairs[1] && self.pairs[0] != self.pairs[2] && self.pairs[1] != self.pairs[2]
    }
}

/// A cycle whose three pair ids differ is listed under exactly three
/// buckets of the index: those of its three pairs.
pub proof fn lemma_index_three_buckets(tris: Seq<TriPair>, index: Seq<Vec<usize>>, t: int)
    requires
        index_exact(tris, index),
        0 <= t < tris.len(),
        tris[t].wf(),
    ensures
        buckets_holding(index, t) == set![tris[t].pairs[0] as int, tris[t].pairs[1] as int, tris[t].pairs[2] as int],
        buckets_holding(index, t).len() == 3,
        forall|id: int, m1: int, m2: int|
            buckets_holding(index, t).contains(id) && 0 <= m1 < m2 < index[id - 1]@.len() ==> !(#[trigger] index[id
                - 1]@[m1] == t && #[trigger] index[id - 1]@[m2] == t),
{
    let a = tris[t].pairs[0] as int;
    let b = tris[t].pairs[1] as int;
    let c = tris[t].pairs[2] as int;
    assert(1 <= tris[t].pairs[0] <= index.len());
    assert(1 <= tris[t].pairs[1] <= index.len());
    assert(1 <= tris[t].pairs[2] <= index.len());
    assert forall|id: int| #[trigger] buckets_holding(index, t).contains(id) <==> set![a, b, c].contains(id) by {
        if 1 <= id <= index.len() {
            assert(index[id - 1]@.contains(t as usize) <==> trades_on(tris[t], id));
        }
    }
    assert(buckets_holding(index, t) =~= set![a, b, c]);
    assert(set![a].len() == 1);
    assert(!set![a].contains(b));
    assert(set![a, b].len() == 2);
    assert(!set![a, b].contains(c));
}

/// The quote index: bucket `p` holds the positions in `tri_pairs` of the
/// cycles that trade on pair id `p + 1`, for the ids `1..=n_pairs` of the
/// catalog.
pub fn to_tri_angle_symbol(tri_pairs: &Vec<TriPair>, n_pairs: usize) -> (r: Vec<Vec<usize>>)
    requires
        ids_within(tri_pairs@, n_pairs as int),
    ensures
        r@.len() == n_pairs,
        index_exact(tri_pairs@, r@),
{
    let mut buckets: Vec<Vec<usize>> = Vec::new();
    while buckets.len() < n_pairs
        invariant
            buckets@.len() <= n_pairs,
            forall|p: int| 0 <= p < buckets@.len() ==> (#[trigger] buckets@[p])@.len() == 0,
        decreases n_pairs - buckets@.len(),
    {
        buckets.push(Vec::new());
    }
    let mut t: usize = 0;
    while t < tri_pairs.len()
        invariant
            t <= tri_pairs@.len(),
            buckets@.len() == n_pairs,
            ids_within(tri_pairs@, n_pairs as int),
            forall|p: int, t2: int|
                0 <= p < buckets@.len() && 0 <= t2 < t ==> (#[trigger] buckets@[p]@.contains(t2 as usize) <==> trades_on(
                    #[trigger] tri_pairs@[t2],
                    p + 1,
                )),
            forall|p: int, m: int| 0 <= p < buckets@.len() && 0 <= m < buckets@[p]@.len() ==> #[trigger] buckets@[p]@[m] < t,
            forall|p: int, m: int, n: int|
                0 <= p < buckets@.len() && 0 <= m < n < buckets@[p]@.len() ==> #[trigger] buckets@[p]@[m] < #[trigger] buckets@[p]@[n],
        decreases tri_pairs@.len() - t,
    {
        let tp = &tri_pairs[t];
        let mut n: usize = 0;
        while n < 3
            invariant
                t < tri_pairs@.len(),
                *tp == tri_pairs@[t as int],
                n <= 3,
                buckets@.len() == n_pairs,
                ids_within(tri_pairs@, n_pairs as int),
                forall|p: int, t2: int|
                    0 <= p < buckets@.len() && 0 <= t2 < t ==> (#[trigger] buckets@[p]@.contains(t2 as usize) <==> trades_on(
                        #[trigger] tri_pairs@[t2],
                        p + 1,
                    )),
                forall|p: int|
                    0 <= p < buckets@.len() ==> (#[trigger] buckets@[p]@.contains(t) <==> exists|n2: int|
                        0 <= n2 < n && tp.pairs[n2] as int == p + 1),
                forall|p: int, m: int| 0 <= p < buckets@.len() && 0 <= m < buckets@[p]@.len() ==> #[trigger] buckets@[p]@[m] <= t,
                forall|p: int, m: int, m2: int|
                    0 <= p < buckets@.len() && 0 <= m < m2 < buckets@[p]@.len() ==> #[trigger] buckets@[p]@[m] < #[trigger] buckets@[p]@[m2],
            decreases 3 - n,
        {
            assert(1 <= tri_pairs@[t as int].pairs[n as int] <= n_pairs);
            let p = (tp.pairs[n] - 1) as usize;
            let ghost old_b = buckets@;
            let blen = buckets[p].len();
            if blen == 0 || buckets[p][blen - 1] != t {
                proof {
                    if blen > 0 {
                        assert(old_b[p as int]@[blen - 1] < t);
                    }
                }
                buckets[p].push(t);
                proof {
                    assert forall|q: int, t2: int|
                        0 <= q < buckets@.len() && 0 <= t2 < t implies (#[trigger] buckets@[q]@.contains(t2 as usize) <==> trades_on(
                            #[trigger] tri_pairs@[t2],
                            q + 1,
                        )) by {
                        if q == p as int {
                            assert(buckets@[q]@ == old_b[q]@.push(t));
                            if buckets@[q]@.contains(t2 as usize) {
                                let m = choose|m: int| 0 <= m < buckets@[q]@.len() && buckets@[q]@[m] == t2 as usize;
                                if m < old_b[q]@.len() {
                                    assert(old_b[q]@[m] == t2 as usize);
                                }
                            }
                            if old_b[q]@.contains(t2 as usize) {
                                let m = choose|m: int| 0 <= m < old_b[q]@.len() && old_b[q]@[m] == t2 as usize;
                                assert(buckets@[q]@[m] == t2 as usize);
                            }
                        } else {
                            assert(buckets@[q] == old_b[q]);
                        }
                    }
                    assert forall|q: int|
                        0 <= q < buckets@.len() implies (#[trigger] buckets@[q]@.contains(t) <==> exists|n2: int|
                            0 <= n2 < n + 1 && tp.pairs[n2] as int == q + 1) by {
                        if q == p as int {
                            assert(buckets@[q]@ == old_b[q]@.push(t));
                            assert(buckets@[q]@[old_b[q]@.len() as int] == t);
                        } else {
                            assert(buckets@[q] == old_b[q]);
                        }
                    }
                    assert forall|q: int, m: int| 0 <= q < buckets@.len() && 0 <= m < buckets@[q]@.len() implies #[trigger] buckets@[q]@[m] <= t by {
                        if q == p as int {
                            assert(buckets@[q]@ == old_b[q]@.push(t));
                        } else {
                            assert(buckets@[q] == old_b[q]);
                        }
                    }
                }
                proof {
                    assert forall|q: int, m: int, n2: int|
                        0 <= q < buckets@.len() && 0 <= m < n2 < buckets@[q]@.len() implies #[trigger] buckets@[q]@[m] < #[trigger] buckets@[q]@[n2] by {
                        if q == p as int {
                            assert(buckets@[q]@ == old_b[q]@.push(t));
                            if n2 == old_b[q]@.len() && m < n2 - 1 {
                                assert(old_b[q]@[m] < old_b[q]@[n2 - 1]);
                            }
                        } else {
                            assert(buckets@[q] == old_b[q]);
                        }
                    }
                }
            } else {
                proof {
                    assert(buckets@[p as int]@[blen - 1] == t);
                    assert(buckets@[p as int]@.contains(t));
                }
            }
            n = n + 1;
        }
        proof {
            assert forall|q: int, t2: int|
                0 <= q < buckets@.len() && 0 <= t2 < t + 1 implies (#[trigger] buckets@[q]@.contains(t2 as usize) <==> trades_on(
                    #[trigger] tri_pairs@[t2],
                    q + 1,
                )) by {
                if t2 == t as int {
                    if trades_on(tri_pairs@[t2], q + 1) {
                        if tp.pairs[0] as int == q + 1 {
                        } else if tp.pairs[1] as int == q + 1 {
                        } else {
                        }
                    }
                }
            }
            assert forall|q: int, m: int| 0 <= q < buckets@.len() && 0 <= m < buckets@[q]@.len() implies #[trigger] buckets@[q]@[m] < t + 1 by {
            }
        }
        t = t + 1;
    }
    buckets
}

/// What `derive_tri_pairs` promises of its cycles.
pub open spec fn derive_post(
    r: Seq<TriPair>,
    pairs: Seq<TradingPair>,
    base_quotes: Seq<String>,
    allow: Option<Vec<String>>,
    deny: Option<Vec<String>>,
) -> bool {
    &&& forall|t: int|
        0 <= t < r.len() ==> {
            &&& derived_from(#[trigger] r[t], pairs, base_quotes)
            &&& coin_allowed(allow, deny, r[t].coin@)
        }
    &&& forall|i: int, j: int, k: int|
        #[trigger] tri_combo(pairs, base_quotes, pairs[i].base_asset@, i, j, k) && coin_allowed(
            allow,
            deny,
            pairs[i].base_asset@,
        ) ==> derived_in(r, pairs, base_quotes, i, j)
    &&& catalog_wf(pairs) ==> forall|t: int| 0 <= t < r.len() ==> legs_hold_coin(#[trigger] r[t], pairs)
}


/// The key of a cycle: its coin and the set of its three pair ids.
pub open spec fn tri_key(t: TriPair) -> (Seq<char>, Set<u32>) {
    (t.coin@, set![t.pairs[0], t.pairs[1], t.pairs[2]])
}

/// The keys of the cycles of `v`.
pub open spec fn tri_keys(v: Seq<TriPair>) -> Set<(Seq<char>, Set<u32>)> {
    Set::new(|key: (Seq<char>, Set<u32>)| exists|t: int| 0 <= t < v.len() && tri_key(v[t]) == key)
}

/// The currencies that `base_quotes` names.
pub open spec fn currency_set(base_quotes: Seq<String>) -> Set<Seq<char>> {
    Set::new(|x: Seq<char>| exists|n: int| 0 <= n < base_quotes.len() && base_quotes[n]@ == x)
}

/// No two pairs of the catalog trade the same two assets.
pub open spec fn distinct_assets(pairs: Seq<TradingPair>) -> bool {
    forall|n: int, m: int| 0 <= n < pairs.len() && 0 <= m < pairs.len() && n != m ==> !#[trigger] pairs[n].same_assets(
        &#[trigger] pairs[m],
    )
}

/// The keys of all cycles over a set of pairs and a set of bridge
/// currencies: two pairs of the coin and a pair that links their quote
/// assets and trades two bridge currencies.
pub open spec fn cycle_keys(
    ps: Set<TradingPair>,
    currencies: Set<Seq<char>>,
    allow: Option<Vec<String>>,
    deny: Option<Vec<String>>,
) -> Set<(Seq<char>, Set<u32>)> {
    Set::new(
        |key: (Seq<char>, Set<u32>)|
            exists|a: TradingPair, b: TradingPair, c: TradingPair|
                #[trigger] ps.contains(a) && #[trigger] ps.contains(b) && #[trigger] ps.contains(c) && a.idx != b.idx
                    && a.base_asset@ == key.0 && b.base_asset@ == key.0 && currencies.contains(c.base_asset@)
                    && currencies.contains(c.quote_asset@) && links(c, a.quote_asset@, b.quote_asset@)
                    && coin_allowed(allow, deny, key.0) && key.1 == set![a.idx, b.idx, c.idx],
    )
}

proof fn lemma_bridge_currencies(pairs: Seq<TradingPair>, base_quotes: Seq<String>, k: int)
    requires
        0 <= k < pairs.len(),
        pairs[k].wf(),
    ensures
        is_bridge(pairs, base_quotes, k) <==> currency_set(base_quotes).contains(pairs[k].base_asset@)
            && currency_set(base_quotes).contains(pairs[k].quote_asset@),
{
    let c = pairs[k];
    if is_bridge(pairs, base_quotes, k) {
        let (a, b) = choose|a: int, b: int|
            0 <= a < b < base_quotes.len() && #[trigger] links(pairs[k], base_quotes[a]@, base_quotes[b]@);
        if connects(c, base_quotes[a]@, base_quotes[b]@) {
            assert(currency_set(base_quotes).contains(c.base_asset@));
            assert(currency_set(base_quotes).contains(c.quote_asset@));
        } else {
            assert(currency_set(base_quotes).contains(c.base_asset@));
            assert(currency_set(base_quotes).contains(c.quote_asset@));
        }
    }
    if currency_set(base_quotes).contains(c.base_asset@) && currency_set(base_quotes).contains(c.quote_asset@) {
        let n1 = choose|n: int| 0 <= n < base_quotes.len() && base_quotes[n]@ == c.base_asset@;
        let n2 = choose|n: int| 0 <= n < base_quotes.len() && base_quotes[n]@ == c.quote_asset@;
        assert(n1 != n2);
        if n1 < n2 {
            assert(links(pairs[k], base_quotes[n1]@, base_quotes[n2]@));
        } else {
            assert(links(pairs[k], base_quotes[n2]@, base_quotes[n1]@));
        }
    }
}

#[verifier::rlimit(40)]
proof fn lemma_key_sound(
    r: Seq<TriPair>,
    pairs: Seq<TradingPair>,
    base_quotes: Seq<String>,
    allow: Option<Vec<String>>,
    deny: Option<Vec<String>>,
    key: (Seq<char>, Set<u32>),
)
    requires
        catalog_wf(pairs),
        distinct_assets(pairs),
        derive_post(r, pairs, base_quotes, allow, deny),
        tri_keys(r).contains(key),
    ensures
        cycle_keys(pairs.to_set(), currency_set(base_quotes), allow, deny).contains(key),
{
    let ps = pairs.to_set();
    let cs = currency_set(base_quotes);
    let t = choose|t: int| 0 <= t < r.len() && tri_key(r[t]) == key;
    let tp = r[t];
    assert(derived_from(tp, pairs, base_quotes));
    let (i, j, k) = choose|i: int, j: int, k: int|
        tri_combo(pairs, base_quotes, tp.coin@, i, j, k) && #[trigger] tp.built_from(
            tp.coin@,
            pairs[i],
            pairs[j],
            pairs[k],
        );
    assert(pairs[i].idx != pairs[j].idx);
    assert(pairs[k].wf());
    lemma_bridge_currencies(pairs, base_quotes, k);
    assert(ps.contains(pairs[i]));
    assert(ps.contains(pairs[j]));
    assert(ps.contains(pairs[k]));
    assert(key.1 == set![pairs[i].idx, pairs[j].idx, pairs[k].idx]);
}

proof fn lemma_key_from_combo(
    r: Seq<TriPair>,
    pairs: Seq<TradingPair>,
    base_quotes: Seq<String>,
    allow: Option<Vec<String>>,
    deny: Option<Vec<String>>,
    i: int,
    j: int,
    k: int,
)
    requires
        distinct_assets(pairs),
        derive_post(r, pairs, base_quotes, allow, deny),
        tri_combo(pairs, base_quotes, pairs[i].base_asset@, i, j, k),
        coin_allowed(allow, deny, pairs[i].base_asset@),
    ensures
        tri_keys(r).contains((pairs[i].base_asset@, set![pairs[i].idx, pairs[j].idx, pairs[k].idx])),
{
    assert(derived_in(r, pairs, base_quotes, i, j));
    let (t, k2) = choose|t: int, k2: int|
        0 <= t < r.len() && tri_combo(pairs, base_quotes, pairs[i].base_asset@, i, j, k2)
            && #[trigger] r[t].built_from(pairs[i].base_asset@, pairs[i], pairs[j], pairs[k2]);
    if k2 != k {
        assert(pairs[k].same_assets(&pairs[k2]));
    }
    assert(tri_key(r[t]) == (pairs[i].base_asset@, set![pairs[i].idx, pairs[j].idx, pairs[k].idx]));
}

#[verifier::rlimit(40)]
proof fn lemma_key_complete(
    r: Seq<TriPair>,
    pairs: Seq<TradingPair>,
    base_quotes: Seq<String>,
    allow: Option<Vec<String>>,
    deny: Option<Vec<String>>,
    key: (Seq<char>, Set<u32>),
)
    requires
        catalog_wf(pairs),
        distinct_assets(pairs),
        derive_post(r, pairs, base_quotes, allow, deny),
        cycle_keys(pairs.to_set(), currency_set(base_quotes), allow, deny).contains(key),
    ensures
        tri_keys(r).contains(key),
{
    let ps = pairs.to_set();
    let cs = currency_set(base_quotes);
    let (a, b, c) = choose|a: TradingPair, b: TradingPair, c: TradingPair|
        #[trigger] ps.contains(a) && #[trigger] ps.contains(b) && #[trigger] ps.contains(c) && a.idx != b.idx
            && a.base_asset@ == key.0 && b.base_asset@ == key.0 && cs.contains(c.base_asset@)
            && cs.contains(c.quote_asset@) && links(c, a.quote_asset@, b.quote_asset@)
            && coin_allowed(allow, deny, key.0) && key.1 == set![a.idx, b.idx, c.idx];
    let i = choose|i: int| 0 <= i < pairs.len() && pairs[i] == a;
    let j = choose|j: int| 0 <= j < pairs.len() && pairs[j] == b;
    let k = choose|k: int| 0 <= k < pairs.len() && pairs[k] == c;
    assert(pairs[k].wf());
    lemma_bridge_currencies(pairs, base_quotes, k);
    if i < j {
        lemma_key_from_combo(r, pairs, base_quotes, allow, deny, i, j, k);
        assert(key == (pairs[i].base_asset@, set![pairs[i].idx, pairs[j].idx, pairs[k].idx]));
    } else {
        assert(i != j);
        assert(links(c, b.quote_asset@, a.quote_asset@));
        lemma_key_from_combo(r, pairs, base_quotes, allow, deny, j, i, k);
        assert(key.1 =~= set![pairs[j].idx, pairs[i].idx, pairs[k].idx]);
    }
}

proof fn lemma_keys_exact(
    r: Seq<TriPair>,
    pairs: Seq<TradingPair>,
    base_quotes: Seq<String>,
    allow: Option<Vec<String>>,
    deny: Option<Vec<String>>,
)
    requires
        catalog_wf(pairs),
        distinct_assets(pairs),
        derive_post(r, pairs, base_quotes, allow, deny),
    ensures
        tri_keys(r) == cycle_keys(pairs.to_set(), currency_set(base_quotes), allow, deny),
{
    let ps = pairs.to_set();
    let cs = currency_set(base_quotes);
    assert forall|key: (Seq<char>, Set<u32>)| tri_keys(r).contains(key) implies cycle_keys(ps, cs, allow, deny).contains(key) by {
        lemma_key_sound(r, pairs, base_quotes, allow, deny, key);
    }
    assert forall|key: (Seq<char>, Set<u32>)| cycle_keys(ps, cs, allow, deny).contains(key) implies tri_keys(r).contains(key) by {
        lemma_key_complete(r, pairs, base_quotes, allow, deny, key);
    }
    assert(tri_keys(r) =~= cycle_keys(ps, cs, allow, deny));
}

/// Derivation does not depend on order: two well-formed catalogs that hold
/// the same pairs, in any order, with no two pairs trading the same two
/// assets, and two bridge lists that name the same currencies give cycles
/// with the same keys (coin and set of pair ids).
pub proof fn lemma_derive_order_free(
    pairs1: Seq<TradingPair>,
    pairs2: Seq<TradingPair>,
    base_quotes1: Seq<String>,
    base_quotes2: Seq<String>,
    allow: Option<Vec<String>>,
    deny: Option<Vec<String>>,
    r1: Seq<TriPair>,
    r2: Seq<TriPair>,
)
    requires
        catalog_wf(pairs1),
        catalog_wf(pairs2),
        distinct_assets(pairs1),
        distinct_assets(pairs2),
        pairs1.to_set() == pairs2.to_set(),
        currency_set(base_quotes1) == currency_set(base_quotes2),
        derive_post(r1, pairs1, base_quotes1, allow, deny),
        derive_post(r2, pairs2, base_quotes2, allow, deny),
    ensures
        tri_keys(r1) == tri_keys(r2),
{
    lemma_keys_exact(r1, pairs1, base_quotes1, allow, deny);
    lemma_keys_exact(r2, pairs2, base_quotes2, allow, deny);
}

} // verus!
