use vstd::prelude::*;

use crate::decimal::{fixed_value, point_at};
use crate::trading_pair::TradingPair;
use crate::tri_pair::{
    bridge_rows, built_all, derive_combos, derive_post, derive_tri_pairs, first_coins, derived_from, ids_unique, ids_within, index_exact, no_repeat, readable, reads_as,
    to_tri_angle_symbol, tri_combo,
    Ticker, TriPair,
};

verus! {

/// The catalog as the detector holds it: the pair at position `p` has id
/// `p + 1`, and every pair is well formed.
pub open spec fn catalog_ids(pairs: Seq<TradingPair>) -> bool {
    &&& forall|p: int| 0 <= p < pairs.len() ==> (#[trigger] pairs[p]).idx == p + 1
    &&& forall|p: int| 0 <= p < pairs.len() ==> (#[trigger] pairs[p]).wf()
}

proof fn lemma_derived_ids_within(
    tris: Seq<TriPair>,
    pairs: Seq<TradingPair>,
    base_quotes: Seq<String>,
    allow: Option<Vec<String>>,
    deny: Option<Vec<String>>,
)
    requires
        catalog_ids(pairs),
        derive_post(tris, pairs, base_quotes, allow, deny),
    ensures
        ids_within(tris, pairs.len() as int),
{
    assert forall|t: int, k: int| 0 <= t < tris.len() && 0 <= k < 3 implies 1 <= #[trigger] tris[t].pairs[k] <= pairs.len() by {
        let tp = tris[t];
        assert(derived_from(tp, pairs, base_quotes));
        let (i, j, c) = choose|i: int, j: int, c: int|
            tri_combo(pairs, base_quotes, tp.coin@, i, j, c) && #[trigger] tp.built_from(
                tp.coin@,
                pairs[i],
                pairs[j],
                pairs[c],
            );
        assert(pairs[i].idx == i + 1);
        assert(pairs[j].idx == j + 1);
        assert(pairs[c].idx == c + 1);
    }
}

/// A copy of a bucket of the index.
fn copy_bucket(v: &Vec<usize>) -> (r: Vec<usize>)
    ensures
        r@ == v@,
{
    let mut r: Vec<usize> = Vec::new();
    let mut m: usize = 0;
    while m < v.len()
        invariant
            m <= v@.len(),
            r@ == v@.take(m as int),
        decreases v@.len() - m,
    {
        r.push(v[m]);
        m = m + 1;
        assert(r@ =~= v@.take(m as int));
    }
    assert(v@.take(m as int) =~= v@);
    r
}

/// Each pair whose bucket in `angles` is not empty is marked in `inited`.
pub open spec fn all_quoted(angles: Seq<Vec<usize>>, inited: Seq<bool>) -> bool {
    forall|p: int| 0 <= p < angles.len() && #[trigger] angles[p]@.len() > 0 ==> inited[p]
}

/// Why a feed event was refused.
#[derive(Debug, Clone, Copy, PartialEq, Eq, Structural)]
pub enum FeedError {
    /// a price or quantity is not a decimal in range
    BadNumber,
}

/// The detector: the pair arena, the cycles, the quote index and the state
/// of the cold start.
pub struct TriAngleArb {
    /// the pairs, the one with id `p + 1` at position `p`, each with its
    /// latest quote
    id_pairs: Vec<TradingPair>,
    tri_pairs: Vec<TriPair>,
    /// bucket `p`: the positions of the cycles that trade on pair id `p + 1`
    angles: Vec<Vec<usize>>,
    /// whether pair id `p + 1` has had a quote
    inited: Vec<bool>,
    /// false during the cold start, true once running
    running: bool,
}

impl TriAngleArb {
    /// The pairs, the one with id `p + 1` at position `p`, with their latest
    /// quotes.
    pub closed spec fn pairs_of(&self) -> Seq<TradingPair> {
        self.id_pairs@
    }

    /// The cycles.
    pub closed spec fn cycles(&self) -> Seq<TriPair> {
        self.tri_pairs@
    }

    /// The quote index: bucket `p` lists the cycles that trade on pair id
    /// `p + 1`.
    pub closed spec fn index(&self) -> Seq<Vec<usize>> {
        self.angles@
    }

    /// Whether pair id `p + 1` has had a quote.
    pub closed spec fn quoted(&self) -> Seq<bool> {
        self.inited@
    }

    /// Whether the cold start is over.
    pub closed spec fn is_running(&self) -> bool {
        self.running
    }

    pub fn id_pairs(&self) -> (r: &Vec<TradingPair>)
        ensures
            r@ == self.pairs_of(),
    {
        &self.id_pairs
    }

    pub fn tri_pairs(&self) -> (r: &Vec<TriPair>)
        ensures
            r@ == self.cycles(),
    {
        &self.tri_pairs
    }

    pub fn angles(&self) -> (r: &Vec<Vec<usize>>)
        ensures
            r@ == self.index(),
    {
        &self.angles
    }

    pub fn running(&self) -> (r: bool)
        ensures
            r == self.is_running(),
    {
        self.running
    }

    pub open spec fn wf(&self) -> bool {
        &&& catalog_ids(self.pairs_of())
        &&& self.index().len() == self.pairs_of().len()
        &&& self.quoted().len() == self.pairs_of().len()
        &&& index_exact(self.cycles(), self.index())
    }

    /// Pair id `p + 1` is referenced by some cycle.
    pub open spec fn watched(&self, p: int) -> bool {
        self.index()[p]@.len() > 0
    }

    /// Every pair that a cycle references has had a quote.
    pub open spec fn all_inited(&self) -> bool {
        all_quoted(self.index(), self.quoted())
    }

    /// Pair id `p + 1` is referenced by a cycle and still has no quote.
    pub open spec fn pending(&self, p: int) -> bool {
        self.watched(p) && !self.quoted()[p]
    }

    /// Sets up the detector over a catalog: derives the cycles, builds the
    /// quote index and starts the cold start, which is over at once when no
    /// cycle exists.
    pub fn new(
        pairs: Vec<TradingPair>,
        base_quotes: &Vec<String>,
        allow_coins: Option<Vec<String>>,
        exclude_coins: Option<Vec<String>>,
    ) -> (r: TriAngleArb)
        requires
            catalog_ids(pairs@),
        ensures
            r.wf(),
            r.pairs_of() == pairs@,
            derive_post(r.cycles(), pairs@, base_quotes@, allow_coins, exclude_coins),
            no_repeat(r.cycles()),
            built_all(
                r.cycles(),
                pairs@,
                derive_combos(
                    pairs@,
                    bridge_rows(pairs@, base_quotes@, base_quotes@.len() as int),
                    first_coins(pairs@, pairs@.len() as int),
                    allow_coins,
                    exclude_coins,
                    first_coins(pairs@, pairs@.len() as int).len() as int,
                ),
            ),
            forall|p: int| 0 <= p < r.quoted().len() ==> !#[trigger] r.quoted()[p],
            r.is_running() == r.all_inited(),
    {
        let ghost allow = allow_coins;
        let ghost deny = exclude_coins;
        proof {
            assert forall|n: int, m: int| 0 <= n < m < pairs@.len() implies #[trigger] pairs@[n].idx != #[trigger] pairs@[m].idx by {
                assert(pairs@[n].idx == n + 1);
                assert(pairs@[m].idx == m + 1);
            }
            assert(ids_unique(pairs@));
        }
        let tri_pairs = derive_tri_pairs(&pairs, base_quotes, allow_coins, exclude_coins);
        proof {
            lemma_derived_ids_within(tri_pairs@, pairs@, base_quotes@, allow, deny);
        }
        let angles = to_tri_angle_symbol(&tri_pairs, pairs.len());
        let mut inited: Vec<bool> = Vec::new();
        while inited.len() < pairs.len()
            invariant
                inited@.len() <= pairs@.len(),
                forall|p: int| 0 <= p < inited@.len() ==> !#[trigger] inited@[p],
            decreases pairs@.len() - inited@.len(),
        {
            inited.push(false);
        }
        let mut arb = TriAngleArb { id_pairs: pairs, tri_pairs, angles, inited, running: false };
        let ready = arb.is_initialized();
        arb.running = ready;
        arb
    }

    /// Whether every pair that a cycle references has had a quote.
    pub fn is_initialized(&self) -> (r: bool)
        requires
            self.wf(),
        ensures
            r == self.all_inited(),
    {
        let mut p: usize = 0;
        while p < self.angles.len()
            invariant
                self.wf(),
                p <= self.index().len(),
                forall|q: int| 0 <= q < p && #[trigger] self.index()[q]@.len() > 0 ==> self.quoted()[q],
            decreases self.index().len() - p,
        {
            if self.angles[p].len() > 0 && !self.inited[p] {
                assert(self.watched(p as int));
                return false;
            }
            p = p + 1;
        }
        true
    }

    /// The id of the pair whose exchange symbol is `symbol`, if any.
    pub fn symbol_index(&self, symbol: &str) -> (r: Option<u32>)
        requires
            self.wf(),
        ensures
            match r {
                Some(id) => {
                    &&& 1 <= id <= self.pairs_of().len()
                    &&& self.pairs_of()[id - 1].symbol@ == symbol@
                    &&& forall|q: int| 0 <= q < id - 1 ==> (#[trigger] self.pairs_of()[q]).symbol@ != symbol@
                },
                None => forall|p: int| 0 <= p < self.pairs_of().len() ==> (#[trigger] self.pairs_of()[p]).symbol@ != symbol@,
            },
    {
        let s = String::from_str(symbol);
        let mut p: usize = 0;
        while p < self.id_pairs.len()
            invariant
                self.wf(),
                s@ == symbol@,
                p <= self.pairs_of().len(),
                forall|q: int| 0 <= q < p ==> (#[trigger] self.pairs_of()[q]).symbol@ != symbol@,
            decreases self.pairs_of().len() - p,
        {
            if self.id_pairs[p].symbol == s {
                return Some(self.id_pairs[p].idx);
            }
            p = p + 1;
        }
        None
    }

    /// The id of the pair whose text is `text` (`BASE/QUOTE`), if any.
    pub fn text_index(&self, text: &str) -> (r: Option<u32>)
        requires
            self.wf(),
        ensures
            match r {
                Some(id) => 1 <= id <= self.pairs_of().len() && self.pairs_of()[id - 1].symbol_id@ == text@,
                None => forall|p: int| 0 <= p < self.pairs_of().len() ==> (#[trigger] self.pairs_of()[p]).symbol_id@ != text@,
            },
    {
        let s = String::from_str(text);
        let mut p: usize = 0;
        while p < self.id_pairs.len()
            invariant
                self.wf(),
                s@ == text@,
                p <= self.pairs_of().len(),
                forall|q: int| 0 <= q < p ==> (#[trigger] self.pairs_of()[q]).symbol_id@ != text@,
            decreases self.pairs_of().len() - p,
        {
            if self.id_pairs[p].symbol_id == s {
                return Some(self.id_pairs[p].idx);
            }
            p = p + 1;
        }
        None
    }

    /// The pair with id `id`, if any.
    pub fn pair_by_id(&self, id: u32) -> (r: Option<&TradingPair>)
        requires
            self.wf(),
        ensures
            match r {
                Some(p) => 1 <= id <= self.pairs_of().len() && *p == self.pairs_of()[id - 1],
                None => !(1 <= id <= self.pairs_of().len()),
            },
    {
        if id >= 1 && (id as usize) <= self.id_pairs.len() {
            Some(&self.id_pairs[(id - 1) as usize])
        } else {
            None
        }
    }

    /// Takes a quote: stores it as the latest of its pair and marks the
    /// pair as quoted. While running, returns the positions of the cycles
    /// that trade on the pair; during the cold start returns none, and
    /// moves to running once every referenced pair has had a quote. A quote
    /// for an unknown id changes nothing.
    pub fn on_tick(&mut self, tick: Ticker) -> (r: Vec<usize>)
        requires
            old(self).wf(),
        ensures
            final(self).wf(),
            final(self).cycles() == old(self).cycles(),
            final(self).index() == old(self).index(),
            1 <= tick.idx <= old(self).pairs_of().len() ==> {
                let p = tick.idx - 1;
                &&& final(self).pairs_of() == old(self).pairs_of().update(
                    p,
                    TradingPair { tick: tick, ..old(self).pairs_of()[p] },
                )
                &&& final(self).quoted() == old(self).quoted().update(p, true)
                &&& final(self).is_running() == (old(self).is_running() || final(self).all_inited())
                &&& r@ == if old(self).is_running() {
                    old(self).index()[p]@
                } else {
                    Seq::empty()
                }
            },
            !(1 <= tick.idx <= old(self).pairs_of().len()) ==> *final(self) == *old(self) && r@.len() == 0,
    {
        let n = self.id_pairs.len();
        if tick.idx < 1 || tick.idx as usize > n {
            return Vec::new();
        }
        let p = (tick.idx - 1) as usize;
        let ghost old_pairs = self.pairs_of();
        self.id_pairs[p].tick = tick;
        assert(self.pairs_of() =~= old_pairs.update(p as int, TradingPair { tick: tick, ..old_pairs[p as int] }));
        self.inited.set(p, true);
        assert(catalog_ids(self.pairs_of())) by {
            assert forall|q: int| 0 <= q < self.pairs_of().len() implies (#[trigger] self.pairs_of()[q]).idx == q + 1 && self.pairs_of()[q].wf() by {
                assert(old_pairs[q].idx == q + 1 && old_pairs[q].wf());
            }
        }
        if self.running {
            copy_bucket(&self.angles[p])
        } else {
            let ready = self.is_initialized();
            self.running = ready;
            Vec::new()
        }
    }

    /// The latest quotes of the three pairs of the cycle at position `t`.
    pub fn tickers_of(&self, t: usize) -> (r: [Ticker; 3])
        requires
            self.wf(),
            t < self.cycles().len(),
        ensures
            forall|k: int| 0 <= k < 3 ==> #[trigger] r[k] == self.pairs_of()[self.cycles()[t as int].pairs[k] - 1].tick,
    {
        let tp = &self.tri_pairs[t];
        assert(1 <= self.cycles()[t as int].pairs[0] <= self.pairs_of().len());
        assert(1 <= self.cycles()[t as int].pairs[1] <= self.pairs_of().len());
        assert(1 <= self.cycles()[t as int].pairs[2] <= self.pairs_of().len());
        let r = [
            self.id_pairs[(tp.pairs[0] - 1) as usize].tick,
            self.id_pairs[(tp.pairs[1] - 1) as usize].tick,
            self.id_pairs[(tp.pairs[2] - 1) as usize].tick,
        ];
        assert(r[0] == self.pairs_of()[self.cycles()[t as int].pairs[0] - 1].tick);
        r
    }

    /// The ids, in increasing order, of the pairs that a cycle references
    /// and that have had no quote yet.
    pub fn uninitialized(&self) -> (r: Vec<u32>)
        requires
            self.wf(),
        ensures
            forall|m: int| 0 <= m < r@.len() ==> 1 <= #[trigger] r@[m] <= self.pairs_of().len() && self.pending(r@[m] - 1),
            forall|p: int| 0 <= p < self.index().len() && #[trigger] self.pending(p) ==> r@.contains((p + 1) as u32),
            forall|m: int, n: int| 0 <= m < n < r@.len() ==> r@[m] < r@[n],
    {
        let mut r: Vec<u32> = Vec::new();
        let mut p: usize = 0;
        while p < self.angles.len()
            invariant
                self.wf(),
                p <= self.index().len(),
                forall|m: int| 0 <= m < r@.len() ==> 1 <= #[trigger] r@[m] <= p && self.pending(r@[m] - 1),
                forall|q: int| 0 <= q < p && #[trigger] self.pending(q) ==> r@.contains((q + 1) as u32),
                forall|m: int, n: int| 0 <= m < n < r@.len() ==> r@[m] < r@[n],
            decreases self.index().len() - p,
        {
            if self.angles[p].len() > 0 && !self.inited[p] {
                assert(self.pairs_of()[p as int].idx == p + 1);
                let ghost old_r = r@;
                r.push(self.id_pairs[p].idx);
                assert(r@[old_r.len() as int] == (p + 1) as u32);
                assert forall|q: int| 0 <= q < p + 1 && #[trigger] self.pending(q) implies r@.contains((q + 1) as u32) by {
                    if q < p {
                        let m = choose|m: int| 0 <= m < old_r.len() && old_r[m] == (q + 1) as u32;
                        assert(r@[m] == old_r[m]);
                    } else {
                        assert(r@[old_r.len() as int] == (q + 1) as u32);
                    }
                }
            }
            p = p + 1;
        }
        r
    }

    /// The cold-start deadline: once `elapsed_ms` reaches `timeout_ms` while
    /// still in the cold start, moves to running and returns the ids of the
    /// pairs still without a quote. Otherwise changes nothing and returns
    /// `None`.
    pub fn check_deadline(&mut self, elapsed_ms: u64, timeout_ms: u64) -> (r: Option<Vec<u32>>)
        requires
            old(self).wf(),
        ensures
            final(self).wf(),
            !old(self).is_running() && elapsed_ms >= timeout_ms ==> {
                &&& final(self).is_running()
                &&& final(self).pairs_of() == old(self).pairs_of()
                &&& final(self).cycles() == old(self).cycles()
                &&& final(self).index() == old(self).index()
                &&& final(self).quoted() == old(self).quoted()
                &&& r matches Some(v) && {
                    &&& forall|m: int| 0 <= m < v@.len() ==> 1 <= #[trigger] v@[m] <= old(self).pairs_of().len() && old(self).pending(v@[m] - 1)
                    &&& forall|p: int| 0 <= p < old(self).index().len() && #[trigger] old(self).pending(p) ==> v@.contains((p + 1) as u32)
                    &&& forall|m: int, n: int| 0 <= m < n < v@.len() ==> v@[m] < v@[n]
                }
            },
            !(!old(self).is_running() && elapsed_ms >= timeout_ms) ==> *final(self) == *old(self) && r is None,
    {
        if !self.running && elapsed_ms >= timeout_ms {
            let v = self.uninitialized();
            self.running = true;
            Some(v)
        } else {
            None
        }
    }

    /// Takes a feed event for the exchange symbol `symbol`. An unknown
    /// symbol is dropped: nothing changes and no cycle is returned. A known
    /// one with a number that does not read (see `Ticker::from`: at most
    /// eight fraction digits) fails with `BadNumber` and changes nothing;
    /// otherwise the quote goes to `on_tick` for the first pair with that
    /// symbol.
    pub fn on_feed_event(
        &mut self,
        symbol: &str,
        best_ask: &str,
        best_ask_qty: &str,
        best_bid: &str,
        best_bid_qty: &str,
    ) -> (r: Result<Vec<usize>, FeedError>)
        requires
            old(self).wf(),
        ensures
            final(self).wf(),
            (forall|p: int| 0 <= p < old(self).pairs_of().len() ==> (#[trigger] old(self).pairs_of()[p]).symbol@ != symbol@)
                ==> *final(self) == *old(self) && (r matches Ok(v) && v@.len() == 0),
            !(readable(best_ask@) && readable(best_ask_qty@) && readable(best_bid@) && readable(best_bid_qty@))
                ==> *final(self) == *old(self),
            r is Err <==> (exists|p: int| 0 <= p < old(self).pairs_of().len() && (#[trigger] old(self).pairs_of()[p]).symbol@ == symbol@)
                && !(readable(best_ask@) && readable(best_ask_qty@) && readable(best_bid@) && readable(best_bid_qty@)),
            final(self).cycles() == old(self).cycles(),
            final(self).index() == old(self).index(),
            (exists|p: int| 0 <= p < old(self).pairs_of().len() && (#[trigger] old(self).pairs_of()[p]).symbol@ == symbol@)
                && readable(best_ask@) && readable(best_ask_qty@) && readable(best_bid@) && readable(best_bid_qty@)
                ==> exists|t: Ticker|
                {
                    // the quote goes to the first pair with that symbol
                    &&& 1 <= t.idx <= old(self).pairs_of().len()
                    &&& old(self).pairs_of()[t.idx - 1].symbol@ == symbol@
                    &&& forall|q: int| 0 <= q < t.idx - 1 ==> (#[trigger] old(self).pairs_of()[q]).symbol@ != symbol@
                    &&& reads_as(best_ask@, t.ba[0]) && reads_as(best_ask_qty@, t.ba[1])
                    &&& reads_as(best_bid@, t.bb[0]) && reads_as(best_bid_qty@, t.bb[1])
                    &&& final(self).pairs_of() == old(self).pairs_of().update(
                        t.idx - 1,
                        TradingPair { tick: t, ..old(self).pairs_of()[t.idx - 1] },
                    )
                    &&& final(self).quoted() == old(self).quoted().update(t.idx - 1, true)
                    &&& final(self).is_running() == (old(self).is_running() || final(self).all_inited())
                    &&& (r matches Ok(v) && v@ == if old(self).is_running() {
                        old(self).index()[t.idx - 1]@
                    } else {
                        Seq::empty()
                    })
                },
    {
        match self.symbol_index(symbol) {
            None => Ok(Vec::new()),
            Some(id) => {
                match Ticker::from(id, best_ask, best_ask_qty, best_bid, best_bid_qty) {
                    None => Err(FeedError::BadNumber),
                    Some(tick) => {
                        proof {
                            assert(readable(best_ask@)) by {
                                let k = choose|k: int| point_at(best_ask@, k) && tick.ba[0] == fixed_value(best_ask@, k);
                            }
                            assert(readable(best_ask_qty@)) by {
                                let k = choose|k: int| point_at(best_ask_qty@, k) && tick.ba[1] == fixed_value(best_ask_qty@, k);
                            }
                            assert(readable(best_bid@)) by {
                                let k = choose|k: int| point_at(best_bid@, k) && tick.bb[0] == fixed_value(best_bid@, k);
                            }
                            assert(readable(best_bid_qty@)) by {
                                let k = choose|k: int| point_at(best_bid_qty@, k) && tick.bb[1] == fixed_value(best_bid_qty@, k);
                            }
                        }
                        let r = self.on_tick(tick);
                        assert(tick.idx == id);
                        Ok(r)
                    },
                }
            },
        }
    }
}

} // verus!
