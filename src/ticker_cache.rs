use vstd::prelude::*;

use crate::tri_pair::TriPair;

verus! {

/// The cycles grouped under symbols, each symbol numbered from 1 in the
/// order given.
#[derive(Debug)]
pub struct TickerCache {
    /// the cycles of the symbol with id `p + 1` at position `p`
    pub pairs: Vec<Vec<TriPair>>,
    /// the symbol with id `p + 1` at position `p`
    pub symbol_id: Vec<String>,
}

impl TickerCache {
    pub fn new(pairs: Vec<(String, Vec<TriPair>)>) -> (r: TickerCache)
        ensures
            r.pairs@.len() == pairs@.len(),
            r.symbol_id@.len() == pairs@.len(),
            forall|p: int| 0 <= p < pairs@.len() ==> (#[trigger] r.symbol_id@[p])@ == pairs@[p].0@ && r.pairs@[p] == pairs@[p].1,
    {
        let ghost input = pairs@;
        let mut pairs = pairs;
        // taken from the back, so reversed
        let mut rev_syms: Vec<String> = Vec::new();
        let mut rev_tris: Vec<Vec<TriPair>> = Vec::new();
        while pairs.len() > 0
            invariant
                pairs@ == input.take(pairs@.len() as int),
                pairs@.len() <= input.len(),
                rev_syms@.len() == input.len() - pairs@.len(),
                rev_tris@.len() == rev_syms@.len(),
                forall|m: int| 0 <= m < rev_syms@.len() ==> #[trigger] rev_syms@[m] == input[input.len() - 1 - m].0
                    && rev_tris@[m] == input[input.len() - 1 - m].1,
            decreases pairs@.len(),
        {
            let (s, v) = pairs.pop().unwrap();
            assert(pairs@ =~= input.take(pairs@.len() as int));
            rev_syms.push(s);
            rev_tris.push(v);
        }
        let mut symbol_id: Vec<String> = Vec::new();
        let mut tris: Vec<Vec<TriPair>> = Vec::new();
        while rev_syms.len() > 0
            invariant
                rev_tris@.len() == rev_syms@.len(),
                rev_syms@.len() + symbol_id@.len() == input.len(),
                tris@.len() == symbol_id@.len(),
                forall|m: int| 0 <= m < rev_syms@.len() ==> #[trigger] rev_syms@[m] == input[input.len() - 1 - m].0
                    && rev_tris@[m] == input[input.len() - 1 - m].1,
                forall|p: int| 0 <= p < symbol_id@.len() ==> #[trigger] symbol_id@[p] == input[p].0 && tris@[p] == input[p].1,
            decreases rev_syms@.len(),
        {
            let s = rev_syms.pop().unwrap();
            let v = rev_tris.pop().unwrap();
            symbol_id.push(s);
            tris.push(v);
        }
        TickerCache { pairs: tris, symbol_id }
    }
}

} // verus!
