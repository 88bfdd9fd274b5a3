//! Powers of numbers, as the caller supplies them.
//!
//! Raising one number to another has no result that the binary64 format
//! fixes, so the evaluator does not compute it. It looks the power up in a
//! [`PowerTable`]; where the table has no answer, the evaluation stops and
//! says which power it needs.

use crate::table::{
    absent_from, lemma_pairs_absent, lemma_pairs_found, lemma_pairs_push, pairs_map,
};
use vstd::prelude::*;

verus! {

struct Row {
    base: u64,
    exponent: u64,
    value: u64,
}

/// Known powers: for a base and an exponent, both as bit patterns, the bit
/// pattern of the base raised to the exponent.
pub struct PowerTable {
    rows: Vec<Row>,
}

impl View for PowerTable {
    type V = Map<(u64, u64), u64>;

    closed spec fn view(&self) -> Map<(u64, u64), u64> {
        pairs_map(self.pairs())
    }
}

impl PowerTable {
    closed spec fn pairs(&self) -> Seq<((u64, u64), u64)> {
        self.rows@.map_values(|r: Row| ((r.base, r.exponent), r.value))
    }

    /// A table without any power.
    pub fn new() -> (r: PowerTable)
        ensures
            r@ == Map::<(u64, u64), u64>::empty(),
    {
        let r = PowerTable { rows: Vec::new() };
        r
    }

    /// Records that `base` raised to `exponent` is `value`, in place of what
    /// was recorded for the two before.
    pub fn record(&mut self, base: u64, exponent: u64, value: u64)
        ensures
            final(self)@ == old(self)@.insert((base, exponent), value),
    {
        let ghost before = self.pairs();
        proof {
            lemma_pairs_push(before, (base, exponent), value);
        }
        self.rows.push(Row { base, exponent, value });
        assert(self.pairs() =~= before.push(((base, exponent), value)));
    }

    /// The power recorded for `base` and `exponent`, if there is one.
    pub fn lookup(&self, base: u64, exponent: u64) -> (r: Option<u64>)
        ensures
            r == if self@.contains_key((base, exponent)) {
                Some(self@[(base, exponent)])
            } else {
                None
            },
    {
        let ghost key = (base, exponent);
        let mut i: usize = self.rows.len();
        while i > 0
            invariant
                i <= self.rows.len(),
                key == (base, exponent),
                absent_from(self.pairs(), key, i as int),
            decreases i,
        {
            i = i - 1;
            if self.rows[i].base == base && self.rows[i].exponent == exponent {
                proof {
                    lemma_pairs_found(self.pairs(), i as int);
                }
                return Some(self.rows[i].value);
            }
        }
        proof {
            lemma_pairs_absent(self.pairs(), key);
        }
        None
    }
}

} // verus!
