use vstd::prelude::*;
use crate::periodic_table::{symbol_text, EARTH_ELEMENT_CNT, EARTH_SYMBOLS_AS_BYTES};
use crate::util::{decimal_text, push_char, push_decimal};

verus! {

/// Atom counts of a formula, one per element id, in the element table's order.
#[derive(Debug)]
pub struct AtomCounts {
    pub counts: Vec<u32>,
}

/// The text for `count` atoms of element `id`: nothing for none, the bare
/// symbol for one, else the symbol followed by the count.
pub open spec fn count_text(id: int, count: u32) -> Seq<char> {
    if count == 0 {
        Seq::empty()
    } else if count == 1 {
        symbol_text(id)
    } else {
        symbol_text(id) + decimal_text(count as nat)
    }
}

/// The canonical formula of the first `n` counts, in element table order.
pub open spec fn counts_text(counts: Seq<u32>, n: int) -> Seq<char>
    decreases n,
{
    if n <= 0 {
        Seq::empty()
    } else {
        counts_text(counts, n - 1) + count_text(n - 1, counts[n - 1])
    }
}

/// The canonical formula of a counts vector.
pub open spec fn formula_text(counts: Seq<u32>) -> Seq<char> {
    counts_text(counts, counts.len() as int)
}

impl AtomCounts {
    /// One count per known element.
    pub open spec fn wf(&self) -> bool {
        self.counts@.len() == EARTH_ELEMENT_CNT
    }

    /// The canonical formula: the elements in table order, each with a count
    /// above zero, followed by its count when that is above one (`"H2O"`).
    pub fn to_string(&self) -> (r: String)
        requires
            self.wf(),
        ensures
            r@ == formula_text(self.counts@),
    {
        let mut s = String::new();
        let mut i: usize = 0;
        while i < self.counts.len()
            invariant
                self.wf(),
                i <= EARTH_ELEMENT_CNT,
                s@ == counts_text(self.counts@, i as int),
            decreases EARTH_ELEMENT_CNT - i,
        {
            let val = self.counts[i];
            let ghost before = s@;
            if val != 0 {
                let first = EARTH_SYMBOLS_AS_BYTES[2 * i];
                let second = EARTH_SYMBOLS_AS_BYTES[2 * i + 1];
                push_char(&mut s, first as char);
                if second != 0 {
                    push_char(&mut s, second as char);
                }
                assert(s@ =~= before + symbol_text(i as int));
            }
            if val > 1 {
                push_decimal(&mut s, val);
            }
            assert(s@ =~= before + count_text(i as int, val));
            i += 1;
        }
        s
    }
}

} // verus!
