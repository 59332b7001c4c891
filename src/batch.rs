//! Parsing many formulas with one parser.
use vstd::prelude::*;
use crate::mf_parser::MfParser;
use crate::model::{atom_count, formula_parses, lemma_saturate_add, saturate};

verus! {

/// Hydrogen atoms (element 0) over the formulas `mfs[..k]`.
pub open spec fn hydrogen_total(mfs: Seq<Seq<u8>>, k: int) -> nat
    decreases k,
{
    if k <= 0 {
        0
    } else {
        hydrogen_total(mfs, k - 1) + atom_count(mfs[k - 1], 0)
    }
}

/// Parses each formula (free of surrounding whitespace) `n` times with one
/// parser and returns the hydrogen atoms counted over all parses, saturating at
/// `u32::MAX`.
pub fn parse_mfs(mfs: &Vec<&[u8]>, n: usize) -> (r: u32)
    requires
        forall|i: int| 0 <= i < mfs@.len() ==> formula_parses(#[trigger] mfs@[i]@),
    ensures
        r == saturate(n * hydrogen_total(mfs@.map_values(|m: &[u8]| m@), mfs@.len() as int)),
{
    let ghost all = mfs@.map_values(|m: &[u8]| m@);
    let ghost total = hydrogen_total(all, mfs@.len() as int) as int;
    let mut parser = MfParser::new();
    let mut hcount: u32 = 0;
    let mut round: usize = 0;
    while round < n
        invariant
            round <= n,
            all == mfs@.map_values(|m: &[u8]| m@),
            total == hydrogen_total(all, mfs@.len() as int),
            forall|i: int| 0 <= i < mfs@.len() ==> formula_parses(#[trigger] mfs@[i]@),
            hcount == saturate(round * total),
        decreases n - round,
    {
        let mut k: usize = 0;
        while k < mfs.len()
            invariant
                    round < n,
                k <= mfs@.len(),
                all == mfs@.map_values(|m: &[u8]| m@),
                total == hydrogen_total(all, mfs@.len() as int),
                forall|i: int| 0 <= i < mfs@.len() ==> formula_parses(#[trigger] mfs@[i]@),
                hcount == saturate(round * total + hydrogen_total(all, k as int)),
            decreases mfs@.len() - k,
        {
            let mf = mfs[k];
            assert(all[k as int] == mf@);
            let parsed = parser.parse_mf_sanitized(mf);
            if let Ok(counts) = parsed {
                let h = counts.counts[0];
                proof {
                    let before = round * total + hydrogen_total(all, k as int);
                    assert(round * total >= 0) by (nonlinear_arith)
                        requires
                            total >= 0,
                    ;
                    lemma_saturate_add(before, atom_count(mf@, 0) as int);
                    lemma_saturate_add(atom_count(mf@, 0) as int, saturate(before) as int);
                }
                hcount = hcount.saturating_add(h);
            }
            k += 1;
        }
        assert(hydrogen_total(all, mfs@.len() as int) == total);
        assert(round * total + total == (round + 1) * total) by (nonlinear_arith);
        round += 1;
    }
    hcount
}

} // verus!
