//! Parsing without keeping a parser: each call builds its own.
use vstd::prelude::*;
use vstd::string::StringSliceAdditionalSpecFns;
use crate::atom_counts::AtomCounts;
use crate::errors::ChemikazeError;
use crate::mf_parser::{text_parsed_as, MfParser};

verus! {

/// Parses a formula given as text: trims surrounding ASCII whitespace and
/// rejects a formula that is then empty.
pub fn parse_mf(mf: &str) -> (r: Result<AtomCounts, ChemikazeError>)
    ensures
        text_parsed_as(mf.spec_bytes(), r),
{
    MfParser::new().parse_mf(mf)
}

/// Parses a formula given as ASCII bytes: trims surrounding ASCII whitespace
/// and rejects a formula that is then empty.
pub fn parse_mf_ascii(mf: &[u8]) -> (r: Result<AtomCounts, ChemikazeError>)
    ensures
        text_parsed_as(mf@, r),
{
    MfParser::new().parse_mf_ascii(mf)
}

/// Parses the formula `mf[mf_start..mf_end]` as `parse_mf_ascii` does: trims
/// surrounding ASCII whitespace and rejects a chunk that is then empty.
pub fn parse_mf_ascii_chunk(mf: &[u8], mf_start: usize, mf_end: usize) -> (r: Result<
    AtomCounts,
    ChemikazeError,
>)
    requires
        mf_start <= mf_end <= mf@.len(),
    ensures
        text_parsed_as(mf@.subrange(mf_start as int, mf_end as int), r),
{
    MfParser::new().parse_mf_ascii(&mf[mf_start..mf_end])
}

} // verus!
