//! Properties of parsing and formatting that hold for all formulas.
use vstd::prelude::*;
use crate::atom_counts::{formula_text, AtomCounts};
use crate::errors::{ChemikazeError, ErrorKind};
use crate::mf_parser::{is_empty_formula_error, parsed_as, text_parsed_as};
use crate::model::{
    ascii_whitespace, atom_count, fault_at, fault_message, first_fault, formula_counts,
    formula_parses, is_first_fault, mismatch_message, parens_match, scan_ok, trim_ascii,
};
use crate::periodic_table::EARTH_ELEMENT_CNT;
use crate::util::bytes_text;

verus! {

/// `n` ASCII spaces.
pub open spec fn spaces(n: nat) -> Seq<u8> {
    Seq::new(n, |i: int| 32u8)
}

/// Two formulas with the same atoms format identically, whatever order or
/// grouping they were written in.
pub proof fn same_atoms_same_format(x: Seq<u8>, y: Seq<u8>, cx: AtomCounts, cy: AtomCounts)
    requires
        parsed_as(x, Ok(cx)),
        parsed_as(y, Ok(cy)),
        forall|e: int| 0 <= e < EARTH_ELEMENT_CNT ==> atom_count(x, e) == atom_count(y, e),
    ensures
        cx.counts@ == cy.counts@,
        formula_text(cx.counts@) == formula_text(cy.counts@),
{
    assert(formula_counts(x) =~= formula_counts(y));
}

/// A formula whose parentheses do not match never parses; when it can be read,
/// its error names the parentheses.
pub proof fn mismatched_parentheses_fail(s: Seq<u8>, r: Result<AtomCounts, ChemikazeError>)
    requires
        !parens_match(s),
        parsed_as(s, r),
    ensures
        !formula_parses(s),
        r matches Err(e) && e.kind == ErrorKind::Parsing,
        scan_ok(s) ==> (r matches Err(e) && e.msg@ == "Invalid Molecular Formula: "@ + bytes_text(s)
            + ". Details: "@ + mismatch_message()),
{
}

/// Some position before `n` holds a fault, so a first one exists.
proof fn lemma_first_fault_exists(s: Seq<u8>, n: int)
    requires
        0 <= n <= s.len(),
        exists|p: int| 0 <= p < n && fault_at(s, p),
    ensures
        is_first_fault(s, first_fault(s)),
    decreases n,
{
    if exists|p: int| 0 <= p < n - 1 && fault_at(s, p) {
        lemma_first_fault_exists(s, n - 1);
    } else {
        assert(is_first_fault(s, n - 1));
    }
}

/// A formula with an unknown symbol or an unexpected character fails as a
/// parsing error that names the formula and its first unreadable position.
pub proof fn unreadable_formula_fails(s: Seq<u8>, r: Result<AtomCounts, ChemikazeError>)
    requires
        !scan_ok(s),
        parsed_as(s, r),
    ensures
        is_first_fault(s, first_fault(s)),
        r matches Err(e) && e.kind == ErrorKind::Parsing,
        r matches Err(e) && e.msg@ == "Invalid Molecular Formula: "@ + bytes_text(s) + ". Details: "@
            + fault_message(s, first_fault(s)),
{
    lemma_first_fault_exists(s, s.len() as int);
}

proof fn lemma_trim_trailing_spaces(a: Seq<u8>, m: nat)
    ensures
        trim_ascii(a + spaces(m)) == trim_ascii(a),
    decreases a.len() + m,
{
    let s = a + spaces(m);
    if a.len() > 0 && ascii_whitespace(a[0]) {
        assert(s.drop_first() =~= a.drop_first() + spaces(m));
        lemma_trim_trailing_spaces(a.drop_first(), m);
    } else if m > 0 {
        assert(s.drop_last() =~= a + spaces((m - 1) as nat));
        lemma_trim_trailing_spaces(a, (m - 1) as nat);
        if a.len() == 0 {
            assert(s.len() > 0 && ascii_whitespace(s[0]));
            assert(s.drop_first() =~= s.drop_last());
        }
    } else {
        assert(s =~= a);
    }
}

proof fn lemma_trim_leading_spaces(b: Seq<u8>, n: nat)
    ensures
        trim_ascii(spaces(n) + b) == trim_ascii(b),
    decreases n,
{
    if n > 0 {
        let s = spaces(n) + b;
        assert(s.drop_first() =~= spaces((n - 1) as nat) + b);
        lemma_trim_leading_spaces(b, (n - 1) as nat);
    } else {
        assert(spaces(n) + b =~= b);
    }
}

/// Spaces around a formula never change its parse result, and a formula of
/// spaces alone (or of nothing) fails as empty.
pub proof fn surrounding_spaces_ignored(
    x: Seq<u8>,
    n: nat,
    m: nat,
    r: Result<AtomCounts, ChemikazeError>,
)
    ensures
        text_parsed_as(spaces(n) + x + spaces(m), r) == text_parsed_as(x, r),
        text_parsed_as(spaces(n), r) == is_empty_formula_error(r),
{
    assert(spaces(n) + x + spaces(m) =~= spaces(n) + (x + spaces(m)));
    lemma_trim_leading_spaces(x + spaces(m), n);
    lemma_trim_trailing_spaces(x, m);
    lemma_trim_leading_spaces(Seq::empty(), n);
    assert(spaces(n) + Seq::<u8>::empty() =~= spaces(n));
}
} // verus!
