//! The meaning of a molecular formula, as spec functions over its bytes.
//!
//! A formula is scanned for element symbols, each with a local coefficient
//! (the digits written right after it, 1 when there are none). Every symbol's
//! coefficient is then multiplied by the group multipliers that reach it: a
//! number written at the start of the formula or after a punctuation mark other
//! than `)` reaches forward to the end of its component (a `.` at the same
//! parenthesis depth) or of its enclosing group; a number written after `)`
//! reaches back over the group that this `)` closes. An atom count is the sum of
//! the coefficients of the positions that hold the element's symbol.
use vstd::prelude::*;
use crate::periodic_table::{element_id, is_known_symbol, unknown_symbol_message, EARTH_ELEMENT_CNT};
use crate::util::{bytes_text, char_debug};

verus! {

pub open spec fn upper_byte(b: u8) -> bool {
    65 <= b <= 90
}

pub open spec fn lower_byte(b: u8) -> bool {
    97 <= b <= 122
}

pub open spec fn digit_byte(b: u8) -> bool {
    48 <= b <= 57
}

/// The punctuation a formula may hold: `( ) + - . [ ]`.
pub open spec fn punct_byte(b: u8) -> bool {
    b == 40 || b == 41 || b == 43 || b == 45 || b == 46 || b == 91 || b == 93
}

/// The second byte of the symbol that starts at `p`: the lowercase letter right
/// after it, or 0.
pub open spec fn second_byte(s: Seq<u8>, p: int) -> u8 {
    if p + 1 < s.len() && lower_byte(s[p + 1]) {
        s[p + 1]
    } else {
        0
    }
}

/// The position right after the symbol that starts at `p`.
pub open spec fn symbol_end(s: Seq<u8>, p: int) -> int {
    if p + 1 < s.len() && lower_byte(s[p + 1]) {
        p + 2
    } else {
        p + 1
    }
}

/// The end of the run of digits that starts at `a`.
pub open spec fn run_end(s: Seq<u8>, a: int) -> int
    decreases s.len() - a,
{
    if 0 <= a < s.len() && digit_byte(s[a]) {
        run_end(s, a + 1)
    } else {
        a
    }
}

/// A run of digits ends at or after its start, and within the formula.
pub proof fn lemma_run_end_bounds(s: Seq<u8>, k: int)
    ensures
        run_end(s, k) >= k,
        k <= s.len() ==> run_end(s, k) <= s.len(),
    decreases s.len() - k,
{
    if 0 <= k < s.len() && digit_byte(s[k]) {
        lemma_run_end_bounds(s, k + 1);
    }
}

/// The decimal value of the digits `s[a..b]`.
pub open spec fn digits_value(s: Seq<u8>, a: int, b: int) -> nat
    decreases b - a,
{
    if b <= a {
        0
    } else {
        digits_value(s, a, b - 1) * 10 + (s[b - 1] - 48) as nat
    }
}

/// The number written at `a`, or 1 when no digit stands there.
pub open spec fn number_at(s: Seq<u8>, a: int) -> nat {
    if 0 <= a < s.len() && digit_byte(s[a]) {
        digits_value(s, a, run_end(s, a))
    } else {
        1
    }
}

/// The local coefficient of the symbol that starts at `p`.
pub open spec fn local_coeff(s: Seq<u8>, p: int) -> nat {
    number_at(s, symbol_end(s, p))
}

/// The element of the symbol that starts at `p`.
pub open spec fn element_at(s: Seq<u8>, p: int) -> int {
    element_id(s[p], second_byte(s, p))
}

/// Position `p` cannot be read: an unknown symbol starts there, a lowercase
/// letter stands there that does not follow an uppercase one, or another byte
/// that a formula may not hold.
pub open spec fn fault_at(s: Seq<u8>, p: int) -> bool {
    let b = s[p];
    if upper_byte(b) {
        !is_known_symbol(b, second_byte(s, p))
    } else if lower_byte(b) {
        !(p > 0 && upper_byte(s[p - 1]))
    } else {
        !(digit_byte(b) || punct_byte(b))
    }
}

/// Every position of the formula can be read.
pub open spec fn scan_ok(s: Seq<u8>) -> bool {
    forall|p: int| 0 <= p < s.len() ==> !fault_at(s, p)
}

/// `p` is the first position that cannot be read.
pub open spec fn is_first_fault(s: Seq<u8>, p: int) -> bool {
    &&& 0 <= p < s.len()
    &&& fault_at(s, p)
    &&& forall|q: int| 0 <= q < p ==> !fault_at(s, q)
}

pub open spec fn first_fault(s: Seq<u8>) -> int {
    choose|p: int| is_first_fault(s, p)
}

/// What is wrong at position `p`.
pub open spec fn fault_message(s: Seq<u8>, p: int) -> Seq<char> {
    if upper_byte(s[p]) {
        unknown_symbol_message(s[p], second_byte(s, p))
    } else {
        "Unexpected symbol: "@ + char_debug(s[p])
    }
}

pub open spec fn paren_delta(b: u8) -> int {
    if b == 40 {
        1
    } else if b == 41 {
        -1
    } else {
        0
    }
}

/// Parenthesis depth before position `n`: the `(` minus the `)` in `s[..n]`.
pub open spec fn depth(s: Seq<u8>, n: int) -> int
    decreases n,
{
    if n <= 0 {
        0
    } else {
        depth(s, n - 1) + paren_delta(s[n - 1])
    }
}

/// Every `)` closes an earlier `(`, and every `(` is closed.
pub open spec fn parens_match(s: Seq<u8>) -> bool {
    &&& forall|n: int| 0 <= n <= s.len() ==> depth(s, n) >= 0
    &&& depth(s, s.len() as int) == 0
}

/// A forward-reaching multiplier at depth `d` goes on over position `q`.
pub open spec fn passes(s: Seq<u8>, d: int, q: int) -> bool {
    depth(s, q) >= d && !(s[q] == 46 && depth(s, q) == d)
}

/// A multiplier at depth `d` whose reach starts at `start` reaches position `p`.
pub open spec fn forward_reaches(s: Seq<u8>, start: int, d: int, p: int) -> bool {
    &&& start <= p < s.len()
    &&& forall|q: int| start <= q <= p ==> #[trigger] passes(s, d, q)
}

/// The group closed by the `)` at `c` holds position `p`.
pub open spec fn backward_reaches(s: Seq<u8>, c: int, p: int) -> bool {
    &&& 0 <= p < c
    &&& forall|q: int| p <= q <= c ==> #[trigger] depth(s, q) >= depth(s, c)
}

/// A leading multiplier starts at `k`: a digit at the start of the formula or
/// right after punctuation other than `)`.
pub open spec fn leads_group(s: Seq<u8>, k: int) -> bool {
    &&& 0 <= k < s.len()
    &&& digit_byte(s[k])
    &&& (k == 0 || (punct_byte(s[k - 1]) && s[k - 1] != 41))
}

/// The factor that position `k` contributes to the coefficient at `p`.
pub open spec fn factor(s: Seq<u8>, k: int, p: int) -> nat {
    if leads_group(s, k) && forward_reaches(s, run_end(s, k), depth(s, k), p) {
        digits_value(s, k, run_end(s, k))
    } else if 0 <= k < s.len() && s[k] == 41 && backward_reaches(s, k, p) {
        number_at(s, k + 1)
    } else {
        1
    }
}

/// The product of the factors that positions `..n` contribute at `p`.
pub open spec fn group_factor(s: Seq<u8>, p: int, n: int) -> nat
    decreases n,
{
    if n <= 0 {
        1
    } else {
        (group_factor(s, p, n - 1) * factor(s, n - 1, p)) as nat
    }
}

/// The coefficient of the symbol that starts at `p`, all multipliers applied.
pub open spec fn coefficient(s: Seq<u8>, p: int) -> nat {
    (local_coeff(s, p) * group_factor(s, p, s.len() as int)) as nat
}

/// The atoms of element `e` that the symbols in `s[..n]` contribute.
pub open spec fn partial_count(s: Seq<u8>, e: int, n: int) -> nat
    decreases n,
{
    if n <= 0 {
        0
    } else {
        partial_count(s, e, n - 1) + if upper_byte(s[n - 1]) && element_at(s, n - 1) == e {
            coefficient(s, n - 1)
        } else {
            0
        }
    }
}

/// The number of atoms of element `e` in the formula.
pub open spec fn atom_count(s: Seq<u8>, e: int) -> nat {
    partial_count(s, e, s.len() as int)
}

/// `x`, or `u32::MAX` where `x` exceeds it.
pub open spec fn saturate(x: int) -> u32 {
    if x > u32::MAX {
        u32::MAX
    } else {
        x as u32
    }
}

/// The counts that parsing yields, one per element: exact up to `u32::MAX`,
/// and `u32::MAX` above it.
pub open spec fn formula_counts(s: Seq<u8>) -> Seq<u32> {
    Seq::new(EARTH_ELEMENT_CNT as nat, |e: int| saturate(atom_count(s, e) as int))
}

/// The formula can be read and its parentheses match.
pub open spec fn formula_parses(s: Seq<u8>) -> bool {
    scan_ok(s) && parens_match(s)
}

pub open spec fn mismatch_message() -> Seq<char> {
    "The opening and closing parentheses don't match."@
}

/// Why a formula that does not parse fails: its first unreadable position,
/// else its parentheses.
pub open spec fn failure_detail(s: Seq<u8>) -> Seq<char> {
    if !scan_ok(s) {
        fault_message(s, first_fault(s))
    } else {
        mismatch_message()
    }
}

/// The message of a formula that does not parse.
pub open spec fn invalid_formula_message(s: Seq<u8>) -> Seq<char> {
    "Invalid Molecular Formula: "@ + bytes_text(s) + ". Details: "@ + failure_detail(s)
}

/// The bytes that `u8::is_ascii_whitespace` accepts: space, tab, line feed,
/// form feed, carriage return.
pub open spec fn ascii_whitespace(b: u8) -> bool {
    b == 32 || b == 9 || b == 10 || b == 12 || b == 13
}

/// `s` without its leading and trailing ASCII whitespace.
pub open spec fn trim_ascii(s: Seq<u8>) -> Seq<u8>
    decreases s.len(),
{
    if s.len() > 0 && ascii_whitespace(s[0]) {
        trim_ascii(s.drop_first())
    } else if s.len() > 0 && ascii_whitespace(s.last()) {
        trim_ascii(s.drop_last())
    } else {
        s
    }
}

/// `saturate` commutes with multiplication of naturals.
pub proof fn lemma_saturate_mul(x: int, y: int)
    requires
        x >= 0,
        y >= 0,
    ensures
        saturate(saturate(x) * y) == saturate(x * y),
        saturate(y * saturate(x)) == saturate(x * y),
{
    if x > u32::MAX && y > 0 {
        assert(x * y >= x) by (nonlinear_arith)
            requires
                x >= 0,
                y >= 1,
        ;
        assert(u32::MAX * y >= u32::MAX) by (nonlinear_arith)
            requires
                y >= 1,
        ;
    }
    assert(y * saturate(x) == saturate(x) * y) by (nonlinear_arith);
    assert(y * x == x * y) by (nonlinear_arith);
}

/// `saturate` commutes with addition of naturals.
pub proof fn lemma_saturate_add(x: int, y: int)
    requires
        x >= 0,
        y >= 0,
    ensures
        saturate(saturate(x) + y) == saturate(x + y),
        saturate(y + saturate(x)) == saturate(x + y),
{
}

} // verus!
