use vstd::prelude::*;
use vstd::string::*;
use crate::atom_counts::AtomCounts;
use crate::errors::{ChemikazeError, ErrorKind};
use crate::model::{
    ascii_whitespace, backward_reaches, coefficient, depth, digit_byte, digits_value, element_at,
    factor, fault_at, fault_message, first_fault, formula_counts, formula_parses, forward_reaches,
    group_factor, invalid_formula_message, is_first_fault, leads_group, lemma_saturate_add,
    lemma_saturate_mul, local_coeff, lower_byte, mismatch_message,
    number_at, paren_delta, parens_match, partial_count, passes, punct_byte, run_end, saturate,
    scan_ok, second_byte, symbol_end, trim_ascii, upper_byte,
};
use crate::periodic_table::{
    get_element_by_symbol_bytes, is_known_symbol, lemma_symbol_unique, EARTH_ELEMENT_CNT,
};
use crate::util::{bytes_text, bytes_to_string, char_debug_string};

verus! {

/// `(`
const OP: u8 = 40;

/// `)`
const CP: u8 = 41;

/// `.`
const DOT: u8 = 46;

/// `0`
const ZERO: u8 = 48;

/// `lo <= val <= hi`.
pub(crate) fn between(lo: u8, hi: u8, val: u8) -> (r: bool)
    ensures
        r == (lo <= val && val <= hi),
{
    lo <= val && val <= hi
}

/// An ASCII digit.
pub(crate) fn is_digit(b: u8) -> (r: bool)
    ensures
        r == digit_byte(b),
{
    between(48, 57, b)
}

/// An ASCII lowercase letter.
pub(crate) fn is_small_letter(b: u8) -> (r: bool)
    ensures
        r == lower_byte(b),
{
    between(97, 122, b)
}

/// An ASCII uppercase letter.
pub(crate) fn is_capital_letter(b: u8) -> (r: bool)
    ensures
        r == upper_byte(b),
{
    between(65, 90, b)
}

/// One of `( ) + - . [ ]`.
pub(crate) fn is_punctuation(b: u8) -> (r: bool)
    ensures
        r == punct_byte(b),
{
    b == 40 || b == 41 || b == 43 || b == 45 || b == 46 || b == 91 || b == 93
}

/// `a * b`, or `u32::MAX` where that overflows.
fn saturating_mul(a: u32, b: u32) -> (r: u32)
    ensures
        r == saturate(a * b),
{
    match a.checked_mul(b) {
        Some(x) => x,
        None => u32::MAX,
    }
}

/// `a + b`, or `u32::MAX` where that overflows.
fn saturating_add(a: u32, b: u32) -> (r: u32)
    ensures
        r == saturate(a + b),
{
    a.saturating_add(b)
}

/// `saturate` of a product of two saturated naturals.
proof fn lemma_saturate_mul_both(x: int, y: int)
    requires
        x >= 0,
        y >= 0,
    ensures
        saturate(saturate(x) * saturate(y)) == saturate(x * y),
{
    lemma_saturate_mul(y, saturate(x) as int);
    lemma_saturate_mul(x, y);
}

/// Applying one more factor to a saturated coefficient.
proof fn lemma_scaled(l: nat, gf: nat, f: nat)
    ensures
        saturate(saturate((l * gf) as int) * saturate(f as int)) == saturate((l * ((gf * f) as nat)) as int),
        gf * f >= 0,
        l * gf >= 0,
{
    assert(gf * f >= 0) by (nonlinear_arith);
    assert(l * gf >= 0) by (nonlinear_arith);
    assert((l * gf) * f == l * (gf * f)) by (nonlinear_arith);
    lemma_saturate_mul_both((l * gf) as int, f as int);
}

/// The coefficient at `p` after position `i` contributed its factor.
proof fn lemma_factor_step(
    s: Seq<u8>,
    p: int,
    i: int,
    reached: bool,
    g: u32,
    before: u32,
    after: u32,
)
    requires
        i >= 0,
        before == if upper_byte(s[p]) {
            saturate((local_coeff(s, p) * group_factor(s, p, i)) as int)
        } else {
            0
        },
        after == if reached {
            saturate(before * g)
        } else {
            before
        },
        reached ==> g == saturate(factor(s, i, p) as int),
        !reached ==> factor(s, i, p) == 1,
    ensures
        after == if upper_byte(s[p]) {
            saturate((local_coeff(s, p) * group_factor(s, p, i + 1)) as int)
        } else {
            0
        },
{
    let l = local_coeff(s, p);
    let gf = group_factor(s, p, i);
    let f = factor(s, i, p);
    assert(group_factor(s, p, i + 1) == (gf * f) as nat);
    lemma_scaled(l, gf, f);
    if !reached {
        assert(gf * 1 == gf);
    }
}

/// A leading group multiplier starts at `i`.
fn starts_group_coeff(mf: &[u8], i: usize) -> (r: bool)
    requires
        i < mf@.len(),
    ensures
        r == leads_group(mf@, i as int),
{
    is_digit(mf[i]) && (i == 0 || (is_punctuation(mf[i - 1]) && mf[i - 1] != CP))
}

/// `p` is the first unreadable position.
proof fn lemma_first_fault(s: Seq<u8>, p: int)
    requires
        is_first_fault(s, p),
    ensures
        first_fault(s) == p,
        !scan_ok(s),
{
    let q = first_fault(s);
    assert(is_first_fault(s, q));
    if q < p {
        assert(!fault_at(s, q));
    } else if p < q {
        assert(!fault_at(s, p));
    }
}

/// Reads the number that starts at `start` (1 when no digit stands there),
/// saturating at `u32::MAX`; also returns the position after its digits.
fn consume_coeff(mf: &[u8], start: usize) -> (r: (u32, usize))
    requires
        start <= mf@.len(),
    ensures
        r.0 == saturate(number_at(mf@, start as int) as int),
        r.1 == run_end(mf@, start as int),
        start <= r.1 <= mf@.len(),
        depth(mf@, r.1 as int) == depth(mf@, start as int),
        forall|q: int| start <= q < r.1 ==> digit_byte(#[trigger] mf@[q]),
{
    if start >= mf.len() || !is_digit(mf[start]) {
        return (1, start);
    }
    let mut multiplier: u32 = 0;
    let mut i = start;
    while i < mf.len() && is_digit(mf[i])
        invariant
            start <= i <= mf@.len(),
            start < mf@.len(),
            digit_byte(mf@[start as int]),
            multiplier == saturate(digits_value(mf@, start as int, i as int) as int),
            run_end(mf@, start as int) == run_end(mf@, i as int),
            depth(mf@, i as int) == depth(mf@, start as int),
            forall|q: int| start <= q < i ==> digit_byte(#[trigger] mf@[q]),
        decreases mf@.len() - i,
    {
        let ghost v = digits_value(mf@, start as int, i as int) as int;
        proof {
            lemma_saturate_mul(v, 10);
            lemma_saturate_add(v * 10, (mf@[i as int] - 48) as int);
        }
        multiplier = saturating_add(saturating_mul(multiplier, 10), (mf[i] - ZERO) as u32);
        i += 1;
    }
    (multiplier, i)
}

/// `r` is what parsing the (trimmed) formula `s` yields: its atom counts when
/// it can be read and its parentheses match, else a `Parsing` error that names
/// the formula and the reason.
pub open spec fn parsed_as(s: Seq<u8>, r: Result<AtomCounts, ChemikazeError>) -> bool {
    match r {
        Ok(c) => formula_parses(s) && c.counts@ == formula_counts(s),
        Err(e) => {
            &&& !formula_parses(s)
            &&& e.kind == ErrorKind::Parsing
            &&& e.msg@ == invalid_formula_message(s)
        },
    }
}

/// Each symbol that starts before `n` has its element recorded in `elements`.
#[verifier::opaque]
pub open spec fn elements_recorded(s: Seq<u8>, elements: Seq<u8>, n: int) -> bool {
    forall|p: int|
        0 <= p < n && p < s.len() && upper_byte(s[p]) ==> #[trigger] recorded_at(s, elements, p)
}

/// The symbol that starts at `p` has its element recorded there.
pub open spec fn recorded_at(s: Seq<u8>, elements: Seq<u8>, p: int) -> bool {
    &&& elements[p] == element_at(s, p)
    &&& 0 <= element_at(s, p)
    &&& element_at(s, p) < EARTH_ELEMENT_CNT
}

/// A position that holds no symbol start keeps the elements recorded.
proof fn lemma_recorded_extend(s: Seq<u8>, elements: Seq<u8>, n: int)
    requires
        elements_recorded(s, elements, n),
        0 <= n < s.len(),
        !upper_byte(s[n]),
    ensures
        elements_recorded(s, elements, n + 1),
{
    reveal(elements_recorded);
}

/// The element recorded at a symbol start.
proof fn lemma_recorded_at(s: Seq<u8>, elements: Seq<u8>, n: int, p: int)
    requires
        elements_recorded(s, elements, n),
        0 <= p < n,
        p < s.len(),
        upper_byte(s[p]),
    ensures
        elements[p] == element_at(s, p),
        0 <= element_at(s, p) < EARTH_ELEMENT_CNT,
{
    reveal(elements_recorded);
    assert(recorded_at(s, elements, p));
}

/// The sum of the non-zero coefficients in `coeffs[..n]` whose slot in
/// `elements` names element `e`.
pub open spec fn slot_sum(elements: Seq<u8>, coeffs: Seq<u32>, e: int, n: int) -> nat
    decreases n,
{
    if n <= 0 {
        0
    } else {
        slot_sum(elements, coeffs, e, n - 1) + if coeffs[n - 1] > 0 && elements[n - 1] == e {
            coeffs[n - 1] as nat
        } else {
            0
        }
    }
}

/// Summing the slots that scanning and propagation filled gives the atom
/// counts of the formula.
proof fn lemma_slot_sum_counts(
    s: Seq<u8>,
    elements: Seq<u8>,
    coeffs: Seq<u32>,
    e: int,
    n: int,
)
    requires
        coeffs.len() == s.len(),
        elements.len() == s.len(),
        0 <= n <= s.len(),
        forall|p: int|
            0 <= p < s.len() ==> #[trigger] coeffs[p] == if upper_byte(s[p]) {
                saturate(coefficient(s, p) as int)
            } else {
                0
            },
        elements_recorded(s, elements, s.len() as int),
    ensures
        saturate(slot_sum(elements, coeffs, e, n) as int) == saturate(partial_count(s, e, n) as int),
    decreases n,
{
    if n > 0 {
        let p = n - 1;
        lemma_slot_sum_counts(s, elements, coeffs, e, p);
        let a = slot_sum(elements, coeffs, e, p) as int;
        let pc = partial_count(s, e, p) as int;
        if upper_byte(s[p]) {
            lemma_recorded_at(s, elements, s.len() as int, p);
            if element_at(s, p) == e {
                let c = coefficient(s, p) as int;
                let sc = saturate(c) as int;
                lemma_saturate_add(a, sc);
                lemma_saturate_add(pc, sc);
                lemma_saturate_add(c, pc);
            }
        }
    }
}

/// `r` is the error for a formula that is empty once trimmed.
pub open spec fn is_empty_formula_error(r: Result<AtomCounts, ChemikazeError>) -> bool {
    r matches Err(e) && e.kind == ErrorKind::Parsing && e.msg@ == "Empty Molecular Formula"@
}

/// `r` is what parsing a text with the bytes `bytes` yields: the empty-formula
/// error when nothing but whitespace is there, else the result for the text
/// without its surrounding whitespace.
pub open spec fn text_parsed_as(bytes: Seq<u8>, r: Result<AtomCounts, ChemikazeError>) -> bool {
    if trim_ascii(bytes).len() == 0 {
        is_empty_formula_error(r)
    } else {
        parsed_as(trim_ascii(bytes), r)
    }
}

/// Bounds of `mf` without its leading and trailing ASCII whitespace.
fn trim_ascii_bounds(mf: &[u8]) -> (r: (usize, usize))
    ensures
        r.0 <= r.1 <= mf@.len(),
        mf@.subrange(r.0 as int, r.1 as int) == trim_ascii(mf@),
{
    let ghost s = mf@;
    let mut start: usize = 0;
    assert(s.subrange(0, s.len() as int) =~= s);
    while start < mf.len() && is_ascii_whitespace(mf[start])
        invariant
            s == mf@,
            start <= s.len(),
            trim_ascii(s) == trim_ascii(s.subrange(start as int, s.len() as int)),
        decreases s.len() - start,
    {
        let ghost t = s.subrange(start as int, s.len() as int);
        assert(t.drop_first() =~= s.subrange(start + 1, s.len() as int));
        start += 1;
    }
    let mut end: usize = mf.len();
    while end > start && is_ascii_whitespace(mf[end - 1])
        invariant
            s == mf@,
            start <= end <= s.len(),
            start < s.len() ==> !ascii_whitespace(s[start as int]),
            trim_ascii(s) == trim_ascii(s.subrange(start as int, end as int)),
        decreases end,
    {
        let ghost t = s.subrange(start as int, end as int);
        assert(t.drop_last() =~= s.subrange(start as int, end - 1));
        end -= 1;
    }
    (start, end)
}

/// Space, tab, line feed, form feed or carriage return.
fn is_ascii_whitespace(b: u8) -> (r: bool)
    ensures
        r == ascii_whitespace(b),
{
    b == 32 || b == 9 || b == 10 || b == 12 || b == 13
}

/// Passes a success through; wraps an error with the formula for context.
fn err_if_invalid_mf<T>(mf: &[u8], result: Result<T, ChemikazeError>) -> (r: Result<
    (),
    ChemikazeError,
>)
    ensures
        r is Ok <==> result is Ok,
        match result {
            Ok(_) => true,
            Err(inner) => r matches Err(e) && e.kind == ErrorKind::Parsing && e.msg@
                == "Invalid Molecular Formula: "@ + bytes_text(mf@) + ". Details: "@ + inner.msg@,
        },
{
    match result {
        Ok(_) => Ok(()),
        Err(inner) => {
            let mut msg = String::from_str("Invalid Molecular Formula: ");
            msg.append(bytes_to_string(mf).as_str());
            msg.append(". Details: ");
            msg.append(inner.msg.as_str());
            Err(ChemikazeError { kind: ErrorKind::Parsing, msg })
        },
    }
}

/// A parser of molecular formulas. Its buffers, one slot per formula byte, are
/// reused from one formula to the next; a parser serves one formula at a time.
pub struct MfParser {
    coeffs: Vec<u32>,
    elements: Vec<u8>,
}

impl MfParser {
    /// A parser whose buffers start with room for `capacity` formula bytes.
    pub fn with_capacity(capacity: usize) -> Self {
        MfParser {
            coeffs: Vec::with_capacity(capacity),
            elements: Vec::with_capacity(capacity),
        }
    }

    /// A parser with room for short formulas.
    pub fn new() -> Self {
        Self::with_capacity(20)
    }

    /// Parses a formula given as text: trims surrounding ASCII whitespace and
    /// rejects a formula that is then empty.
    pub fn parse_mf(&mut self, mf: &str) -> (r: Result<AtomCounts, ChemikazeError>)
        ensures
            text_parsed_as(mf.spec_bytes(), r),
    {
        self.parse_mf_ascii(mf.as_bytes())
    }

    /// Parses a formula given as ASCII bytes: trims surrounding ASCII
    /// whitespace and rejects a formula that is then empty.
    pub fn parse_mf_ascii(&mut self, mf: &[u8]) -> (r: Result<AtomCounts, ChemikazeError>)
        ensures
            text_parsed_as(mf@, r),
    {
        let (start, end) = trim_ascii_bounds(mf);
        if start == end {
            return Err(
                ChemikazeError {
                    kind: ErrorKind::Parsing,
                    msg: String::from_str("Empty Molecular Formula"),
                },
            );
        }
        self.parse_mf_sanitized(&mf[start..end])
    }

    /// Parses a formula that holds no surrounding whitespace.
    pub fn parse_mf_sanitized(&mut self, mf: &[u8]) -> (r: Result<AtomCounts, ChemikazeError>)
        ensures
            parsed_as(mf@, r),
    {
        self.coeffs.clear();
        self.elements.clear();
        let mut k: usize = 0;
        while k < mf.len()
            invariant
                k <= mf@.len(),
                self.coeffs@.len() == k,
                self.elements@.len() == k,
                forall|p: int| 0 <= p < k ==> #[trigger] self.coeffs@[p] == 0,
            decreases mf@.len() - k,
        {
            self.coeffs.push(0);
            self.elements.push(0);
            k += 1;
        }
        let scanned = self.read_symbols_and_coeffs(mf);
        let checked = err_if_invalid_mf(mf, scanned);
        if let Err(e) = checked {
            return Err(e);
        }
        let applied = self.find_and_apply_group_coeff(mf);
        let checked = err_if_invalid_mf(mf, applied);
        if let Err(e) = checked {
            return Err(e);
        }
        proof {
            assert forall|q: int|
                0 <= q < self.coeffs@.len() && self.coeffs@[q] > 0 implies #[trigger] self.elements@[q]
                < EARTH_ELEMENT_CNT by {
                lemma_recorded_at(mf@, self.elements@, mf@.len() as int, q);
            }
        }
        let counts = self.combine_into_atom_counts();
        proof {
            assert forall|e: int| 0 <= e < EARTH_ELEMENT_CNT implies counts@[e] == formula_counts(
                mf@,
            )[e] by {
                lemma_slot_sum_counts(mf@, self.elements@, self.coeffs@, e, mf@.len() as int);
            }
            assert(counts@ =~= formula_counts(mf@));
        }
        Ok(AtomCounts { counts })
    }

    /// Sums the coefficients of each element into its count: each non-zero
    /// coefficient goes to the element recorded in the same slot, saturating at
    /// `u32::MAX`.
    fn combine_into_atom_counts(&self) -> (r: Vec<u32>)
        requires
            self.elements@.len() == self.coeffs@.len(),
            forall|q: int|
                0 <= q < self.coeffs@.len() && self.coeffs@[q] > 0 ==> #[trigger] self.elements@[q]
                    < EARTH_ELEMENT_CNT,
        ensures
            r@.len() == EARTH_ELEMENT_CNT,
            forall|e: int|
                0 <= e < EARTH_ELEMENT_CNT ==> #[trigger] r@[e] == saturate(
                    slot_sum(self.elements@, self.coeffs@, e, self.coeffs@.len() as int) as int,
                ),
    {
        let ghost el = self.elements@;
        let ghost co = self.coeffs@;
        let mut result: Vec<u32> = vec![0u32; EARTH_ELEMENT_CNT];
        let mut i: usize = 0;
        while i < self.coeffs.len()
            invariant
                el == self.elements@,
                co == self.coeffs@,
                i <= co.len(),
                el.len() == co.len(),
                forall|q: int| 0 <= q < co.len() && co[q] > 0 ==> #[trigger] el[q] < EARTH_ELEMENT_CNT,
                result@.len() == EARTH_ELEMENT_CNT,
                forall|e: int|
                    0 <= e < EARTH_ELEMENT_CNT ==> #[trigger] result@[e] == saturate(
                        slot_sum(el, co, e, i as int) as int,
                    ),
            decreases co.len() - i,
        {
            let c = self.coeffs[i];
            if c > 0 {
                let e = self.elements[i] as usize;
                let v = saturating_add(result[e], c);
                result.set(e, v);
            }
            assert forall|e: int| 0 <= e < EARTH_ELEMENT_CNT implies #[trigger] result@[e] == saturate(
                slot_sum(el, co, e, i + 1) as int,
            ) by {
                lemma_saturate_add(slot_sum(el, co, e, i as int) as int, c as int);
            }
            i += 1;
        }
        result
    }

    /// Reads the symbol that starts at `pos` and the coefficient written after
    /// it; records both at `pos` and returns the position after the coefficient.
    fn consume_symbol_and_coeff(&mut self, mf: &[u8], pos: usize) -> (r: Result<
        usize,
        ChemikazeError,
    >)
        requires
            pos < mf@.len(),
            upper_byte(mf@[pos as int]),
            old(self).coeffs@.len() == mf@.len(),
            old(self).elements@.len() == mf@.len(),
            elements_recorded(mf@, old(self).elements@, pos as int),
        ensures
            final(self).coeffs@.len() == mf@.len(),
            final(self).elements@.len() == mf@.len(),
            match r {
                Ok(end) => {
                    &&& elements_recorded(mf@, final(self).elements@, end as int)
                    &&& is_known_symbol(mf@[pos as int], second_byte(mf@, pos as int))
                    &&& pos < end <= mf@.len()
                    &&& end == run_end(mf@, symbol_end(mf@, pos as int))
                    &&& forall|q: int| pos < q < end ==> !upper_byte(#[trigger] mf@[q]) && !fault_at(mf@, q)
                    &&& (end == pos + 1 ==> end == mf@.len() || !lower_byte(mf@[end as int]))
                    &&& final(self).coeffs@ == old(self).coeffs@.update(
                        pos as int,
                        saturate(local_coeff(mf@, pos as int) as int),
                    )
                    &&& final(self).elements@ == old(self).elements@.update(
                        pos as int,
                        element_at(mf@, pos as int) as u8,
                    )
                    &&& 0 <= element_at(mf@, pos as int) < EARTH_ELEMENT_CNT
                },
                Err(e) => {
                    &&& !is_known_symbol(mf@[pos as int], second_byte(mf@, pos as int))
                    &&& e.kind == ErrorKind::UnknownElement
                    &&& e.msg@ == fault_message(mf@, pos as int)
                },
            },
    {
        let ghost s = mf@;
        let first = mf[pos];
        let mut i = pos + 1;
        let symbol: [u8; 2] = if i < mf.len() && is_small_letter(mf[i]) {
            let second = mf[i];
            i += 1;
            [first, second]
        } else {
            [first, 0]
        };
        assert(symbol[0] == s[pos as int] && symbol[1] == second_byte(s, pos as int));
        assert(i == symbol_end(s, pos as int));
        let element = match get_element_by_symbol_bytes(symbol) {
            Ok(element) => element,
            Err(e) => {
                return Err(e);
            },
        };
        proof {
            lemma_symbol_unique(element as int, symbol[0], symbol[1]);
        }
        let ghost old_elements = self.elements@;
        self.elements.set(pos, element);
        let (coeff, end) = consume_coeff(mf, i);
        self.coeffs.set(pos, coeff);
        reveal(elements_recorded);
        assert forall|p: int|
            0 <= p < end && p < s.len() && upper_byte(s[p]) implies #[trigger] recorded_at(
                s,
                self.elements@,
                p,
            ) by {
            if p < pos {
                assert(recorded_at(s, old_elements, p));
            }
        }
        Ok(end)
    }

    /// Finds the symbols and their local coefficients: records, at the position
    /// where each symbol starts, its element and its coefficient.
    fn read_symbols_and_coeffs(&mut self, mf: &[u8]) -> (r: Result<(), ChemikazeError>)
        requires
            old(self).coeffs@.len() == mf@.len(),
            old(self).elements@.len() == mf@.len(),
            forall|p: int| 0 <= p < mf@.len() ==> #[trigger] old(self).coeffs@[p] == 0,
        ensures
            final(self).coeffs@.len() == mf@.len(),
            final(self).elements@.len() == mf@.len(),
            r is Ok <==> scan_ok(mf@),
            r matches Err(e) ==> e.msg@ == fault_message(mf@, first_fault(mf@)),
            r matches Err(e) ==> e.kind == if upper_byte(mf@[first_fault(mf@)]) {
                ErrorKind::UnknownElement
            } else {
                ErrorKind::Parsing
            },
            r is Ok ==> forall|p: int|
                0 <= p < mf@.len() ==> #[trigger] final(self).coeffs@[p] == if upper_byte(mf@[p]) {
                    saturate(local_coeff(mf@, p) as int)
                } else {
                    0
                },
            r is Ok ==> elements_recorded(mf@, final(self).elements@, mf@.len() as int),
    {
        let ghost s = mf@;
        let mut i: usize = 0;
        proof {
            reveal(elements_recorded);
        }
        while i < mf.len()
            invariant
                s == mf@,
                i <= s.len(),
                self.coeffs@.len() == s.len(),
                self.elements@.len() == s.len(),
                forall|q: int| 0 <= q < i ==> !fault_at(s, q),
                0 < i < s.len() && upper_byte(s[i - 1]) ==> !lower_byte(s[i as int]),
                forall|p: int|
                    0 <= p < s.len() ==> #[trigger] self.coeffs@[p] == if p < i && upper_byte(s[p]) {
                        saturate(local_coeff(s, p) as int)
                    } else {
                        0
                    },
                elements_recorded(s, self.elements@, i as int),
            decreases s.len() - i,
        {
            let b = mf[i];
            if is_capital_letter(b) {
                match self.consume_symbol_and_coeff(mf, i) {
                    Ok(end) => {
                        i = end;
                    },
                    Err(e) => {
                        proof {
                            assert(fault_at(s, i as int));
                            lemma_first_fault(s, i as int);
                        }
                        return Err(e);
                    },
                }
            } else if is_digit(b) || is_punctuation(b) {
                proof {
                    lemma_recorded_extend(s, self.elements@, i as int);
                }
                i += 1;
            } else {
                proof {
                    assert(fault_at(s, i as int));
                    lemma_first_fault(s, i as int);
                }
                let mut msg = String::from_str("Unexpected symbol: ");
                msg.append(char_debug_string(b).as_str());
                return Err(ChemikazeError { kind: ErrorKind::Parsing, msg });
            }
        }
        Ok(())
    }

    /// Applies the group multipliers: a number at the start of the formula or
    /// after punctuation other than `)` multiplies the coefficients that follow
    /// it (`5Cl`, `O.5Cl`); a number after `)` multiplies the group that the `)`
    /// closes (`(CO)2`). Fails when the parentheses do not match.
    fn find_and_apply_group_coeff(&mut self, mf: &[u8]) -> (r: Result<(), ChemikazeError>)
        requires
            old(self).coeffs@.len() == mf@.len(),
            forall|p: int|
                0 <= p < mf@.len() ==> #[trigger] old(self).coeffs@[p] == if upper_byte(mf@[p]) {
                    saturate(local_coeff(mf@, p) as int)
                } else {
                    0
                },
        ensures
            final(self).elements == old(self).elements,
            final(self).coeffs@.len() == mf@.len(),
            r is Ok <==> parens_match(mf@),
            r matches Err(e) ==> e.kind == ErrorKind::Parsing && e.msg@ == mismatch_message(),
            r is Ok ==> forall|p: int|
                0 <= p < mf@.len() ==> #[trigger] final(self).coeffs@[p] == if upper_byte(mf@[p]) {
                    saturate(coefficient(mf@, p) as int)
                } else {
                    0
                },
    {
        let ghost s = mf@;
        let mut curr_stack_depth: usize = 0;
        let mut i: usize = 0;
        proof {
            assert forall|p: int| 0 <= p < s.len() implies #[trigger] self.coeffs@[p] == if upper_byte(
                s[p],
            ) {
                saturate((local_coeff(s, p) * group_factor(s, p, 0)) as int)
            } else {
                0
            } by {
                assert(local_coeff(s, p) * 1 == local_coeff(s, p));
            }
        }
        while i < mf.len()
            invariant
                s == mf@,
                i <= s.len(),
                self.elements == old(self).elements,
                self.coeffs@.len() == s.len(),
                curr_stack_depth == depth(s, i as int),
                curr_stack_depth <= i,
                forall|n: int| 0 <= n <= i ==> depth(s, n) >= 0,
                forall|p: int|
                    0 <= p < s.len() ==> #[trigger] self.coeffs@[p] == if upper_byte(s[p]) {
                        saturate((local_coeff(s, p) * group_factor(s, p, i as int)) as int)
                    } else {
                        0
                    },
            decreases s.len() - i,
        {
            let b = mf[i];
            let ghost before = self.coeffs@;
            let mut coeff: u32 = 1;
            if starts_group_coeff(mf, i) {
                let (c, end) = consume_coeff(mf, i);
                coeff = c;
                self.scale_forward(mf, end, curr_stack_depth, coeff);
            } else if b == OP {
                curr_stack_depth += 1;
            } else if b == CP {
                if curr_stack_depth == 0 {
                    assert(depth(s, i + 1) < 0);
                    return Err(
                        ChemikazeError {
                            kind: ErrorKind::Parsing,
                            msg: String::from_str("The opening and closing parentheses don't match."),
                        },
                    );
                }
                let (c, _) = consume_coeff(mf, i + 1);
                coeff = c;
                self.scale_backward(mf, i, coeff);
                curr_stack_depth -= 1;
            }
            proof {
                let ghost reached = |p: int| if leads_group(s, i as int) {
                    forward_reaches(s, run_end(s, i as int), depth(s, i as int), p)
                } else {
                    s[i as int] == CP && backward_reaches(s, i as int, p)
                };
                assert forall|p: int| 0 <= p < s.len() implies #[trigger] self.coeffs@[p] == if upper_byte(
                    s[p],
                ) {
                    saturate((local_coeff(s, p) * group_factor(s, p, i + 1)) as int)
                } else {
                    0
                } by {
                    lemma_factor_step(s, p, i as int, reached(p), coeff, before[p], self.coeffs@[p]);
                }
            }
            i += 1;
        }
        if curr_stack_depth != 0 {
            return Err(
                ChemikazeError {
                    kind: ErrorKind::Parsing,
                    msg: String::from_str("The opening and closing parentheses don't match."),
                },
            );
        }
        proof {
            assert forall|p: int| 0 <= p < s.len() && upper_byte(s[p]) implies coefficient(s, p)
                == local_coeff(s, p) * group_factor(s, p, s.len() as int) by {
                lemma_scaled(local_coeff(s, p), group_factor(s, p, s.len() as int), 1);
            }
        }
        Ok(())
    }

    /// Multiplies by `group_coeff` every coefficient that a multiplier at depth
    /// `d`, whose reach starts at `lo`, reaches: up to a `.` at depth `d` or the
    /// end of the enclosing group.
    fn scale_forward(&mut self, mf: &[u8], lo: usize, d: usize, group_coeff: u32)
        requires
            lo <= mf@.len(),
            old(self).coeffs@.len() == mf@.len(),
            d == depth(mf@, lo as int),
        ensures
            final(self).elements == old(self).elements,
            final(self).coeffs@.len() == mf@.len(),
            forall|p: int|
                0 <= p < mf@.len() ==> #[trigger] final(self).coeffs@[p] == if forward_reaches(
                    mf@,
                    lo as int,
                    d as int,
                    p,
                ) {
                    saturate(old(self).coeffs@[p] * group_coeff)
                } else {
                    old(self).coeffs@[p]
                },
    {
        if group_coeff == 1 {
            // the usual case: a formula rarely starts with a number
            return;
        }
        let ghost s = mf@;
        let ghost start = lo as int;
        let ghost old_coeffs = self.coeffs@;
        let mut i = lo;
        let mut level: usize = 0;
        let mut stopped = false;
        while i < mf.len() && !stopped
            invariant
                lo <= i <= s.len(),
                s == mf@,
                start == lo,
                level <= i - lo,
                self.elements == old(self).elements,
                self.coeffs@.len() == s.len(),
                !stopped ==> level == depth(s, i as int) - d,
                old_coeffs.len() == s.len(),
                forall|q: int| start <= q < i ==> #[trigger] passes(s, d as int, q),
                stopped ==> forall|p: int| i <= p < s.len() ==> !forward_reaches(s, start, d as int, p),
                forall|p: int|
                    0 <= p < s.len() ==> #[trigger] self.coeffs@[p] == if start <= p < i
                        && forward_reaches(s, start, d as int, p) {
                        saturate(old_coeffs[p] * group_coeff)
                    } else {
                        old_coeffs[p]
                    },
            decreases s.len() - i + if stopped { 0int } else { 1int },
        {
            let b = mf[i];
            if b == DOT && level == 0 {
                assert(!passes(s, d as int, i as int));
                assert forall|p: int| i <= p < s.len() implies !forward_reaches(
                    s,
                    start,
                    d as int,
                    p,
                ) by {
                    assert(!passes(s, d as int, i as int));
                }
                stopped = true;
            } else {
                assert(passes(s, d as int, i as int));
                assert forall|q: int| start <= q <= i implies #[trigger] passes(s, d as int, q) by {
                    if q < i {
                        assert(start <= q < i);
                    }
                }
                assert(forward_reaches(s, start, d as int, i as int));
                let c = saturating_mul(self.coeffs[i], group_coeff);
                self.coeffs.set(i, c);
                if b == OP {
                    level += 1;
                } else if b == CP {
                    if level == 0 {
                        assert(depth(s, i + 1) < d);
                        assert forall|p: int| i + 1 <= p < s.len() implies !forward_reaches(
                            s,
                            start,
                            d as int,
                            p,
                        ) by {
                            assert(!passes(s, d as int, i + 1));
                        }
                        stopped = true;
                    } else {
                        level -= 1;
                    }
                }
                i += 1;
            }
        }
    }

    /// Multiplies by `group_coeff` every coefficient inside the group that the
    /// `)` at `hi` closes.
    fn scale_backward(&mut self, mf: &[u8], hi: usize, group_coeff: u32)
        requires
            hi < mf@.len(),
            mf@[hi as int] == CP,
            old(self).coeffs@.len() == mf@.len(),
        ensures
            final(self).elements == old(self).elements,
            final(self).coeffs@.len() == mf@.len(),
            forall|p: int|
                0 <= p < mf@.len() ==> #[trigger] final(self).coeffs@[p] == if backward_reaches(
                    mf@,
                    hi as int,
                    p,
                ) {
                    saturate(old(self).coeffs@[p] * group_coeff)
                } else {
                    old(self).coeffs@[p]
                },
    {
        let ghost s = mf@;
        let ghost c = hi as int;
        let ghost old_coeffs = self.coeffs@;
        let mut i = hi;
        let mut level: usize = 0;
        let mut stopped = false;
        while i > 0 && !stopped
            invariant
                i <= hi < s.len(),
                s == mf@,
                c == hi,
                level <= hi - i,
                self.elements == old(self).elements,
                self.coeffs@.len() == s.len(),
                !stopped ==> level == depth(s, i as int) - depth(s, c),
                old_coeffs.len() == s.len(),
                forall|x: int| i <= x <= c ==> #[trigger] depth(s, x) >= depth(s, c),
                stopped ==> forall|p: int| 0 <= p < i ==> !backward_reaches(s, c, p),
                forall|p: int|
                    0 <= p < s.len() ==> #[trigger] self.coeffs@[p] == if i <= p < c {
                        saturate(old_coeffs[p] * group_coeff)
                    } else {
                        old_coeffs[p]
                    },
            decreases i + if stopped { 0int } else { 1int },
        {
            let r = i - 1;
            let b = mf[r];
            assert(depth(s, r + 1) == depth(s, r as int) + paren_delta(s[r as int]));
            if b == OP && level == 0 {
                assert forall|p: int| 0 <= p < i implies !backward_reaches(s, c, p) by {
                    assert(depth(s, r as int) < depth(s, c));
                }
                stopped = true;
            } else {
                if b == OP {
                    level -= 1;
                } else if b == CP {
                    level += 1;
                }
                let v = saturating_mul(self.coeffs[r], group_coeff);
                self.coeffs.set(r, v);
                i = r;
            }
        }
        assert forall|p: int| 0 <= p < s.len() implies (i <= p < c) == backward_reaches(s, c, p) by {
            if i <= p < c {
                assert forall|x: int| p <= x <= c implies #[trigger] depth(s, x) >= depth(s, c) by {
                    assert(i <= x <= c);
                }
            }
        }
    }
}

} // verus!
