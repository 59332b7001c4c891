//! A number in front of a formula, or after a parenthesized formula,
//! multiplies all of its atoms.
use vstd::prelude::*;
use crate::model::{
    atom_count, backward_reaches, coefficient, depth, digit_byte, digits_value, element_at, factor,
    fault_at, formula_parses, forward_reaches, group_factor, leads_group, lemma_run_end_bounds,
    local_coeff, number_at, parens_match, partial_count, passes, run_end, scan_ok, second_byte,
    symbol_end, upper_byte,
};

verus! {

/// The formula `s` with the digits `g` in front.
pub open spec fn prefixed(g: Seq<u8>, s: Seq<u8>) -> Seq<u8> {
    g + s
}

/// Every byte of `g` is a digit.
pub open spec fn all_digits(g: Seq<u8>) -> bool {
    forall|i: int| 0 <= i < g.len() ==> digit_byte(#[trigger] g[i])
}

/// Every `.` of `s` stands inside parentheses: `s` is a single component.
pub open spec fn single_component(s: Seq<u8>) -> bool {
    forall|q: int| 0 <= q < s.len() && s[q] == 46 ==> depth(s, q) > 0
}

/// The digits `g` in front of a formula `s` that does not start with a digit.
pub open spec fn leading_number(g: Seq<u8>, s: Seq<u8>) -> bool {
    &&& g.len() > 0
    &&& all_digits(g)
    &&& (s.len() > 0 ==> !digit_byte(s[0]))
}

proof fn lemma_prefixed_index(g: Seq<u8>, s: Seq<u8>)
    ensures
        prefixed(g, s).len() == g.len() + s.len(),
        forall|i: int| 0 <= i < g.len() ==> #[trigger] prefixed(g, s)[i] == g[i],
        forall|i: int|
            g.len() <= i < g.len() + s.len() ==> #[trigger] prefixed(g, s)[i] == s[i - g.len()],
{
}

/// Within the leading digits the depth is 0, the digit run reaches their end,
/// and they spell the number `g`.
proof fn lemma_leading_digits(g: Seq<u8>, s: Seq<u8>, n: int)
    requires
        leading_number(g, s),
        0 <= n <= g.len(),
    ensures
        depth(prefixed(g, s), n) == 0,
        run_end(prefixed(g, s), n) == g.len(),
        digits_value(prefixed(g, s), 0, n) == digits_value(g, 0, n),
    decreases n,
{
    lemma_prefixed_index(g, s);
    if n > 0 {
        lemma_leading_digits(g, s, n - 1);
    }
    lemma_leading_run_end(g, s, n);
}

proof fn lemma_leading_run_end(g: Seq<u8>, s: Seq<u8>, n: int)
    requires
        leading_number(g, s),
        0 <= n <= g.len(),
    ensures
        run_end(prefixed(g, s), n) == g.len(),
    decreases g.len() - n,
{
    lemma_prefixed_index(g, s);
    if n < g.len() {
        lemma_leading_run_end(g, s, n + 1);
    } else if s.len() > 0 {
        assert(prefixed(g, s)[g.len() as int] == s[0]);
    }
}

proof fn lemma_depth_shift(g: Seq<u8>, s: Seq<u8>, n: int)
    requires
        leading_number(g, s),
        0 <= n <= s.len(),
    ensures
        depth(prefixed(g, s), g.len() + n) == depth(s, n),
    decreases n,
{
    lemma_prefixed_index(g, s);
    if n > 0 {
        lemma_depth_shift(g, s, n - 1);
        assert(prefixed(g, s)[g.len() + n - 1] == s[n - 1]);
    } else {
        lemma_leading_digits(g, s, g.len() as int);
    }
}

proof fn lemma_run_end_shift(g: Seq<u8>, s: Seq<u8>, k: int)
    requires
        0 <= k <= s.len(),
    ensures
        run_end(prefixed(g, s), g.len() + k) == g.len() + run_end(s, k),
    decreases s.len() - k,
{
    lemma_prefixed_index(g, s);
    if k < s.len() && digit_byte(s[k]) {
        lemma_run_end_shift(g, s, k + 1);
    }
    if k < s.len() {
        assert(prefixed(g, s)[g.len() + k] == s[k]);
    }
}

proof fn lemma_digits_shift(g: Seq<u8>, s: Seq<u8>, k: int, j: int)
    requires
        0 <= k,
        j <= s.len(),
    ensures
        digits_value(prefixed(g, s), g.len() + k, g.len() + j) == digits_value(s, k, j),
    decreases j - k,
{
    lemma_prefixed_index(g, s);
    if j > k {
        lemma_digits_shift(g, s, k, j - 1);
        assert(prefixed(g, s)[g.len() + j - 1] == s[j - 1]);
    }
}

proof fn lemma_number_shift(g: Seq<u8>, s: Seq<u8>, k: int)
    requires
        0 <= k <= s.len(),
    ensures
        number_at(prefixed(g, s), g.len() + k) == number_at(s, k),
{
    lemma_prefixed_index(g, s);
    lemma_run_end_shift(g, s, k);
    lemma_run_end_bounds(s, k);
    lemma_digits_shift(g, s, k, run_end(s, k));
    if k < s.len() {
        assert(prefixed(g, s)[g.len() + k] == s[k]);
    }
}

proof fn lemma_symbol_shift(g: Seq<u8>, s: Seq<u8>, p: int)
    requires
        leading_number(g, s),
        0 <= p < s.len(),
    ensures
        second_byte(prefixed(g, s), g.len() + p) == second_byte(s, p),
        symbol_end(prefixed(g, s), g.len() + p) == g.len() + symbol_end(s, p),
        local_coeff(prefixed(g, s), g.len() + p) == local_coeff(s, p),
        element_at(prefixed(g, s), g.len() + p) == element_at(s, p),
        fault_at(prefixed(g, s), g.len() + p) == fault_at(s, p),
        leads_group(prefixed(g, s), g.len() + p) == leads_group(s, p),
{
    let x = prefixed(g, s);
    lemma_prefixed_index(g, s);
    lemma_number_shift(g, s, symbol_end(s, p));
    assert(x[g.len() + p] == s[p]);
    if p + 1 < s.len() {
        assert(x[g.len() + p + 1] == s[p + 1]);
    }
    if p > 0 {
        assert(x[g.len() + p - 1] == s[p - 1]);
    } else {
        assert(x[g.len() - 1] == g[g.len() - 1]);
    }
}

proof fn lemma_factor_shift(g: Seq<u8>, s: Seq<u8>, m: int, j: int)
    requires
        leading_number(g, s),
        0 <= m < s.len(),
        0 <= j < s.len(),
    ensures
        factor(prefixed(g, s), g.len() + m, g.len() + j) == factor(s, m, j),
{
    let x = prefixed(g, s);
    let w = g.len() as int;
    lemma_prefixed_index(g, s);
    lemma_symbol_shift(g, s, m);
    lemma_run_end_shift(g, s, m);
    lemma_run_end_bounds(s, m);
    lemma_depth_shift(g, s, m);
    lemma_number_shift(g, s, m + 1);
    lemma_digits_shift(g, s, m, run_end(s, m));
    assert(x[w + m] == s[m]);
    assert forall|q: int| 0 <= q <= s.len() implies #[trigger] depth(x, w + q) == depth(s, q) by {
        lemma_depth_shift(g, s, q);
    }
    assert forall|q: int| 0 <= q < s.len() implies #[trigger] x[w + q] == s[q] by {
    }
    let st = run_end(s, m);
    let dd = depth(s, m);
    if forward_reaches(x, w + st, dd, w + j) {
        assert forall|q: int| st <= q <= j implies #[trigger] passes(s, dd, q) by {
            assert(passes(x, dd, w + q));
        }
    }
    if forward_reaches(s, st, dd, j) {
        assert forall|q: int| w + st <= q <= w + j implies #[trigger] passes(x, dd, q) by {
            assert(passes(s, dd, q - w));
            assert(w + (q - w) == q);
        }
    }
    if backward_reaches(x, w + m, w + j) {
        assert forall|q: int| j <= q <= m implies #[trigger] depth(s, q) >= depth(s, m) by {
            assert(depth(x, w + q) >= depth(x, w + m));
        }
    }
    if backward_reaches(s, m, j) {
        assert forall|q: int| w + j <= q <= w + m implies #[trigger] depth(x, q) >= depth(x, w + m) by {
            assert(depth(s, q - w) >= depth(s, m));
            assert(depth(x, w + (q - w)) == depth(s, q - w));
        }
    }
}

/// The leading number multiplies every symbol of a single-component formula;
/// the other leading digits contribute nothing.
proof fn lemma_leading_factor(g: Seq<u8>, s: Seq<u8>, j: int)
    requires
        leading_number(g, s),
        0 <= j < s.len(),
        parens_match(s),
        single_component(s),
    ensures
        factor(prefixed(g, s), 0, g.len() + j) == digits_value(g, 0, g.len() as int),
        forall|k: int| 0 < k < g.len() ==> #[trigger] factor(prefixed(g, s), k, g.len() + j) == 1,
{
    let x = prefixed(g, s);
    let w = g.len() as int;
    lemma_prefixed_index(g, s);
    lemma_leading_digits(g, s, 0);
    lemma_leading_digits(g, s, w);
    assert(leads_group(x, 0));
    assert forall|q: int| w <= q <= w + j implies #[trigger] passes(x, 0, q) by {
        lemma_depth_shift(g, s, q - w);
        assert(w + (q - w) == q);
    }
    assert(forward_reaches(x, run_end(x, 0), depth(x, 0), w + j));
    assert forall|k: int| 0 < k < w implies #[trigger] factor(x, k, w + j) == 1 by {
        assert(x[k - 1] == g[k - 1]);
        assert(x[k] == g[k]);
    }
}

proof fn lemma_group_factor_shift(g: Seq<u8>, s: Seq<u8>, j: int, n: int)
    requires
        leading_number(g, s),
        0 <= j < s.len(),
        0 <= n <= g.len() + s.len(),
        parens_match(s),
        single_component(s),
    ensures
        group_factor(prefixed(g, s), g.len() + j, n) == if n == 0 {
            1int
        } else if n <= g.len() {
            digits_value(g, 0, g.len() as int) as int
        } else {
            (digits_value(g, 0, g.len() as int) * group_factor(s, j, n - g.len())) as int
        },
    decreases n,
{
    let x = prefixed(g, s);
    let w = g.len() as int;
    let v = digits_value(g, 0, w);
    lemma_leading_factor(g, s, j);
    if n > 0 {
        lemma_group_factor_shift(g, s, j, n - 1);
        let prev = group_factor(x, w + j, n - 1);
        if n == 1 {
            assert(group_factor(x, w + j, 0) == 1);
            assert(1 * v == v);
        } else if n <= w {
            assert(factor(x, n - 1, w + j) == 1);
            assert(prev * 1 == prev);
        } else {
            lemma_factor_shift(g, s, n - 1 - w, j);
            assert(w + (n - 1 - w) == n - 1);
            let a = group_factor(s, j, n - 1 - w);
            let f = factor(s, n - 1 - w, j);
            if n - 1 == w {
                assert(a == 1);
                assert(v * 1 == v);
            }
            assert((v * a) * f == v * (a * f)) by (nonlinear_arith);
            assert(a * f >= 0) by (nonlinear_arith);
        }
    }
}

proof fn lemma_partial_count_shift(g: Seq<u8>, s: Seq<u8>, e: int, n: int)
    requires
        leading_number(g, s),
        0 <= n <= s.len(),
        parens_match(s),
        single_component(s),
    ensures
        partial_count(prefixed(g, s), e, g.len() + n) == digits_value(g, 0, g.len() as int)
            * partial_count(s, e, n),
    decreases n,
{
    let x = prefixed(g, s);
    let w = g.len() as int;
    let v = digits_value(g, 0, w);
    lemma_prefixed_index(g, s);
    if n == 0 {
        lemma_leading_zero(g, s, e, w);
        assert(partial_count(s, e, 0) == 0);
        assert(v * 0 == 0);
    } else {
        lemma_partial_count_shift(g, s, e, n - 1);
        let p = n - 1;
        lemma_symbol_shift(g, s, p);
        lemma_group_factor_shift(g, s, p, x.len() as int);
        let l = local_coeff(s, p);
        let gf = group_factor(s, p, s.len() as int);
        let pc = partial_count(s, e, p);
        assert(l * (v * gf) == v * (l * gf)) by (nonlinear_arith);
        assert(v * (l * gf) >= 0) by (nonlinear_arith);
        assert(x[w + p] == s[p]);
        assert(coefficient(x, w + p) == v * coefficient(s, p));
        assert(partial_count(s, e, n) == pc + if upper_byte(s[p]) && element_at(s, p) == e {
            coefficient(s, p)
        } else {
            0
        });
        if upper_byte(s[p]) && element_at(s, p) == e {
            assert(v * pc + v * coefficient(s, p) == v * (pc + coefficient(s, p))) by (nonlinear_arith);
        } else {
            assert(v * pc + 0 == v * (pc + 0));
        }
    }
}

/// The leading digits add no atoms.
proof fn lemma_leading_zero(g: Seq<u8>, s: Seq<u8>, e: int, n: int)
    requires
        leading_number(g, s),
        0 <= n <= g.len(),
    ensures
        partial_count(prefixed(g, s), e, n) == 0,
    decreases n,
{
    lemma_prefixed_index(g, s);
    if n > 0 {
        lemma_leading_zero(g, s, e, n - 1);
        assert(!upper_byte(prefixed(g, s)[n - 1]));
    }
}

/// A number `g` written in front of a single-component formula that parses
/// (and does not start with a digit) multiplies each of its atom counts by
/// that number; `0` gives no atoms at all.
pub proof fn leading_number_multiplies(g: Seq<u8>, s: Seq<u8>)
    requires
        leading_number(g, s),
        formula_parses(s),
        single_component(s),
    ensures
        formula_parses(prefixed(g, s)),
        forall|e: int|
            #[trigger] atom_count(prefixed(g, s), e) == digits_value(g, 0, g.len() as int)
                * atom_count(s, e),
{
    let x = prefixed(g, s);
    let w = g.len() as int;
    lemma_prefixed_index(g, s);
    assert forall|p: int| 0 <= p < x.len() implies !fault_at(x, p) by {
        if p >= w {
            lemma_symbol_shift(g, s, p - w);
            assert(w + (p - w) == p);
        } else {
            assert(x[p] == g[p]);
        }
    }
    assert forall|n: int| 0 <= n <= x.len() implies depth(x, n) >= 0 by {
        if n >= w {
            lemma_depth_shift(g, s, n - w);
            assert(w + (n - w) == n);
        } else {
            lemma_leading_digits(g, s, n);
        }
    }
    lemma_depth_shift(g, s, s.len() as int);
    assert(scan_ok(x));
    assert(parens_match(x));
    assert forall|e: int|
        #[trigger] atom_count(x, e) == digits_value(g, 0, w) * atom_count(s, e) by {
        lemma_partial_count_shift(g, s, e, s.len() as int);
    }
}

/// The formula `s` in parentheses, followed by the digits `g` (maybe none).
pub open spec fn grouped(s: Seq<u8>, g: Seq<u8>) -> Seq<u8> {
    seq![40u8] + s + seq![41u8] + g
}

proof fn lemma_grouped_index(s: Seq<u8>, g: Seq<u8>)
    ensures
        grouped(s, g).len() == s.len() + 2 + g.len(),
        grouped(s, g)[0] == 40,
        forall|i: int| 1 <= i <= s.len() ==> #[trigger] grouped(s, g)[i] == s[i - 1],
        grouped(s, g)[s.len() + 1int] == 41,
        forall|i: int|
            s.len() + 2 <= i < s.len() + 2 + g.len() ==> #[trigger] grouped(s, g)[i] == g[i - s.len()
                - 2],
{
}

proof fn lemma_depth_grouped(s: Seq<u8>, g: Seq<u8>, n: int)
    requires
        0 <= n <= s.len(),
    ensures
        depth(grouped(s, g), 1 + n) == 1 + depth(s, n),
    decreases n,
{
    lemma_grouped_index(s, g);
    if n > 0 {
        lemma_depth_grouped(s, g, n - 1);
        assert(grouped(s, g)[n] == s[n - 1]);
    } else {
        assert(depth(grouped(s, g), 0) == 0);
    }
}

proof fn lemma_run_end_grouped(s: Seq<u8>, g: Seq<u8>, k: int)
    requires
        0 <= k <= s.len(),
    ensures
        run_end(grouped(s, g), 1 + k) == 1 + run_end(s, k),
    decreases s.len() - k,
{
    lemma_grouped_index(s, g);
    if k < s.len() && digit_byte(s[k]) {
        lemma_run_end_grouped(s, g, k + 1);
    }
    assert(grouped(s, g)[1 + k] == s[1 + k - 1] || k == s.len());
}

proof fn lemma_digits_grouped(s: Seq<u8>, g: Seq<u8>, k: int, j: int)
    requires
        0 <= k,
        j <= s.len(),
    ensures
        digits_value(grouped(s, g), 1 + k, 1 + j) == digits_value(s, k, j),
    decreases j - k,
{
    lemma_grouped_index(s, g);
    if j > k {
        lemma_digits_grouped(s, g, k, j - 1);
        assert(grouped(s, g)[1 + j - 1] == s[j - 1]);
    }
}

proof fn lemma_number_grouped(s: Seq<u8>, g: Seq<u8>, k: int)
    requires
        0 <= k <= s.len(),
    ensures
        number_at(grouped(s, g), 1 + k) == number_at(s, k),
{
    lemma_grouped_index(s, g);
    lemma_run_end_grouped(s, g, k);
    lemma_run_end_bounds(s, k);
    lemma_digits_grouped(s, g, k, run_end(s, k));
    if k < s.len() {
        assert(grouped(s, g)[1 + k] == s[1 + k - 1]);
    }
}

proof fn lemma_symbol_grouped(s: Seq<u8>, g: Seq<u8>, p: int)
    requires
        0 <= p < s.len(),
    ensures
        second_byte(grouped(s, g), 1 + p) == second_byte(s, p),
        symbol_end(grouped(s, g), 1 + p) == 1 + symbol_end(s, p),
        local_coeff(grouped(s, g), 1 + p) == local_coeff(s, p),
        element_at(grouped(s, g), 1 + p) == element_at(s, p),
        fault_at(grouped(s, g), 1 + p) == fault_at(s, p),
        leads_group(grouped(s, g), 1 + p) == leads_group(s, p),
{
    let x = grouped(s, g);
    lemma_grouped_index(s, g);
    lemma_number_grouped(s, g, symbol_end(s, p));
    assert(x[1 + p] == s[1 + p - 1]);
    if p + 1 < s.len() {
        assert(x[1 + p + 1] == s[1 + p + 1 - 1]);
    }
    if p > 0 {
        assert(x[1 + (p - 1)] == s[p - 1]);
    }
}

proof fn lemma_factor_grouped(s: Seq<u8>, g: Seq<u8>, m: int, j: int)
    requires
        0 <= m < s.len(),
        0 <= j < s.len(),
    ensures
        factor(grouped(s, g), 1 + m, 1 + j) == factor(s, m, j),
{
    let x = grouped(s, g);
    lemma_grouped_index(s, g);
    lemma_symbol_grouped(s, g, m);
    lemma_run_end_grouped(s, g, m);
    lemma_run_end_bounds(s, m);
    lemma_depth_grouped(s, g, m);
    lemma_number_grouped(s, g, m + 1);
    lemma_digits_grouped(s, g, m, run_end(s, m));
    assert(x[1 + m] == s[1 + m - 1]);
    assert forall|q: int| 0 <= q <= s.len() implies #[trigger] depth(x, 1 + q) == 1 + depth(s, q) by {
        lemma_depth_grouped(s, g, q);
    }
    assert forall|q: int| 0 <= q < s.len() implies #[trigger] x[1 + q] == s[q] by {
        assert(x[1 + q] == s[1 + q - 1]);
    }
    let st = run_end(s, m);
    let dd = depth(s, m);
    if forward_reaches(x, 1 + st, 1 + dd, 1 + j) {
        assert forall|q: int| st <= q <= j implies #[trigger] passes(s, dd, q) by {
            assert(passes(x, 1 + dd, 1 + q));
        }
    }
    if forward_reaches(s, st, dd, j) {
        assert forall|q: int| 1 + st <= q <= 1 + j implies #[trigger] passes(x, 1 + dd, q) by {
            assert(passes(s, dd, q - 1));
            assert(1 + (q - 1) == q);
        }
    }
    if backward_reaches(x, 1 + m, 1 + j) {
        assert forall|q: int| j <= q <= m implies #[trigger] depth(s, q) >= depth(s, m) by {
            assert(depth(x, 1 + q) >= depth(x, 1 + m));
        }
    }
    if backward_reaches(s, m, j) {
        assert forall|q: int| 1 + j <= q <= 1 + m implies #[trigger] depth(x, q) >= depth(x, 1 + m) by {
            assert(depth(s, q - 1) >= depth(s, m));
            assert(depth(x, 1 + (q - 1)) == 1 + depth(s, q - 1));
        }
    }
}

/// The run of digits in `g` from `i` reaches the end of `g`.
proof fn lemma_run_end_tail(s: Seq<u8>, g: Seq<u8>, i: int)
    requires
        all_digits(g),
        0 <= i <= g.len(),
    ensures
        run_end(grouped(s, g), s.len() + 2 + i) == s.len() + 2 + g.len(),
        run_end(g, i) == g.len(),
    decreases g.len() - i,
{
    lemma_grouped_index(s, g);
    if i < g.len() {
        lemma_run_end_tail(s, g, i + 1);
        assert(grouped(s, g)[s.len() + 2 + i] == g[i]);
    }
}

proof fn lemma_digits_tail(s: Seq<u8>, g: Seq<u8>, j: int)
    requires
        0 <= j <= g.len(),
    ensures
        digits_value(grouped(s, g), s.len() + 2int, s.len() + 2 + j) == digits_value(g, 0, j),
    decreases j,
{
    lemma_grouped_index(s, g);
    if j > 0 {
        lemma_digits_tail(s, g, j - 1);
        assert(grouped(s, g)[s.len() + 2 + j - 1] == g[j - 1]);
    }
}

/// The closing parenthesis multiplies every symbol inside by the number after
/// it; nothing else outside `s` multiplies them.
proof fn lemma_closing_factor(s: Seq<u8>, g: Seq<u8>, j: int)
    requires
        all_digits(g),
        0 <= j < s.len(),
        parens_match(s),
    ensures
        factor(grouped(s, g), s.len() + 1int, 1 + j) == number_at(g, 0),
        factor(grouped(s, g), 0, 1 + j) == 1,
        forall|k: int|
            s.len() + 2 <= k < s.len() + 2 + g.len() ==> #[trigger] factor(grouped(s, g), k, 1 + j)
                == 1,
{
    let x = grouped(s, g);
    let c = s.len() + 1int;
    lemma_grouped_index(s, g);
    lemma_depth_grouped(s, g, s.len() as int);
    assert forall|q: int| 1 + j <= q <= c implies #[trigger] depth(x, q) >= depth(x, c) by {
        lemma_depth_grouped(s, g, q - 1);
        assert(1 + (q - 1) == q);
    }
    assert(backward_reaches(x, c, 1 + j));
    lemma_run_end_tail(s, g, 0);
    lemma_digits_tail(s, g, g.len() as int);
    assert forall|k: int| c + 1 <= k < c + 1 + g.len() implies #[trigger] factor(x, k, 1 + j)
        == 1 by {
        assert(x[k] == g[k - s.len() - 2]);
        if k > c + 1 {
            assert(x[k - 1] == g[k - 1 - s.len() - 2]);
        }
        assert(!leads_group(x, k));
    }
}

proof fn lemma_group_factor_grouped(s: Seq<u8>, g: Seq<u8>, j: int, n: int)
    requires
        all_digits(g),
        0 <= j < s.len(),
        0 <= n <= s.len() + 2 + g.len(),
        parens_match(s),
    ensures
        group_factor(grouped(s, g), 1 + j, n) == if n <= 1 {
            1int
        } else if n <= s.len() + 1 {
            group_factor(s, j, n - 1) as int
        } else {
            (number_at(g, 0) * group_factor(s, j, s.len() as int)) as int
        },
    decreases n,
{
    let x = grouped(s, g);
    let v = number_at(g, 0);
    lemma_closing_factor(s, g, j);
    if n > 0 {
        lemma_group_factor_grouped(s, g, j, n - 1);
        let prev = group_factor(x, 1 + j, n - 1);
        if n == 1 {
            assert(prev == 1);
        } else if n <= s.len() + 1 {
            lemma_factor_grouped(s, g, n - 2, j);
            assert(1 + (n - 2) == n - 1);
            if n == 2 {
                assert(group_factor(s, j, 0) == 1);
                assert(1 * factor(s, 0, j) == factor(s, 0, j));
            }
        } else if n == s.len() + 2 {
            assert(prev * v == v * prev) by (nonlinear_arith);
        } else {
            assert(factor(x, n - 1, 1 + j) == 1);
            assert(prev * 1 == prev);
        }
    }
}

proof fn lemma_partial_count_grouped(s: Seq<u8>, g: Seq<u8>, e: int, n: int)
    requires
        all_digits(g),
        0 <= n <= s.len(),
        parens_match(s),
    ensures
        partial_count(grouped(s, g), e, 1 + n) == number_at(g, 0) * partial_count(s, e, n),
    decreases n,
{
    let x = grouped(s, g);
    let v = number_at(g, 0);
    lemma_grouped_index(s, g);
    if n == 0 {
        assert(partial_count(x, e, 0) == 0);
        assert(partial_count(x, e, 1) == 0);
        assert(partial_count(s, e, 0) == 0);
        assert(v * 0 == 0);
    } else {
        lemma_partial_count_grouped(s, g, e, n - 1);
        let p = n - 1;
        lemma_symbol_grouped(s, g, p);
        lemma_group_factor_grouped(s, g, p, x.len() as int);
        let l = local_coeff(s, p);
        let gf = group_factor(s, p, s.len() as int);
        let pc = partial_count(s, e, p);
        assert(l * (v * gf) == v * (l * gf)) by (nonlinear_arith);
        assert(v * (l * gf) >= 0) by (nonlinear_arith);
        assert(x[1 + p] == s[1 + p - 1]);
        assert(coefficient(x, 1 + p) == v * coefficient(s, p));
        assert(partial_count(s, e, n) == pc + if upper_byte(s[p]) && element_at(s, p) == e {
            coefficient(s, p)
        } else {
            0
        });
        if upper_byte(s[p]) && element_at(s, p) == e {
            assert(v * pc + v * coefficient(s, p) == v * (pc + coefficient(s, p))) by (nonlinear_arith);
        } else {
            assert(v * pc + 0 == v * (pc + 0));
        }
    }
}

/// Past the formula inside, no position adds atoms.
proof fn lemma_partial_count_tail(s: Seq<u8>, g: Seq<u8>, e: int, n: int)
    requires
        all_digits(g),
        s.len() + 1 <= n <= s.len() + 2 + g.len(),
    ensures
        partial_count(grouped(s, g), e, n) == partial_count(grouped(s, g), e, s.len() + 1int),
    decreases n,
{
    lemma_grouped_index(s, g);
    if n > s.len() + 1 {
        lemma_partial_count_tail(s, g, e, n - 1);
        assert(!upper_byte(grouped(s, g)[n - 1]));
    }
}

/// A formula that parses, put in parentheses and followed by the number `g`
/// (a run of digits; none stands for 1), parses to that number times each of
/// its atom counts.
pub proof fn trailing_number_multiplies(s: Seq<u8>, g: Seq<u8>)
    requires
        all_digits(g),
        formula_parses(s),
    ensures
        formula_parses(grouped(s, g)),
        forall|e: int| #[trigger] atom_count(grouped(s, g), e) == number_at(g, 0) * atom_count(s, e),
        g.len() == 0 ==> number_at(g, 0) == 1,
        g.len() > 0 ==> number_at(g, 0) == digits_value(g, 0, g.len() as int),
{
    let x = grouped(s, g);
    let c = s.len() + 1int;
    lemma_grouped_index(s, g);
    lemma_run_end_tail(s, g, 0);
    assert forall|p: int| 0 <= p < x.len() implies !fault_at(x, p) by {
        if 1 <= p <= s.len() {
            lemma_symbol_grouped(s, g, p - 1);
            assert(1 + (p - 1) == p);
        } else if p > c {
            assert(x[p] == g[p - s.len() - 2]);
        }
    }
    lemma_depth_grouped(s, g, s.len() as int);
    assert(depth(x, c + 1) == 0);
    assert forall|n: int| 0 <= n <= x.len() implies depth(x, n) >= 0 && (n > c ==> depth(x, n) == 0) by {
        lemma_depth_tail(s, g, n);
        if 1 <= n <= c {
            lemma_depth_grouped(s, g, n - 1);
            assert(1 + (n - 1) == n);
        }
    }
    assert(scan_ok(x));
    assert(parens_match(x));
    assert forall|e: int| #[trigger] atom_count(x, e) == number_at(g, 0) * atom_count(s, e) by {
        lemma_partial_count_grouped(s, g, e, s.len() as int);
        lemma_partial_count_tail(s, g, e, x.len() as int);
    }
}

/// Past the closing parenthesis the depth stays 0.
proof fn lemma_depth_tail(s: Seq<u8>, g: Seq<u8>, n: int)
    requires
        all_digits(g),
        formula_parses(s),
        0 <= n <= s.len() + 2 + g.len(),
    ensures
        n > s.len() + 1 ==> depth(grouped(s, g), n) == 0,
    decreases n,
{
    lemma_grouped_index(s, g);
    if n > s.len() + 2 {
        lemma_depth_tail(s, g, n - 1);
        assert(grouped(s, g)[n - 1] == g[n - 1 - s.len() - 2]);
    } else if n == s.len() + 2 {
        lemma_depth_grouped(s, g, s.len() as int);
    }
}

} // verus!
