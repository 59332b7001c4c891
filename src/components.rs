//! A formula `a.b` is the sum of its components `a` and `b`.
use vstd::prelude::*;
use crate::model::{
    atom_count, backward_reaches, depth, digit_byte, digits_value, element_at, factor, fault_at,
    formula_parses, forward_reaches, group_factor, leads_group, lemma_run_end_bounds, local_coeff,
    number_at, parens_match, partial_count, passes, run_end, scan_ok, second_byte, symbol_end,
};
use crate::multipliers::{leading_number, leading_number_multiplies, prefixed, single_component};

verus! {

/// The formula `a.b`.
pub open spec fn joined(a: Seq<u8>, b: Seq<u8>) -> Seq<u8> {
    a + seq![46u8] + b
}

proof fn lemma_joined_index(a: Seq<u8>, b: Seq<u8>)
    ensures
        joined(a, b).len() == a.len() + 1 + b.len(),
        forall|i: int| 0 <= i < a.len() ==> #[trigger] joined(a, b)[i] == a[i],
        joined(a, b)[a.len() as int] == 46,
        forall|m: int| 0 <= m < b.len() ==> #[trigger] joined(a, b)[a.len() + 1 + m] == b[m],
{
    let x = joined(a, b);
    assert forall|m: int| 0 <= m < b.len() implies #[trigger] x[a.len() + 1 + m] == b[m] by {
        assert(x[a.len() + 1 + m] == b[a.len() + 1 + m - (a.len() + 1)]);
    }
}

// ---- positions of `a` ----

proof fn lemma_depth_prefix(a: Seq<u8>, b: Seq<u8>, n: int)
    requires
        0 <= n <= a.len(),
    ensures
        depth(joined(a, b), n) == depth(a, n),
    decreases n,
{
    lemma_joined_index(a, b);
    if n > 0 {
        lemma_depth_prefix(a, b, n - 1);
    }
}

proof fn lemma_run_end_prefix(a: Seq<u8>, b: Seq<u8>, k: int)
    requires
        0 <= k <= a.len(),
    ensures
        run_end(joined(a, b), k) == run_end(a, k),
        run_end(a, k) <= a.len(),
    decreases a.len() - k,
{
    lemma_joined_index(a, b);
    if k < a.len() && digit_byte(a[k]) {
        lemma_run_end_prefix(a, b, k + 1);
    }
}

proof fn lemma_digits_prefix(a: Seq<u8>, b: Seq<u8>, k: int, j: int)
    requires
        0 <= k,
        j <= a.len(),
    ensures
        digits_value(joined(a, b), k, j) == digits_value(a, k, j),
    decreases j - k,
{
    lemma_joined_index(a, b);
    if j > k {
        lemma_digits_prefix(a, b, k, j - 1);
    }
}

proof fn lemma_number_prefix(a: Seq<u8>, b: Seq<u8>, k: int)
    requires
        0 <= k <= a.len(),
    ensures
        number_at(joined(a, b), k) == number_at(a, k),
{
    lemma_joined_index(a, b);
    lemma_run_end_prefix(a, b, k);
    lemma_digits_prefix(a, b, k, run_end(a, k));
}

proof fn lemma_symbol_prefix(a: Seq<u8>, b: Seq<u8>, p: int)
    requires
        0 <= p < a.len(),
    ensures
        second_byte(joined(a, b), p) == second_byte(a, p),
        symbol_end(joined(a, b), p) == symbol_end(a, p),
        local_coeff(joined(a, b), p) == local_coeff(a, p),
        element_at(joined(a, b), p) == element_at(a, p),
        fault_at(joined(a, b), p) == fault_at(a, p),
        leads_group(joined(a, b), p) == leads_group(a, p),
{
    lemma_joined_index(a, b);
    lemma_number_prefix(a, b, symbol_end(a, p));
}

proof fn lemma_factor_prefix(a: Seq<u8>, b: Seq<u8>, k: int, p: int)
    requires
        0 <= k < a.len(),
        0 <= p < a.len(),
    ensures
        factor(joined(a, b), k, p) == factor(a, k, p),
{
    let x = joined(a, b);
    lemma_joined_index(a, b);
    lemma_symbol_prefix(a, b, k);
    lemma_run_end_prefix(a, b, k);
    lemma_depth_prefix(a, b, k);
    lemma_number_prefix(a, b, k + 1);
    lemma_digits_prefix(a, b, k, run_end(a, k));
    assert forall|q: int| 0 <= q < a.len() implies #[trigger] passes(x, depth(a, k), q) == passes(
        a,
        depth(a, k),
        q,
    ) by {
        lemma_depth_prefix(a, b, q);
    }
    assert forall|q: int| 0 <= q <= k implies #[trigger] depth(x, q) == depth(a, q) by {
        lemma_depth_prefix(a, b, q);
    }
    let st = run_end(a, k);
    let d = depth(a, k);
    lemma_run_end_bounds(a, k);
    if forward_reaches(x, st, d, p) {
        assert forall|q: int| st <= q <= p implies #[trigger] passes(a, d, q) by {
            assert(passes(x, d, q));
        }
    }
    if forward_reaches(a, st, d, p) {
        assert forall|q: int| st <= q <= p implies #[trigger] passes(x, d, q) by {
            assert(passes(a, d, q));
        }
    }
    if backward_reaches(x, k, p) {
        assert forall|q: int| p <= q <= k implies #[trigger] depth(a, q) >= depth(a, k) by {
            assert(depth(x, q) >= depth(x, k));
        }
    }
    if backward_reaches(a, k, p) {
        assert forall|q: int| p <= q <= k implies #[trigger] depth(x, q) >= depth(x, k) by {
            assert(depth(a, q) >= depth(a, k));
        }
    }
}

// ---- positions of `b` ----

proof fn lemma_depth_suffix(a: Seq<u8>, b: Seq<u8>, m: int)
    requires
        0 <= m <= b.len(),
    ensures
        depth(joined(a, b), a.len() + 1 + m) == depth(a, a.len() as int) + depth(b, m),
    decreases m,
{
    lemma_joined_index(a, b);
    if m > 0 {
        lemma_depth_suffix(a, b, m - 1);
    } else {
        lemma_depth_prefix(a, b, a.len() as int);
    }
}

proof fn lemma_run_end_suffix(a: Seq<u8>, b: Seq<u8>, m: int)
    requires
        0 <= m <= b.len(),
    ensures
        run_end(joined(a, b), a.len() + 1 + m) == a.len() + 1 + run_end(b, m),
    decreases b.len() - m,
{
    lemma_joined_index(a, b);
    if m < b.len() && digit_byte(b[m]) {
        lemma_run_end_suffix(a, b, m + 1);
    }
}

proof fn lemma_digits_suffix(a: Seq<u8>, b: Seq<u8>, m: int, j: int)
    requires
        0 <= m,
        j <= b.len(),
    ensures
        digits_value(joined(a, b), a.len() + 1 + m, a.len() + 1 + j) == digits_value(b, m, j),
    decreases j - m,
{
    lemma_joined_index(a, b);
    if j > m {
        lemma_digits_suffix(a, b, m, j - 1);
    }
}

proof fn lemma_number_suffix(a: Seq<u8>, b: Seq<u8>, m: int)
    requires
        0 <= m <= b.len(),
    ensures
        number_at(joined(a, b), a.len() + 1 + m) == number_at(b, m),
{
    lemma_joined_index(a, b);
    lemma_run_end_suffix(a, b, m);
    lemma_run_end_bounds(b, m);
    lemma_digits_suffix(a, b, m, run_end(b, m));
}

proof fn lemma_symbol_suffix(a: Seq<u8>, b: Seq<u8>, m: int)
    requires
        0 <= m < b.len(),
    ensures
        second_byte(joined(a, b), a.len() + 1 + m) == second_byte(b, m),
        symbol_end(joined(a, b), a.len() + 1 + m) == a.len() + 1 + symbol_end(b, m),
        local_coeff(joined(a, b), a.len() + 1 + m) == local_coeff(b, m),
        element_at(joined(a, b), a.len() + 1 + m) == element_at(b, m),
        fault_at(joined(a, b), a.len() + 1 + m) == fault_at(b, m),
        leads_group(joined(a, b), a.len() + 1 + m) == leads_group(b, m),
{
    lemma_joined_index(a, b);
    lemma_number_suffix(a, b, symbol_end(b, m));
    if m > 0 {
        assert(joined(a, b)[a.len() + 1 + m - 1] == b[m - 1]);
    }
}

proof fn lemma_factor_suffix(a: Seq<u8>, b: Seq<u8>, m: int, j: int)
    requires
        0 <= m < b.len(),
        0 <= j < b.len(),
        depth(a, a.len() as int) == 0,
    ensures
        factor(joined(a, b), a.len() + 1 + m, a.len() + 1 + j) == factor(b, m, j),
{
    let x = joined(a, b);
    let u = a.len() + 1;
    lemma_joined_index(a, b);
    lemma_symbol_suffix(a, b, m);
    lemma_run_end_suffix(a, b, m);
    lemma_run_end_bounds(b, m);
    lemma_depth_suffix(a, b, m);
    lemma_number_suffix(a, b, m + 1);
    lemma_digits_suffix(a, b, m, run_end(b, m));
    assert forall|q: int| 0 <= q <= b.len() implies #[trigger] depth(x, u + q) == depth(b, q) by {
        lemma_depth_suffix(a, b, q);
    }
    assert forall|q: int| 0 <= q < b.len() implies #[trigger] passes(x, depth(b, m), u + q) == passes(
        b,
        depth(b, m),
        q,
    ) by {
        assert(depth(x, u + q) == depth(b, q));
    }
    let st = run_end(b, m);
    let d = depth(b, m);
    if forward_reaches(x, u + st, d, u + j) {
        assert forall|q: int| st <= q <= j implies #[trigger] passes(b, d, q) by {
            assert(passes(x, d, u + q));
        }
    }
    if forward_reaches(b, st, d, j) {
        assert forall|q: int| u + st <= q <= u + j implies #[trigger] passes(x, d, q) by {
            assert(passes(b, d, q - u));
            assert(u + (q - u) == q);
        }
    }
    if backward_reaches(x, u + m, u + j) {
        assert forall|q: int| j <= q <= m implies #[trigger] depth(b, q) >= depth(b, m) by {
            assert(depth(x, u + q) >= depth(x, u + m));
        }
    }
    if backward_reaches(b, m, j) {
        assert forall|q: int| u + j <= q <= u + m implies #[trigger] depth(x, q) >= depth(x, u + m) by {
            assert(depth(b, q - u) >= depth(b, m));
            assert(depth(x, u + (q - u)) == depth(b, q - u));
        }
    }
}

// ---- across the dot ----

/// Nothing at or after the dot multiplies a symbol of `a`.
proof fn lemma_factor_after_dot(a: Seq<u8>, b: Seq<u8>, k: int, p: int)
    requires
        a.len() <= k < a.len() + 1 + b.len(),
        0 <= p < a.len(),
        depth(a, a.len() as int) == 0,
        parens_match(b),
    ensures
        factor(joined(a, b), k, p) == 1,
{
    let x = joined(a, b);
    lemma_joined_index(a, b);
    lemma_run_end_bounds(x, k);
    lemma_depth_prefix(a, b, a.len() as int);
    if k > a.len() {
        let m = k - a.len() - 1;
        if x[k] == 41 {
            lemma_depth_suffix(a, b, m);
            lemma_depth_suffix(a, b, m + 1);
            assert(depth(b, m + 1) >= 0);
            assert(!(depth(x, a.len() as int) >= depth(x, k)));
        }
    }
}

/// Nothing before or at the dot multiplies a symbol of `b`.
proof fn lemma_factor_before_dot(a: Seq<u8>, b: Seq<u8>, k: int, j: int)
    requires
        0 <= k <= a.len(),
        0 <= j < b.len(),
        parens_match(a),
    ensures
        factor(joined(a, b), k, a.len() + 1 + j) == 1,
{
    let x = joined(a, b);
    lemma_joined_index(a, b);
    lemma_depth_prefix(a, b, a.len() as int);
    if k < a.len() {
        lemma_symbol_prefix(a, b, k);
        lemma_run_end_prefix(a, b, k);
        lemma_run_end_bounds(a, k);
        lemma_depth_prefix(a, b, k);
        let d = depth(a, k);
        assert(d >= 0);
        assert(!passes(x, d, a.len() as int));
    }
}

proof fn lemma_group_factor_prefix(a: Seq<u8>, b: Seq<u8>, p: int, n: int)
    requires
        0 <= p < a.len(),
        0 <= n <= a.len() + 1 + b.len(),
        depth(a, a.len() as int) == 0,
        parens_match(b),
    ensures
        group_factor(joined(a, b), p, n) == group_factor(a, p, if n <= a.len() {
            n
        } else {
            a.len() as int
        }),
    decreases n,
{
    if n > 0 {
        lemma_group_factor_prefix(a, b, p, n - 1);
        let gf = group_factor(joined(a, b), p, n - 1);
        if n <= a.len() {
            lemma_factor_prefix(a, b, n - 1, p);
        } else {
            lemma_factor_after_dot(a, b, n - 1, p);
            assert(gf * 1 == gf);
        }
    }
}

proof fn lemma_group_factor_suffix(a: Seq<u8>, b: Seq<u8>, j: int, n: int)
    requires
        0 <= j < b.len(),
        0 <= n <= a.len() + 1 + b.len(),
        parens_match(a),
    ensures
        group_factor(joined(a, b), a.len() + 1 + j, n) == if n <= a.len() + 1 {
            1
        } else {
            group_factor(b, j, n - a.len() - 1)
        },
    decreases n,
{
    let u = a.len() + 1;
    if n > 0 {
        lemma_group_factor_suffix(a, b, j, n - 1);
        let gf = group_factor(joined(a, b), u + j, n - 1);
        if n <= u {
            lemma_factor_before_dot(a, b, n - 1, j);
        } else {
            lemma_factor_suffix(a, b, n - 1 - u, j);
            assert(u + (n - 1 - u) == n - 1);
            if n - 1 == u {
                assert(group_factor(b, j, 0) == 1);
                assert(1 * factor(b, 0, j) == factor(b, 0, j));
            }
        }
    }
}

proof fn lemma_partial_count_joined(a: Seq<u8>, b: Seq<u8>, e: int, n: int)
    requires
        formula_parses(a),
        formula_parses(b),
        0 <= n <= a.len() + 1 + b.len(),
    ensures
        partial_count(joined(a, b), e, n) == if n <= a.len() {
            partial_count(a, e, n)
        } else if n == a.len() + 1 {
            partial_count(a, e, a.len() as int)
        } else {
            partial_count(a, e, a.len() as int) + partial_count(b, e, n - a.len() - 1)
        },
    decreases n,
{
    let x = joined(a, b);
    let u = a.len() + 1;
    lemma_joined_index(a, b);
    if n > 0 {
        lemma_partial_count_joined(a, b, e, n - 1);
        let p = n - 1;
        if p < a.len() {
            lemma_symbol_prefix(a, b, p);
            lemma_group_factor_prefix(a, b, p, x.len() as int);
        } else if p > a.len() {
            lemma_symbol_suffix(a, b, p - u);
            lemma_group_factor_suffix(a, b, p - u, x.len() as int);
            assert(u + (p - u) == p);
        }
    }
}

/// A formula of two components `a.b` parses exactly when both components do,
/// and then holds the atoms of both: dots separate components whose counts add
/// up, so their order does not matter.
pub proof fn components_add_up(a: Seq<u8>, b: Seq<u8>)
    requires
        formula_parses(a),
        formula_parses(b),
    ensures
        formula_parses(joined(a, b)),
        forall|e: int| #[trigger] atom_count(joined(a, b), e) == atom_count(a, e) + atom_count(b, e),
        forall|e: int| atom_count(joined(a, b), e) == #[trigger] atom_count(joined(b, a), e),
{
    let x = joined(a, b);
    let u = a.len() + 1;
    lemma_joined_index(a, b);
    assert forall|p: int| 0 <= p < x.len() implies !fault_at(x, p) by {
        if p < a.len() {
            lemma_symbol_prefix(a, b, p);
        } else if p > a.len() {
            lemma_symbol_suffix(a, b, p - u);
            assert(u + (p - u) == p);
        }
    }
    assert forall|n: int| 0 <= n <= x.len() implies depth(x, n) >= 0 by {
        if n <= a.len() {
            lemma_depth_prefix(a, b, n);
        } else {
            lemma_depth_suffix(a, b, n - u);
            assert(u + (n - u) == n);
        }
    }
    lemma_depth_suffix(a, b, b.len() as int);
    assert(scan_ok(x));
    assert(parens_match(x));
    assert forall|e: int| #[trigger] atom_count(x, e) == atom_count(a, e) + atom_count(b, e) by {
        lemma_partial_count_joined(a, b, e, x.len() as int);
    }
    lemma_joined_index(b, a);
    assert forall|e: int| atom_count(x, e) == #[trigger] atom_count(joined(b, a), e) by {
        lemma_partial_count_joined(b, a, e, joined(b, a).len() as int);
        lemma_partial_count_joined(a, b, e, x.len() as int);
    }
}

/// A number in front of a formula stops at its first component: in `g f1.f2`
/// it multiplies the atoms of `f1` and leaves those of `f2` alone.
pub proof fn leading_number_stops_at_dot(g: Seq<u8>, f1: Seq<u8>, f2: Seq<u8>)
    requires
        leading_number(g, f1),
        formula_parses(f1),
        single_component(f1),
        formula_parses(f2),
    ensures
        formula_parses(prefixed(g, joined(f1, f2))),
        forall|e: int|
            #[trigger] atom_count(prefixed(g, joined(f1, f2)), e) == digits_value(
                g,
                0,
                g.len() as int,
            ) * atom_count(f1, e) + atom_count(f2, e),
{
    leading_number_multiplies(g, f1);
    components_add_up(prefixed(g, f1), f2);
    assert(prefixed(g, joined(f1, f2)) =~= joined(prefixed(g, f1), f2));
}

/// The components `cs` joined by dots (`cs` is not empty).
pub open spec fn joined_all(cs: Seq<Seq<u8>>) -> Seq<u8>
    decreases cs.len(),
{
    if cs.len() <= 1 {
        cs[0]
    } else {
        joined(joined_all(cs.drop_last()), cs.last())
    }
}

/// The atoms of element `e` over the components `cs`.
pub open spec fn components_count(cs: Seq<Seq<u8>>, e: int) -> nat
    decreases cs.len(),
{
    if cs.len() == 0 {
        0
    } else {
        components_count(cs.drop_last(), e) + atom_count(cs.last(), e)
    }
}

/// Any number of components that each parse, joined by dots, parse to the sum
/// of their atom counts.
pub proof fn all_components_add_up(cs: Seq<Seq<u8>>)
    requires
        cs.len() > 0,
        forall|i: int| 0 <= i < cs.len() ==> formula_parses(#[trigger] cs[i]),
    ensures
        formula_parses(joined_all(cs)),
        forall|e: int| #[trigger] atom_count(joined_all(cs), e) == components_count(cs, e),
    decreases cs.len(),
{
    if cs.len() == 1 {
        assert forall|e: int| #[trigger] atom_count(joined_all(cs), e) == components_count(cs, e) by {
            assert(cs.drop_last().len() == 0);
            assert(components_count(cs.drop_last(), e) == 0);
            assert(cs.last() == cs[0]);
        }
    } else {
        let front = cs.drop_last();
        assert forall|i: int| 0 <= i < front.len() implies formula_parses(#[trigger] front[i]) by {
            assert(front[i] == cs[i]);
        }
        all_components_add_up(front);
        assert(formula_parses(cs[cs.len() - 1]));
        components_add_up(joined_all(front), cs.last());
    }
}

} // verus!
