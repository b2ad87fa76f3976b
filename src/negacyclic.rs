//! The negacyclic product over the integers, and associativity of `poly_mul`.
//!
//! Under `x^n == -1`, the power `x^j` for any integer `j` stands for
//! `(-1)^(j div n) * x^(j mod n)`; `ext` reads a coefficient sequence that way.
use crate::arith::{
    lemma_balance_congruent, lemma_balance_eq, lemma_congruent_add, lemma_congruent_neg,
};
use crate::polynomial::{nega_sum, nega_term, poly_mul, Polynomial};
use crate::ring_laws::lemma_nega_sum_as_range;
use crate::sums::{
    lemma_range_sum_congruent, lemma_range_sum_offset, lemma_range_sum_periodic,
    lemma_range_sum_scale, lemma_range_sum_swap, range_sum,
};
use vstd::arithmetic::div_mod::{
    lemma_fundamental_div_mod, lemma_fundamental_div_mod_converse, lemma_mod_bound,
    lemma_mul_mod_noop,
};
use vstd::arithmetic::mul::{
    lemma_mul_is_associative, lemma_mul_is_commutative, lemma_mul_unary_negation,
};
use vstd::prelude::*;

verus! {

/// The coefficient of `x^j` in `b` for any integer `j`: `b[j mod n]`, negated
/// when `j div n` is odd.
pub open spec fn ext(b: Seq<int>, j: int) -> int {
    let n = b.len() as int;
    if (j / n) % 2 == 0 {
        b[j % n]
    } else {
        -b[j % n]
    }
}

/// Coefficient `k` (any integer) of the exact product of `a` and `b` in `Z[x]/(x^n + 1)`.
pub open spec fn conv(a: Seq<int>, b: Seq<int>, k: int) -> int {
    range_sum(|i: int| a[i] * ext(b, k - i), 0, a.len() as int)
}

/// The exact product of `a` and `b` in `Z[x]/(x^n + 1)`.
pub open spec fn conv_seq(a: Seq<int>, b: Seq<int>) -> Seq<int> {
    Seq::new(a.len(), |k: int| conv(a, b, k))
}

proof fn lemma_ext_shift(b: Seq<int>, j: int)
    requires
        b.len() > 0,
    ensures
        ext(b, j + b.len()) == -ext(b, j),
{
    let n = b.len() as int;
    lemma_fundamental_div_mod(j, n);
    lemma_mod_bound(j, n);
    assert(j + n == (j / n + 1) * n + j % n) by (nonlinear_arith)
        requires
            j == n * (j / n) + j % n,
    ;
    lemma_fundamental_div_mod_converse(j + n, n, j / n + 1, j % n);
}

proof fn lemma_ext_in_range(b: Seq<int>, j: int)
    requires
        0 <= j < b.len(),
    ensures
        ext(b, j) == b[j],
{
    lemma_fundamental_div_mod_converse(j, b.len() as int, 0, j);
}

proof fn lemma_ext_below(b: Seq<int>, j: int)
    requires
        -b.len() <= j < 0,
    ensures
        ext(b, j) == -b[j + b.len()],
{
    let n = b.len() as int;
    lemma_fundamental_div_mod_converse(j, n, -1, j + n);
}

/// A term of `nega_sum` is a coefficient of `a` times an extended coefficient of `b`.
proof fn lemma_term_is_ext(a: Seq<int>, b: Seq<int>, k: int, i: int)
    requires
        a.len() == b.len(),
        0 <= i < a.len(),
        0 <= k < a.len(),
    ensures
        nega_term(a, b, k, i) == a[i] * ext(b, k - i),
{
    if i <= k {
        lemma_ext_in_range(b, k - i);
    } else {
        lemma_ext_below(b, k - i);
        lemma_mul_unary_negation(a[i], b[k - i + b.len()]);
    }
}

/// Coefficient `k` of the negacyclic product, before reduction, is `conv`.
pub proof fn lemma_nega_sum_is_conv(a: Seq<int>, b: Seq<int>, k: int)
    requires
        a.len() == b.len(),
        0 <= k < a.len(),
    ensures
        nega_sum(a, b, k, a.len()) == conv(a, b, k),
{
    lemma_nega_sum_as_range(a, b, k, a.len());
    let f = |j: int| nega_term(a, b, k, j);
    let g = |j: int| a[j] * ext(b, k - j);
    assert forall|i: int| 0 <= i < a.len() implies #[trigger] f(i) == g(i) by {
        lemma_term_is_ext(a, b, k, i);
    }
    lemma_range_sum_congruent(f, g, 0, a.len() as int);
}

proof fn lemma_conv_shift(a: Seq<int>, b: Seq<int>, k: int)
    requires
        a.len() == b.len(),
        a.len() > 0,
    ensures
        conv(a, b, k + a.len()) == -conv(a, b, k),
{
    let n = a.len() as int;
    let f = |i: int| a[i] * ext(b, k - i);
    let h = |i: int| a[i] * ext(b, k + n - i);
    assert forall|i: int| 0 <= i < n implies #[trigger] h(i) == -1 * f(i) by {
        lemma_ext_shift(b, k - i);
        assert(k - i + n == k + n - i);
        lemma_mul_unary_negation(a[i], ext(b, k - i));
    }
    lemma_range_sum_scale(f, h, -1, 0, n);
}

/// Reading the exact product at any power `x^k` gives `conv` at `k`.
pub proof fn lemma_ext_conv(a: Seq<int>, b: Seq<int>, k: int)
    requires
        a.len() == b.len(),
        a.len() > 0,
    ensures
        ext(conv_seq(a, b), k) == conv(a, b, k),
    decreases (if k < 0 {
        a.len() - k
    } else {
        k
    }),
{
    let n = a.len() as int;
    let s = conv_seq(a, b);
    if k >= n {
        lemma_ext_conv(a, b, k - n);
        lemma_ext_shift(s, k - n);
        lemma_conv_shift(a, b, k - n);
    } else if k < 0 {
        lemma_ext_conv(a, b, k + n);
        lemma_ext_shift(s, k);
        lemma_conv_shift(a, b, k);
    } else {
        lemma_ext_in_range(s, k);
    }
}

/// The inner sum of a triple product: `sum_i ext(b, i - j) * ext(c, k - i)`
/// is coefficient `k - j` of the exact product `b * c`.
proof fn lemma_inner_sum(b: Seq<int>, c: Seq<int>, j: int, k: int)
    requires
        b.len() == c.len(),
        b.len() > 0,
        0 <= j < b.len(),
    ensures
        range_sum(|i: int| ext(b, i - j) * ext(c, k - i), 0, b.len() as int) == ext(
            conv_seq(b, c),
            k - j,
        ),
{
    let n = b.len() as int;
    let g = |i: int| ext(b, i - j) * ext(c, k - i);
    let p = |l: int| ext(b, l) * ext(c, k - j - l);
    assert forall|i: int| 0 <= i < n implies #[trigger] g(i) == p(i + (-j)) by {
        assert(k - j - (i - j) == k - i);
    }
    lemma_range_sum_offset(p, g, 0, n, -j);
    assert forall|l: int| #[trigger] p(l + n) == p(l) by {
        lemma_ext_shift(b, l);
        lemma_ext_shift(c, k - j - l - n);
        assert(k - j - l - n + n == k - j - l);
        assert(k - j - (l + n) == k - j - l - n);
        lemma_mul_unary_negation(ext(b, l), ext(c, k - j - l - n));
        lemma_mul_unary_negation(ext(b, l), -ext(c, k - j - l - n));
    }
    lemma_range_sum_periodic(p, n, -j);
    let q = |i: int| b[i] * ext(c, (k - j) - i);
    assert forall|l: int| 0 <= l < n implies #[trigger] p(l) == q(l) by {
        lemma_ext_in_range(b, l);
    }
    lemma_range_sum_congruent(p, q, 0, n);
    lemma_ext_conv(b, c, k - j);
}

/// The exact negacyclic product is associative.
pub proof fn lemma_conv_associative(a: Seq<int>, b: Seq<int>, c: Seq<int>, k: int)
    requires
        a.len() == b.len(),
        a.len() == c.len(),
        a.len() > 0,
    ensures
        conv(conv_seq(a, b), c, k) == conv(a, conv_seq(b, c), k),
{
    let n = a.len() as int;
    let ab = conv_seq(a, b);
    let bc = conv_seq(b, c);
    let f = |i: int, j: int| a[j] * (ext(b, i - j) * ext(c, k - i));
    // expand the outer product: row i of the rectangle sums to ab[i] * ext(c, k - i)
    let outer = |i: int| ab[i] * ext(c, k - i);
    let rows = |i: int| range_sum(|j: int| f(i, j), 0, n);
    assert forall|i: int| 0 <= i < n implies #[trigger] outer(i) == rows(i) by {
        let z = ext(c, k - i);
        let g = |j: int| a[j] * ext(b, i - j);
        let h = |j: int| f(i, j);
        assert forall|j: int| 0 <= j < n implies #[trigger] h(j) == z * g(j) by {
            lemma_mul_is_associative(a[j], ext(b, i - j), z);
            lemma_mul_is_commutative(a[j] * ext(b, i - j), z);
        }
        lemma_range_sum_scale(g, h, z, 0, n);
        lemma_mul_is_commutative(ab[i], z);
    }
    lemma_range_sum_congruent(outer, rows, 0, n);
    lemma_range_sum_swap(f, n, n);
    // column j of the rectangle sums to a[j] * ext(bc, k - j)
    let cols = |j: int| range_sum(|i: int| f(i, j), 0, n);
    let inner = |j: int| a[j] * ext(bc, k - j);
    assert forall|j: int| 0 <= j < n implies #[trigger] cols(j) == inner(j) by {
        let g = |i: int| ext(b, i - j) * ext(c, k - i);
        let h = |i: int| f(i, j);
        assert forall|i: int| 0 <= i < n implies #[trigger] h(i) == a[j] * g(i) by {}
        lemma_range_sum_scale(g, h, a[j], 0, n);
        lemma_inner_sum(b, c, j, k);
    }
    lemma_range_sum_congruent(cols, inner, 0, n);
}

/// Products of congruent sequences have congruent partial sums.
pub proof fn lemma_nega_sum_congruent(a: Seq<int>, a2: Seq<int>, b: Seq<int>, b2: Seq<int>, m: int, k: int, i: nat)
    requires
        m > 0,
        a.len() == b.len(),
        a2.len() == a.len(),
        b2.len() == a.len(),
        0 <= k < a.len(),
        i <= a.len(),
        forall|j: int| 0 <= j < a.len() ==> #[trigger] a[j] % m == a2[j] % m,
        forall|j: int| 0 <= j < a.len() ==> #[trigger] b[j] % m == b2[j] % m,
    ensures
        nega_sum(a, b, k, i) % m == nega_sum(a2, b2, k, i) % m,
    decreases i,
{
    if i > 0 {
        let j = (i - 1) as int;
        lemma_nega_sum_congruent(a, a2, b, b2, m, k, (i - 1) as nat);
        let l = if j <= k { k - j } else { k - j + a.len() };
        assert(a[j] % m == a2[j] % m);
        assert(b[l] % m == b2[l] % m);
        lemma_mul_mod_noop(a[j], b[l], m);
        lemma_mul_mod_noop(a2[j], b2[l], m);
        let t = nega_term(a, b, k, j);
        let t2 = nega_term(a2, b2, k, j);
        assert(t % m == t2 % m) by {
            if j > k {
                lemma_congruent_neg(a[j] * b[l], a2[j] * b2[l], m);
            }
        }
        lemma_congruent_add(nega_sum(a, b, k, (i - 1) as nat), nega_sum(a2, b2, k, (i - 1) as nat), t, t2, m);
    }
}

/// The reduced product is congruent, coefficient by coefficient, to the exact one.
pub proof fn lemma_reduced_product(a: Seq<int>, b: Seq<int>, m: int)
    requires
        m > 0,
        a.len() == b.len(),
    ensures
        forall|i: int| 0 <= i < a.len() ==> #[trigger] poly_mul(a, b, m)[i] % m == conv_seq(a, b)[i] % m,
{
    assert forall|i: int| 0 <= i < a.len() implies #[trigger] poly_mul(a, b, m)[i] % m == conv_seq(a, b)[i] % m by {
        lemma_nega_sum_is_conv(a, b, i);
        lemma_balance_congruent(nega_sum(a, b, i, a.len()), m);
    }
}

/// `(a * b) * c == a * (b * c)`, on coefficient sequences.
pub proof fn lemma_mul_associates(a: Seq<int>, b: Seq<int>, c: Seq<int>, m: int)
    requires
        m > 0,
        a.len() == b.len(),
        a.len() == c.len(),
    ensures
        poly_mul(poly_mul(a, b, m), c, m) == poly_mul(a, poly_mul(b, c, m), m),
{
    let n = a.len();
    let lhs = poly_mul(poly_mul(a, b, m), c, m);
    let rhs = poly_mul(a, poly_mul(b, c, m), m);
    if n > 0 {
        let ab = conv_seq(a, b);
        let bc = conv_seq(b, c);
        lemma_reduced_product(a, b, m);
        lemma_reduced_product(b, c, m);
        assert forall|k: int| 0 <= k < n implies #[trigger] lhs[k] == rhs[k] by {
            lemma_nega_sum_congruent(poly_mul(a, b, m), ab, c, c, m, k, n);
            lemma_nega_sum_congruent(a, a, poly_mul(b, c, m), bc, m, k, n);
            lemma_nega_sum_is_conv(ab, c, k);
            lemma_nega_sum_is_conv(a, bc, k);
            lemma_conv_associative(a, b, c, k);
            lemma_balance_eq(nega_sum(poly_mul(a, b, m), c, k, n), nega_sum(a, poly_mul(b, c, m), k, n), m);
        }
    }
    assert(lhs =~= rhs);
}

/// `(a * b) * c == a * (b * c)`.
pub proof fn lemma_mul_associative(a: Polynomial, b: Polynomial, c: Polynomial)
    requires
        a.wf(),
        b.wf(),
        c.wf(),
        a.spec_modulus() == b.spec_modulus(),
        a.spec_modulus() == c.spec_modulus(),
        a@.len() == b@.len(),
        a@.len() == c@.len(),
    ensures
        poly_mul(poly_mul(a@, b@, a.spec_modulus()), c@, a.spec_modulus()) == poly_mul(
            a@,
            poly_mul(b@, c@, a.spec_modulus()),
            a.spec_modulus(),
        ),
{
    lemma_mul_associates(a@, b@, c@, a.spec_modulus());
}

} // verus!
