//! Algebraic laws of the ring operations on `Z_m[x]/(x^n + 1)`.
use crate::arith::{
    balance, in_balanced_range, lemma_balance_add, lemma_balance_congruent, lemma_balance_eq,
    lemma_balance_fixed, lemma_balance_neg, lemma_congruent_add, lemma_congruent_neg,
};
use crate::polynomial::{nega_sum, nega_term, poly_add, poly_mul, poly_neg, poly_zero, Polynomial};
use crate::sums::{lemma_range_sum_reverse, lemma_range_sum_split, range_sum};
use vstd::arithmetic::div_mod::{lemma_mul_mod_noop_left, lemma_mul_mod_noop_right};
use vstd::arithmetic::mul::{
    lemma_mul_is_commutative, lemma_mul_is_distributive_add, lemma_mul_is_distributive_add_other_way,
    lemma_mul_unary_negation,
};
use vstd::prelude::*;

verus! {

/// `a + b == b + a`.
pub proof fn lemma_add_commutative(a: Polynomial, b: Polynomial)
    requires
        a.wf(),
        b.wf(),
        a.spec_modulus() == b.spec_modulus(),
        a@.len() == b@.len(),
    ensures
        poly_add(a@, b@, a.spec_modulus()) == poly_add(b@, a@, a.spec_modulus()),
{
    let m = a.spec_modulus();
    assert forall|i: int| 0 <= i < a@.len() implies #[trigger] poly_add(a@, b@, m)[i] == poly_add(
        b@,
        a@,
        m,
    )[i] by {
        assert(a@[i] + b@[i] == b@[i] + a@[i]);
    }
    assert(poly_add(a@, b@, m) =~= poly_add(b@, a@, m));
}

/// `(a + b) + c == a + (b + c)`.
pub proof fn lemma_add_associative(a: Polynomial, b: Polynomial, c: Polynomial)
    requires
        a.wf(),
        b.wf(),
        c.wf(),
        a.spec_modulus() == b.spec_modulus(),
        a.spec_modulus() == c.spec_modulus(),
        a@.len() == b@.len(),
        a@.len() == c@.len(),
    ensures
        poly_add(poly_add(a@, b@, a.spec_modulus()), c@, a.spec_modulus()) == poly_add(
            a@,
            poly_add(b@, c@, a.spec_modulus()),
            a.spec_modulus(),
        ),
{
    let m = a.spec_modulus();
    let lhs = poly_add(poly_add(a@, b@, m), c@, m);
    let rhs = poly_add(a@, poly_add(b@, c@, m), m);
    assert forall|i: int| 0 <= i < a@.len() implies #[trigger] lhs[i] == rhs[i] by {
        let (x, y, z) = (a@[i], b@[i], c@[i]);
        lemma_balance_fixed(z, m);
        lemma_balance_fixed(x, m);
        lemma_balance_add(x + y, z, m);
        lemma_balance_add(x, y + z, m);
        assert(x + y + z == x + (y + z));
    }
    assert(lhs =~= rhs);
}

/// `a + 0 == a`.
pub proof fn lemma_add_zero(a: Polynomial)
    requires
        a.wf(),
    ensures
        poly_add(a@, poly_zero(a@.len()), a.spec_modulus()) == a@,
{
    let m = a.spec_modulus();
    assert forall|i: int| 0 <= i < a@.len() implies #[trigger] poly_add(
        a@,
        poly_zero(a@.len()),
        m,
    )[i] == a@[i] by {
        assert(in_balanced_range(a@[i], m));
        lemma_balance_fixed(a@[i], m);
    }
    assert(poly_add(a@, poly_zero(a@.len()), m) =~= a@);
}

/// Each partial sum of the product with `b + c` is congruent to the sum of
/// the partial sums of the products with `b` and with `c`.
proof fn lemma_nega_sum_distributes(a: Seq<int>, b: Seq<int>, c: Seq<int>, m: int, k: int, i: nat)
    requires
        m > 0,
        a.len() == b.len(),
        a.len() == c.len(),
        0 <= k < a.len(),
        i <= a.len(),
    ensures
        nega_sum(a, poly_add(b, c, m), k, i) % m == (nega_sum(a, b, k, i) + nega_sum(a, c, k, i)) % m,
    decreases i,
{
    if i > 0 {
        let bc = poly_add(b, c, m);
        let j = (i - 1) as int;
        lemma_nega_sum_distributes(a, b, c, m, k, (i - 1) as nat);
        let l = if j <= k { k - j } else { k - j + a.len() };
        let x = b[l] + c[l];
        assert(bc[l] == balance(x, m));
        lemma_balance_congruent(x, m);
        lemma_mul_mod_noop_right(a[j], balance(x, m), m);
        lemma_mul_mod_noop_right(a[j], x, m);
        lemma_mul_is_distributive_add(a[j], b[l], c[l]);
        let t_bc = nega_term(a, bc, k, j);
        let t_b = nega_term(a, b, k, j);
        let t_c = nega_term(a, c, k, j);
        assert(t_bc % m == (t_b + t_c) % m) by {
            if j > k {
                lemma_congruent_neg(a[j] * balance(x, m), a[j] * x, m);
            }
        }
        lemma_congruent_add(
            nega_sum(a, bc, k, (i - 1) as nat),
            nega_sum(a, b, k, (i - 1) as nat) + nega_sum(a, c, k, (i - 1) as nat),
            t_bc,
            t_b + t_c,
            m,
        );
    }
}

/// `a * (b + c) == a * b + a * c`.
pub proof fn lemma_mul_distributes_over_add(a: Polynomial, b: Polynomial, c: Polynomial)
    requires
        a.wf(),
        b.wf(),
        c.wf(),
        a.spec_modulus() == b.spec_modulus(),
        a.spec_modulus() == c.spec_modulus(),
        a@.len() == b@.len(),
        a@.len() == c@.len(),
    ensures
        poly_mul(a@, poly_add(b@, c@, a.spec_modulus()), a.spec_modulus()) == poly_add(
            poly_mul(a@, b@, a.spec_modulus()),
            poly_mul(a@, c@, a.spec_modulus()),
            a.spec_modulus(),
        ),
{
    let m = a.spec_modulus();
    let n = a@.len();
    let lhs = poly_mul(a@, poly_add(b@, c@, m), m);
    let rhs = poly_add(poly_mul(a@, b@, m), poly_mul(a@, c@, m), m);
    assert forall|k: int| 0 <= k < n implies #[trigger] lhs[k] == rhs[k] by {
        lemma_nega_sum_distributes(a@, b@, c@, m, k, n);
        lemma_balance_eq(
            nega_sum(a@, poly_add(b@, c@, m), k, n),
            nega_sum(a@, b@, k, n) + nega_sum(a@, c@, k, n),
            m,
        );
        lemma_balance_add(nega_sum(a@, b@, k, n), nega_sum(a@, c@, k, n), m);
    }
    assert(lhs =~= rhs);
}

/// Each partial sum of the product of `a + b` with `c` is congruent to the
/// sum of the partial sums of the products of `a` and of `b` with `c`.
proof fn lemma_nega_sum_distributes_left(a: Seq<int>, b: Seq<int>, c: Seq<int>, m: int, k: int, i: nat)
    requires
        m > 0,
        a.len() == b.len(),
        a.len() == c.len(),
        0 <= k < a.len(),
        i <= a.len(),
    ensures
        nega_sum(poly_add(a, b, m), c, k, i) % m == (nega_sum(a, c, k, i) + nega_sum(b, c, k, i)) % m,
    decreases i,
{
    if i > 0 {
        let ab = poly_add(a, b, m);
        let j = (i - 1) as int;
        lemma_nega_sum_distributes_left(a, b, c, m, k, (i - 1) as nat);
        let l = if j <= k { k - j } else { k - j + a.len() };
        let x = a[j] + b[j];
        assert(ab[j] == balance(x, m));
        lemma_balance_congruent(x, m);
        lemma_mul_mod_noop_left(balance(x, m), c[l], m);
        lemma_mul_mod_noop_left(x, c[l], m);
        lemma_mul_is_distributive_add_other_way(c[l], a[j], b[j]);
        let t_ab = nega_term(ab, c, k, j);
        let t_a = nega_term(a, c, k, j);
        let t_b = nega_term(b, c, k, j);
        assert(t_ab % m == (t_a + t_b) % m) by {
            if j > k {
                lemma_congruent_neg(balance(x, m) * c[l], x * c[l], m);
            }
        }
        lemma_congruent_add(
            nega_sum(ab, c, k, (i - 1) as nat),
            nega_sum(a, c, k, (i - 1) as nat) + nega_sum(b, c, k, (i - 1) as nat),
            t_ab,
            t_a + t_b,
            m,
        );
    }
}

/// `(a + b) * c == a * c + b * c`.
pub proof fn lemma_mul_distributes_over_add_left(a: Polynomial, b: Polynomial, c: Polynomial)
    requires
        a.wf(),
        b.wf(),
        c.wf(),
        a.spec_modulus() == b.spec_modulus(),
        a.spec_modulus() == c.spec_modulus(),
        a@.len() == b@.len(),
        a@.len() == c@.len(),
    ensures
        poly_mul(poly_add(a@, b@, a.spec_modulus()), c@, a.spec_modulus()) == poly_add(
            poly_mul(a@, c@, a.spec_modulus()),
            poly_mul(b@, c@, a.spec_modulus()),
            a.spec_modulus(),
        ),
{
    lemma_mul_distributes_left(a@, b@, c@, a.spec_modulus());
}

/// `(a + b) * c == a * c + b * c`, on coefficient sequences.
pub proof fn lemma_mul_distributes_left(a: Seq<int>, b: Seq<int>, c: Seq<int>, m: int)
    requires
        m > 0,
        a.len() == b.len(),
        a.len() == c.len(),
    ensures
        poly_mul(poly_add(a, b, m), c, m) == poly_add(poly_mul(a, c, m), poly_mul(b, c, m), m),
{
    let n = a.len();
    let lhs = poly_mul(poly_add(a, b, m), c, m);
    let rhs = poly_add(poly_mul(a, c, m), poly_mul(b, c, m), m);
    assert forall|k: int| 0 <= k < n implies #[trigger] lhs[k] == rhs[k] by {
        lemma_nega_sum_distributes_left(a, b, c, m, k, n);
        lemma_balance_eq(
            nega_sum(poly_add(a, b, m), c, k, n),
            nega_sum(a, c, k, n) + nega_sum(b, c, k, n),
            m,
        );
        lemma_balance_add(nega_sum(a, c, k, n), nega_sum(b, c, k, n), m);
    }
    assert(lhs =~= rhs);
}

/// The contributions to coefficient `k` of `a * b`, as a range sum.
pub proof fn lemma_nega_sum_as_range(a: Seq<int>, b: Seq<int>, k: int, i: nat)
    ensures
        nega_sum(a, b, k, i) == range_sum(|j: int| nega_term(a, b, k, j), 0, i as int),
    decreases i,
{
    if i > 0 {
        lemma_nega_sum_as_range(a, b, k, (i - 1) as nat);
    }
}

/// Coefficient `k` of `a * b` and of `b * a` are the same integer sum.
pub proof fn lemma_nega_sum_commutes(a: Seq<int>, b: Seq<int>, k: int)
    requires
        a.len() == b.len(),
        0 <= k < a.len(),
    ensures
        nega_sum(a, b, k, a.len()) == nega_sum(b, a, k, a.len()),
{
    let n = a.len() as int;
    let f = |j: int| nega_term(a, b, k, j);
    let g = |j: int| nega_term(b, a, k, j);
    lemma_nega_sum_as_range(a, b, k, a.len());
    lemma_nega_sum_as_range(b, a, k, a.len());
    lemma_range_sum_split(f, 0, k + 1, n);
    lemma_range_sum_split(g, 0, k + 1, n);
    assert forall|j: int| 0 <= j < k + 1 implies #[trigger] g(j) == f(0 + (k + 1) - 1 - j) by {
        lemma_mul_is_commutative(b[j], a[k - j]);
    }
    lemma_range_sum_reverse(f, g, 0, k + 1);
    assert forall|j: int| k + 1 <= j < n implies #[trigger] g(j) == f((k + 1) + n - 1 - j) by {
        lemma_mul_is_commutative(b[j], a[k - j + n]);
    }
    lemma_range_sum_reverse(f, g, k + 1, n);
}

/// `a * b == b * a`, on coefficient sequences.
pub proof fn lemma_mul_commutes(a: Seq<int>, b: Seq<int>, m: int)
    requires
        a.len() == b.len(),
    ensures
        poly_mul(a, b, m) == poly_mul(b, a, m),
{
    assert forall|k: int| 0 <= k < a.len() implies #[trigger] poly_mul(a, b, m)[k] == poly_mul(
        b,
        a,
        m,
    )[k] by {
        lemma_nega_sum_commutes(a, b, k);
    }
    assert(poly_mul(a, b, m) =~= poly_mul(b, a, m));
}

/// `a * b == b * a`.
pub proof fn lemma_mul_commutative(a: Polynomial, b: Polynomial)
    requires
        a.wf(),
        b.wf(),
        a.spec_modulus() == b.spec_modulus(),
        a@.len() == b@.len(),
    ensures
        poly_mul(a@, b@, a.spec_modulus()) == poly_mul(b@, a@, a.spec_modulus()),
{
    lemma_mul_commutes(a@, b@, a.spec_modulus());
}

/// Each partial sum of the product of `-a` with `b` is congruent to the
/// negated partial sum of the product of `a` with `b`.
proof fn lemma_nega_sum_neg(a: Seq<int>, b: Seq<int>, m: int, k: int, i: nat)
    requires
        m > 0,
        a.len() == b.len(),
        0 <= k < a.len(),
        i <= a.len(),
    ensures
        nega_sum(poly_neg(a, m), b, k, i) % m == (-nega_sum(a, b, k, i)) % m,
    decreases i,
{
    if i > 0 {
        let na = poly_neg(a, m);
        let j = (i - 1) as int;
        lemma_nega_sum_neg(a, b, m, k, (i - 1) as nat);
        let l = if j <= k { k - j } else { k - j + a.len() };
        assert(na[j] == balance(-a[j], m));
        lemma_balance_congruent(-a[j], m);
        lemma_mul_mod_noop_left(balance(-a[j], m), b[l], m);
        lemma_mul_mod_noop_left(-a[j], b[l], m);
        lemma_mul_unary_negation(a[j], b[l]);
        let t_n = nega_term(na, b, k, j);
        let t = nega_term(a, b, k, j);
        assert(t_n % m == (-t) % m) by {
            if j > k {
                lemma_congruent_neg(balance(-a[j], m) * b[l], -a[j] * b[l], m);
            }
        }
        lemma_congruent_add(
            nega_sum(na, b, k, (i - 1) as nat),
            -nega_sum(a, b, k, (i - 1) as nat),
            t_n,
            -t,
            m,
        );
    }
}

/// `(-a) * b == -(a * b)`, on coefficient sequences.
pub proof fn lemma_mul_neg_left(a: Seq<int>, b: Seq<int>, m: int)
    requires
        m > 0,
        a.len() == b.len(),
    ensures
        poly_mul(poly_neg(a, m), b, m) == poly_neg(poly_mul(a, b, m), m),
{
    let lhs = poly_mul(poly_neg(a, m), b, m);
    let rhs = poly_neg(poly_mul(a, b, m), m);
    assert forall|k: int| 0 <= k < a.len() implies #[trigger] lhs[k] == rhs[k] by {
        let n = a.len();
        lemma_nega_sum_neg(a, b, m, k, n);
        lemma_balance_eq(nega_sum(poly_neg(a, m), b, k, n), -nega_sum(a, b, k, n), m);
        lemma_balance_neg(nega_sum(a, b, k, n), m);
    }
    assert(lhs =~= rhs);
}

} // verus!
