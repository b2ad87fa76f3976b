//! Balanced modular arithmetic on integers.
//!
//! A residue modulo `m` is represented by the unique integer of the range
//! `[-(m-1)/2, m/2]` (the integer division rounds down) that is congruent to it.
use vstd::arithmetic::div_mod::*;
use vstd::prelude::*;

verus! {

/// Largest magnitude accepted by `reduce` (2^126): every sum or product of two
/// `i64` values stays below it.
pub const WIDE_BOUND: i128 = 0x4000_0000_0000_0000_0000_0000_0000_0000;

/// How far the balanced range reaches below zero.
pub open spec fn half(m: int) -> int {
    (m - 1) / 2
}

/// The balanced representative of `x` modulo `m`.
pub open spec fn balance(x: int, m: int) -> int {
    (x + half(m)) % m - half(m)
}

/// `v` lies in the balanced range of `m`: `-(m-1)/2 <= v <= m/2`.
pub open spec fn in_balanced_range(v: int, m: int) -> bool {
    -half(m) <= v && v <= m / 2
}

pub proof fn lemma_balance_range(x: int, m: int)
    requires
        m > 0,
    ensures
        in_balanced_range(balance(x, m), m),
{
    lemma_mod_bound(x + half(m), m);
}

/// The balanced representative is congruent to the value it represents.
pub proof fn lemma_balance_congruent(x: int, m: int)
    requires
        m > 0,
    ensures
        balance(x, m) % m == x % m,
{
    let h = half(m);
    lemma_add_mod_noop_right(-h, x + h, m);
    assert(-h + (x + h) == x);
}

/// Congruent values have the same balanced representative.
pub proof fn lemma_balance_eq(x: int, y: int, m: int)
    requires
        m > 0,
        x % m == y % m,
    ensures
        balance(x, m) == balance(y, m),
{
    lemma_add_mod_noop(x, half(m), m);
    lemma_add_mod_noop(y, half(m), m);
}

/// A value already in the balanced range is its own representative.
pub proof fn lemma_balance_fixed(v: int, m: int)
    requires
        m > 0,
        in_balanced_range(v, m),
    ensures
        balance(v, m) == v,
{
    lemma_fundamental_div_mod_converse_mod(v + half(m), m, 0, v + half(m));
}

/// Reducing an operand first does not change the balanced result of a sum.
pub proof fn lemma_balance_add_left(x: int, y: int, m: int)
    requires
        m > 0,
    ensures
        balance(balance(x, m) + y, m) == balance(x + y, m),
{
    lemma_balance_congruent(x, m);
    lemma_add_mod_noop(balance(x, m), y, m);
    lemma_add_mod_noop(x, y, m);
    lemma_balance_eq(balance(x, m) + y, x + y, m);
}

/// Reducing operands first does not change the balanced result of a sum.
pub proof fn lemma_balance_add(x: int, y: int, m: int)
    requires
        m > 0,
    ensures
        balance(balance(x, m) + balance(y, m), m) == balance(x + y, m),
{
    lemma_balance_add_left(x, balance(y, m), m);
    lemma_balance_add_left(y, x, m);
    assert(balance(y, m) + x == x + balance(y, m));
    assert(y + x == x + y);
}

/// Reducing operands first does not change the balanced result of a difference.
pub proof fn lemma_balance_sub(x: int, y: int, m: int)
    requires
        m > 0,
    ensures
        balance(balance(x, m) - balance(y, m), m) == balance(x - y, m),
{
    lemma_balance_congruent(x, m);
    lemma_balance_congruent(y, m);
    lemma_sub_mod_noop(balance(x, m), balance(y, m), m);
    lemma_sub_mod_noop(x, y, m);
    lemma_balance_eq(balance(x, m) - balance(y, m), x - y, m);
}

/// Reducing operands first does not change the balanced result of a product.
pub proof fn lemma_balance_mul(x: int, y: int, m: int)
    requires
        m > 0,
    ensures
        balance(balance(x, m) * balance(y, m), m) == balance(x * y, m),
{
    lemma_balance_congruent(x, m);
    lemma_balance_congruent(y, m);
    lemma_mul_mod_noop(balance(x, m), balance(y, m), m);
    lemma_mul_mod_noop(x, y, m);
    lemma_balance_eq(balance(x, m) * balance(y, m), x * y, m);
}

/// Reducing the operand first does not change the balanced negation.
pub proof fn lemma_balance_neg(x: int, m: int)
    requires
        m > 0,
    ensures
        balance(-balance(x, m), m) == balance(-x, m),
{
    lemma_balance_congruent(x, m);
    lemma_sub_mod_noop(0, balance(x, m), m);
    lemma_sub_mod_noop(0, x, m);
    lemma_balance_eq(-balance(x, m), -x, m);
}

/// Congruence modulo `m` is kept by sums.
pub proof fn lemma_congruent_add(a: int, b: int, c: int, d: int, m: int)
    requires
        m > 0,
        a % m == b % m,
        c % m == d % m,
    ensures
        (a + c) % m == (b + d) % m,
{
    lemma_add_mod_noop(a, c, m);
    lemma_add_mod_noop(b, d, m);
}

/// Congruence modulo `m` is kept by negation.
pub proof fn lemma_congruent_neg(a: int, b: int, m: int)
    requires
        m > 0,
        a % m == b % m,
    ensures
        (-a) % m == (-b) % m,
{
    lemma_sub_mod_noop(0, a, m);
    lemma_sub_mod_noop(0, b, m);
}

/// The Euclidean remainder of a negative number, from the remainder of its magnitude.
proof fn lemma_mod_of_negative(a: int, m: int)
    requires
        a > 0,
        m > 0,
    ensures
        (-a) % m == (if a % m == 0 { 0 } else { m - a % m }),
{
    lemma_fundamental_div_mod(a, m);
    lemma_mod_bound(a, m);
    let q = a / m;
    let r = a % m;
    if r == 0 {
        assert(-a == (-q) * m + 0) by (nonlinear_arith)
            requires
                a == m * q + r,
                r == 0,
        ;
        lemma_fundamental_div_mod_converse_mod(-a, m, -q, 0);
    } else {
        assert(-a == (-q - 1) * m + (m - r)) by (nonlinear_arith)
            requires
                a == m * q + r,
        ;
        lemma_fundamental_div_mod_converse_mod(-a, m, -q - 1, m - r);
    }
}

/// The balanced representative of `x` modulo `m`, computed without overflow.
pub fn reduce(x: i128, m: u64) -> (r: i64)
    requires
        m > 0,
        -WIDE_BOUND <= x <= WIDE_BOUND,
    ensures
        r == balance(x as int, m as int),
        in_balanced_range(r as int, m as int),
{
    proof {
        lemma_balance_range(x as int, m as int);
    }
    let h: i128 = ((m - 1) / 2) as i128;
    let s: i128 = x + h;
    let t: i128;
    if s >= 0 {
        t = ((s as u128) % (m as u128)) as i128;
    } else {
        let u: u128 = ((-s) as u128) % (m as u128);
        proof {
            lemma_mod_of_negative(-s as int, m as int);
        }
        if u == 0 {
            t = 0;
        } else {
            t = (m as i128) - (u as i128);
        }
    }
    assert(t == (x + half(m as int)) % (m as int));
    (t - h) as i64
}

/// `(a + b) mod p` for residues `a, b` of `[0, p)`.
pub fn add_mod(a: u64, b: u64, p: u64) -> (r: u64)
    requires
        a < p,
        b < p,
    ensures
        r == (a + b) % (p as int),
        r < p,
{
    if a >= p - b {
        let r = a - (p - b);
        proof {
            lemma_fundamental_div_mod_converse_mod(a + b, p as int, 1, r as int);
        }
        r
    } else {
        proof {
            lemma_fundamental_div_mod_converse_mod(a + b, p as int, 0, (a + b) as int);
        }
        a + b
    }
}

/// `(a * b) mod p`, through a 128-bit product.
pub fn mul_mod(a: u64, b: u64, p: u64) -> (r: u64)
    requires
        p > 0,
    ensures
        r == (a * b) % (p as int),
        r < p,
{
    assert((a as u128) * (b as u128) <= u128::MAX) by (nonlinear_arith);
    let prod: u128 = (a as u128) * (b as u128);
    proof {
        lemma_mod_bound(prod as int, p as int);
    }
    (prod % (p as u128)) as u64
}

} // verus!
