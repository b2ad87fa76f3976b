//! When decryption is exact: a phase that carries `delta * m` plus noise
//! smaller than half of `delta` decodes to `m`, when `t` divides `q`.
use crate::arith::{
    balance, in_balanced_range, lemma_balance_add, lemma_balance_add_left, lemma_balance_congruent,
    lemma_balance_eq, lemma_balance_fixed, lemma_balance_mul, lemma_balance_neg, lemma_balance_range,
    lemma_congruent_add, lemma_congruent_neg,
};
use crate::bfv::{
    decryption, delta_of, phase, pke_c1, pke_c2, poly_in, public_key_of, scaled_message, ske_c1,
    BfvCipher, BfvParams,
};
use crate::negacyclic::{
    conv, conv_seq, ext, lemma_mul_associates, lemma_nega_sum_congruent, lemma_nega_sum_is_conv,
};
use crate::sampling::is_ternary;
use crate::polynomial::{
    coeffs_balanced, nega_sum, poly_add, poly_decode, poly_lift, poly_mul, poly_neg, round_div,
    Polynomial,
};
use crate::ring_laws::{
    lemma_mul_commutes, lemma_mul_distributes_left, lemma_mul_neg_left, lemma_nega_sum_commutes,
};
use crate::sums::{
    lemma_range_sum_add, lemma_range_sum_at_most, lemma_range_sum_le, lemma_range_sum_scale, range_sum,
};
use vstd::arithmetic::div_mod::{
    lemma_fundamental_div_mod, lemma_fundamental_div_mod_converse_div,
    lemma_fundamental_div_mod_converse_mod, lemma_mod_bound,
    lemma_mod_multiples_vanish,
};
use vstd::arithmetic::mul::{
    lemma_mul_is_associative, lemma_mul_is_commutative, lemma_mul_is_distributive_add,
    lemma_mul_is_distributive_add_other_way, lemma_mul_unary_negation,
};
use vstd::prelude::*;

verus! {

/// The phase `ph` carries the message `m` with the noise `e`: coefficient `i`
/// is `delta * m[i] + e[i]` modulo `q`.
pub open spec fn carries(ph: Seq<int>, m: Seq<int>, e: Seq<int>, q: int, t: int) -> bool {
    &&& ph.len() == m.len()
    &&& ph.len() == e.len()
    &&& forall|i: int|
        0 <= i < ph.len() ==> #[trigger] ph[i] == balance(delta_of(q, t) * m[i] + e[i], q)
}

/// Every noise coefficient is rounded away by the decoding with scale `d`:
/// `-(d/2) <= e[i] < d - d/2`.
pub open spec fn noise_within(e: Seq<int>, d: int) -> bool {
    forall|i: int| 0 <= i < e.len() ==> -(d / 2) <= #[trigger] e[i] && e[i] < d - d / 2
}

/// Coefficientwise sum of two noise terms, over the integers.
pub open spec fn noise_sum(e: Seq<int>, f: Seq<int>) -> Seq<int> {
    Seq::new(e.len(), |i: int| e[i] + f[i])
}

/// When `t` divides `q`, the scale factor is exactly `q / t`.
proof fn lemma_exact_delta(q: int, t: int)
    requires
        0 < t,
        q % t == 0,
    ensures
        q == t * delta_of(q, t),
{
    lemma_fundamental_div_mod(q, t);
    let k = q / t;
    assert(q + t - 1 == k * t + (t - 1)) by (nonlinear_arith)
        requires
            q == t * k + q % t,
            q % t == 0,
    ;
    lemma_fundamental_div_mod_converse_div(q + t - 1, t, k, t - 1);
}

/// A value congruent to `x` modulo `q` differs from it by a multiple of `q`.
proof fn lemma_congruent_offset(x: int, w: int, q: int) -> (j: int)
    requires
        q > 0,
        x % q == w % q,
    ensures
        x == w + q * j,
{
    lemma_fundamental_div_mod(x, q);
    lemma_fundamental_div_mod(w, q);
    let j = x / q - w / q;
    assert(x == w + q * j) by (nonlinear_arith)
        requires
            x == q * (x / q) + x % q,
            w == q * (w / q) + w % q,
            x % q == w % q,
            j == x / q - w / q,
    ;
    j
}

/// Rounding `delta * mv + e`, taken modulo `q == t * delta`, gives `mv` modulo `t`.
proof fn lemma_round_recovers(mv: int, e: int, d: int, q: int, t: int)
    requires
        t > 0,
        d > 0,
        q == t * d,
        -(d / 2) <= e < d - d / 2,
    ensures
        balance(round_div(balance(d * mv + e, q), d), t) == balance(mv, t),
{
    assert(q > 0) by (nonlinear_arith)
        requires
            q == t * d,
            t > 0,
            d > 0,
    ;
    let w = d * mv + e;
    let x = balance(w, q);
    lemma_balance_congruent(w, q);
    let j = lemma_congruent_offset(x, w, q);
    assert(x + d / 2 == (mv + t * j) * d + (e + d / 2)) by (nonlinear_arith)
        requires
            x == w + q * j,
            w == d * mv + e,
            q == t * d,
    ;
    lemma_fundamental_div_mod_converse_div(x + d / 2, d, mv + t * j, e + d / 2);
    assert(mv + t * j == t * j + mv);
    lemma_mod_multiples_vanish(j, mv, t);
    lemma_balance_eq(mv + t * j, mv, t);
}

/// Scaling the balanced form of `x` modulo `t` by `d` agrees modulo `q == t * d`
/// with scaling `x` itself.
proof fn lemma_scaled_residue(x: int, y: int, d: int, q: int, t: int)
    requires
        t > 0,
        d > 0,
        q == t * d,
    ensures
        balance(d * balance(x, t) + y, q) == balance(d * x + y, q),
{
    assert(q > 0) by (nonlinear_arith)
        requires
            q == t * d,
            t > 0,
            d > 0,
    ;
    lemma_balance_congruent(x, t);
    let j = lemma_congruent_offset(balance(x, t), x, t);
    assert(d * balance(x, t) + y == q * j + (d * x + y)) by (nonlinear_arith)
        requires
            balance(x, t) == x + t * j,
            q == t * d,
    ;
    lemma_mod_multiples_vanish(j, d * x + y, q);
    lemma_balance_eq(d * balance(x, t) + y, d * x + y, q);
}

/// A phase that carries a message of `Z_t` with noise that rounds away decodes
/// to that message, when `t` divides `q`.
pub proof fn lemma_decode_recovers(ph: Seq<int>, m: Seq<int>, e: Seq<int>, q: int, t: int)
    requires
        0 < t < q,
        q % t == 0,
        carries(ph, m, e, q, t),
        noise_within(e, delta_of(q, t)),
        coeffs_balanced(m, t),
    ensures
        poly_decode(ph, delta_of(q, t), t) == m,
{
    let d = delta_of(q, t);
    lemma_exact_delta(q, t);
    assert(d > 0) by (nonlinear_arith)
        requires
            q == t * d,
            0 < t < q,
    ;
    assert forall|i: int| 0 <= i < m.len() implies #[trigger] poly_decode(ph, d, t)[i] == m[i] by {
        assert(ph[i] == balance(d * m[i] + e[i], q));
        assert(-(d / 2) <= e[i] < d - d / 2);
        lemma_round_recovers(m[i], e[i], d, q, t);
        lemma_balance_fixed(m[i], t);
    }
    assert(poly_decode(ph, d, t) =~= m);
}

/// Decryption is exact: a ciphertext whose phase under `sk` carries the message
/// `m` of `Z_t` with noise that rounds away decrypts to `m`, when `t` divides `q`.
pub proof fn lemma_decryption_recovers(c: BfvCipher, sk: Polynomial, m: Seq<int>, e: Seq<int>)
    requires
        c.wf(),
        poly_in(sk, c.spec_params().spec_n(), 2),
        c.spec_params().spec_q() % c.spec_params().spec_t() == 0,
        coeffs_balanced(m, c.spec_params().spec_t()),
        carries(
            phase(c.spec_c1()@, c.spec_c2()@, sk@, c.spec_params().spec_q()),
            m,
            e,
            c.spec_params().spec_q(),
            c.spec_params().spec_t(),
        ),
        noise_within(e, c.spec_params().spec_delta()),
    ensures
        decryption(
            c.spec_c1()@,
            c.spec_c2()@,
            sk@,
            c.spec_params().spec_q(),
            c.spec_params().spec_t(),
        ) == m,
{
    let q = c.spec_params().spec_q();
    let t = c.spec_params().spec_t();
    lemma_decode_recovers(phase(c.spec_c1()@, c.spec_c2()@, sk@, q), m, e, q, t);
}

/// The phase of a sum of ciphertexts carries the integer sum of their messages
/// with the sum of their noises.
pub proof fn lemma_phase_of_sum_exact(
    a1: Seq<int>,
    a2: Seq<int>,
    b1: Seq<int>,
    b2: Seq<int>,
    s: Seq<int>,
    m_a: Seq<int>,
    m_b: Seq<int>,
    e_a: Seq<int>,
    e_b: Seq<int>,
    q: int,
    t: int,
)
    requires
        0 < t < q,
        a1.len() == a2.len(),
        a1.len() == b1.len(),
        a1.len() == b2.len(),
        a1.len() == s.len(),
        carries(phase(a1, a2, s, q), m_a, e_a, q, t),
        carries(phase(b1, b2, s, q), m_b, e_b, q, t),
    ensures
        carries(
            phase(poly_add(a1, b1, q), poly_add(a2, b2, q), s, q),
            noise_sum(m_a, m_b),
            noise_sum(e_a, e_b),
            q,
            t,
        ),
{
    let d = delta_of(q, t);
    let sq = poly_lift(s, q);
    lemma_mul_distributes_left(a2, b2, sq, q);
    let xa = poly_mul(a2, sq, q);
    let xb = poly_mul(b2, sq, q);
    let ph = phase(poly_add(a1, b1, q), poly_add(a2, b2, q), s, q);
    let m = noise_sum(m_a, m_b);
    let e = noise_sum(e_a, e_b);
    assert forall|i: int| 0 <= i < ph.len() implies #[trigger] ph[i] == balance(
        d * m[i] + e[i],
        q,
    ) by {
        let (ca, cb, x, y) = (a1[i], b1[i], xa[i], xb[i]);
        let pa = phase(a1, a2, s, q);
        let pb = phase(b1, b2, s, q);
        assert(pa[i] == balance(ca + x, q));
        assert(pb[i] == balance(cb + y, q));
        assert(ph[i] == balance(balance(ca + cb, q) + balance(x + y, q), q));
        lemma_balance_add(ca + cb, x + y, q);
        lemma_balance_add(ca + x, cb + y, q);
        assert(ca + cb + (x + y) == ca + x + (cb + y));
        lemma_balance_add(d * m_a[i] + e_a[i], d * m_b[i] + e_b[i], q);
        assert(d * m_a[i] + e_a[i] + (d * m_b[i] + e_b[i]) == d * (m_a[i] + m_b[i]) + e[i]) by {
            lemma_mul_is_distributive_add(d, m_a[i], m_b[i]);
        }
    }
}

/// The phase of a sum of ciphertexts carries the sum of their messages in
/// `Z_t` with the sum of their noises, when `t` divides `q`.
pub proof fn lemma_phase_of_sum(
    a1: Seq<int>,
    a2: Seq<int>,
    b1: Seq<int>,
    b2: Seq<int>,
    s: Seq<int>,
    m_a: Seq<int>,
    m_b: Seq<int>,
    e_a: Seq<int>,
    e_b: Seq<int>,
    q: int,
    t: int,
)
    requires
        0 < t < q,
        q % t == 0,
        a1.len() == a2.len(),
        a1.len() == b1.len(),
        a1.len() == b2.len(),
        a1.len() == s.len(),
        carries(phase(a1, a2, s, q), m_a, e_a, q, t),
        carries(phase(b1, b2, s, q), m_b, e_b, q, t),
    ensures
        carries(
            phase(poly_add(a1, b1, q), poly_add(a2, b2, q), s, q),
            poly_add(m_a, m_b, t),
            noise_sum(e_a, e_b),
            q,
            t,
        ),
{
    let d = delta_of(q, t);
    lemma_exact_delta(q, t);
    assert(d > 0) by (nonlinear_arith)
        requires
            q == t * d,
            0 < t < q,
    ;
    lemma_phase_of_sum_exact(a1, a2, b1, b2, s, m_a, m_b, e_a, e_b, q, t);
    let ph = phase(poly_add(a1, b1, q), poly_add(a2, b2, q), s, q);
    let e = noise_sum(e_a, e_b);
    assert forall|i: int| 0 <= i < ph.len() implies #[trigger] ph[i] == balance(
        d * poly_add(m_a, m_b, t)[i] + e[i],
        q,
    ) by {
        assert(ph[i] == balance(d * noise_sum(m_a, m_b)[i] + e[i], q));
        lemma_scaled_residue(m_a[i] + m_b[i], e[i], d, q, t);
    }
}

/// Homomorphic addition is exact: when the phases of two ciphertexts carry the
/// messages `m_a` and `m_b` and their noises together still round away, their
/// sum decrypts to `m_a + m_b` in `Z_t` (with `t` dividing `q`).
pub proof fn lemma_homomorphic_addition(
    a: BfvCipher,
    b: BfvCipher,
    sk: Polynomial,
    m_a: Seq<int>,
    m_b: Seq<int>,
    e_a: Seq<int>,
    e_b: Seq<int>,
)
    requires
        a.wf(),
        b.wf(),
        b.spec_params() == a.spec_params(),
        poly_in(sk, a.spec_params().spec_n(), 2),
        a.spec_params().spec_q() % a.spec_params().spec_t() == 0,
        carries(
            phase(a.spec_c1()@, a.spec_c2()@, sk@, a.spec_params().spec_q()),
            m_a,
            e_a,
            a.spec_params().spec_q(),
            a.spec_params().spec_t(),
        ),
        carries(
            phase(b.spec_c1()@, b.spec_c2()@, sk@, a.spec_params().spec_q()),
            m_b,
            e_b,
            a.spec_params().spec_q(),
            a.spec_params().spec_t(),
        ),
        noise_within(noise_sum(e_a, e_b), a.spec_params().spec_delta()),
    ensures
        decryption(
            poly_add(a.spec_c1()@, b.spec_c1()@, a.spec_params().spec_q()),
            poly_add(a.spec_c2()@, b.spec_c2()@, a.spec_params().spec_q()),
            sk@,
            a.spec_params().spec_q(),
            a.spec_params().spec_t(),
        ) == poly_add(m_a, m_b, a.spec_params().spec_t()),
{
    let q = a.spec_params().spec_q();
    let t = a.spec_params().spec_t();
    lemma_phase_of_sum(
        a.spec_c1()@,
        a.spec_c2()@,
        b.spec_c1()@,
        b.spec_c2()@,
        sk@,
        m_a,
        m_b,
        e_a,
        e_b,
        q,
        t,
    );
    let m = poly_add(m_a, m_b, t);
    assert(coeffs_balanced(m, t)) by {
        assert forall|i: int| 0 <= i < m.len() implies in_balanced_range(#[trigger] m[i], t) by {
            lemma_balance_range(m_a[i] + m_b[i], t);
        }
    }
    lemma_decode_recovers(
        phase(poly_add(a.spec_c1()@, b.spec_c1()@, q), poly_add(a.spec_c2()@, b.spec_c2()@, q), sk@, q),
        m,
        noise_sum(e_a, e_b),
        q,
        t,
    );
}

/// The phase of a secret-key encryption of `m` with noise `e` carries `m`
/// with exactly that noise.
pub proof fn lemma_symmetric_phase(s: Seq<int>, a: Seq<int>, m: Seq<int>, e: Seq<int>, q: int, t: int)
    requires
        0 < t < q,
        s.len() == a.len(),
        m.len() == a.len(),
        e.len() == a.len(),
    ensures
        carries(phase(ske_c1(s, a, m, e, q, t), poly_neg(a, q), s, q), m, e, q, t),
{
    let d = delta_of(q, t);
    let sq = poly_lift(s, q);
    let p = poly_mul(sq, a, q);
    let dm = scaled_message(m, q, t);
    let c1 = ske_c1(s, a, m, e, q, t);
    let y = poly_mul(poly_neg(a, q), sq, q);
    lemma_mul_neg_left(a, sq, q);
    lemma_mul_commutes(a, sq, q);
    let ph = phase(c1, poly_neg(a, q), s, q);
    assert forall|i: int| 0 <= i < ph.len() implies #[trigger] ph[i] == balance(
        d * m[i] + e[i],
        q,
    ) by {
        assert(y[i] == balance(-p[i], q));
        assert(dm[i] == balance(balance(m[i], q) * balance(d, q), q));
        lemma_balance_mul(m[i], d, q);
        lemma_mul_is_commutative(m[i], d);
        let x = balance(p[i] + dm[i], q) + e[i];
        assert(ph[i] == balance(balance(x, q) + balance(-p[i], q), q));
        lemma_balance_add(x, -p[i], q);
        lemma_balance_add_left(p[i] + dm[i], e[i] + -p[i], q);
        assert(p[i] + dm[i] + (e[i] + -p[i]) == dm[i] + e[i]);
        lemma_balance_add_left(d * m[i], e[i], q);
    }
}

/// Noise drawn from `{-1, 0, 1}` lies in `[-1, 1]`, and rounds away once `delta >= 3`.
proof fn lemma_ternary_within(e: Seq<int>, q: int, d: int)
    requires
        3 <= d <= q,
        is_ternary(e, q),
    ensures
        noise_within(e, d),
        forall|i: int| 0 <= i < e.len() ==> -1 <= #[trigger] e[i] <= 1,
{
    lemma_balance_fixed(-1, q);
    lemma_balance_fixed(1, q);
    assert forall|i: int| 0 <= i < e.len() implies -1 <= #[trigger] e[i] <= 1 by {
        assert(e[i] == balance(-1, q) || e[i] == 0 || e[i] == balance(1, q));
    }
}

/// Secret-key encryption round trip: for every uniform `a` and every noise `e`
/// drawn from `{-1, 0, 1}`, the secret-key encryption of `m` decrypts to `m`,
/// when `t` divides `q` and `delta >= 3`.
pub proof fn lemma_symmetric_round_trip(params: BfvParams, m: Polynomial, sk: Polynomial, a: Seq<int>, e: Seq<int>)
    requires
        params.wf(),
        params.spec_q() % params.spec_t() == 0,
        params.spec_delta() >= 3,
        poly_in(m, params.spec_n(), params.spec_t()),
        poly_in(sk, params.spec_n(), 2),
        a.len() == params.spec_n(),
        e.len() == params.spec_n(),
        is_ternary(e, params.spec_q()),
    ensures
        decryption(
            ske_c1(sk@, a, m@, e, params.spec_q(), params.spec_t()),
            poly_neg(a, params.spec_q()),
            sk@,
            params.spec_q(),
            params.spec_t(),
        ) == m@,
{
    let q = params.spec_q();
    let t = params.spec_t();
    lemma_exact_delta(q, t);
    assert(params.spec_delta() <= q) by (nonlinear_arith)
        requires
            q == t * params.spec_delta(),
            0 < t,
            params.spec_delta() >= 3,
    ;
    lemma_ternary_within(e, q, params.spec_delta());
    lemma_symmetric_phase(sk@, a, m@, e, q, t);
    lemma_decode_recovers(phase(ske_c1(sk@, a, m@, e, q, t), poly_neg(a, q), sk@, q), m@, e, q, t);
}

/// Homomorphic addition of two secret-key encryptions: for every choice of
/// their uniform parts and of their noise from `{-1, 0, 1}`, the sum decrypts
/// to `m_a + m_b` in `Z_t`, when `t` divides `q` and `delta >= 5`.
pub proof fn lemma_symmetric_sum_round_trip(
    params: BfvParams,
    m_a: Polynomial,
    m_b: Polynomial,
    sk: Polynomial,
    a: Seq<int>,
    e_a: Seq<int>,
    b: Seq<int>,
    e_b: Seq<int>,
)
    requires
        params.wf(),
        params.spec_q() % params.spec_t() == 0,
        params.spec_delta() >= 5,
        poly_in(m_a, params.spec_n(), params.spec_t()),
        poly_in(m_b, params.spec_n(), params.spec_t()),
        poly_in(sk, params.spec_n(), 2),
        a.len() == params.spec_n(),
        e_a.len() == params.spec_n(),
        b.len() == params.spec_n(),
        e_b.len() == params.spec_n(),
        is_ternary(e_a, params.spec_q()),
        is_ternary(e_b, params.spec_q()),
    ensures
        decryption(
            poly_add(
                ske_c1(sk@, a, m_a@, e_a, params.spec_q(), params.spec_t()),
                ske_c1(sk@, b, m_b@, e_b, params.spec_q(), params.spec_t()),
                params.spec_q(),
            ),
            poly_add(poly_neg(a, params.spec_q()), poly_neg(b, params.spec_q()), params.spec_q()),
            sk@,
            params.spec_q(),
            params.spec_t(),
        ) == poly_add(m_a@, m_b@, params.spec_t()),
{
    let q = params.spec_q();
    let t = params.spec_t();
    let d = params.spec_delta();
    lemma_exact_delta(q, t);
    assert(d <= q) by (nonlinear_arith)
        requires
            q == t * d,
            0 < t,
            d >= 5,
    ;
    lemma_ternary_within(e_a, q, d);
    lemma_ternary_within(e_b, q, d);
    let ca = ske_c1(sk@, a, m_a@, e_a, q, t);
    let cb = ske_c1(sk@, b, m_b@, e_b, q, t);
    lemma_symmetric_phase(sk@, a, m_a@, e_a, q, t);
    lemma_symmetric_phase(sk@, b, m_b@, e_b, q, t);
    lemma_phase_of_sum(ca, poly_neg(a, q), cb, poly_neg(b, q), sk@, m_a@, m_b@, e_a, e_b, q, t);
    let m = poly_add(m_a@, m_b@, t);
    assert(coeffs_balanced(m, t)) by {
        assert forall|i: int| 0 <= i < m.len() implies in_balanced_range(#[trigger] m[i], t) by {
            lemma_balance_range(m_a@[i] + m_b@[i], t);
        }
    }
    let e = noise_sum(e_a, e_b);
    assert(noise_within(e, d)) by {
        assert forall|i: int| 0 <= i < e.len() implies -(d / 2) <= #[trigger] e[i] && e[i] < d - d
            / 2 by {
            assert(-1 <= e_a[i] <= 1);
            assert(-1 <= e_b[i] <= 1);
        }
    }
    lemma_decode_recovers(
        phase(poly_add(ca, cb, q), poly_add(poly_neg(a, q), poly_neg(b, q), q), sk@, q),
        m,
        e,
        q,
        t,
    );
}

/// Congruent values modulo `t` scale by `d` to congruent values modulo `q == t * d`.
proof fn lemma_scaled_congruent(x: int, x2: int, y: int, d: int, q: int, t: int)
    requires
        t > 0,
        d > 0,
        q == t * d,
        x % t == x2 % t,
    ensures
        balance(d * x + y, q) == balance(d * x2 + y, q),
{
    assert(q > 0) by (nonlinear_arith)
        requires
            q == t * d,
            t > 0,
            d > 0,
    ;
    let j = lemma_congruent_offset(x, x2, t);
    assert(d * x + y == q * j + (d * x2 + y)) by (nonlinear_arith)
        requires
            x == x2 + t * j,
            q == t * d,
    ;
    lemma_mod_multiples_vanish(j, d * x2 + y, q);
    lemma_balance_eq(d * x + y, d * x2 + y, q);
}

/// Multiplying both halves of a ciphertext by `pt` multiplies its phase by `pt`.
pub proof fn lemma_phase_of_plain_product(c1: Seq<int>, c2: Seq<int>, s: Seq<int>, pt: Seq<int>, q: int)
    requires
        q > 0,
        c1.len() == c2.len(),
        c1.len() == s.len(),
        c1.len() == pt.len(),
    ensures
        phase(poly_mul(c1, pt, q), poly_mul(c2, pt, q), s, q) == poly_mul(phase(c1, c2, s, q), pt, q),
{
    let sq = poly_lift(s, q);
    lemma_mul_associates(c2, pt, sq, q);
    lemma_mul_commutes(pt, sq, q);
    lemma_mul_associates(c2, sq, pt, q);
    lemma_mul_distributes_left(c1, poly_mul(c2, sq, q), pt, q);
}

/// A phase that carries `m` with noise `e`, times `pt`, carries `m * pt` (in
/// `Z_t`) with the noise `e * pt` (over the integers), when `t` divides `q`.
pub proof fn lemma_carries_product(ph: Seq<int>, pt: Seq<int>, m: Seq<int>, e: Seq<int>, q: int, t: int)
    requires
        0 < t < q,
        q % t == 0,
        ph.len() > 0,
        pt.len() == ph.len(),
        carries(ph, m, e, q, t),
    ensures
        carries(poly_mul(ph, pt, q), poly_mul(m, poly_lift(pt, t), t), conv_seq(e, pt), q, t),
{
    let n = ph.len();
    let d = delta_of(q, t);
    lemma_exact_delta(q, t);
    assert(d > 0) by (nonlinear_arith)
        requires
            q == t * d,
            0 < t < q,
    ;
    let w = Seq::new(n, |i: int| d * m[i] + e[i]);
    let pt_t = poly_lift(pt, t);
    assert forall|i: int| 0 <= i < n implies #[trigger] ph[i] % q == w[i] % q by {
        lemma_balance_congruent(d * m[i] + e[i], q);
    }
    assert forall|i: int| 0 <= i < n implies #[trigger] pt_t[i] % t == pt[i] % t by {
        lemma_balance_congruent(pt[i], t);
    }
    let r = poly_mul(ph, pt, q);
    let mt = poly_mul(m, pt_t, t);
    let et = conv_seq(e, pt);
    assert forall|k: int| 0 <= k < n implies #[trigger] r[k] == balance(d * mt[k] + et[k], q) by {
        lemma_nega_sum_congruent(ph, w, pt, pt, q, k, n);
        lemma_balance_eq(nega_sum(ph, pt, k, n), nega_sum(w, pt, k, n), q);
        lemma_nega_sum_is_conv(w, pt, k);
        // conv(w, pt, k) == d * conv(m, pt, k) + conv(e, pt, k)
        let fm = |i: int| m[i] * ext(pt, k - i);
        let fe = |i: int| e[i] * ext(pt, k - i);
        let fdm = |i: int| d * (m[i] * ext(pt, k - i));
        let fw = |i: int| w[i] * ext(pt, k - i);
        assert forall|i: int| 0 <= i < n implies #[trigger] fw(i) == fdm(i) + fe(i) by {
            lemma_mul_is_distributive_add_other_way(ext(pt, k - i), d * m[i], e[i]);
            lemma_mul_is_associative(d, m[i], ext(pt, k - i));
        }
        lemma_range_sum_add(fdm, fe, fw, 0, n as int);
        lemma_range_sum_scale(fm, fdm, d, 0, n as int);
        // the message part, reduced modulo t
        lemma_nega_sum_congruent(m, m, pt_t, pt, t, k, n);
        lemma_nega_sum_is_conv(m, pt, k);
        lemma_scaled_residue(nega_sum(m, pt_t, k, n), et[k], d, q, t);
        lemma_scaled_congruent(nega_sum(m, pt_t, k, n), conv(m, pt, k), et[k], d, q, t);
    }
}

/// Multiplication by a plaintext polynomial is exact: when the phase of `c`
/// carries `m` with noise `e`, and the noise `e * pt` still rounds away,
/// `(c1 * pt, c2 * pt)` decrypts to `m * pt` in `Z_t` (with `t` dividing `q`).
pub proof fn lemma_plaintext_multiplication(c: BfvCipher, pt: Polynomial, sk: Polynomial, m: Seq<int>, e: Seq<int>)
    requires
        c.wf(),
        poly_in(pt, c.spec_params().spec_n(), c.spec_params().spec_q()),
        poly_in(sk, c.spec_params().spec_n(), 2),
        c.spec_params().spec_q() % c.spec_params().spec_t() == 0,
        carries(
            phase(c.spec_c1()@, c.spec_c2()@, sk@, c.spec_params().spec_q()),
            m,
            e,
            c.spec_params().spec_q(),
            c.spec_params().spec_t(),
        ),
        noise_within(conv_seq(e, pt@), c.spec_params().spec_delta()),
    ensures
        decryption(
            poly_mul(c.spec_c1()@, pt@, c.spec_params().spec_q()),
            poly_mul(c.spec_c2()@, pt@, c.spec_params().spec_q()),
            sk@,
            c.spec_params().spec_q(),
            c.spec_params().spec_t(),
        ) == poly_mul(m, poly_lift(pt@, c.spec_params().spec_t()), c.spec_params().spec_t()),
{
    let q = c.spec_params().spec_q();
    let t = c.spec_params().spec_t();
    let ph = phase(c.spec_c1()@, c.spec_c2()@, sk@, q);
    lemma_phase_of_plain_product(c.spec_c1()@, c.spec_c2()@, sk@, pt@, q);
    lemma_carries_product(ph, pt@, m, e, q, t);
    let mt = poly_mul(m, poly_lift(pt@, t), t);
    assert(coeffs_balanced(mt, t)) by {
        assert forall|i: int| 0 <= i < mt.len() implies in_balanced_range(#[trigger] mt[i], t) by {
            lemma_balance_range(nega_sum(m, poly_lift(pt@, t), i, m.len()), t);
        }
    }
    lemma_decode_recovers(poly_mul(ph, pt@, q), mt, conv_seq(e, pt@), q, t);
}

/// `|x|`.
pub open spec fn abs(x: int) -> int {
    if x < 0 {
        -x
    } else {
        x
    }
}

/// The sum of the magnitudes of the coefficients.
pub open spec fn abs_sum(p: Seq<int>) -> int {
    range_sum(|i: int| abs(p[i]), 0, p.len() as int)
}

/// Every coefficient has magnitude at most `b`.
pub open spec fn bounded_by(e: Seq<int>, b: int) -> bool {
    forall|i: int| 0 <= i < e.len() ==> -b <= #[trigger] e[i] <= b
}

/// Each coefficient of the exact product `e * p` has magnitude at most
/// `b * (|p_0| + ... + |p_(n-1)|)` when every coefficient of `e` has magnitude at most `b`.
pub proof fn lemma_conv_bound(e: Seq<int>, p: Seq<int>, k: int, b: int)
    requires
        e.len() == p.len(),
        0 <= k < e.len(),
        b >= 0,
        bounded_by(e, b),
    ensures
        -(b * abs_sum(p)) <= conv(e, p, k) <= b * abs_sum(p),
{
    let n = e.len() as int;
    lemma_nega_sum_is_conv(e, p, k);
    lemma_nega_sum_commutes(e, p, k);
    lemma_nega_sum_is_conv(p, e, k);
    let f = |j: int| p[j] * ext(e, k - j);
    let hi = |j: int| b * abs(p[j]);
    let lo = |j: int| -(b * abs(p[j]));
    let a = |j: int| abs(p[j]);
    assert forall|j: int| 0 <= j < n implies #[trigger] f(j) <= hi(j) && lo(j) <= f(j) by {
        let x = ext(e, k - j);
        lemma_fundamental_div_mod(k - j, n);
        lemma_mod_bound(k - j, n);
        assert(-b <= e[(k - j) % n] <= b);
        assert(-b <= x <= b);
        let y = p[j];
        assert(y * x <= b * abs(y) && -(b * abs(y)) <= y * x) by (nonlinear_arith)
            requires
                -b <= x <= b,
                b >= 0,
        ;
    }
    lemma_range_sum_le(f, hi, 0, n);
    lemma_range_sum_le(lo, f, 0, n);
    lemma_range_sum_scale(a, hi, b, 0, n);
    assert forall|j: int| 0 <= j < n implies #[trigger] lo(j) == -b * a(j) by {
        lemma_mul_unary_negation(b, abs(p[j]));
    }
    lemma_range_sum_scale(a, lo, -b, 0, n);
    lemma_mul_unary_negation(b, abs_sum(p));
}

/// Multiplication by a plaintext polynomial `pt` is exact when the noise of `c`
/// is bounded by `b` and `b * (|pt_0| + ... + |pt_(n-1)|) < delta / 2`:
/// `(c1 * pt, c2 * pt)` decrypts to `m * pt` in `Z_t` (with `t` dividing `q`).
pub proof fn lemma_plaintext_multiplication_bounded(
    c: BfvCipher,
    pt: Polynomial,
    sk: Polynomial,
    m: Seq<int>,
    e: Seq<int>,
    b: int,
)
    requires
        c.wf(),
        poly_in(pt, c.spec_params().spec_n(), c.spec_params().spec_q()),
        poly_in(sk, c.spec_params().spec_n(), 2),
        c.spec_params().spec_q() % c.spec_params().spec_t() == 0,
        carries(
            phase(c.spec_c1()@, c.spec_c2()@, sk@, c.spec_params().spec_q()),
            m,
            e,
            c.spec_params().spec_q(),
            c.spec_params().spec_t(),
        ),
        b >= 0,
        bounded_by(e, b),
        b * abs_sum(pt@) < c.spec_params().spec_delta() / 2,
    ensures
        decryption(
            poly_mul(c.spec_c1()@, pt@, c.spec_params().spec_q()),
            poly_mul(c.spec_c2()@, pt@, c.spec_params().spec_q()),
            sk@,
            c.spec_params().spec_q(),
            c.spec_params().spec_t(),
        ) == poly_mul(m, poly_lift(pt@, c.spec_params().spec_t()), c.spec_params().spec_t()),
{
    let d = c.spec_params().spec_delta();
    let w = conv_seq(e, pt@);
    assert forall|k: int| 0 <= k < w.len() implies -(d / 2) <= #[trigger] w[k] && w[k] < d - d / 2 by {
        lemma_conv_bound(e, pt@, k, b);
    }
    lemma_plaintext_multiplication(c, pt, sk, m, e);
}

/// The noise of a public-key encryption: `e1 + e2 * sk - e * u`, over the
/// integers, where `e` is the noise of the public key.
pub open spec fn public_key_noise(
    s: Seq<int>,
    e: Seq<int>,
    u: Seq<int>,
    e_1: Seq<int>,
    e_2: Seq<int>,
) -> Seq<int> {
    Seq::new(e_1.len(), |k: int| e_1[k] + conv(e_2, s, k) - conv(e, u, k))
}

/// The phase of a public-key encryption carries the message with the noise
/// `e1 + e2 * sk - e * u`.
pub proof fn lemma_public_key_phase(
    a: Seq<int>,
    s: Seq<int>,
    e: Seq<int>,
    m: Seq<int>,
    u: Seq<int>,
    e_1: Seq<int>,
    e_2: Seq<int>,
    q: int,
    t: int,
)
    requires
        0 < t < q,
        a.len() > 0,
        s.len() == a.len(),
        e.len() == a.len(),
        m.len() == a.len(),
        u.len() == a.len(),
        e_1.len() == a.len(),
        e_2.len() == a.len(),
    ensures
        carries(
            phase(pke_c1(public_key_of(a, s, e, q), m, u, e_1, q, t), pke_c2(a, u, e_2, q), s, q),
            m,
            public_key_noise(s, e, u, e_1, e_2),
            q,
            t,
        ),
{
    let n = a.len();
    let d = delta_of(q, t);
    let sq = poly_lift(s, q);
    let uq = poly_lift(u, q);
    let as_ = poly_mul(a, sq, q);
    let ase = poly_add(as_, e, q);
    let pk0 = public_key_of(a, s, e, q);
    let au = poly_mul(a, uq, q);
    let z = poly_mul(au, sq, q);
    let eu = poly_mul(e, uq, q);
    let e2s = poly_mul(e_2, sq, q);
    let dm = scaled_message(m, q, t);
    let c1 = pke_c1(pk0, m, u, e_1, q, t);
    let c2 = pke_c2(a, u, e_2, q);
    let ph = phase(c1, c2, s, q);
    let noise = public_key_noise(s, e, u, e_1, e_2);
    // pk0 * u == -(z + e * u) and c2 * sk == z + e2 * sk
    lemma_mul_neg_left(ase, uq, q);
    lemma_mul_distributes_left(as_, e, uq, q);
    lemma_mul_associates(a, sq, uq, q);
    lemma_mul_commutes(sq, uq, q);
    lemma_mul_associates(a, uq, sq, q);
    lemma_mul_distributes_left(au, e_2, sq, q);
    assert(poly_mul(pk0, uq, q) == poly_neg(poly_add(z, eu, q), q));
    assert(poly_mul(c2, sq, q) == poly_add(z, e2s, q));
    assert forall|i: int| 0 <= i < n implies #[trigger] sq[i] % q == s[i] % q by {
        lemma_balance_congruent(s[i], q);
    }
    assert forall|i: int| 0 <= i < n implies #[trigger] uq[i] % q == u[i] % q by {
        lemma_balance_congruent(u[i], q);
    }
    assert forall|k: int| 0 <= k < n implies #[trigger] ph[k] == balance(d * m[k] + noise[k], q) by {
        let (zk, euk, e2sk, e1k) = (z[k], eu[k], e2s[k], e_1[k]);
        let x1 = -(zk + euk) + e1k + dm[k];
        // c1[k] == balance(x1)
        lemma_balance_neg(zk + euk, q);
        lemma_balance_add_left(-(zk + euk), e1k, q);
        lemma_balance_add_left(-(zk + euk) + e1k, dm[k], q);
        assert(c1[k] == balance(x1, q));
        // phase[k] == balance(dm + e1 + e2s - eu)
        lemma_balance_add(x1, zk + e2sk, q);
        assert(x1 + (zk + e2sk) == dm[k] + (e1k + e2sk - euk));
        assert(dm[k] == balance(balance(m[k], q) * balance(d, q), q));
        lemma_balance_mul(m[k], d, q);
        lemma_mul_is_commutative(m[k], d);
        lemma_balance_add_left(d * m[k], e1k + e2sk - euk, q);
        // the reduced noise products are congruent to the exact ones
        lemma_nega_sum_congruent(e_2, e_2, sq, s, q, k, n);
        lemma_nega_sum_is_conv(e_2, s, k);
        lemma_balance_congruent(nega_sum(e_2, sq, k, n), q);
        lemma_nega_sum_congruent(e, e, uq, u, q, k, n);
        lemma_nega_sum_is_conv(e, u, k);
        lemma_balance_congruent(nega_sum(e, uq, k, n), q);
        let base = d * m[k] + e1k;
        lemma_congruent_add(base, base, e2sk, conv(e_2, s, k), q);
        lemma_congruent_neg(euk, conv(e, u, k), q);
        lemma_congruent_add(base + e2sk, base + conv(e_2, s, k), -euk, -conv(e, u, k), q);
        assert(d * m[k] + (e1k + e2sk - euk) == base + e2sk + -euk);
        assert(d * m[k] + noise[k] == base + conv(e_2, s, k) + -conv(e, u, k));
        lemma_balance_eq(base + e2sk + -euk, base + conv(e_2, s, k) + -conv(e, u, k), q);
    }
}

/// Public-key encryption round trip: for every secret key, public-key noise
/// `e`, ephemeral key `u` and encryption noise `e1`, `e2` whose combined noise
/// `e1 + e2 * sk - e * u` still rounds away, the public-key encryption of `m`
/// decrypts to `m` (with `t` dividing `q`).
pub proof fn lemma_public_key_round_trip(
    params: BfvParams,
    sk: Polynomial,
    a: Seq<int>,
    e: Seq<int>,
    m: Polynomial,
    u: Seq<int>,
    e_1: Seq<int>,
    e_2: Seq<int>,
)
    requires
        params.wf(),
        params.spec_q() % params.spec_t() == 0,
        poly_in(sk, params.spec_n(), 2),
        poly_in(m, params.spec_n(), params.spec_t()),
        a.len() == params.spec_n(),
        e.len() == params.spec_n(),
        u.len() == params.spec_n(),
        e_1.len() == params.spec_n(),
        e_2.len() == params.spec_n(),
        noise_within(public_key_noise(sk@, e, u, e_1, e_2), params.spec_delta()),
    ensures
        decryption(
            pke_c1(public_key_of(a, sk@, e, params.spec_q()), m@, u, e_1, params.spec_q(), params.spec_t()),
            pke_c2(a, u, e_2, params.spec_q()),
            sk@,
            params.spec_q(),
            params.spec_t(),
        ) == m@,
{
    let q = params.spec_q();
    let t = params.spec_t();
    lemma_public_key_phase(a, sk@, e, m@, u, e_1, e_2, q, t);
    lemma_decode_recovers(
        phase(pke_c1(public_key_of(a, sk@, e, q), m@, u, e_1, q, t), pke_c2(a, u, e_2, q), sk@, q),
        m@,
        public_key_noise(sk@, e, u, e_1, e_2),
        q,
        t,
    );
}

/// `t * delta` exceeds `q` by less than `t`.
proof fn lemma_delta_excess(q: int, t: int)
    requires
        0 < t < q,
    ensures
        0 <= t * delta_of(q, t) - q < t,
        delta_of(q, t) > 0,
{
    lemma_fundamental_div_mod(q + t - 1, t);
    lemma_mod_bound(q + t - 1, t);
    let d = delta_of(q, t);
    assert(d > 0) by (nonlinear_arith)
        requires
            q + t - 1 == t * d + (q + t - 1) % t,
            0 <= (q + t - 1) % t < t,
            0 < t < q,
    ;
}

/// Rounding `delta * x + e`, taken modulo `q == t * delta - r`, gives `x` modulo
/// `t` when `|delta * x + e| < q` and the noise keeps a margin of `r`.
proof fn lemma_round_recovers_wrapped(x: int, e: int, d: int, q: int, t: int, r: int)
    requires
        t > 0,
        d > 0,
        q > 0,
        r >= 0,
        q == t * d - r,
        -q < d * x + e < q,
        -(d / 2) + r <= e,
        e + r < d - d / 2,
    ensures
        balance(round_div(balance(d * x + e, q), d), t) == balance(x, t),
{
    let w = d * x + e;
    let v = balance(w, q);
    lemma_balance_congruent(w, q);
    lemma_balance_range(w, q);
    let j = lemma_congruent_offset(v, w, q);
    assert(-1 <= j <= 1) by (nonlinear_arith)
        requires
            v == w + q * j,
            -q < w < q,
            -q <= v <= q,
            q > 0,
    ;
    assert(v + d / 2 == (x + t * j) * d + (e - r * j + d / 2)) by (nonlinear_arith)
        requires
            v == w + q * j,
            w == d * x + e,
            q == t * d - r,
    ;
    assert(0 <= e - r * j + d / 2 < d) by (nonlinear_arith)
        requires
            -1 <= j <= 1,
            r >= 0,
            -(d / 2) + r <= e,
            e + r < d - d / 2,
    ;
    lemma_fundamental_div_mod_converse_div(v + d / 2, d, x + t * j, e - r * j + d / 2);
    assert(x + t * j == t * j + x);
    lemma_mod_multiples_vanish(j, x, t);
    lemma_balance_eq(x + t * j, x, t);
}

/// A phase that carries the integers `x` with noise `e` decodes to `x` modulo
/// `t`, also when `t` does not divide `q`: it suffices that `|delta * x + e| < q`
/// and that the noise rounds away with a margin of `r = t * delta - q`.
pub proof fn lemma_decode_wrapped(ph: Seq<int>, x: Seq<int>, e: Seq<int>, q: int, t: int)
    requires
        0 < t < q,
        carries(ph, x, e, q, t),
        forall|k: int|
            0 <= k < x.len() ==> -q < delta_of(q, t) * #[trigger] x[k] + e[k] < q,
        forall|k: int|
            0 <= k < e.len() ==> -(delta_of(q, t) / 2) + (t * delta_of(q, t) - q) <= #[trigger] e[k]
                && e[k] + (t * delta_of(q, t) - q) < delta_of(q, t) - delta_of(q, t) / 2,
    ensures
        poly_decode(ph, delta_of(q, t), t) == Seq::new(x.len(), |k: int| balance(x[k], t)),
{
    let d = delta_of(q, t);
    lemma_delta_excess(q, t);
    let r = t * d - q;
    assert forall|k: int| 0 <= k < x.len() implies #[trigger] poly_decode(ph, d, t)[k] == balance(
        x[k],
        t,
    ) by {
        assert(ph[k] == balance(d * x[k] + e[k], q));
        assert(-q < d * x[k] + e[k] < q);
        assert(-(d / 2) + r <= e[k] && e[k] + r < d - d / 2);
        lemma_round_recovers_wrapped(x[k], e[k], d, q, t, r);
    }
    assert(poly_decode(ph, d, t) =~= Seq::new(x.len(), |k: int| balance(x[k], t)));
}

/// Ternary noise has magnitude at most 1.
proof fn lemma_ternary_bounded(e: Seq<int>, q: int)
    requires
        q >= 2,
        is_ternary(e, q),
    ensures
        bounded_by(e, 1),
{
    lemma_balance_range(-1, q);
    lemma_balance_range(1, q);
    assert forall|i: int| 0 <= i < e.len() implies -1 <= #[trigger] e[i] <= 1 by {
        assert(e[i] == balance(-1, q) || e[i] == 0 || e[i] == balance(1, q));
        if q == 2 {
            lemma_fundamental_div_mod_converse_mod(-1, 2, -1, 1);
            lemma_fundamental_div_mod_converse_mod(1, 2, 0, 1);
        } else {
            lemma_balance_fixed(-1, q);
            lemma_balance_fixed(1, q);
        }
    }
}

/// A polynomial with coefficients in `{0, 1}` has `|p_0| + ... + |p_(n-1)| <= n`.
proof fn lemma_binary_abs_sum(p: Seq<int>)
    requires
        coeffs_balanced(p, 2),
    ensures
        0 <= abs_sum(p) <= p.len(),
{
    let f = |i: int| abs(p[i]);
    assert forall|i: int| 0 <= i < p.len() implies #[trigger] f(i) <= 1 && 0 <= f(i) by {
        assert(in_balanced_range(p[i], 2));
    }
    lemma_range_sum_at_most(f, 1, 0, p.len() as int);
    lemma_range_sum_le(|i: int| 0, f, 0, p.len() as int);
    lemma_range_sum_at_most(|i: int| 0, 0, 0, p.len() as int);
    lemma_range_sum_scale(f, |i: int| 0, 0, 0, p.len() as int);
}

/// The noise of a public-key encryption with a secret key and ephemeral key in
/// `{0, 1}` and noise from `{-1, 0, 1}` has magnitude at most `2n + 1`.
pub proof fn lemma_public_key_noise_bound(
    s: Seq<int>,
    e: Seq<int>,
    u: Seq<int>,
    e_1: Seq<int>,
    e_2: Seq<int>,
    q: int,
)
    requires
        q >= 2,
        s.len() > 0,
        e.len() == s.len(),
        u.len() == s.len(),
        e_1.len() == s.len(),
        e_2.len() == s.len(),
        coeffs_balanced(s, 2),
        coeffs_balanced(u, 2),
        is_ternary(e, q),
        is_ternary(e_1, q),
        is_ternary(e_2, q),
    ensures
        bounded_by(public_key_noise(s, e, u, e_1, e_2), 2 * (s.len() as int) + 1),
{
    let n = s.len() as int;
    lemma_ternary_bounded(e, q);
    lemma_ternary_bounded(e_1, q);
    lemma_ternary_bounded(e_2, q);
    lemma_binary_abs_sum(s);
    lemma_binary_abs_sum(u);
    let w = public_key_noise(s, e, u, e_1, e_2);
    assert forall|k: int| 0 <= k < n implies -(2 * n + 1) <= #[trigger] w[k] <= 2 * n + 1 by {
        lemma_conv_bound(e_2, s, k, 1);
        lemma_conv_bound(e, u, k, 1);
        assert(-1 <= e_1[k] <= 1);
    }
}

/// Homomorphic addition of two public-key encryptions, also where `t` does not
/// divide `q`: for every secret key and ephemeral keys in `{0, 1}` and all noise
/// from `{-1, 0, 1}`, the sum decrypts to `m_a + m_b` in `Z_t`, provided that
/// with `B = 2 * (2n + 1)` and `r = t * delta - q`: `delta * 2 * (t/2) + B < q`
/// and `B + r < delta / 2`.
pub proof fn lemma_public_key_sum_round_trip(
    params: BfvParams,
    sk: Polynomial,
    a: Seq<int>,
    e: Seq<int>,
    m_a: Polynomial,
    u_a: Seq<int>,
    e1_a: Seq<int>,
    e2_a: Seq<int>,
    m_b: Polynomial,
    u_b: Seq<int>,
    e1_b: Seq<int>,
    e2_b: Seq<int>,
)
    requires
        params.wf(),
        poly_in(sk, params.spec_n(), 2),
        poly_in(m_a, params.spec_n(), params.spec_t()),
        poly_in(m_b, params.spec_n(), params.spec_t()),
        a.len() == params.spec_n(),
        e.len() == params.spec_n(),
        u_a.len() == params.spec_n(),
        e1_a.len() == params.spec_n(),
        e2_a.len() == params.spec_n(),
        u_b.len() == params.spec_n(),
        e1_b.len() == params.spec_n(),
        e2_b.len() == params.spec_n(),
        coeffs_balanced(u_a, 2),
        coeffs_balanced(u_b, 2),
        is_ternary(e, params.spec_q()),
        is_ternary(e1_a, params.spec_q()),
        is_ternary(e2_a, params.spec_q()),
        is_ternary(e1_b, params.spec_q()),
        is_ternary(e2_b, params.spec_q()),
        params.spec_delta() * (2 * (params.spec_t() / 2)) + 2 * (2 * params.spec_n() + 1)
            < params.spec_q(),
        2 * (2 * params.spec_n() + 1) + (params.spec_t() * params.spec_delta() - params.spec_q())
            < params.spec_delta() / 2,
    ensures
        decryption(
            poly_add(
                pke_c1(public_key_of(a, sk@, e, params.spec_q()), m_a@, u_a, e1_a, params.spec_q(), params.spec_t()),
                pke_c1(public_key_of(a, sk@, e, params.spec_q()), m_b@, u_b, e1_b, params.spec_q(), params.spec_t()),
                params.spec_q(),
            ),
            poly_add(pke_c2(a, u_a, e2_a, params.spec_q()), pke_c2(a, u_b, e2_b, params.spec_q()), params.spec_q()),
            sk@,
            params.spec_q(),
            params.spec_t(),
        ) == poly_add(m_a@, m_b@, params.spec_t()),
{
    let q = params.spec_q();
    let t = params.spec_t();
    let n = params.spec_n();
    let d = params.spec_delta();
    let s = sk@;
    let pk0 = public_key_of(a, s, e, q);
    let ca1 = pke_c1(pk0, m_a@, u_a, e1_a, q, t);
    let cb1 = pke_c1(pk0, m_b@, u_b, e1_b, q, t);
    let ca2 = pke_c2(a, u_a, e2_a, q);
    let cb2 = pke_c2(a, u_b, e2_b, q);
    let na = public_key_noise(s, e, u_a, e1_a, e2_a);
    let nb = public_key_noise(s, e, u_b, e1_b, e2_b);
    lemma_public_key_phase(a, s, e, m_a@, u_a, e1_a, e2_a, q, t);
    lemma_public_key_phase(a, s, e, m_b@, u_b, e1_b, e2_b, q, t);
    lemma_public_key_noise_bound(s, e, u_a, e1_a, e2_a, q);
    lemma_public_key_noise_bound(s, e, u_b, e1_b, e2_b, q);
    lemma_phase_of_sum_exact(ca1, ca2, cb1, cb2, s, m_a@, m_b@, na, nb, q, t);
    lemma_delta_excess(q, t);
    let x = noise_sum(m_a@, m_b@);
    let w = noise_sum(na, nb);
    assert forall|k: int| 0 <= k < x.len() implies -q < d * #[trigger] x[k] + w[k] < q by {
        assert(in_balanced_range(m_a@[k], t) && in_balanced_range(m_b@[k], t));
        assert(-(2 * (t / 2)) <= x[k] <= 2 * (t / 2));
        assert(-(2 * n + 1) <= na[k] <= 2 * n + 1);
        assert(-(2 * n + 1) <= nb[k] <= 2 * n + 1);
        assert(-(d * (2 * (t / 2))) <= d * x[k] <= d * (2 * (t / 2))) by (nonlinear_arith)
            requires
                -(2 * (t / 2)) <= x[k] <= 2 * (t / 2),
                d > 0,
        ;
    }
    assert forall|k: int| 0 <= k < w.len() implies -(d / 2) + (t * d - q) <= #[trigger] w[k] && w[k]
        + (t * d - q) < d - d / 2 by {
        assert(-(2 * n + 1) <= na[k] <= 2 * n + 1);
        assert(-(2 * n + 1) <= nb[k] <= 2 * n + 1);
    }
    lemma_decode_wrapped(phase(poly_add(ca1, cb1, q), poly_add(ca2, cb2, q), s, q), x, w, q, t);
    assert(Seq::new(x.len(), |k: int| balance(x[k], t)) =~= poly_add(m_a@, m_b@, t));
}

} // verus!
