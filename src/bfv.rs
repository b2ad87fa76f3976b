//! A BFV-style scheme over `Z_q[x]/(x^n + 1)` with plaintexts in `Z_t[x]/(x^n + 1)`.
//!
//! A message `m` is carried as `delta * m` plus small noise, with
//! `delta = ceil(q / t)`; decryption computes the phase `c1 + c2 * sk` and
//! rounds it back to `Z_t`. Two encryption modes share one key pair: under the
//! public key `(pk0, pk1) = (-(a * sk + e), a)`, and under the secret key itself.
use crate::arith::balance;
use crate::polynomial::{
    coeffs_balanced, poly_add, poly_decode, poly_lift, poly_mul, poly_neg, poly_scale, Element,
    Polynomial,
};
use crate::sampling::is_ternary;
use rand::rngs::StdRng;
use vstd::arithmetic::div_mod::lemma_div_decreases;
use vstd::prelude::*;

verus! {

/// `n` is a power of two.
pub open spec fn is_power_of_two(n: int) -> bool
    decreases n,
{
    if n <= 0 {
        false
    } else if n == 1 {
        true
    } else if n % 2 == 1 {
        false
    } else {
        is_power_of_two(n / 2)
    }
}

/// `ceil(q / t)`.
pub open spec fn delta_of(q: int, t: int) -> int {
    (q + t - 1) / t
}

/// Why a parameter set is refused.
#[derive(Debug, Clone, Copy, PartialEq, Eq, Structural)]
pub enum ParamError {
    /// The ring dimension is not a power of two.
    DimensionNotPowerOfTwo,
    /// The plaintext modulus is zero, so the scale factor is undefined.
    ZeroPlaintextModulus,
    /// The plaintext modulus is not below the ciphertext modulus.
    PlaintextModulusTooLarge,
}

/// Ring dimension `n`, ciphertext modulus `q` and plaintext modulus `t`.
#[derive(Debug, Clone, Copy, PartialEq, Eq, Structural)]
pub struct BfvParams {
    n: usize,
    q: u64,
    t: u64,
}

/// Whether `n` is a power of two, by halving.
fn power_of_two(n: usize) -> (r: bool)
    ensures
        r == is_power_of_two(n as int),
{
    if n == 0 {
        return false;
    }
    let mut x = n;
    while x > 1 && x % 2 == 0
        invariant
            x > 0,
            is_power_of_two(x as int) == is_power_of_two(n as int),
        decreases x,
    {
        x = x / 2;
    }
    x == 1
}

impl BfvParams {
    pub closed spec fn spec_n(&self) -> int {
        self.n as int
    }

    pub closed spec fn spec_q(&self) -> int {
        self.q as int
    }

    pub closed spec fn spec_t(&self) -> int {
        self.t as int
    }

    /// `n` is a power of two and `0 < t < q`.
    pub open spec fn wf(&self) -> bool {
        is_power_of_two(self.spec_n()) && 0 < self.spec_t() < self.spec_q()
    }

    pub open spec fn spec_delta(&self) -> int {
        delta_of(self.spec_q(), self.spec_t())
    }

    /// The parameter set `(n, q, t)`, or the first of its faults in the order
    /// dimension, zero plaintext modulus, plaintext modulus not below `q`.
    pub fn new(n: usize, q: u64, t: u64) -> (r: Result<BfvParams, ParamError>)
        ensures
            r is Ok <==> (is_power_of_two(n as int) && 0 < t < q),
            r matches Ok(p) ==> p.wf() && p.spec_n() == n && p.spec_q() == q && p.spec_t() == t,
            r == Err::<BfvParams, ParamError>(ParamError::DimensionNotPowerOfTwo) <==> !is_power_of_two(n as int),
            r == Err::<BfvParams, ParamError>(ParamError::ZeroPlaintextModulus) <==> (is_power_of_two(n as int) && t == 0),
            r == Err::<BfvParams, ParamError>(ParamError::PlaintextModulusTooLarge) <==> (is_power_of_two(n as int) && 0 < t && t >= q),
    {
        if !power_of_two(n) {
            Err(ParamError::DimensionNotPowerOfTwo)
        } else if t == 0 {
            Err(ParamError::ZeroPlaintextModulus)
        } else if t >= q {
            Err(ParamError::PlaintextModulusTooLarge)
        } else {
            Ok(BfvParams { n, q, t })
        }
    }

    pub fn n(&self) -> (r: usize)
        ensures
            r == self.spec_n(),
    {
        self.n
    }

    pub fn q(&self) -> (r: u64)
        ensures
            r == self.spec_q(),
    {
        self.q
    }

    pub fn t(&self) -> (r: u64)
        ensures
            r == self.spec_t(),
    {
        self.t
    }

    /// The scale factor `ceil(q / t)`.
    pub fn delta(&self) -> (r: u64)
        requires
            self.wf(),
        ensures
            r == self.spec_delta(),
            0 < r <= self.spec_q(),
    {
        let d = self.q / self.t;
        let r = if self.q % self.t == 0 {
            d
        } else {
            proof {
                lemma_div_decreases(self.q as int, self.t as int);
            }
            d + 1
        };
        assert(r == delta_of(self.q as int, self.t as int)) by (nonlinear_arith)
            requires
                self.t > 0,
                d == self.q / self.t,
                r == (if self.q % self.t == 0 { d as int } else { d + 1 }),
        ;
        assert(0 < r <= self.q) by (nonlinear_arith)
            requires
                0 < self.t < self.q,
                d == self.q / self.t,
                r == (if self.q % self.t == 0 { d as int } else { d + 1 }),
        ;
        r
    }
}

/// `p` is a well-formed polynomial of dimension `n` and modulus `m`.
pub open spec fn poly_in(p: Polynomial, n: int, m: int) -> bool {
    p.wf() && p@.len() == n && p.spec_modulus() == m
}

/// `delta * m`, with the message's coefficients carried over to `Z_q`.
pub open spec fn scaled_message(m: Seq<int>, q: int, t: int) -> Seq<int> {
    poly_scale(poly_lift(m, q), balance(delta_of(q, t), q), q)
}

/// The public key made from the secret key `s`, the uniform `a` and the noise `e`:
/// `pk0 = -(a * s + e)`.
pub open spec fn public_key_of(a: Seq<int>, s: Seq<int>, e: Seq<int>, q: int) -> Seq<int> {
    poly_neg(poly_add(poly_mul(a, poly_lift(s, q), q), e, q), q)
}

/// The first half of a public-key encryption: `pk0 * u + e1 + delta * m`.
pub open spec fn pke_c1(
    pk0: Seq<int>,
    m: Seq<int>,
    u: Seq<int>,
    e1: Seq<int>,
    q: int,
    t: int,
) -> Seq<int> {
    poly_add(poly_add(poly_mul(pk0, poly_lift(u, q), q), e1, q), scaled_message(m, q, t), q)
}

/// The second half of a public-key encryption: `pk1 * u + e2`.
pub open spec fn pke_c2(pk1: Seq<int>, u: Seq<int>, e2: Seq<int>, q: int) -> Seq<int> {
    poly_add(poly_mul(pk1, poly_lift(u, q), q), e2, q)
}

/// The first half of a secret-key encryption: `sk * a + delta * m + e`.
pub open spec fn ske_c1(s: Seq<int>, a: Seq<int>, m: Seq<int>, e: Seq<int>, q: int, t: int) -> Seq<int> {
    poly_add(poly_add(poly_mul(poly_lift(s, q), a, q), scaled_message(m, q, t), q), e, q)
}

/// The phase `c1 + c2 * sk` of a ciphertext, in `Z_q`.
pub open spec fn phase(c1: Seq<int>, c2: Seq<int>, s: Seq<int>, q: int) -> Seq<int> {
    poly_add(c1, poly_mul(c2, poly_lift(s, q), q), q)
}

/// What a ciphertext decrypts to under the secret key `s`.
pub open spec fn decryption(c1: Seq<int>, c2: Seq<int>, s: Seq<int>, q: int, t: int) -> Seq<int> {
    poly_decode(phase(c1, c2, s, q), delta_of(q, t), t)
}

/// The scheme with its public key.
#[derive(Debug, Clone)]
pub struct Bfv {
    params: BfvParams,
    pk0: Polynomial,
    pk1: Polynomial,
}

/// A ciphertext: the pair `(c1, c2)` of polynomials of `Z_q[x]/(x^n + 1)`.
#[derive(Debug, Clone)]
pub struct BfvCipher {
    params: BfvParams,
    c_1: Polynomial,
    c_2: Polynomial,
}

impl Bfv {
    pub closed spec fn spec_params(&self) -> BfvParams {
        self.params
    }

    pub closed spec fn spec_pk0(&self) -> Polynomial {
        self.pk0
    }

    pub closed spec fn spec_pk1(&self) -> Polynomial {
        self.pk1
    }

    pub open spec fn wf(&self) -> bool {
        let p = self.spec_params();
        &&& p.wf()
        &&& poly_in(self.spec_pk0(), p.spec_n(), p.spec_q())
        &&& poly_in(self.spec_pk1(), p.spec_n(), p.spec_q())
    }

    pub fn params(&self) -> (r: BfvParams)
        ensures
            r == self.spec_params(),
    {
        self.params
    }

    /// The public key `(pk0, pk1)`.
    pub fn public_key(&self) -> (r: (&Polynomial, &Polynomial))
        ensures
            r.0 == self.spec_pk0(),
            r.1 == self.spec_pk1(),
    {
        (&self.pk0, &self.pk1)
    }

    /// The scheme whose public key is made from the secret key `sk`, the
    /// uniform polynomial `a` and the noise `e`: `(-(a * sk + e), a)`.
    pub fn keygen_with(params: BfvParams, sk: &Polynomial, a: Polynomial, e: &Polynomial) -> (r: Bfv)
        requires
            params.wf(),
            poly_in(*sk, params.spec_n(), 2),
            poly_in(a, params.spec_n(), params.spec_q()),
            poly_in(*e, params.spec_n(), params.spec_q()),
        ensures
            r.wf(),
            r.spec_params() == params,
            r.spec_pk1() == a,
            r.spec_pk0()@ == public_key_of(a@, sk@, e@, params.spec_q()),
    {
        let s = sk.lift(params.q);
        let pk0 = a.mul(&s).add(e).neg();
        Bfv { params, pk0, pk1: a }
    }

    /// A secret key with coefficients in `{0, 1}` and the scheme with its
    /// public key `(-(a * sk + e), a)`, for a fresh uniform `a` and fresh noise
    /// `e` drawn from `{-1, 0, 1}`.
    pub fn keygen(params: BfvParams, rng: &mut StdRng) -> (r: (Bfv, Polynomial))
        requires
            params.wf(),
        ensures
            r.0.wf(),
            r.0.spec_params() == params,
            poly_in(r.1, params.spec_n(), 2),
            exists|e: Seq<int>|
                #![trigger public_key_of(r.0.spec_pk1()@, r.1@, e, params.spec_q())]
                e.len() == params.spec_n() && is_ternary(e, params.spec_q())
                    && r.0.spec_pk0()@ == public_key_of(
                    r.0.spec_pk1()@,
                    r.1@,
                    e,
                    params.spec_q(),
                ),
    {
        let sk = Polynomial::rand(params.n, 2, rng);
        let a = Polynomial::rand(params.n, params.q, rng);
        let e = Polynomial::ternary_error(params.n, params.q, rng);
        let bfv = Bfv::keygen_with(params, &sk, a, &e);
        assert(public_key_of(bfv.pk1@, sk@, e@, params.spec_q()) == bfv.pk0@);
        (bfv, sk)
    }

    /// `delta * m` in `Z_q`.
    fn scale_message(&self, message: &Polynomial) -> (r: Polynomial)
        requires
            self.wf(),
            poly_in(*message, self.spec_params().spec_n(), self.spec_params().spec_t()),
        ensures
            poly_in(r, self.spec_params().spec_n(), self.spec_params().spec_q()),
            r@ == scaled_message(
                message@,
                self.spec_params().spec_q(),
                self.spec_params().spec_t(),
            ),
    {
        let delta = self.params.delta();
        let delta_elem = Element::from_unsigned(delta, self.params.q);
        message.lift(self.params.q).mul_element(delta_elem)
    }

    /// The public-key encryption of `message` with the ephemeral key `u` and
    /// the noise `e1`, `e2`: `(pk0 * u + e1 + delta * m, pk1 * u + e2)`.
    pub fn encrypt_with(
        &self,
        message: &Polynomial,
        u: &Polynomial,
        e_1: &Polynomial,
        e_2: &Polynomial,
    ) -> (c: BfvCipher)
        requires
            self.wf(),
            poly_in(*message, self.spec_params().spec_n(), self.spec_params().spec_t()),
            poly_in(*u, self.spec_params().spec_n(), 2),
            poly_in(*e_1, self.spec_params().spec_n(), self.spec_params().spec_q()),
            poly_in(*e_2, self.spec_params().spec_n(), self.spec_params().spec_q()),
        ensures
            c.wf(),
            c.spec_params() == self.spec_params(),
            c.spec_c1()@ == pke_c1(
                self.spec_pk0()@,
                message@,
                u@,
                e_1@,
                self.spec_params().spec_q(),
                self.spec_params().spec_t(),
            ),
            c.spec_c2()@ == pke_c2(self.spec_pk1()@, u@, e_2@, self.spec_params().spec_q()),
    {
        let delta_m = self.scale_message(message);
        let u_q = u.lift(self.params.q);
        let c_1 = self.pk0.mul(&u_q).add(e_1).add(&delta_m);
        let c_2 = self.pk1.mul(&u_q).add(e_2);
        BfvCipher { params: self.params, c_1, c_2 }
    }

    /// Encrypts `message` under the public key, with a fresh ephemeral key `u`
    /// of coefficients in `{0, 1}` and fresh noise `e1`, `e2` from `{-1, 0, 1}`.
    pub fn encrypt(&self, message: &Polynomial, rng: &mut StdRng) -> (c: BfvCipher)
        requires
            self.wf(),
            poly_in(*message, self.spec_params().spec_n(), self.spec_params().spec_t()),
        ensures
            c.wf(),
            c.spec_params() == self.spec_params(),
            exists|u: Seq<int>, e_1: Seq<int>, e_2: Seq<int>|
                #![trigger pke_c1(self.spec_pk0()@, message@, u, e_1, self.spec_params().spec_q(), self.spec_params().spec_t()), pke_c2(self.spec_pk1()@, u, e_2, self.spec_params().spec_q())]
                u.len() == self.spec_params().spec_n() && e_1.len() == self.spec_params().spec_n()
                    && e_2.len() == self.spec_params().spec_n() && coeffs_balanced(u, 2) && is_ternary(
                    e_1,
                    self.spec_params().spec_q(),
                ) && is_ternary(e_2, self.spec_params().spec_q()) && c.spec_c1()@ == pke_c1(
                    self.spec_pk0()@,
                    message@,
                    u,
                    e_1,
                    self.spec_params().spec_q(),
                    self.spec_params().spec_t(),
                ) && c.spec_c2()@ == pke_c2(
                    self.spec_pk1()@,
                    u,
                    e_2,
                    self.spec_params().spec_q(),
                ),
    {
        let n = self.params.n;
        let q = self.params.q;
        let u = Polynomial::rand(n, 2, rng);
        let e_1 = Polynomial::ternary_error(n, q, rng);
        let e_2 = Polynomial::ternary_error(n, q, rng);
        let c = self.encrypt_with(message, &u, &e_1, &e_2);
        assert(c.spec_c1()@ == pke_c1(self.pk0@, message@, u@, e_1@, q as int, self.params.t as int));
        assert(c.spec_c2()@ == pke_c2(self.pk1@, u@, e_2@, q as int));
        c
    }

    /// The secret-key encryption of `message` with the uniform `a` and the
    /// noise `e`: `(sk * a + delta * m + e, -a)`.
    pub fn encrypt_symmetric_with(
        &self,
        message: &Polynomial,
        sk: &Polynomial,
        a: &Polynomial,
        e: &Polynomial,
    ) -> (c: BfvCipher)
        requires
            self.wf(),
            poly_in(*message, self.spec_params().spec_n(), self.spec_params().spec_t()),
            poly_in(*sk, self.spec_params().spec_n(), 2),
            poly_in(*a, self.spec_params().spec_n(), self.spec_params().spec_q()),
            poly_in(*e, self.spec_params().spec_n(), self.spec_params().spec_q()),
        ensures
            c.wf(),
            c.spec_params() == self.spec_params(),
            c.spec_c1()@ == ske_c1(
                sk@,
                a@,
                message@,
                e@,
                self.spec_params().spec_q(),
                self.spec_params().spec_t(),
            ),
            c.spec_c2()@ == poly_neg(a@, self.spec_params().spec_q()),
    {
        let delta_m = self.scale_message(message);
        let s = sk.lift(self.params.q);
        let c_1 = s.mul(a).add(&delta_m).add(e);
        let c_2 = a.neg();
        BfvCipher { params: self.params, c_1, c_2 }
    }

    /// Encrypts `message` under the secret key, with a fresh uniform `a` and
    /// fresh noise `e` from `{-1, 0, 1}`.
    pub fn encrypt_symmetric(&self, message: &Polynomial, sk: &Polynomial, rng: &mut StdRng) -> (c: BfvCipher)
        requires
            self.wf(),
            poly_in(*message, self.spec_params().spec_n(), self.spec_params().spec_t()),
            poly_in(*sk, self.spec_params().spec_n(), 2),
        ensures
            c.wf(),
            c.spec_params() == self.spec_params(),
            exists|a: Seq<int>, e: Seq<int>|
                #![trigger ske_c1(sk@, a, message@, e, self.spec_params().spec_q(), self.spec_params().spec_t())]
                a.len() == self.spec_params().spec_n() && e.len() == self.spec_params().spec_n()
                    && coeffs_balanced(a, self.spec_params().spec_q()) && is_ternary(
                    e,
                    self.spec_params().spec_q(),
                ) && c.spec_c1()@ == ske_c1(
                    sk@,
                    a,
                    message@,
                    e,
                    self.spec_params().spec_q(),
                    self.spec_params().spec_t(),
                ) && c.spec_c2()@ == poly_neg(a, self.spec_params().spec_q()),
    {
        let n = self.params.n;
        let q = self.params.q;
        let a = Polynomial::rand(n, q, rng);
        let e = Polynomial::ternary_error(n, q, rng);
        let c = self.encrypt_symmetric_with(message, sk, &a, &e);
        assert(c.spec_c1()@ == ske_c1(sk@, a@, message@, e@, q as int, self.params.t as int));
        c
    }
}

impl BfvCipher {
    pub closed spec fn spec_params(&self) -> BfvParams {
        self.params
    }

    pub closed spec fn spec_c1(&self) -> Polynomial {
        self.c_1
    }

    pub closed spec fn spec_c2(&self) -> Polynomial {
        self.c_2
    }

    pub open spec fn wf(&self) -> bool {
        let p = self.spec_params();
        &&& p.wf()
        &&& poly_in(self.spec_c1(), p.spec_n(), p.spec_q())
        &&& poly_in(self.spec_c2(), p.spec_n(), p.spec_q())
    }

    pub fn params(&self) -> (r: BfvParams)
        ensures
            r == self.spec_params(),
    {
        self.params
    }

    pub fn c1(&self) -> (r: &Polynomial)
        ensures
            *r == self.spec_c1(),
    {
        &self.c_1
    }

    pub fn c2(&self) -> (r: &Polynomial)
        ensures
            *r == self.spec_c2(),
    {
        &self.c_2
    }

    /// The phase `c1 + c2 * sk` in `Z_q`: `delta * m` plus the noise.
    pub fn phase(&self, sk: &Polynomial) -> (r: Polynomial)
        requires
            self.wf(),
            poly_in(*sk, self.spec_params().spec_n(), 2),
        ensures
            poly_in(r, self.spec_params().spec_n(), self.spec_params().spec_q()),
            r@ == phase(self.spec_c1()@, self.spec_c2()@, sk@, self.spec_params().spec_q()),
    {
        let s = sk.lift(self.params.q);
        self.c_1.add(&self.c_2.mul(&s))
    }

    /// The plaintext: every coefficient of the phase divided by `delta` with
    /// rounding (halves upwards) and reduced modulo `t`.
    ///
    /// Decryption cannot tell when the noise in the phase has reached `delta / 2`:
    /// such a ciphertext decodes to a wrong plaintext, silently and without any
    /// error. The plaintext is exact only under the noise conditions of the
    /// `noise` module (`lemma_decryption_recovers` and the round-trip lemmas there).
    pub fn decrypt(self, sk: &Polynomial) -> (r: Polynomial)
        requires
            self.wf(),
            poly_in(*sk, self.spec_params().spec_n(), 2),
        ensures
            poly_in(r, self.spec_params().spec_n(), self.spec_params().spec_t()),
            r@ == decryption(
                self.spec_c1()@,
                self.spec_c2()@,
                sk@,
                self.spec_params().spec_q(),
                self.spec_params().spec_t(),
            ),
    {
        let ct = self.phase(sk);
        let delta = self.params.delta();
        ct.decode(delta, self.params.t)
    }

    /// Homomorphic addition: `(c1 + c1', c2 + c2')`.
    pub fn add(self, rhs: BfvCipher) -> (r: BfvCipher)
        requires
            self.wf(),
            rhs.wf(),
            rhs.spec_params() == self.spec_params(),
        ensures
            r.wf(),
            r.spec_params() == self.spec_params(),
            r.spec_c1()@ == poly_add(self.spec_c1()@, rhs.spec_c1()@, self.spec_params().spec_q()),
            r.spec_c2()@ == poly_add(self.spec_c2()@, rhs.spec_c2()@, self.spec_params().spec_q()),
    {
        let c_1 = self.c_1.add(&rhs.c_1);
        let c_2 = self.c_2.add(&rhs.c_2);
        BfvCipher { params: self.params, c_1, c_2 }
    }

    /// Multiplication by a plaintext polynomial `pt` of `Z_q[x]/(x^n + 1)`:
    /// `(c1 * pt, c2 * pt)`.
    pub fn mul_plain(&self, pt: &Polynomial) -> (r: BfvCipher)
        requires
            self.wf(),
            poly_in(*pt, self.spec_params().spec_n(), self.spec_params().spec_q()),
        ensures
            r.wf(),
            r.spec_params() == self.spec_params(),
            r.spec_c1()@ == poly_mul(self.spec_c1()@, pt@, self.spec_params().spec_q()),
            r.spec_c2()@ == poly_mul(self.spec_c2()@, pt@, self.spec_params().spec_q()),
    {
        let c_1 = self.c_1.mul(pt);
        let c_2 = self.c_2.mul(pt);
        BfvCipher { params: self.params, c_1, c_2 }
    }

    /// The termwise product `(c1 * c1', c2 * c2')`. This is not a homomorphic
    /// multiplication: without relinearization, the result does not decrypt to
    /// the product of the plaintexts.
    pub fn mul(self, rhs: BfvCipher) -> (r: BfvCipher)
        requires
            self.wf(),
            rhs.wf(),
            rhs.spec_params() == self.spec_params(),
        ensures
            r.wf(),
            r.spec_params() == self.spec_params(),
            r.spec_c1()@ == poly_mul(self.spec_c1()@, rhs.spec_c1()@, self.spec_params().spec_q()),
            r.spec_c2()@ == poly_mul(self.spec_c2()@, rhs.spec_c2()@, self.spec_params().spec_q()),
    {
        let c_1 = self.c_1.mul(&rhs.c_1);
        let c_2 = self.c_2.mul(&rhs.c_2);
        BfvCipher { params: self.params, c_1, c_2 }
    }
}

} // verus!
