//! Elements of `Z_m` in balanced form, and polynomials of `Z_m[x]/(x^n + 1)`.
use crate::arith::{
    balance, in_balanced_range, lemma_balance_add, lemma_balance_fixed, lemma_balance_sub, reduce,
    WIDE_BOUND,
};
use vstd::arithmetic::div_mod::{
    lemma_div_is_ordered_by_denominator, lemma_div_pos_is_pos, lemma_fundamental_div_mod,
    lemma_fundamental_div_mod_converse_div, lemma_fundamental_div_mod_converse_mod, lemma_mod_bound,
};
use vstd::arithmetic::power2::{lemma2_to64, lemma2_to64_rest, lemma_pow2_unfold, pow2};
use vstd::prelude::*;

verus! {

/// An integer modulo `modulus`, held as its balanced representative.
#[derive(Debug, Clone, Copy, PartialEq, Eq, Structural)]
pub struct Element {
    value: i64,
    modulus: u64,
}

impl View for Element {
    type V = int;

    closed spec fn view(&self) -> int {
        self.value as int
    }
}

impl Element {
    pub closed spec fn spec_modulus(&self) -> int {
        self.modulus as int
    }

    /// The value lies in the balanced range of a nonzero modulus.
    pub open spec fn wf(&self) -> bool {
        self.spec_modulus() > 0 && in_balanced_range(self@, self.spec_modulus())
    }

    /// The element of `Z_modulus` that `value` stands for.
    pub fn new(value: i64, modulus: u64) -> (e: Element)
        requires
            modulus > 0,
        ensures
            e.wf(),
            e.spec_modulus() == modulus,
            e@ == balance(value as int, modulus as int),
    {
        Element { value: reduce(value as i128, modulus), modulus }
    }

    /// The element of `Z_modulus` that the unsigned `value` stands for.
    pub(crate) fn from_unsigned(value: u64, modulus: u64) -> (e: Element)
        requires
            modulus > 0,
        ensures
            e.wf(),
            e.spec_modulus() == modulus,
            e@ == balance(value as int, modulus as int),
    {
        Element { value: reduce(value as i128, modulus), modulus }
    }

    /// The balanced representative.
    pub fn value(&self) -> (r: i64)
        ensures
            r == self@,
    {
        self.value
    }

    pub fn modulus(&self) -> (r: u64)
        ensures
            r == self.spec_modulus(),
    {
        self.modulus
    }

    /// The sum, rebalanced.
    pub fn add(self, rhs: Element) -> (r: Element)
        requires
            self.wf(),
            rhs.wf(),
            self.spec_modulus() == rhs.spec_modulus(),
        ensures
            r.wf(),
            r.spec_modulus() == self.spec_modulus(),
            r@ == balance(self@ + rhs@, self.spec_modulus()),
    {
        Element { value: reduce(self.value as i128 + rhs.value as i128, self.modulus), modulus: self.modulus }
    }

    /// The difference, rebalanced.
    pub fn sub(self, rhs: Element) -> (r: Element)
        requires
            self.wf(),
            rhs.wf(),
            self.spec_modulus() == rhs.spec_modulus(),
        ensures
            r.wf(),
            r.spec_modulus() == self.spec_modulus(),
            r@ == balance(self@ - rhs@, self.spec_modulus()),
    {
        Element { value: reduce(self.value as i128 - rhs.value as i128, self.modulus), modulus: self.modulus }
    }

    /// The negation, rebalanced.
    pub fn neg(self) -> (r: Element)
        requires
            self.wf(),
        ensures
            r.wf(),
            r.spec_modulus() == self.spec_modulus(),
            r@ == balance(-self@, self.spec_modulus()),
    {
        Element { value: reduce(-(self.value as i128), self.modulus), modulus: self.modulus }
    }

    /// The product, formed in 128 bits before it is reduced.
    pub fn mul(self, rhs: Element) -> (r: Element)
        requires
            self.wf(),
            rhs.wf(),
            self.spec_modulus() == rhs.spec_modulus(),
        ensures
            r.wf(),
            r.spec_modulus() == self.spec_modulus(),
            r@ == balance(self@ * rhs@, self.spec_modulus()),
    {
        let a = self.value as i128;
        let b = rhs.value as i128;
        assert(-WIDE_BOUND <= a * b <= WIDE_BOUND) by (nonlinear_arith)
            requires
                i64::MIN <= a <= i64::MAX,
                i64::MIN <= b <= i64::MAX,
        ;
        Element { value: reduce(a * b, self.modulus), modulus: self.modulus }
    }

    /// The same integer value, rebalanced under another modulus.
    pub fn lift(self, modulus: u64) -> (r: Element)
        requires
            self.wf(),
            modulus > 0,
        ensures
            r.wf(),
            r.spec_modulus() == modulus,
            r@ == balance(self@, modulus as int),
    {
        Element::new(self.value, modulus)
    }
}

/// Every coefficient lies in the balanced range of `m`.
pub open spec fn coeffs_balanced(a: Seq<int>, m: int) -> bool {
    forall|i: int| 0 <= i < a.len() ==> in_balanced_range(#[trigger] a[i], m)
}

/// The polynomial with `n` zero coefficients.
pub open spec fn poly_zero(n: nat) -> Seq<int> {
    Seq::new(n, |i: int| 0)
}

/// Coefficientwise sum modulo `m`.
pub open spec fn poly_add(a: Seq<int>, b: Seq<int>, m: int) -> Seq<int> {
    Seq::new(a.len(), |i: int| balance(a[i] + b[i], m))
}

/// Coefficientwise negation modulo `m`.
pub open spec fn poly_neg(a: Seq<int>, m: int) -> Seq<int> {
    Seq::new(a.len(), |i: int| balance(-a[i], m))
}

/// Every coefficient times the constant `c`, modulo `m`.
pub open spec fn poly_scale(a: Seq<int>, c: int, m: int) -> Seq<int> {
    Seq::new(a.len(), |i: int| balance(a[i] * c, m))
}

/// The same integer coefficients, rebalanced under the modulus `m`.
pub open spec fn poly_lift(a: Seq<int>, m: int) -> Seq<int> {
    Seq::new(a.len(), |i: int| balance(a[i], m))
}

/// What the pair of indices `(i, j)` with `i + j == k (mod n)` adds to
/// coefficient `k` of `a * b` in `Z[x]/(x^n + 1)`: `a[i] * b[j]`, negated when
/// `i + j` wraps past `n`, since `x^n == -1`.
pub open spec fn nega_term(a: Seq<int>, b: Seq<int>, k: int, i: int) -> int {
    if i <= k {
        a[i] * b[k - i]
    } else {
        -(a[i] * b[k - i + a.len()])
    }
}

/// The contributions of the indices `0..i` of `a` to coefficient `k` of `a * b`.
pub open spec fn nega_sum(a: Seq<int>, b: Seq<int>, k: int, i: nat) -> int
    decreases i,
{
    if i == 0 {
        0
    } else {
        nega_sum(a, b, k, (i - 1) as nat) + nega_term(a, b, k, i - 1)
    }
}

/// The negacyclic product of `a` and `b` modulo `m`.
pub open spec fn poly_mul(a: Seq<int>, b: Seq<int>, m: int) -> Seq<int> {
    Seq::new(a.len(), |k: int| balance(nega_sum(a, b, k, a.len()), m))
}

/// Bit `i` of `x`.
pub open spec fn bit(x: u64, i: int) -> int {
    ((x >> (i as u64)) & 1u64) as int
}

/// How many low bits of an integer message `from_int_scaled` encodes.
pub const MESSAGE_BITS: usize = 16;

/// Bit `i` of `x` times `delta` in coefficient `i`, for the `MESSAGE_BITS` low
/// bits of `x`; the other coefficients are zero.
pub open spec fn encode_scaled(x: u64, delta: int, n: nat, m: int) -> Seq<int> {
    Seq::new(n, |i: int| if i < MESSAGE_BITS { balance(bit(x, i) * delta, m) } else { 0 })
}

/// `v / d` rounded to the nearest integer, halves upwards: `floor((v + d/2) / d)`.
pub open spec fn round_div(v: int, d: int) -> int {
    (v + d / 2) / d
}

/// Each coefficient divided by `d` with rounding, then reduced modulo `t`.
pub open spec fn poly_decode(a: Seq<int>, d: int, t: int) -> Seq<int> {
    Seq::new(a.len(), |i: int| balance(round_div(a[i], d), t))
}

/// The quotient of a negative number, from the rounded-up quotient of its magnitude.
proof fn lemma_div_of_negative(a: int, d: int)
    requires
        a > 0,
        d > 0,
    ensures
        (-a) / d == -((a + d - 1) / d),
{
    let q = (a + d - 1) / d;
    let r = (a + d - 1) % d;
    lemma_fundamental_div_mod(a + d - 1, d);
    lemma_mod_bound(a + d - 1, d);
    assert(-a == (-q) * d + (d - 1 - r)) by (nonlinear_arith)
        requires
            a + d - 1 == d * q + r,
    ;
    lemma_fundamental_div_mod_converse_div(-a, d, -q, d - 1 - r);
}

/// `floor(s / d)`.
fn floor_div(s: i128, d: u64) -> (r: i128)
    requires
        d > 0,
        -WIDE_BOUND <= s <= WIDE_BOUND,
    ensures
        r == (s as int) / (d as int),
        -WIDE_BOUND <= r <= WIDE_BOUND,
{
    if s >= 0 {
        proof {
            lemma_div_is_ordered_by_denominator(s as int, 1, d as int);
            lemma_div_pos_is_pos(s as int, d as int);
        }
        ((s as u128) / (d as u128)) as i128
    } else {
        let a: u128 = (-s) as u128;
        proof {
            let q = (a + d - 1) / (d as int);
            lemma_div_of_negative(a as int, d as int);
            lemma_fundamental_div_mod((a + d - 1) as int, d as int);
            lemma_mod_bound((a + d - 1) as int, d as int);
            lemma_div_pos_is_pos((a + d - 1) as int, d as int);
            assert(q <= a) by (nonlinear_arith)
                requires
                    d * q <= a + d - 1,
                    d >= 1,
                    a >= 0,
            ;
        }
        -(((a + (d as u128) - 1) / (d as u128)) as i128)
    }
}

/// `floor(log2(m))`, for `m >= 1`.
pub open spec fn log2_floor(m: int) -> int
    decreases m,
{
    if m <= 1 {
        0
    } else {
        1 + log2_floor(m / 2)
    }
}

/// A number below `2^k` has fewer than `k` binary digits after the leading one.
proof fn lemma_log2_floor_range(x: int, k: nat)
    requires
        1 <= x < pow2(k),
    ensures
        0 <= log2_floor(x) < k,
    decreases x,
{
    if k == 0 {
        assert(pow2(0) == 1) by {
            lemma2_to64();
        }
    }
    if x > 1 {
        lemma_pow2_unfold(k);
        lemma_log2_floor_range(x / 2, (k - 1) as nat);
    }
}

/// Bit `len - 1` of `value`: the top bit of a `len`-bit number.
pub fn u64_msb(value: u64, len: usize) -> (r: u64)
    requires
        1 <= len <= 64,
    ensures
        r == bit(value, len - 1),
        r <= 1,
{
    let shift = (len - 1) as u64;
    assert((value >> shift) & 1u64 <= 1u64) by (bit_vector);
    (value >> shift) & 1
}

/// `floor(log2(m))`.
fn ilog2(m: u64) -> (r: u64)
    requires
        m >= 1,
    ensures
        r == log2_floor(m as int),
        r < 64,
{
    proof {
        lemma2_to64_rest();
        lemma_log2_floor_range(m as int, 64);
    }
    let mut x = m;
    let mut k: u64 = 0;
    while x > 1
        invariant
            x >= 1,
            k + log2_floor(x as int) == log2_floor(m as int),
            k + log2_floor(x as int) < 64,
        decreases x,
    {
        proof {
            lemma2_to64_rest();
            lemma_log2_floor_range(x as int / 2, 64);
        }
        x = x / 2;
        k = k + 1;
    }
    k
}

/// A polynomial of `Z_m[x]/(x^n + 1)`, with `n` its number of coefficients.
#[derive(Debug, Clone, PartialEq)]
pub struct Polynomial {
    inner: Vec<Element>,
    modulus: u64,
}

impl View for Polynomial {
    type V = Seq<int>;

    closed spec fn view(&self) -> Seq<int> {
        self.inner@.map_values(|e: Element| e@)
    }
}

impl Polynomial {
    pub closed spec fn spec_modulus(&self) -> int {
        self.modulus as int
    }

    /// Each stored element is well formed and carries the polynomial's modulus.
    pub closed spec fn elements_agree(&self) -> bool {
        forall|i: int|
            0 <= i < self.inner@.len() ==> (#[trigger] self.inner@[i]).wf()
                && self.inner@[i].spec_modulus() == self.modulus
    }

    /// At least one coefficient, a nonzero modulus, and every coefficient in
    /// its balanced range.
    pub open spec fn wf(&self) -> bool {
        &&& self.spec_modulus() > 0
        &&& self@.len() > 0
        &&& coeffs_balanced(self@, self.spec_modulus())
        &&& self.elements_agree()
    }

    /// The polynomial whose coefficient `i` is `inner[i]`.
    pub fn new(inner: Vec<Element>) -> (p: Polynomial)
        requires
            inner.len() > 0,
            forall|i: int|
                0 <= i < inner.len() ==> (#[trigger] inner[i]).wf() && inner[i].spec_modulus()
                    == inner[0].spec_modulus(),
        ensures
            p.wf(),
            p.spec_modulus() == inner[0].spec_modulus(),
            p@ == inner@.map_values(|e: Element| e@),
    {
        let modulus = inner[0].modulus();
        let p = Polynomial { inner, modulus };
        assert(coeffs_balanced(p@, modulus as int)) by {
            assert forall|i: int| 0 <= i < p@.len() implies in_balanced_range(
                #[trigger] p@[i],
                modulus as int,
            ) by {
                assert(p.inner@[i].wf());
            }
        }
        p
    }

    /// The zero polynomial with `n` coefficients.
    pub fn zero(n: usize, modulus: u64) -> (p: Polynomial)
        requires
            n > 0,
            modulus > 0,
        ensures
            p.wf(),
            p.spec_modulus() == modulus,
            p@ == poly_zero(n as nat),
    {
        let mut inner: Vec<Element> = Vec::with_capacity(n);
        let mut i: usize = 0;
        while i < n
            invariant
                modulus > 0,
                i <= n,
                inner@.len() == i,
                forall|j: int|
                    0 <= j < i ==> (#[trigger] inner@[j]).wf() && inner@[j].spec_modulus()
                        == modulus && inner@[j]@ == 0,
            decreases n - i,
        {
            proof {
                lemma_balance_fixed(0, modulus as int);
            }
            inner.push(Element::new(0, modulus));
            i = i + 1;
        }
        let p = Polynomial { inner, modulus };
        assert(p@ =~= poly_zero(n as nat));
        p
    }

    /// Bit `i` of `value`, times `delta`, in coefficient `i`, for each of the
    /// `MESSAGE_BITS` (16) low bits of `value` that has a coefficient; the other
    /// coefficients are zero.
    pub fn from_int_scaled(n: usize, modulus: u64, value: u64, delta: i64) -> (p: Polynomial)
        requires
            n > 0,
            modulus > 0,
        ensures
            p.wf(),
            p.spec_modulus() == modulus,
            p@ == encode_scaled(value, delta as int, n as nat, modulus as int),
    {
        let mut inner: Vec<Element> = Vec::with_capacity(n);
        let mut i: usize = 0;
        while i < n
            invariant
                modulus > 0,
                i <= n,
                inner@.len() == i,
                forall|j: int|
                    0 <= j < i ==> (#[trigger] inner@[j]).wf() && inner@[j].spec_modulus()
                        == modulus && inner@[j]@ == encode_scaled(
                        value,
                        delta as int,
                        n as nat,
                        modulus as int,
                    )[j],
            decreases n - i,
        {
            if i < MESSAGE_BITS {
                let shift = i as u64;
                let b: u64 = (value >> shift) & 1;
                assert((value >> shift) & 1u64 <= 1u64) by (bit_vector);
                assert(b as int == bit(value, i as int));
                let v: i64 = if b == 1 { delta } else { 0 };
                assert(v == bit(value, i as int) * delta) by (nonlinear_arith)
                    requires
                        b <= 1,
                        b as int == bit(value, i as int),
                        v == (if b == 1 { delta } else { 0 }),
                ;
                inner.push(Element::new(v, modulus));
            } else {
                proof {
                    lemma_balance_fixed(0, modulus as int);
                }
                inner.push(Element::new(0, modulus));
            }
            i = i + 1;
        }
        let p = Polynomial { inner, modulus };
        assert(p@ =~= encode_scaled(value, delta as int, n as nat, modulus as int));
        p
    }

    /// Each coefficient divided by `delta`, rounded to the nearest integer with
    /// halves going up (`floor((v + delta/2) / delta)`, negative values
    /// included), and reduced modulo `t`.
    pub fn decode(&self, delta: u64, t: u64) -> (r: Polynomial)
        requires
            self.wf(),
            delta > 0,
            t > 0,
        ensures
            r.wf(),
            r.spec_modulus() == t,
            r@ == poly_decode(self@, delta as int, t as int),
    {
        let n = self.inner.len();
        let mut inner: Vec<Element> = Vec::with_capacity(n);
        let mut i: usize = 0;
        while i < n
            invariant
                self.wf(),
                delta > 0,
                t > 0,
                n == self@.len(),
                i <= n,
                inner@.len() == i,
                forall|j: int|
                    0 <= j < i ==> (#[trigger] inner@[j]).wf() && inner@[j].spec_modulus() == t
                        && inner@[j]@ == balance(round_div(self@[j], delta as int), t as int),
            decreases n - i,
        {
            let v = self.inner[i].value() as i128;
            let q = floor_div(v + (delta / 2) as i128, delta);
            let e = Element { value: reduce(q, t), modulus: t };
            inner.push(e);
            i = i + 1;
        }
        let r = Polynomial { inner, modulus: t };
        assert(r@ =~= poly_decode(self@, delta as int, t as int));
        r
    }

    /// For each coefficient, the top bit of its representative in `[0, m)`,
    /// where that bit is bit `floor(log2(m)) - 1`, as a polynomial modulo 2.
    pub fn msb(&self) -> (r: Polynomial)
        requires
            self.wf(),
            self.spec_modulus() >= 2,
        ensures
            r.wf(),
            r.spec_modulus() == 2,
            r@.len() == self@.len(),
            forall|i: int|
                0 <= i < self@.len() ==> #[trigger] r@[i] == bit(
                    (self@[i] % self.spec_modulus()) as u64,
                    log2_floor(self.spec_modulus()) - 1,
                ),
    {
        let m = self.modulus;
        let len = ilog2(m) as usize;
        proof {
            lemma2_to64_rest();
            lemma_log2_floor_range(m as int / 2, 64);
        }
        let n = self.inner.len();
        let mut inner: Vec<Element> = Vec::with_capacity(n);
        let mut i: usize = 0;
        while i < n
            invariant
                self.wf(),
                m == self.spec_modulus(),
                m >= 2,
                1 <= len <= 64,
                len == log2_floor(m as int),
                n == self@.len(),
                i <= n,
                inner@.len() == i,
                forall|j: int|
                    0 <= j < i ==> (#[trigger] inner@[j]).wf() && inner@[j].spec_modulus() == 2
                        && inner@[j]@ == bit((self@[j] % (m as int)) as u64, len - 1),
            decreases n - i,
        {
            let v = self.inner[i].value();
            assert(in_balanced_range(self@[i as int], m as int));
            let canonical: u64 = if v >= 0 {
                proof {
                    lemma_fundamental_div_mod_converse_mod(v as int, m as int, 0, v as int);
                }
                v as u64
            } else {
                proof {
                    lemma_fundamental_div_mod_converse_mod(v as int, m as int, -1, v + m);
                }
                ((v as i128) + (m as i128)) as u64
            };
            let b = u64_msb(canonical, len);
            proof {
                lemma_balance_fixed(b as int, 2);
            }
            inner.push(Element::new(b as i64, 2));
            i = i + 1;
        }
        let r = Polynomial { inner, modulus: 2 };
        assert(coeffs_balanced(r@, 2)) by {
            assert forall|j: int| 0 <= j < r@.len() implies in_balanced_range(#[trigger] r@[j], 2) by {
                assert(r.inner@[j].wf());
            }
        }
        r
    }

    /// The number of coefficients, `n`.
    pub fn len(&self) -> (r: usize)
        ensures
            r == self@.len(),
    {
        self.inner.len()
    }

    pub fn modulus(&self) -> (r: u64)
        ensures
            r == self.spec_modulus(),
    {
        self.modulus
    }

    /// The coefficients, lowest degree first.
    pub fn coefficients(&self) -> (r: &Vec<Element>)
        ensures
            r@.map_values(|e: Element| e@) == self@,
    {
        &self.inner
    }

    /// Coefficient `i`.
    pub fn coefficient(&self, i: usize) -> (r: Element)
        requires
            self.wf(),
            i < self@.len(),
        ensures
            r.wf(),
            r.spec_modulus() == self.spec_modulus(),
            r@ == self@[i as int],
    {
        self.inner[i]
    }

    /// The coefficient values, lowest degree first.
    pub fn values(&self) -> (r: Vec<i64>)
        ensures
            r@.len() == self@.len(),
            forall|i: int| 0 <= i < r@.len() ==> r@[i] == #[trigger] self@[i],
    {
        let mut out: Vec<i64> = Vec::with_capacity(self.inner.len());
        let mut i: usize = 0;
        while i < self.inner.len()
            invariant
                i <= self.inner@.len(),
                out@.len() == i,
                forall|j: int| 0 <= j < i ==> out@[j] == #[trigger] self@[j],
            decreases self.inner@.len() - i,
        {
            out.push(self.inner[i].value());
            i = i + 1;
        }
        out
    }

    /// Coefficientwise sum.
    pub fn add(&self, rhs: &Polynomial) -> (r: Polynomial)
        requires
            self.wf(),
            rhs.wf(),
            self.spec_modulus() == rhs.spec_modulus(),
            self@.len() == rhs@.len(),
        ensures
            r.wf(),
            r.spec_modulus() == self.spec_modulus(),
            r@ == poly_add(self@, rhs@, self.spec_modulus()),
    {
        let n = self.inner.len();
        let mut inner: Vec<Element> = Vec::with_capacity(n);
        let mut i: usize = 0;
        while i < n
            invariant
                self.wf(),
                rhs.wf(),
                self.spec_modulus() == rhs.spec_modulus(),
                n == self@.len(),
                n == rhs@.len(),
                i <= n,
                inner@.len() == i,
                forall|j: int|
                    0 <= j < i ==> (#[trigger] inner@[j]).wf() && inner@[j].spec_modulus()
                        == self.modulus && inner@[j]@ == balance(
                        self@[j] + rhs@[j],
                        self.spec_modulus(),
                    ),
            decreases n - i,
        {
            assert(self.inner@[i as int].wf() && rhs.inner@[i as int].wf());
            inner.push(self.inner[i].add(rhs.inner[i]));
            i = i + 1;
        }
        let r = Polynomial { inner, modulus: self.modulus };
        assert(r@ =~= poly_add(self@, rhs@, self.spec_modulus()));
        r
    }

    /// Coefficientwise negation.
    pub fn neg(&self) -> (r: Polynomial)
        requires
            self.wf(),
        ensures
            r.wf(),
            r.spec_modulus() == self.spec_modulus(),
            r@ == poly_neg(self@, self.spec_modulus()),
    {
        let n = self.inner.len();
        let mut inner: Vec<Element> = Vec::with_capacity(n);
        let mut i: usize = 0;
        while i < n
            invariant
                self.wf(),
                n == self@.len(),
                i <= n,
                inner@.len() == i,
                forall|j: int|
                    0 <= j < i ==> (#[trigger] inner@[j]).wf() && inner@[j].spec_modulus()
                        == self.modulus && inner@[j]@ == balance(-self@[j], self.spec_modulus()),
            decreases n - i,
        {
            assert(self.inner@[i as int].wf());
            inner.push(self.inner[i].neg());
            i = i + 1;
        }
        let r = Polynomial { inner, modulus: self.modulus };
        assert(r@ =~= poly_neg(self@, self.spec_modulus()));
        r
    }

    /// Every coefficient times the element `c`.
    pub fn mul_element(&self, c: Element) -> (r: Polynomial)
        requires
            self.wf(),
            c.wf(),
            c.spec_modulus() == self.spec_modulus(),
        ensures
            r.wf(),
            r.spec_modulus() == self.spec_modulus(),
            r@ == poly_scale(self@, c@, self.spec_modulus()),
    {
        let n = self.inner.len();
        let mut inner: Vec<Element> = Vec::with_capacity(n);
        let mut i: usize = 0;
        while i < n
            invariant
                self.wf(),
                c.wf(),
                c.spec_modulus() == self.spec_modulus(),
                n == self@.len(),
                i <= n,
                inner@.len() == i,
                forall|j: int|
                    0 <= j < i ==> (#[trigger] inner@[j]).wf() && inner@[j].spec_modulus()
                        == self.modulus && inner@[j]@ == balance(
                        self@[j] * c@,
                        self.spec_modulus(),
                    ),
            decreases n - i,
        {
            assert(self.inner@[i as int].wf());
            inner.push(self.inner[i].mul(c));
            i = i + 1;
        }
        let r = Polynomial { inner, modulus: self.modulus };
        assert(r@ =~= poly_scale(self@, c@, self.spec_modulus()));
        r
    }

    /// The same integer coefficients under the modulus `modulus`. Where the
    /// new modulus is no smaller, every coefficient keeps its value.
    pub fn lift(&self, modulus: u64) -> (r: Polynomial)
        requires
            self.wf(),
            modulus > 0,
        ensures
            r.wf(),
            r.spec_modulus() == modulus,
            r@ == poly_lift(self@, modulus as int),
            self.spec_modulus() <= modulus ==> r@ == self@,
    {
        let n = self.inner.len();
        let mut inner: Vec<Element> = Vec::with_capacity(n);
        let mut i: usize = 0;
        while i < n
            invariant
                self.wf(),
                modulus > 0,
                n == self@.len(),
                i <= n,
                inner@.len() == i,
                forall|j: int|
                    0 <= j < i ==> (#[trigger] inner@[j]).wf() && inner@[j].spec_modulus()
                        == modulus && inner@[j]@ == balance(self@[j], modulus as int),
            decreases n - i,
        {
            assert(self.inner@[i as int].wf());
            inner.push(self.inner[i].lift(modulus));
            i = i + 1;
        }
        let r = Polynomial { inner, modulus };
        assert(r@ =~= poly_lift(self@, modulus as int));
        proof {
            if self.spec_modulus() <= modulus {
                lemma_lift_keeps_values(self@, self.spec_modulus(), modulus as int);
            }
        }
        r
    }

    /// The negacyclic product: the pair of coefficients `(i, j)` adds
    /// `self[i] * rhs[j]` to coefficient `(i + j) mod n`, negated when
    /// `i + j >= n`.
    pub fn mul(&self, rhs: &Polynomial) -> (r: Polynomial)
        requires
            self.wf(),
            rhs.wf(),
            self.spec_modulus() == rhs.spec_modulus(),
            self@.len() == rhs@.len(),
        ensures
            r.wf(),
            r.spec_modulus() == self.spec_modulus(),
            r@ == poly_mul(self@, rhs@, self.spec_modulus()),
    {
        let n = self.inner.len();
        let mut inner: Vec<Element> = Vec::with_capacity(n);
        let mut k: usize = 0;
        while k < n
            invariant
                self.wf(),
                rhs.wf(),
                self.spec_modulus() == rhs.spec_modulus(),
                n == self@.len(),
                n == rhs@.len(),
                k <= n,
                inner@.len() == k,
                forall|j: int|
                    0 <= j < k ==> (#[trigger] inner@[j]).wf() && inner@[j].spec_modulus()
                        == self.modulus && inner@[j]@ == balance(
                        nega_sum(self@, rhs@, j, n as nat),
                        self.spec_modulus(),
                    ),
            decreases n - k,
        {
            let c = self.coefficient_of_product(rhs, k);
            inner.push(c);
            k = k + 1;
        }
        let r = Polynomial { inner, modulus: self.modulus };
        assert(r@ =~= poly_mul(self@, rhs@, self.spec_modulus()));
        r
    }

    /// Coefficient `k` of the negacyclic product of `self` and `rhs`.
    fn coefficient_of_product(&self, rhs: &Polynomial, k: usize) -> (c: Element)
        requires
            self.wf(),
            rhs.wf(),
            self.spec_modulus() == rhs.spec_modulus(),
            self@.len() == rhs@.len(),
            k < self@.len(),
        ensures
            c.wf(),
            c.spec_modulus() == self.spec_modulus(),
            c@ == balance(nega_sum(self@, rhs@, k as int, self@.len()), self.spec_modulus()),
    {
        let n = self.inner.len();
        let ghost m = self.spec_modulus();
        let mut acc = Element::new(0, self.modulus);
        let mut i: usize = 0;
        while i < n
            invariant
                self.wf(),
                rhs.wf(),
                self.spec_modulus() == rhs.spec_modulus(),
                m == self.spec_modulus(),
                n == self@.len(),
                n == rhs@.len(),
                k < n,
                i <= n,
                acc.wf(),
                acc.spec_modulus() == m,
                acc@ == balance(nega_sum(self@, rhs@, k as int, i as nat), m),
            decreases n - i,
        {
            let a = self.inner[i];
            assert(self.inner@[i as int].wf());
            let ghost prev = nega_sum(self@, rhs@, k as int, i as nat);
            if i <= k {
                assert(rhs.inner@[(k - i) as int].wf());
                let t = a.mul(rhs.inner[k - i]);
                proof {
                    lemma_balance_add(prev, self@[i as int] * rhs@[k - i], m);
                }
                acc = acc.add(t);
            } else {
                let j = n - (i - k);
                assert(rhs.inner@[j as int].wf());
                let t = a.mul(rhs.inner[j]);
                proof {
                    lemma_balance_sub(prev, self@[i as int] * rhs@[j as int], m);
                }
                acc = acc.sub(t);
            }
            i = i + 1;
        }
        acc
    }
}

/// Rebalancing under a modulus no smaller than the one a polynomial has keeps every
/// coefficient of a balanced polynomial.
pub proof fn lemma_lift_keeps_values(a: Seq<int>, m: int, q: int)
    requires
        0 < m <= q,
        coeffs_balanced(a, m),
    ensures
        poly_lift(a, q) == a,
{
    assert forall|i: int| 0 <= i < a.len() implies #[trigger] poly_lift(a, q)[i] == a[i] by {
        assert(in_balanced_range(a[i], m));
        lemma_balance_fixed(a[i], q);
    }
    assert(poly_lift(a, q) =~= a);
}

} // verus!
