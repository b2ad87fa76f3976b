//! Random polynomials, drawn from a caller-supplied generator.
use crate::arith::{balance, half, lemma_balance_fixed};
use crate::polynomial::{Element, Polynomial};
use rand::rngs::StdRng;
use rand::Rng;
use vstd::prelude::*;

verus! {

/// rand's `StdRng`, the seedable generator that callers hand in; opaque here.
#[verifier::external_type_specification]
#[verifier::external_body]
pub struct ExStdRng(StdRng);

/// Relies on rand's `Rng::random_range` over the half-open range `0..bound`:
/// it returns a value of that range, and panics only when the range is empty.
#[verifier::external_body]
fn sample_below(rng: &mut StdRng, bound: u64) -> (r: u64)
    requires
        bound > 0,
    ensures
        r < bound,
{
    rng.random_range(0..bound)
}

/// Every coefficient is the balanced form of `-1`, `0` or `1`.
pub open spec fn is_ternary(a: Seq<int>, m: int) -> bool {
    forall|i: int|
        0 <= i < a.len() ==> #[trigger] a[i] == balance(-1, m) || a[i] == 0 || a[i] == balance(
            1,
            m,
        )
}

/// The coefficient that a draw `r` of `0..modulus` stands for: `r - (modulus-1)/2`.
/// Uniform draws give every value of the balanced range equally often.
pub fn balanced_from_draw(r: u64, modulus: u64) -> (e: Element)
    requires
        r < modulus,
    ensures
        e.wf(),
        e.spec_modulus() == modulus,
        e@ == r - half(modulus as int),
{
    let h: i128 = ((modulus - 1) / 2) as i128;
    let v = ((r as i128) - h) as i64;
    proof {
        lemma_balance_fixed(v as int, modulus as int);
    }
    Element::new(v, modulus)
}

/// The noise coefficient that a draw `r` of `0..3` stands for: `r - 1`,
/// balanced modulo `modulus`.
pub fn ternary_from_draw(r: u64, modulus: u64) -> (e: Element)
    requires
        r < 3,
        modulus > 0,
    ensures
        e.wf(),
        e.spec_modulus() == modulus,
        e@ == balance(r - 1, modulus as int),
{
    Element::new((r as i64) - 1, modulus)
}

impl Polynomial {
    /// `n` coefficients, each drawn uniformly from the balanced range of `modulus`.
    pub fn rand(n: usize, modulus: u64, rng: &mut StdRng) -> (p: Polynomial)
        requires
            n > 0,
            modulus > 0,
        ensures
            p.wf(),
            p@.len() == n,
            p.spec_modulus() == modulus,
    {
        let mut inner: Vec<Element> = Vec::with_capacity(n);
        let mut i: usize = 0;
        while i < n
            invariant
                modulus > 0,
                i <= n,
                inner@.len() == i,
                forall|j: int|
                    0 <= j < i ==> (#[trigger] inner@[j]).wf() && inner@[j].spec_modulus()
                        == modulus,
            decreases n - i,
        {
            let r = sample_below(rng, modulus);
            inner.push(balanced_from_draw(r, modulus));
            i = i + 1;
        }
        Polynomial::new(inner)
    }

    /// `n` coefficients, each drawn uniformly from `{-1, 0, 1}` (balanced modulo `modulus`).
    pub fn ternary_error(n: usize, modulus: u64, rng: &mut StdRng) -> (p: Polynomial)
        requires
            n > 0,
            modulus > 0,
        ensures
            p.wf(),
            p@.len() == n,
            p.spec_modulus() == modulus,
            is_ternary(p@, modulus as int),
    {
        let mut inner: Vec<Element> = Vec::with_capacity(n);
        let mut i: usize = 0;
        proof {
            lemma_balance_fixed(0, modulus as int);
        }
        while i < n
            invariant
                modulus > 0,
                balance(0, modulus as int) == 0,
                i <= n,
                inner@.len() == i,
                forall|j: int|
                    0 <= j < i ==> (#[trigger] inner@[j]).wf() && inner@[j].spec_modulus()
                        == modulus && (inner@[j]@ == balance(-1, modulus as int) || inner@[j]@
                        == 0 || inner@[j]@ == balance(1, modulus as int)),
            decreases n - i,
        {
            let r = sample_below(rng, 3);
            let x = ternary_from_draw(r, modulus);
            assert(r == 0 || r == 1 || r == 2);
            inner.push(x);
            i = i + 1;
        }
        let p = Polynomial::new(inner);
        assert(is_ternary(p@, modulus as int)) by {
            assert forall|j: int| 0 <= j < p@.len() implies #[trigger] p@[j] == balance(
                -1,
                modulus as int,
            ) || p@[j] == 0 || p@[j] == balance(1, modulus as int) by {
                assert(inner@[j].wf());
            }
        }
        p
    }
}

} // verus!
