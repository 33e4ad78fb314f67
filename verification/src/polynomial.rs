//! The polynomial that hides a secret: its constant term is the secret, its other
//! coefficients are drawn at random.

use crate::algebra::lemma_one_mul;
use crate::field::Field;
use rand::thread_rng;
use vstd::prelude::*;

verus! {

/// `x` to the power `e`.
pub open spec fn power<F: Field>(x: F, e: nat) -> F
    decreases e,
{
    if e == 0 {
        F::one_spec()
    } else {
        power(x, (e - 1) as nat).mul_spec(x)
    }
}

/// The sum of the first `count` terms above the constant one: the coefficient at
/// index `j` belongs to the power `j + 1`.
pub open spec fn higher_terms<F: Field>(coefficients: Seq<F>, x: F, count: nat) -> F
    decreases count,
{
    if count == 0 {
        F::zero_spec()
    } else {
        higher_terms(coefficients, x, (count - 1) as nat).add_spec(
            coefficients[count - 1].mul_spec(power(x, count)),
        )
    }
}

/// The value at `x` of the polynomial with constant term `secret` and the given
/// coefficients of x, x^2, and so on.
pub open spec fn evaluate_spec<F: Field>(secret: F, coefficients: Seq<F>, x: F) -> F {
    secret.add_spec(higher_terms(coefficients, x, coefficients.len()))
}

/// Evaluates the polynomial at `x`, accumulating the powers of `x` along the way.
pub fn evaluate<F: Field>(secret: &F, polynom: &Vec<F>, x: &F) -> (y: F)
    ensures
        y == evaluate_spec(*secret, polynom@, *x),
{
    let mut y = *secret;
    let mut xn = *x;
    let mut j: usize = 0;
    proof {
        F::lemma_add_zero(*secret);
        lemma_one_mul(*x);
        assert(power(*x, 1) == power(*x, 0).mul_spec(*x));
    }
    while j < polynom.len()
        invariant
            j <= polynom.len(),
            y == secret.add_spec(higher_terms(polynom@, *x, j as nat)),
            xn == power(*x, (j + 1) as nat),
        decreases polynom.len() - j,
    {
        let p = polynom[j];
        proof {
            F::lemma_mul_commutative(xn, p);
            F::lemma_add_associative(
                *secret,
                higher_terms(polynom@, *x, j as nat),
                p.mul_spec(xn),
            );
        }
        y = y.add(xn.mul(p));
        xn = xn.mul(*x);
        j += 1;
    }
    y
}

/// Draws the `k - 1` coefficients that stand above the secret, each uniformly and
/// independently of the others; any of them may be zero. The secret itself is not
/// part of the result.
pub fn generate_polynom<F: Field>(secret: &F, k: usize) -> (polynom: Vec<F>)
    requires
        k >= 1,
    ensures
        polynom@.len() == k - 1,
{
    let mut rng = thread_rng();
    let mut polynom: Vec<F> = Vec::new();
    let mut i: usize = 1;
    while i < k
        invariant
            1 <= i <= k,
            polynom@.len() == i - 1,
        decreases k - i,
    {
        polynom.push(F::uniform(&mut rng));
        i += 1;
    }
    polynom
}

} // verus!
