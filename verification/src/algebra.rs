//! What follows from the field axioms: the facts about differences, sums and
//! products that the proofs about polynomials and interpolation rest on.

use crate::field::Field;
use vstd::prelude::*;

verus! {

/// `a - b`: the sum of `a` and the additive inverse of `b`.
pub open spec fn difference<F: Field>(a: F, b: F) -> F {
    a.add_spec(b.neg_spec())
}

/// The sum of the elements of a sequence.
pub open spec fn sum<F: Field>(s: Seq<F>) -> F
    decreases s.len(),
{
    if s.len() == 0 {
        F::zero_spec()
    } else {
        sum(s.drop_last()).add_spec(s.last())
    }
}

/// The product of the elements of a sequence.
pub open spec fn product<F: Field>(s: Seq<F>) -> F
    decreases s.len(),
{
    if s.len() == 0 {
        F::one_spec()
    } else {
        product(s.drop_last()).mul_spec(s.last())
    }
}

/// No element occurs twice in the sequence.
pub open spec fn pairwise_distinct<T>(s: Seq<T>) -> bool {
    forall|i: int, j: int| 0 <= i < s.len() && 0 <= j < s.len() && i != j ==> s[i] != s[j]
}

pub proof fn lemma_zero_add<F: Field>(a: F)
    ensures
        F::zero_spec().add_spec(a) == a,
{
    F::lemma_add_commutative(F::zero_spec(), a);
    F::lemma_add_zero(a);
}

pub proof fn lemma_one_mul<F: Field>(a: F)
    ensures
        F::one_spec().mul_spec(a) == a,
{
    F::lemma_mul_commutative(F::one_spec(), a);
    F::lemma_mul_one(a);
}

pub proof fn lemma_neg_add<F: Field>(a: F)
    ensures
        a.neg_spec().add_spec(a) == F::zero_spec(),
{
    F::lemma_add_commutative(a.neg_spec(), a);
    F::lemma_add_neg(a);
}

/// An element that does not change when added to itself is zero.
pub proof fn lemma_idempotent_is_zero<F: Field>(z: F)
    requires
        z.add_spec(z) == z,
    ensures
        z == F::zero_spec(),
{
    F::lemma_add_associative(z, z, z.neg_spec());
    F::lemma_add_neg(z);
    F::lemma_add_zero(z);
}

pub proof fn lemma_mul_zero<F: Field>(a: F)
    ensures
        a.mul_spec(F::zero_spec()) == F::zero_spec(),
        F::zero_spec().mul_spec(a) == F::zero_spec(),
{
    let zero = F::zero_spec();
    F::lemma_add_zero(zero);
    F::lemma_distributive(a, zero, zero);
    lemma_idempotent_is_zero(a.mul_spec(zero));
    F::lemma_mul_commutative(a, zero);
}

pub proof fn lemma_distributive_right<F: Field>(a: F, b: F, c: F)
    ensures
        a.add_spec(b).mul_spec(c) == a.mul_spec(c).add_spec(b.mul_spec(c)),
{
    F::lemma_mul_commutative(a.add_spec(b), c);
    F::lemma_distributive(c, a, b);
    F::lemma_mul_commutative(c, a);
    F::lemma_mul_commutative(c, b);
}

/// `(a - c) + c == a`.
pub proof fn lemma_difference_restored<F: Field>(a: F, c: F)
    ensures
        difference(a, c).add_spec(c) == a,
{
    F::lemma_add_associative(a, c.neg_spec(), c);
    lemma_neg_add(c);
    F::lemma_add_zero(a);
}

/// The difference of two elements is zero exactly when they are equal.
pub proof fn lemma_difference_zero<F: Field>(a: F, b: F)
    ensures
        difference(a, b) == F::zero_spec() <==> a == b,
{
    F::lemma_add_neg(a);
    lemma_difference_restored(a, b);
    lemma_zero_add(b);
}

/// `(a - c) == (d - c) + (a - d)`.
pub proof fn lemma_difference_split<F: Field>(a: F, c: F, d: F)
    ensures
        difference(a, c) == difference(d, c).add_spec(difference(a, d)),
{
    let nc = c.neg_spec();
    let nd = d.neg_spec();
    // (d + nc) + (a + nd) == (a + nd) + (d + nc) == a + (nd + (d + nc)) == a + ((nd + d) + nc)
    F::lemma_add_commutative(d.add_spec(nc), a.add_spec(nd));
    F::lemma_add_associative(a, nd, d.add_spec(nc));
    F::lemma_add_associative(nd, d, nc);
    lemma_neg_add(d);
    lemma_zero_add(nc);
}

/// A nonzero divisor cancels: `(d * z) * (w * (m / d)) == m * (z * w)`.
pub proof fn lemma_cancel<F: Field>(d: F, z: F, w: F, m: F)
    requires
        d != F::zero_spec(),
    ensures
        d.mul_spec(z).mul_spec(w.mul_spec(m.mul_spec(d.inv_spec()))) == m.mul_spec(z.mul_spec(w)),
{
    let i = d.inv_spec();
    let zw = z.mul_spec(w);
    // w * (m * i) == (m * i) * w == m * (i * w)
    // (d * z) * (w * (m * i)) == (z * d) * ((w * m) * i)
    F::lemma_mul_commutative(d, z);
    F::lemma_mul_associative(w, m, i);
    // (z * d) * ((w * m) * i) == z * (d * ((w * m) * i))
    F::lemma_mul_associative(z, d, w.mul_spec(m).mul_spec(i));
    // d * ((w * m) * i) == ((w * m) * i) * d == (w * m) * (i * d) == (w * m) * 1
    F::lemma_mul_commutative(d, w.mul_spec(m).mul_spec(i));
    F::lemma_mul_associative(w.mul_spec(m), i, d);
    F::lemma_mul_commutative(i, d);
    F::lemma_mul_inv(d);
    F::lemma_mul_one(w.mul_spec(m));
    // z * (w * m) == (z * w) * m == m * (z * w)
    F::lemma_mul_associative(z, w, m);
    F::lemma_mul_commutative(zw, m);
}

/// A nonzero factor cancels on both sides of an equation.
pub proof fn lemma_mul_cancel_left<F: Field>(d: F, a: F, b: F)
    requires
        d != F::zero_spec(),
        d.mul_spec(a) == d.mul_spec(b),
    ensures
        a == b,
{
    let i = d.inv_spec();
    F::lemma_mul_associative(i, d, a);
    F::lemma_mul_associative(i, d, b);
    F::lemma_mul_commutative(i, d);
    F::lemma_mul_inv(d);
    lemma_one_mul(a);
    lemma_one_mul(b);
}

/// The sum of a sequence is its first element plus the sum of the rest.
pub proof fn lemma_sum_first<F: Field>(s: Seq<F>)
    requires
        s.len() > 0,
    ensures
        sum(s) == s[0].add_spec(sum(s.drop_first())),
    decreases s.len(),
{
    if s.len() == 1 {
        assert(s.drop_last() =~= Seq::<F>::empty());
        assert(s.drop_first() =~= Seq::<F>::empty());
        lemma_zero_add(s[0]);
        F::lemma_add_zero(s[0]);
    } else {
        let init = s.drop_last();
        lemma_sum_first(init);
        assert(init.drop_first() =~= s.drop_first().drop_last());
        F::lemma_add_associative(s[0], sum(init.drop_first()), s.last());
    }
}

/// The product of a sequence is its first element times the product of the rest.
pub proof fn lemma_product_first<F: Field>(s: Seq<F>)
    requires
        s.len() > 0,
    ensures
        product(s) == s[0].mul_spec(product(s.drop_first())),
    decreases s.len(),
{
    if s.len() == 1 {
        assert(s.drop_last() =~= Seq::<F>::empty());
        assert(s.drop_first() =~= Seq::<F>::empty());
        lemma_one_mul(s[0]);
        F::lemma_mul_one(s[0]);
    } else {
        let init = s.drop_last();
        lemma_product_first(init);
        assert(init.drop_first() =~= s.drop_first().drop_last());
        F::lemma_mul_associative(s[0], product(init.drop_first()), s.last());
    }
}

/// Scaling every element scales the sum.
pub proof fn lemma_sum_scaled<F: Field>(c: F, s: Seq<F>, t: Seq<F>)
    requires
        t.len() == s.len(),
        forall|i: int| 0 <= i < s.len() ==> t[i] == c.mul_spec(#[trigger] s[i]),
    ensures
        sum(t) == c.mul_spec(sum(s)),
    decreases s.len(),
{
    if s.len() == 0 {
        lemma_mul_zero(c);
    } else {
        lemma_sum_scaled(c, s.drop_last(), t.drop_last());
        assert(t.last() == c.mul_spec(s[s.len() - 1]));
        F::lemma_distributive(c, sum(s.drop_last()), s.last());
    }
}

/// Adding two sequences element by element adds their sums.
pub proof fn lemma_sum_added<F: Field>(a: Seq<F>, b: Seq<F>, t: Seq<F>)
    requires
        a.len() == t.len(),
        b.len() == t.len(),
        forall|i: int| 0 <= i < t.len() ==> #[trigger] t[i] == a[i].add_spec(b[i]),
    ensures
        sum(t) == sum(a).add_spec(sum(b)),
    decreases t.len(),
{
    if t.len() == 0 {
        F::lemma_add_zero(F::zero_spec());
    } else {
        lemma_sum_added(a.drop_last(), b.drop_last(), t.drop_last());
        let sa = sum(a.drop_last());
        let sb = sum(b.drop_last());
        let la = a.last();
        let lb = b.last();
        assert(t.last() == t[t.len() - 1]);
        assert(t.last() == la.add_spec(lb));
        // (sa + sb) + (la + lb) == (sa + la) + (sb + lb)
        F::lemma_add_associative(sa, sb, la.add_spec(lb));
        F::lemma_add_associative(sb, la, lb);
        F::lemma_add_commutative(sb, la);
        F::lemma_add_associative(la, sb, lb);
        F::lemma_add_associative(sa, la, sb.add_spec(lb));
    }
}

} // verus!
