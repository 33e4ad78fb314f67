//! Lagrange interpolation at zero, and the proof that it gives back the constant
//! term of a polynomial from enough of its values.

use crate::algebra::{
    difference, lemma_cancel, lemma_difference_restored, lemma_difference_split,
    lemma_difference_zero, lemma_distributive_right, lemma_mul_cancel_left, lemma_mul_zero,
    lemma_neg_add, lemma_product_first, lemma_sum_added, lemma_sum_first,
    lemma_sum_scaled, lemma_zero_add, pairwise_distinct, product, sum,
};
use crate::field::Field;
use crate::polynomial::{evaluate_spec, higher_terms, power};
use vstd::prelude::*;

verus! {

/// `-xj / (xi - xj)`: what the point `xj` adds to the weight of the point `xi`.
pub open spec fn ratio<F: Field>(xi: F, xj: F) -> F {
    xj.neg_spec().mul_spec(difference(xi, xj).inv_spec())
}

/// The factors of the weight of point `i`, one for each point; the point's own
/// factor is one.
pub open spec fn factors<F: Field>(xs: Seq<F>, i: int) -> Seq<F> {
    Seq::new(
        xs.len(),
        |j: int|
            if j == i {
                F::one_spec()
            } else {
                ratio(xs[i], xs[j])
            },
    )
}

/// The value at zero of the polynomial that is one at point `i` and zero at the
/// other points: the product of `-xj / (xi - xj)` over all `j` but `i`.
pub open spec fn weight<F: Field>(xs: Seq<F>, i: int) -> F {
    product(factors(xs, i))
}

/// The terms of the interpolation sum: each value times its point's weight.
pub open spec fn terms<F: Field>(xs: Seq<F>, ys: Seq<F>) -> Seq<F> {
    Seq::new(xs.len(), |i: int| ys[i].mul_spec(weight(xs, i)))
}

/// The value at zero of the polynomial of least degree through the points
/// `(xs[i], ys[i])`.
pub open spec fn interpolate_at_zero<F: Field>(xs: Seq<F>, ys: Seq<F>) -> F {
    sum(terms(xs, ys))
}

/// Computes the weight of point `i`: the product of `-xj / (xi - xj)` over the
/// other points.
fn weight_of<F: Field>(xs: &Vec<F>, i: usize) -> (w: F)
    requires
        pairwise_distinct(xs@),
        i < xs.len(),
    ensures
        w == weight(xs@, i as int),
{
    let ghost f = factors(xs@, i as int);
    let mut w = F::one();
    let mut j: usize = 0;
    assert(f.take(0) =~= Seq::<F>::empty());
    while j < xs.len()
        invariant
            j <= xs.len(),
            i < xs.len(),
            pairwise_distinct(xs@),
            f == factors(xs@, i as int),
            w == product(f.take(j as int)),
        decreases xs.len() - j,
    {
        proof {
            assert(f.take(j + 1).drop_last() =~= f.take(j as int));
            assert(f.take(j + 1).last() == f[j as int]);
            F::lemma_mul_one(w);
        }
        if j != i {
            let d = xs[i].sub(xs[j]);
            proof {
                lemma_difference_zero(xs@[i as int], xs@[j as int]);
            }
            w = w.mul(xs[j].neg().mul(d.invert()));
        }
        j += 1;
    }
    assert(f.take(xs.len() as int) =~= f);
    w
}

/// Interpolates through the points `(xs[i], ys[i])` and evaluates at zero.
pub fn interpolate<F: Field>(xs: &Vec<F>, ys: &Vec<F>) -> (value: F)
    requires
        xs.len() == ys.len(),
        pairwise_distinct(xs@),
    ensures
        value == interpolate_at_zero(xs@, ys@),
{
    let ghost t = terms(xs@, ys@);
    let mut value = F::zero();
    let mut i: usize = 0;
    assert(t.take(0) =~= Seq::<F>::empty());
    while i < xs.len()
        invariant
            i <= xs.len(),
            xs.len() == ys.len(),
            pairwise_distinct(xs@),
            t == terms(xs@, ys@),
            value == sum(t.take(i as int)),
        decreases xs.len() - i,
    {
        proof {
            assert(t.take(i + 1).drop_last() =~= t.take(i as int));
            assert(t.take(i + 1).last() == t[i as int]);
        }
        let w = weight_of(xs, i);
        value = value.add(ys[i].mul(w));
        i += 1;
    }
    assert(t.take(xs.len() as int) =~= t);
    value
}

proof fn lemma_weight_drop_last<F: Field>(xs: Seq<F>, i: int)
    requires
        0 <= i < xs.len() - 1,
    ensures
        weight(xs, i) == weight(xs.drop_last(), i).mul_spec(ratio(xs[i], xs.last())),
{
    let f = factors(xs, i);
    assert(f.drop_last() =~= factors(xs.drop_last(), i));
    assert(f.last() == ratio(xs[i], xs.last()));
}

proof fn lemma_weight_drop_first<F: Field>(xs: Seq<F>, i: int)
    requires
        1 <= i < xs.len(),
    ensures
        weight(xs, i) == ratio(xs[i], xs[0]).mul_spec(weight(xs.drop_first(), i - 1)),
{
    let f = factors(xs, i);
    lemma_product_first(f);
    assert(f.drop_first() =~= factors(xs.drop_first(), i - 1));
}

/// Interpolation is linear in the values: scaling.
pub proof fn lemma_interpolate_scaled<F: Field>(xs: Seq<F>, c: F, zs: Seq<F>, us: Seq<F>)
    requires
        zs.len() == xs.len(),
        us.len() == xs.len(),
        forall|i: int| 0 <= i < xs.len() ==> #[trigger] us[i] == c.mul_spec(zs[i]),
    ensures
        interpolate_at_zero(xs, us) == c.mul_spec(interpolate_at_zero(xs, zs)),
{
    let tz = terms(xs, zs);
    let tu = terms(xs, us);
    assert forall|i: int| 0 <= i < tz.len() implies tu[i] == c.mul_spec(#[trigger] tz[i]) by {
        assert(us[i] == c.mul_spec(zs[i]));
        F::lemma_mul_associative(c, zs[i], weight(xs, i));
    }
    lemma_sum_scaled(c, tz, tu);
}

/// Interpolation is linear in the values: addition.
pub proof fn lemma_interpolate_added<F: Field>(xs: Seq<F>, a: Seq<F>, b: Seq<F>, us: Seq<F>)
    requires
        a.len() == xs.len(),
        b.len() == xs.len(),
        us.len() == xs.len(),
        forall|i: int| 0 <= i < xs.len() ==> #[trigger] us[i] == a[i].add_spec(b[i]),
    ensures
        interpolate_at_zero(xs, us) == interpolate_at_zero(xs, a).add_spec(
            interpolate_at_zero(xs, b),
        ),
{
    let ta = terms(xs, a);
    let tb = terms(xs, b);
    let tu = terms(xs, us);
    assert forall|i: int| 0 <= i < tu.len() implies #[trigger] tu[i] == ta[i].add_spec(tb[i]) by {
        assert(us[i] == a[i].add_spec(b[i]));
        lemma_distributive_right(a[i], b[i], weight(xs, i));
    }
    lemma_sum_added(ta, tb, tu);
}

/// Values that carry the factor `x - c`, where `c` is the last point, interpolate
/// as the values without that factor do on the points without `c`, times `-c`.
proof fn lemma_interpolate_drop_last<F: Field>(xs: Seq<F>, zs: Seq<F>, us: Seq<F>)
    requires
        xs.len() >= 1,
        pairwise_distinct(xs),
        zs.len() == xs.len(),
        us.len() == xs.len(),
        forall|i: int|
            0 <= i < xs.len() ==> #[trigger] us[i] == difference(xs[i], xs.last()).mul_spec(zs[i]),
    ensures
        interpolate_at_zero(xs, us) == xs.last().neg_spec().mul_spec(
            interpolate_at_zero(xs.drop_last(), zs.drop_last()),
        ),
{
    let n = xs.len() as int;
    let c = xs.last();
    let t = terms(xs, us);
    let shorter = terms(xs.drop_last(), zs.drop_last());
    assert forall|i: int| 0 <= i < shorter.len() implies t.drop_last()[i] == c.neg_spec().mul_spec(
        #[trigger] shorter[i],
    ) by {
        let d = difference(xs[i], c);
        lemma_weight_drop_last(xs, i);
        lemma_difference_zero(xs[i], c);
        assert(xs[i] != xs[n - 1]);
        assert(us[i] == d.mul_spec(zs[i]));
        lemma_cancel(d, zs[i], weight(xs.drop_last(), i), c.neg_spec());
    }
    lemma_sum_scaled(c.neg_spec(), shorter, t.drop_last());
    assert(t.last() == F::zero_spec()) by {
        assert(us[n - 1] == difference(xs[n - 1], c).mul_spec(zs[n - 1]));
        lemma_difference_zero(c, c);
        lemma_mul_zero(zs[n - 1]);
        lemma_mul_zero(weight(xs, n - 1));
    }
    F::lemma_add_zero(sum(t.drop_last()));
}

/// Values that carry the factor `x - d`, where `d` is the first point, interpolate
/// as the values without that factor do on the points without `d`, times `-d`.
proof fn lemma_interpolate_drop_first<F: Field>(xs: Seq<F>, zs: Seq<F>, us: Seq<F>)
    requires
        xs.len() >= 1,
        pairwise_distinct(xs),
        zs.len() == xs.len(),
        us.len() == xs.len(),
        forall|i: int|
            0 <= i < xs.len() ==> #[trigger] us[i] == difference(xs[i], xs[0]).mul_spec(zs[i]),
    ensures
        interpolate_at_zero(xs, us) == xs[0].neg_spec().mul_spec(
            interpolate_at_zero(xs.drop_first(), zs.drop_first()),
        ),
{
    let e = xs[0];
    let t = terms(xs, us);
    let shorter = terms(xs.drop_first(), zs.drop_first());
    assert forall|i: int| 0 <= i < shorter.len() implies t.drop_first()[i] == e.neg_spec().mul_spec(
        #[trigger] shorter[i],
    ) by {
        let d = difference(xs[i + 1], e);
        let w = weight(xs.drop_first(), i);
        lemma_weight_drop_first(xs, i + 1);
        lemma_difference_zero(xs[i + 1], e);
        assert(xs[i + 1] != xs[0]);
        assert(us[i + 1] == d.mul_spec(zs[i + 1]));
        F::lemma_mul_commutative(ratio(xs[i + 1], e), w);
        lemma_cancel(d, zs[i + 1], w, e.neg_spec());
    }
    lemma_sum_scaled(e.neg_spec(), shorter, t.drop_first());
    lemma_sum_first(t);
    assert(t[0] == F::zero_spec()) by {
        assert(us[0] == difference(xs[0], e).mul_spec(zs[0]));
        lemma_difference_zero(e, e);
        lemma_mul_zero(zs[0]);
        lemma_mul_zero(weight(xs, 0));
    }
    lemma_zero_add(sum(t.drop_first()));
}

/// Interpolating the values of the monomial `x^m` through more than `m` distinct
/// points gives the monomial's value at zero: one for the constant, else zero.
proof fn lemma_interpolate_monomial<F: Field>(xs: Seq<F>, m: nat, ys: Seq<F>)
    requires
        pairwise_distinct(xs),
        m < xs.len(),
        ys.len() == xs.len(),
        forall|i: int| 0 <= i < xs.len() ==> #[trigger] ys[i] == power(xs[i], m),
    ensures
        interpolate_at_zero(xs, ys) == if m == 0 {
            F::one_spec()
        } else {
            F::zero_spec()
        },
    decreases m, xs.len(),
{
    let n = xs.len() as int;
    let c = xs.last();
    let one = F::one_spec();
    if m == 0 && n == 1 {
        let f = factors(xs, 0);
        let t = terms(xs, ys);
        assert(f.drop_last() =~= Seq::<F>::empty());
        assert(t.drop_last() =~= Seq::<F>::empty());
        assert(product(f.drop_last()) == one);
        assert(sum(t.drop_last()) == F::zero_spec());
        assert(ys[0] == one);
        F::lemma_mul_one(one);
        lemma_zero_add(one);
    } else if m == 0 {
        let d = xs[0];
        let gap = difference(d, c);
        let s = interpolate_at_zero(xs, ys);
        let by_last = Seq::new(xs.len(), |i: int| difference(xs[i], c).mul_spec(ys[i]));
        let by_first = Seq::new(xs.len(), |i: int| difference(xs[i], d).mul_spec(ys[i]));
        let by_gap = Seq::new(xs.len(), |i: int| gap.mul_spec(ys[i]));
        lemma_interpolate_drop_last(xs, ys, by_last);
        lemma_interpolate_drop_first(xs, ys, by_first);
        lemma_interpolate_scaled(xs, gap, ys, by_gap);
        assert forall|i: int| 0 <= i < n implies #[trigger] by_last[i] == by_gap[i].add_spec(
            by_first[i],
        ) by {
            lemma_difference_split(xs[i], c, d);
            lemma_distributive_right(gap, difference(xs[i], d), ys[i]);
        }
        lemma_interpolate_added(xs, by_gap, by_first, by_last);
        assert(pairwise_distinct(xs.drop_last()));
        assert(pairwise_distinct(xs.drop_first())) by {
            assert forall|i: int, j: int|
                0 <= i < xs.drop_first().len() && 0 <= j < xs.drop_first().len() && i != j implies xs.drop_first()[i]
                != xs.drop_first()[j] by {
                assert(xs[i + 1] != xs[j + 1]);
            }
        }
        lemma_interpolate_monomial(xs.drop_last(), 0, ys.drop_last());
        lemma_interpolate_monomial(xs.drop_first(), 0, ys.drop_first());
        // -c == gap * s + -d, so gap * s == -c + d == gap
        F::lemma_mul_one(c.neg_spec());
        F::lemma_mul_one(d.neg_spec());
        lemma_difference_restored(gap.mul_spec(s), d);
        F::lemma_add_commutative(c.neg_spec(), d);
        F::lemma_mul_one(gap);
        assert(xs[0] != xs[n - 1]);
        lemma_difference_zero(d, c);
        lemma_mul_cancel_left(gap, s, one);
    } else {
        let lower = Seq::new(xs.len(), |i: int| power(xs[i], (m - 1) as nat));
        let by_last = Seq::new(xs.len(), |i: int| difference(xs[i], c).mul_spec(lower[i]));
        let by_c = Seq::new(xs.len(), |i: int| c.mul_spec(lower[i]));
        assert forall|i: int| 0 <= i < n implies #[trigger] ys[i] == by_last[i].add_spec(
            by_c[i],
        ) by {
            let z = lower[i];
            let dx = difference(xs[i], c);
            assert(ys[i] == z.mul_spec(xs[i]));
            lemma_difference_restored(xs[i], c);
            F::lemma_distributive(z, dx, c);
            F::lemma_mul_commutative(z, dx);
            F::lemma_mul_commutative(z, c);
        }
        lemma_interpolate_added(xs, by_last, by_c, ys);
        lemma_interpolate_drop_last(xs, lower, by_last);
        lemma_interpolate_scaled(xs, c, lower, by_c);
        assert(pairwise_distinct(xs.drop_last()));
        lemma_interpolate_monomial(xs, (m - 1) as nat, lower);
        lemma_interpolate_monomial(xs.drop_last(), (m - 1) as nat, lower.drop_last());
        let delta = interpolate_at_zero(xs, lower);
        lemma_distributive_right(c.neg_spec(), c, delta);
        lemma_neg_add(c);
        lemma_mul_zero(delta);
    }
}

/// Interpolating the values of a polynomial cut off after `count` of its higher
/// terms, through more than `count` distinct points, gives its constant term.
proof fn lemma_interpolate_partial<F: Field>(
    secret: F,
    coefficients: Seq<F>,
    xs: Seq<F>,
    ys: Seq<F>,
    count: nat,
)
    requires
        pairwise_distinct(xs),
        count <= coefficients.len(),
        count < xs.len(),
        ys.len() == xs.len(),
        forall|i: int|
            0 <= i < xs.len() ==> #[trigger] ys[i] == secret.add_spec(
                higher_terms(coefficients, xs[i], count),
            ),
    ensures
        interpolate_at_zero(xs, ys) == secret,
    decreases count,
{
    let n = xs.len() as int;
    if count == 0 {
        let ones = Seq::new(xs.len(), |i: int| F::one_spec());
        lemma_interpolate_monomial(xs, 0, ones);
        assert forall|i: int| 0 <= i < n implies #[trigger] ys[i] == secret.mul_spec(ones[i]) by {
            F::lemma_add_zero(secret);
            F::lemma_mul_one(secret);
        }
        lemma_interpolate_scaled(xs, secret, ones, ys);
        F::lemma_mul_one(secret);
    } else {
        let c = coefficients[count - 1];
        let before = Seq::new(
            xs.len(),
            |i: int| secret.add_spec(higher_terms(coefficients, xs[i], (count - 1) as nat)),
        );
        let monomial = Seq::new(xs.len(), |i: int| power(xs[i], count));
        let scaled = Seq::new(xs.len(), |i: int| c.mul_spec(monomial[i]));
        assert forall|i: int| 0 <= i < n implies #[trigger] ys[i] == before[i].add_spec(
            scaled[i],
        ) by {
            F::lemma_add_associative(
                secret,
                higher_terms(coefficients, xs[i], (count - 1) as nat),
                c.mul_spec(power(xs[i], count)),
            );
        }
        lemma_interpolate_added(xs, before, scaled, ys);
        lemma_interpolate_partial(secret, coefficients, xs, before, (count - 1) as nat);
        lemma_interpolate_scaled(xs, c, monomial, scaled);
        lemma_interpolate_monomial(xs, count, monomial);
        lemma_mul_zero(c);
        F::lemma_add_zero(secret);
    }
}

/// Interpolation recovers the secret: from the values of a polynomial at distinct
/// points, more of them than the polynomial has coefficients above its constant
/// term, interpolation at zero gives the constant term.
pub proof fn lemma_interpolation_recovers_secret<F: Field>(
    secret: F,
    coefficients: Seq<F>,
    xs: Seq<F>,
    ys: Seq<F>,
)
    requires
        pairwise_distinct(xs),
        coefficients.len() < xs.len(),
        ys.len() == xs.len(),
        forall|i: int|
            0 <= i < xs.len() ==> #[trigger] ys[i] == evaluate_spec(secret, coefficients, xs[i]),
    ensures
        interpolate_at_zero(xs, ys) == secret,
{
    lemma_interpolate_partial(secret, coefficients, xs, ys, coefficients.len());
}

} // verus!
