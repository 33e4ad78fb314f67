//! Why splitting and reconstructing fit together: whichever shares of a split are
//! chosen, as long as they are enough, reconstruction gives the secret back.

use crate::algebra::pairwise_distinct;
use crate::field::Field;
use crate::lagrange::lemma_interpolation_recovers_secret;
use crate::polynomial::evaluate_spec;
use crate::shamir::{
    compact_points, compact_sharing, is_compact_sharing_with_threshold, is_random_sharing,
    is_random_sharing_with_threshold, is_sharing, is_sharing_with_threshold,
    lemma_compact_sharing, reconstruct_spec, split_parameters_valid, ReconstructionError,
};
use crate::share::{lemma_duplicate_x, xs_of, ys_of, CompactShare, RandomShare, Share};
use vstd::prelude::*;

verus! {

/// The items at the picked indices, in the order of the picks.
pub open spec fn selection<T>(items: Seq<T>, picks: Seq<int>) -> Seq<T> {
    Seq::new(picks.len(), |i: int| items[picks[i]])
}

/// The picks are indices below `n`, and none of them occurs twice.
pub open spec fn are_picks(picks: Seq<int>, n: nat) -> bool {
    &&& pairwise_distinct(picks)
    &&& forall|i: int| 0 <= i < picks.len() ==> 0 <= #[trigger] picks[i] < n
}

/// Enough points of a sharing reconstruct the secret: where the points lie on a
/// polynomial with fewer than `k` coefficients above the secret, and there are at
/// least `k` of them, reconstruction with threshold `k` gives the secret.
pub proof fn lemma_sharing_reconstructs<F: Field>(
    points: Seq<Share<F, F>>,
    secret: F,
    coefficients: Seq<F>,
    k: nat,
)
    requires
        is_sharing(points, secret, coefficients),
        coefficients.len() < k <= points.len(),
    ensures
        reconstruct_spec(points, k) == Ok::<F, ReconstructionError>(secret),
{
    let chosen = points.take(k as int);
    let xs = xs_of(chosen);
    let ys = ys_of(chosen);
    let all = xs_of(points);
    assert forall|i: int, j: int| 0 <= i < xs.len() && 0 <= j < xs.len() && i != j implies xs[i]
        != xs[j] by {
        assert(all[i] != all[j]);
    }
    assert forall|i: int| 0 <= i < xs.len() implies #[trigger] ys[i]
        == evaluate_spec(secret, coefficients, xs[i]) by {
        assert(chosen[i] == points[i]);
    }
    lemma_interpolation_recovers_secret(secret, coefficients, xs, ys);
    lemma_duplicate_x(points);
}

/// Splitting and reconstructing fit together in every scheme: at least `k` points
/// that share a secret with threshold `k` reconstruct that secret.
pub proof fn lemma_threshold_reconstructs<F: Field>(points: Seq<Share<F, F>>, secret: F, k: nat)
    requires
        is_sharing_with_threshold(points, secret, k),
        1 <= k <= points.len(),
    ensures
        reconstruct_spec(points, k) == Ok::<F, ReconstructionError>(secret),
{
    let coefficients = choose|coefficients: Seq<F>|
        coefficients.len() + 1 == k && #[trigger] is_sharing(points, secret, coefficients);
    lemma_sharing_reconstructs(points, secret, coefficients, k);
}

/// Any points picked from a sharing, each at most once, are a sharing of the same
/// secret with the same polynomial.
pub proof fn lemma_selection_is_sharing<F: Field>(
    points: Seq<Share<F, F>>,
    secret: F,
    coefficients: Seq<F>,
    picks: Seq<int>,
)
    requires
        is_sharing(points, secret, coefficients),
        are_picks(picks, points.len()),
    ensures
        is_sharing(selection(points, picks), secret, coefficients),
{
    let picked = selection(points, picks);
    let xs = xs_of(picked);
    let all = xs_of(points);
    assert forall|i: int, j: int| 0 <= i < xs.len() && 0 <= j < xs.len() && i != j implies xs[i]
        != xs[j] by {
        assert(picks[i] != picks[j]);
        assert(all[picks[i]] != all[picks[j]]);
    }
    assert forall|i: int| 0 <= i < picked.len() implies (#[trigger] picked[i]).y
        == evaluate_spec(secret, coefficients, picked[i].x) by {
        assert(picked[i] == points[picks[i]]);
    }
}

/// Compact shares, split and reconstructed: the first `k` of the shares that the
/// compact scheme made of a secret with threshold `k` reconstruct the secret.
pub proof fn lemma_compact_split_reconstructs<F: Field>(
    shares: Seq<CompactShare<F>>,
    secret: F,
    k: nat,
)
    requires
        split_parameters_valid(k, shares.len()),
        is_compact_sharing_with_threshold(shares, secret, k),
    ensures
        reconstruct_spec(compact_points(shares.take(k as int)), k) == Ok::<
            F,
            ReconstructionError,
        >(secret),
{
    let picks = Seq::new(k, |i: int| i);
    lemma_compact_subset_reconstructs(shares, secret, k, picks);
    assert(selection(shares, picks) =~= shares.take(k as int));
}

/// Compact shares, any subset: whichever `k` or more of the shares that the compact
/// scheme made of a secret with threshold `k` are picked, in whatever order, they
/// reconstruct the secret.
pub proof fn lemma_compact_subset_reconstructs<F: Field>(
    shares: Seq<CompactShare<F>>,
    secret: F,
    k: nat,
    picks: Seq<int>,
)
    requires
        split_parameters_valid(k, shares.len()),
        is_compact_sharing_with_threshold(shares, secret, k),
        are_picks(picks, shares.len()),
        picks.len() >= k,
    ensures
        reconstruct_spec(compact_points(selection(shares, picks)), k) == Ok::<
            F,
            ReconstructionError,
        >(secret),
{
    let coefficients = choose|coefficients: Seq<F>|
        coefficients.len() + 1 == k && shares == #[trigger] compact_sharing(
            secret,
            coefficients,
            shares.len(),
        );
    let points = compact_points(shares);
    lemma_compact_sharing(secret, coefficients, shares.len());
    lemma_selection_is_sharing(points, secret, coefficients, picks);
    assert(compact_points(selection(shares, picks)) =~= selection(points, picks));
    lemma_sharing_reconstructs(selection(points, picks), secret, coefficients, k);
}

/// Randomized shares, split and reconstructed: the first `k` of the shares that
/// the randomized scheme made of a secret with threshold `k` reconstruct the secret.
pub proof fn lemma_random_split_reconstructs<F: Field>(
    shares: Seq<RandomShare<F>>,
    secret: F,
    k: nat,
)
    requires
        1 <= k <= shares.len(),
        is_random_sharing_with_threshold(shares, secret, k),
    ensures
        reconstruct_spec(shares.take(k as int), k) == Ok::<F, ReconstructionError>(secret),
{
    let picks = Seq::new(k, |i: int| i);
    lemma_random_subset_reconstructs(shares, secret, k, picks);
    assert(selection(shares, picks) =~= shares.take(k as int));
}

/// Randomized shares, any subset: whichever `k` or more of the shares that the
/// randomized scheme made of a secret with threshold `k` are picked, in whatever
/// order, they reconstruct the secret.
pub proof fn lemma_random_subset_reconstructs<F: Field>(
    shares: Seq<RandomShare<F>>,
    secret: F,
    k: nat,
    picks: Seq<int>,
)
    requires
        1 <= k <= shares.len(),
        is_random_sharing_with_threshold(shares, secret, k),
        are_picks(picks, shares.len()),
        picks.len() >= k,
    ensures
        reconstruct_spec(selection(shares, picks), k) == Ok::<F, ReconstructionError>(secret),
{
    let coefficients = choose|coefficients: Seq<F>|
        coefficients.len() + 1 == k && #[trigger] is_random_sharing(shares, secret, coefficients);
    lemma_selection_is_sharing(shares, secret, coefficients, picks);
    lemma_sharing_reconstructs(selection(shares, picks), secret, coefficients, k);
}

/// Too few shares are refused, whatever they hold.
pub proof fn lemma_too_few_refused<F: Field>(points: Seq<Share<F, F>>, k: nat)
    requires
        points.len() < k,
    ensures
        reconstruct_spec(points, k) == Err::<F, ReconstructionError>(
            ReconstructionError::InsufficientShares,
        ),
{
}

/// Enough shares of which two have the same x coordinate are refused.
pub proof fn lemma_duplicate_refused<F: Field>(points: Seq<Share<F, F>>, k: nat, i: int, j: int)
    requires
        points.len() >= k,
        0 <= i < points.len(),
        0 <= j < points.len(),
        i != j,
        points[i].x == points[j].x,
    ensures
        reconstruct_spec(points, k) == Err::<F, ReconstructionError>(
            ReconstructionError::DuplicateXCoordinate,
        ),
{
    assert(points[i].x == points[j].x);
}

} // verus!
