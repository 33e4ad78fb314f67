//! A share: one point of the polynomial that hides the secret.

use crate::algebra::pairwise_distinct;
use vstd::prelude::*;

verus! {

/// Gives the x coordinate of a share.
pub trait GetX<X: Copy> {
    /// The x coordinate.
    spec fn x_spec(self) -> X;

    /// Returns the x coordinate.
    fn getx(self) -> (x: X)
        ensures
            x == self.x_spec(),
    ;
}

/// A pair `(x, y)` where `y` is the value of the polynomial at `x`.
#[derive(Clone, Copy, Debug, PartialEq, Eq)]
pub struct Share<X, Y> {
    pub x: X,
    pub y: Y,
}

/// A share whose x coordinate is a byte from 1 to 255.
pub type CompactShare<F> = Share<u8, F>;

/// A share whose x coordinate is an element of the field.
pub type RandomShare<F> = Share<F, F>;

impl<X, Y> Share<X, Y> {
    /// The share with the given coordinates.
    pub fn new(x: X, y: Y) -> (share: Self)
        ensures
            share.x == x,
            share.y == y,
    {
        Share { x, y }
    }
}

impl<X: Copy, Y: Copy> Share<X, Y> {
    /// Returns the y coordinate.
    pub fn gety(self) -> (y: Y)
        ensures
            y == self.y,
    {
        self.y
    }
}

impl<X: Copy, Y> GetX<X> for Share<X, Y> {
    open spec fn x_spec(self) -> X {
        self.x
    }

    fn getx(self) -> X {
        self.x
    }
}

/// Two of the shares have the same x coordinate.
pub open spec fn has_duplicate_x<X, Y>(shares: Seq<Share<X, Y>>) -> bool {
    exists|i: int, j: int|
        0 <= i < shares.len() && 0 <= j < shares.len() && i != j && (#[trigger] shares[i]).x == (
        #[trigger] shares[j]).x
}

/// The x coordinates of a sequence of points.
pub open spec fn xs_of<F>(points: Seq<Share<F, F>>) -> Seq<F> {
    Seq::new(points.len(), |i: int| points[i].x)
}

/// The y coordinates of a sequence of points.
pub open spec fn ys_of<F>(points: Seq<Share<F, F>>) -> Seq<F> {
    Seq::new(points.len(), |i: int| points[i].y)
}

/// Two points have the same x coordinate exactly when the sequence of the x
/// coordinates holds one of them twice.
pub proof fn lemma_duplicate_x<F>(points: Seq<Share<F, F>>)
    ensures
        has_duplicate_x(points) <==> !pairwise_distinct(xs_of(points)),
{
    let xs = xs_of(points);
    if has_duplicate_x(points) {
        let (i, j) = choose|i: int, j: int|
            0 <= i < points.len() && 0 <= j < points.len() && i != j && (#[trigger] points[i]).x
                == (#[trigger] points[j]).x;
        assert(xs[i] == xs[j]);
    }
    if !pairwise_distinct(xs) {
        let (i, j) = choose|i: int, j: int|
            0 <= i < xs.len() && 0 <= j < xs.len() && i != j && xs[i] == xs[j];
        assert(points[i].x == points[j].x);
    }
}

} // verus!
