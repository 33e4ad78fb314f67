//! The arithmetic that secret sharing is built on: a finite field, stated as a trait.

use rand::rngs::ThreadRng;
use vstd::prelude::*;

verus! {

/// A field whose elements are plain values: two elements are the same element
/// exactly when they are equal.
///
/// The `*_spec` functions are the mathematical operations, the proof functions are
/// the field axioms that an implementation has to prove, and the executable
/// methods compute the operations.
pub trait Field: Sized + Copy {
    /// The additive identity.
    spec fn zero_spec() -> Self;

    /// The multiplicative identity.
    spec fn one_spec() -> Self;

    /// The sum of two elements.
    spec fn add_spec(self, rhs: Self) -> Self;

    /// The additive inverse.
    spec fn neg_spec(self) -> Self;

    /// The product of two elements.
    spec fn mul_spec(self, rhs: Self) -> Self;

    /// The multiplicative inverse; meaningful for every element but zero.
    spec fn inv_spec(self) -> Self;

    /// The element that stands for a byte.
    spec fn embed_spec(i: u8) -> Self;

    /// The number of bytes in the encoding of an element.
    spec fn width_spec() -> nat;

    /// The fixed-width encoding of an element.
    spec fn bytes_spec(self) -> Seq<u8>;

    /// Addition is commutative.
    proof fn lemma_add_commutative(a: Self, b: Self)
        ensures
            a.add_spec(b) == b.add_spec(a),
    ;

    /// Addition is associative.
    proof fn lemma_add_associative(a: Self, b: Self, c: Self)
        ensures
            a.add_spec(b).add_spec(c) == a.add_spec(b.add_spec(c)),
    ;

    /// Zero is the identity of addition.
    proof fn lemma_add_zero(a: Self)
        ensures
            a.add_spec(Self::zero_spec()) == a,
    ;

    /// An element and its additive inverse add up to zero.
    proof fn lemma_add_neg(a: Self)
        ensures
            a.add_spec(a.neg_spec()) == Self::zero_spec(),
    ;

    /// Multiplication is commutative.
    proof fn lemma_mul_commutative(a: Self, b: Self)
        ensures
            a.mul_spec(b) == b.mul_spec(a),
    ;

    /// Multiplication is associative.
    proof fn lemma_mul_associative(a: Self, b: Self, c: Self)
        ensures
            a.mul_spec(b).mul_spec(c) == a.mul_spec(b.mul_spec(c)),
    ;

    /// One is the identity of multiplication.
    proof fn lemma_mul_one(a: Self)
        ensures
            a.mul_spec(Self::one_spec()) == a,
    ;

    /// An element other than zero and its multiplicative inverse multiply to one.
    proof fn lemma_mul_inv(a: Self)
        requires
            a != Self::zero_spec(),
        ensures
            a.mul_spec(a.inv_spec()) == Self::one_spec(),
    ;

    /// Multiplication distributes over addition.
    proof fn lemma_distributive(a: Self, b: Self, c: Self)
        ensures
            a.mul_spec(b.add_spec(c)) == a.mul_spec(b).add_spec(a.mul_spec(c)),
    ;

    /// Different bytes stand for different elements.
    proof fn lemma_embed_injective(i: u8, j: u8)
        requires
            Self::embed_spec(i) == Self::embed_spec(j),
        ensures
            i == j,
    ;

    /// Every encoding has the field's width, which is at least one byte.
    proof fn lemma_bytes_width(a: Self)
        ensures
            a.bytes_spec().len() == Self::width_spec(),
            Self::width_spec() > 0,
    ;

    /// Different elements have different encodings.
    proof fn lemma_bytes_injective(a: Self, b: Self)
        requires
            a.bytes_spec() == b.bytes_spec(),
        ensures
            a == b,
    ;

    /// The additive identity.
    fn zero() -> (r: Self)
        ensures
            r == Self::zero_spec(),
    ;

    /// The multiplicative identity.
    fn one() -> (r: Self)
        ensures
            r == Self::one_spec(),
    ;

    /// Adds two elements.
    fn add(self, rhs: Self) -> (r: Self)
        ensures
            r == self.add_spec(rhs),
    ;

    /// Subtracts `rhs` from the element.
    fn sub(self, rhs: Self) -> (r: Self)
        ensures
            r == self.add_spec(rhs.neg_spec()),
    ;

    /// The additive inverse.
    fn neg(self) -> (r: Self)
        ensures
            r == self.neg_spec(),
    ;

    /// Multiplies two elements.
    fn mul(self, rhs: Self) -> (r: Self)
        ensures
            r == self.mul_spec(rhs),
    ;

    /// The multiplicative inverse of an element other than zero.
    fn invert(self) -> (r: Self)
        requires
            self != Self::zero_spec(),
        ensures
            r == self.inv_spec(),
    ;

    /// Tells whether two elements are the same.
    fn equals(&self, other: &Self) -> (r: bool)
        ensures
            r == (*self == *other),
    ;

    /// The element that stands for a byte.
    fn from_small_integer(i: u8) -> (r: Self)
        ensures
            r == Self::embed_spec(i),
    ;

    /// Draws an element from the generator. Every element can come out, so nothing
    /// is promised of the result.
    fn uniform(rng: &mut ThreadRng) -> Self;

    /// Encodes the element.
    fn to_bytes(&self) -> (bytes: Vec<u8>)
        ensures
            bytes@ == self.bytes_spec(),
    ;

    /// Decodes an element: `Some` exactly on the encodings of elements.
    fn from_bytes(bytes: &[u8]) -> (r: Option<Self>)
        ensures
            match r {
                Some(a) => a.bytes_spec() == bytes@,
                None => forall|a: Self| #[trigger] a.bytes_spec() != bytes@,
            },
    ;
}

} // verus!
