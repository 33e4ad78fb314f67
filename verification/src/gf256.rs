//! The field with 256 elements: bytes as polynomials over GF(2), modulo
//! x^8 + x^4 + x^3 + x + 1.

use crate::entropy::random_byte;
use crate::field::Field;
use rand::rngs::ThreadRng;
use vstd::prelude::*;

verus! {

/// `t` where bit `k` of `c` is set, zero elsewhere; `k` is a one-bit mask.
pub open spec fn pick(c: u8, k: u8, t: u8) -> u8 {
    if c & k != 0 {
        t
    } else {
        0u8
    }
}

/// Carry-less product of two bytes: the product of the two polynomials over GF(2),
/// of degree at most 14.
pub open spec fn clmul(a: u8, b: u8) -> u16 {
    let w: u16 = a as u16;
    (if b & 0x01 != 0 { w } else { 0u16 })
    ^ (if b & 0x02 != 0 { w << 1 } else { 0u16 })
    ^ (if b & 0x04 != 0 { w << 2 } else { 0u16 })
    ^ (if b & 0x08 != 0 { w << 3 } else { 0u16 })
    ^ (if b & 0x10 != 0 { w << 4 } else { 0u16 })
    ^ (if b & 0x20 != 0 { w << 5 } else { 0u16 })
    ^ (if b & 0x40 != 0 { w << 6 } else { 0u16 })
    ^ (if b & 0x80 != 0 { w << 7 } else { 0u16 })
}

/// Remainder of a polynomial of degree at most 14 modulo x^8 + x^4 + x^3 + x + 1:
/// each power x^8 .. x^14 is replaced by its remainder.
pub open spec fn reduce(p: u16) -> u8 {
    ((p & 0xff)
    ^ (if p & 0x0100 != 0 { 0x1bu16 } else { 0u16 })
    ^ (if p & 0x0200 != 0 { 0x36u16 } else { 0u16 })
    ^ (if p & 0x0400 != 0 { 0x6cu16 } else { 0u16 })
    ^ (if p & 0x0800 != 0 { 0xd8u16 } else { 0u16 })
    ^ (if p & 0x1000 != 0 { 0xabu16 } else { 0u16 })
    ^ (if p & 0x2000 != 0 { 0x4du16 } else { 0u16 })
    ^ (if p & 0x4000 != 0 { 0x9au16 } else { 0u16 })) as u8
}

/// Product in GF(256).
pub open spec fn gmul(a: u8, b: u8) -> u8 {
    reduce(clmul(a, b))
}

/// Multiplication by the polynomial x.
pub open spec fn xtime(a: u8) -> u8 {
    (a << 1) ^ (if a & 0x80 != 0 { 0x1bu8 } else { 0u8 })
}

/// The 254th power, which is the inverse of every element but zero.
pub open spec fn ginv(a: u8) -> u8 {
    let a2 = gmul(a, a);
    let a4 = gmul(a2, a2);
    let a8 = gmul(a4, a4);
    let a16 = gmul(a8, a8);
    let a32 = gmul(a16, a16);
    let a64 = gmul(a32, a32);
    let a128 = gmul(a64, a64);
    gmul(gmul(gmul(gmul(gmul(gmul(a128, a64), a32), a16), a8), a4), a2)
}

/// Multiplication is commutative.
#[verifier::rlimit(50)]
proof fn lemma_gmul_commutative(a: u8, b: u8)
    by (bit_vector)
    ensures
        gmul(a, b) == gmul(b, a),
{
}

/// One is the identity of multiplication.
proof fn lemma_gmul_one(a: u8)
    by (bit_vector)
    ensures
        gmul(a, 1) == a,
{
}

/// A product with zero is zero.
proof fn lemma_gmul_zero(a: u8)
    by (bit_vector)
    ensures
        gmul(a, 0) == 0,
{
}

/// Multiplication distributes over addition.
#[verifier::rlimit(50)]
proof fn lemma_gmul_distributive(a: u8, b: u8, c: u8)
    by (bit_vector)
    ensures
        gmul(a, b ^ c) == gmul(a, b) ^ gmul(a, c),
{
}

/// A product is the sum of the products with the powers of x that the second
/// factor holds.
#[verifier::rlimit(50)]
proof fn lemma_gmul_by_bits(a: u8, c: u8)
    by (bit_vector)
    ensures
        gmul(a, c) == pick(c, 0x01, gmul(a, 0x01)) ^ pick(c, 0x02, gmul(a, 0x02)) ^ pick(
            c,
            0x04,
            gmul(a, 0x04),
        ) ^ pick(c, 0x08, gmul(a, 0x08)) ^ pick(c, 0x10, gmul(a, 0x10)) ^ pick(
            c,
            0x20,
            gmul(a, 0x20),
        ) ^ pick(c, 0x40, gmul(a, 0x40)) ^ pick(c, 0x80, gmul(a, 0x80)),
{
}

/// The products with the powers of x are repeated multiplications by x.
#[verifier::rlimit(50)]
proof fn lemma_gmul_by_power(a: u8)
    by (bit_vector)
    ensures
        gmul(a, 0x01) == a,
        gmul(a, 0x02) == xtime(a),
        gmul(a, 0x04) == xtime(xtime(a)),
        gmul(a, 0x08) == xtime(xtime(xtime(a))),
        gmul(a, 0x10) == xtime(xtime(xtime(xtime(a)))),
        gmul(a, 0x20) == xtime(xtime(xtime(xtime(xtime(a))))),
        gmul(a, 0x40) == xtime(xtime(xtime(xtime(xtime(xtime(a)))))),
        gmul(a, 0x80) == xtime(xtime(xtime(xtime(xtime(xtime(xtime(a))))))),
{
}

/// Multiplying a factor by x multiplies the product by x.
#[verifier::rlimit(50)]
proof fn lemma_gmul_xtime(a: u8, b: u8)
    by (bit_vector)
    ensures
        gmul(xtime(a), b) == xtime(gmul(a, b)),
{
}

/// Multiplying by a power of x commutes with multiplying by `a`.
proof fn lemma_gmul_power_of_x(a: u8, b: u8)
    ensures
        gmul(gmul(a, b), 0x01) == gmul(a, gmul(b, 0x01)),
        gmul(gmul(a, b), 0x02) == gmul(a, gmul(b, 0x02)),
        gmul(gmul(a, b), 0x04) == gmul(a, gmul(b, 0x04)),
        gmul(gmul(a, b), 0x08) == gmul(a, gmul(b, 0x08)),
        gmul(gmul(a, b), 0x10) == gmul(a, gmul(b, 0x10)),
        gmul(gmul(a, b), 0x20) == gmul(a, gmul(b, 0x20)),
        gmul(gmul(a, b), 0x40) == gmul(a, gmul(b, 0x40)),
        gmul(gmul(a, b), 0x80) == gmul(a, gmul(b, 0x80)),
{
    let b1 = xtime(b);
    let b2 = xtime(b1);
    let b3 = xtime(b2);
    let b4 = xtime(b3);
    let b5 = xtime(b4);
    let b6 = xtime(b5);
    let b7 = xtime(b6);
    lemma_gmul_by_power(gmul(a, b));
    lemma_gmul_by_power(b);
    lemma_gmul_commutative(a, b);
    lemma_gmul_xtime(b, a);
    lemma_gmul_xtime(b1, a);
    lemma_gmul_xtime(b2, a);
    lemma_gmul_xtime(b3, a);
    lemma_gmul_xtime(b4, a);
    lemma_gmul_xtime(b5, a);
    lemma_gmul_xtime(b6, a);
    lemma_gmul_commutative(a, b1);
    lemma_gmul_commutative(a, b2);
    lemma_gmul_commutative(a, b3);
    lemma_gmul_commutative(a, b4);
    lemma_gmul_commutative(a, b5);
    lemma_gmul_commutative(a, b6);
    lemma_gmul_commutative(a, b7);
}

/// Multiplication goes through the selection by a bit.
proof fn lemma_gmul_pick(a: u8, c: u8, k: u8, t: u8)
    ensures
        gmul(a, pick(c, k, t)) == pick(c, k, gmul(a, t)),
{
    lemma_gmul_zero(a);
}

/// Multiplication is associative: both sides are the sum, over the powers of x that
/// `c` holds, of the product of `a` and `b` times that power.
proof fn lemma_gmul_associative(a: u8, b: u8, c: u8)
    ensures
        gmul(gmul(a, b), c) == gmul(a, gmul(b, c)),
{
    let ab = gmul(a, b);
    let t0 = pick(c, 0x01, gmul(b, 0x01));
    let t1 = pick(c, 0x02, gmul(b, 0x02));
    let t2 = pick(c, 0x04, gmul(b, 0x04));
    let t3 = pick(c, 0x08, gmul(b, 0x08));
    let t4 = pick(c, 0x10, gmul(b, 0x10));
    let t5 = pick(c, 0x20, gmul(b, 0x20));
    let t6 = pick(c, 0x40, gmul(b, 0x40));
    let t7 = pick(c, 0x80, gmul(b, 0x80));
    lemma_gmul_by_bits(ab, c);
    lemma_gmul_by_bits(b, c);
    lemma_gmul_power_of_x(a, b);
    lemma_gmul_distributive(a, t0 ^ t1 ^ t2 ^ t3 ^ t4 ^ t5 ^ t6, t7);
    lemma_gmul_distributive(a, t0 ^ t1 ^ t2 ^ t3 ^ t4 ^ t5, t6);
    lemma_gmul_distributive(a, t0 ^ t1 ^ t2 ^ t3 ^ t4, t5);
    lemma_gmul_distributive(a, t0 ^ t1 ^ t2 ^ t3, t4);
    lemma_gmul_distributive(a, t0 ^ t1 ^ t2, t3);
    lemma_gmul_distributive(a, t0 ^ t1, t2);
    lemma_gmul_distributive(a, t0, t1);
    lemma_gmul_pick(a, c, 0x01, gmul(b, 0x01));
    lemma_gmul_pick(a, c, 0x02, gmul(b, 0x02));
    lemma_gmul_pick(a, c, 0x04, gmul(b, 0x04));
    lemma_gmul_pick(a, c, 0x08, gmul(b, 0x08));
    lemma_gmul_pick(a, c, 0x10, gmul(b, 0x10));
    lemma_gmul_pick(a, c, 0x20, gmul(b, 0x20));
    lemma_gmul_pick(a, c, 0x40, gmul(b, 0x40));
    lemma_gmul_pick(a, c, 0x80, gmul(b, 0x80));
}

/// The sum of the eight given elements that the bits of `a` select: a map that is
/// linear over GF(2), given by the images of the powers of x.
pub open spec fn spread(a: u8, c0: u8, c1: u8, c2: u8, c3: u8, c4: u8, c5: u8, c6: u8, c7: u8) -> u8 {
    pick(a, 0x01, c0) ^ pick(a, 0x02, c1) ^ pick(a, 0x04, c2) ^ pick(a, 0x08, c3) ^ pick(
        a,
        0x10,
        c4,
    ) ^ pick(a, 0x20, c5) ^ pick(a, 0x40, c6) ^ pick(a, 0x80, c7)
}

/// Squaring is linear over GF(2): the power 2 of `a`, from the power 1.
proof fn lemma_power_2(a: u8)
    by (bit_vector)
    ensures
        gmul(a, a) == spread(a, 0x01, 0x04, 0x10, 0x40, 0x1b, 0x6c, 0xab, 0x9a),
{
}

/// Squaring is linear over GF(2): the power 4 of `a`, from the power 2.
proof fn lemma_power_4(a: u8, x: u8)
    by (bit_vector)
    requires
        x == spread(a, 0x01, 0x04, 0x10, 0x40, 0x1b, 0x6c, 0xab, 0x9a),
    ensures
        gmul(x, x) == spread(a, 0x01, 0x10, 0x1b, 0xab, 0x5e, 0x97, 0xb3, 0xc5),
{
}

/// Squaring is linear over GF(2): the power 8 of `a`, from the power 4.
proof fn lemma_power_8(a: u8, x: u8)
    by (bit_vector)
    requires
        x == spread(a, 0x01, 0x10, 0x1b, 0xab, 0x5e, 0x97, 0xb3, 0xc5),
    ensures
        gmul(x, x) == spread(a, 0x01, 0x1b, 0x5e, 0xb3, 0xe4, 0x94, 0xe8, 0x20),
{
}

/// Squaring is linear over GF(2): the power 16 of `a`, from the power 8.
proof fn lemma_power_16(a: u8, x: u8)
    by (bit_vector)
    requires
        x == spread(a, 0x01, 0x1b, 0x5e, 0xb3, 0xe4, 0x94, 0xe8, 0x20),
    ensures
        gmul(x, x) == spread(a, 0x01, 0x5e, 0xe4, 0xe8, 0x4d, 0x91, 0x1d, 0x6c),
{
}

/// Squaring is linear over GF(2): the power 32 of `a`, from the power 16.
proof fn lemma_power_32(a: u8, x: u8)
    by (bit_vector)
    requires
        x == spread(a, 0x01, 0x5e, 0xe4, 0xe8, 0x4d, 0x91, 0x1d, 0x6c),
    ensures
        gmul(x, x) == spread(a, 0x01, 0xe4, 0x4d, 0x1d, 0xfa, 0x80, 0x4a, 0x97),
{
}

/// Squaring is linear over GF(2): the power 64 of `a`, from the power 32.
proof fn lemma_power_64(a: u8, x: u8)
    by (bit_vector)
    requires
        x == spread(a, 0x01, 0xe4, 0x4d, 0x1d, 0xfa, 0x80, 0x4a, 0x97),
    ensures
        gmul(x, x) == spread(a, 0x01, 0x4d, 0xfa, 0x4a, 0x02, 0x9a, 0xef, 0x94),
{
}

/// Squaring is linear over GF(2): the power 128 of `a`, from the power 64.
proof fn lemma_power_128(a: u8, x: u8)
    by (bit_vector)
    requires
        x == spread(a, 0x01, 0x4d, 0xfa, 0x4a, 0x02, 0x9a, 0xef, 0x94),
    ensures
        gmul(x, x) == spread(a, 0x01, 0xfa, 0x02, 0xef, 0x04, 0xc5, 0x08, 0x91),
{
}

/// Squaring is linear over GF(2): the power 256 of `a`, from the power 128.
proof fn lemma_power_256(a: u8, x: u8)
    by (bit_vector)
    requires
        x == spread(a, 0x01, 0xfa, 0x02, 0xef, 0x04, 0xc5, 0x08, 0x91),
    ensures
        gmul(x, x) == spread(a, 0x01, 0x02, 0x04, 0x08, 0x10, 0x20, 0x40, 0x80),
{
}

/// Squaring eight times gives the element back.
proof fn lemma_power_256_is_identity(a: u8)
    by (bit_vector)
    ensures
        a == spread(a, 0x01, 0x02, 0x04, 0x08, 0x10, 0x20, 0x40, 0x80),
{
}

/// A product is zero only if a factor is.
#[verifier::rlimit(50)]
proof fn lemma_no_zero_divisors(a: u8, b: u8)
    by (bit_vector)
    requires
        gmul(a, b) == 0,
    ensures
        a == 0 || b == 0,
{
}

/// Moves one factor of a square into a product: `(p * b) * b == p * (b * b)`.
proof fn lemma_gmul_regroup(p: u8, b: u8)
    ensures
        gmul(gmul(p, b), b) == gmul(p, gmul(b, b)),
{
    lemma_gmul_associative(p, b, b);
}

/// The 254th power of an element other than zero is its inverse: the 256th power
/// of an element is the element, and the field has no zero divisors.
proof fn lemma_gmul_inverse(a: u8)
    requires
        a != 0,
    ensures
        gmul(a, ginv(a)) == 1,
{
    let a2 = gmul(a, a);
    let a4 = gmul(a2, a2);
    let a8 = gmul(a4, a4);
    let a16 = gmul(a8, a8);
    let a32 = gmul(a16, a16);
    let a64 = gmul(a32, a32);
    let a128 = gmul(a64, a64);
    let a256 = gmul(a128, a128);
    let m1 = gmul(a128, a64);
    let m2 = gmul(m1, a32);
    let m3 = gmul(m2, a16);
    let m4 = gmul(m3, a8);
    let m5 = gmul(m4, a4);
    let m6 = gmul(m5, a2);
    let u = gmul(a, m6);
    assert(a256 == a) by {
        lemma_power_2(a);
        lemma_power_4(a, a2);
        lemma_power_8(a, a4);
        lemma_power_16(a, a8);
        lemma_power_32(a, a16);
        lemma_power_64(a, a32);
        lemma_power_128(a, a64);
        lemma_power_256(a, a128);
        lemma_power_256_is_identity(a);
    }
    // a * (a * m6) == (a * a) * m6 == m6 * a2, and each square climbs one step:
    // (m5 * a2) * a2 == m5 * a4, .. (a128 * a64) * a64 == a128 * a128
    assert(gmul(a, u) == a) by {
        lemma_gmul_associative(a, a, m6);
        lemma_gmul_commutative(a2, m6);
        lemma_gmul_regroup(m5, a2);
        lemma_gmul_regroup(m4, a4);
        lemma_gmul_regroup(m3, a8);
        lemma_gmul_regroup(m2, a16);
        lemma_gmul_regroup(m1, a32);
        lemma_gmul_regroup(a128, a64);
    }
    // a * (u ^ 1) == a * u ^ a * 1 == a ^ a == 0, and a is not zero
    lemma_gmul_distributive(a, u, 1);
    lemma_gmul_one(a);
    lemma_xor_laws(a, 0, 0);
    lemma_no_zero_divisors(a, u ^ 1);
    assert(u ^ 1 == 0 ==> u == 1) by (bit_vector);
}

/// Addition in the field: exclusive or is commutative and associative, zero is its
/// identity, and every element is its own inverse.
proof fn lemma_xor_laws(a: u8, b: u8, c: u8)
    by (bit_vector)
    ensures
        a ^ b == b ^ a,
        (a ^ b) ^ c == a ^ (b ^ c),
        a ^ 0 == a,
        a ^ a == 0,
{
}

/// One step of shift-and-add multiplication: the lowest bit of `b` decides whether
/// `a` is added, and the rest of the product is that of `a` times x with `b` halved.
#[verifier::rlimit(50)]
proof fn lemma_gmul_step(a: u8, b: u8)
    by (bit_vector)
    ensures
        gmul(a, b) == pick(b, 1, a) ^ gmul(xtime(a), b >> 1),
        b != 0 ==> (b >> 1) < b,
{
}

/// An element of GF(256), held as the byte of its polynomial's coefficients.
#[derive(Clone, Copy, Debug, PartialEq, Eq, Hash, Structural)]
pub struct Gf256(pub u8);

impl Gf256 {
    /// Multiplies by the polynomial x.
    fn times_x(b: u8) -> (r: u8)
        ensures
            r == xtime(b),
    {
        if b & 0x80 != 0 {
            (b << 1) ^ 0x1b
        } else {
            assert((b << 1) ^ 0u8 == (b << 1)) by (bit_vector);
            b << 1
        }
    }

    /// Multiplies two bytes as elements of the field, by shift and add.
    fn product(a: u8, b: u8) -> (r: u8)
        ensures
            r == gmul(a, b),
    {
        let mut sum: u8 = 0;
        let mut shifted: u8 = a;
        let mut rest: u8 = b;
        proof {
            lemma_xor_laws(gmul(a, b), 0, 0);
        }
        while rest != 0
            invariant
                gmul(a, b) == sum ^ gmul(shifted, rest),
            decreases rest,
        {
            proof {
                lemma_gmul_step(shifted, rest);
                lemma_xor_laws(sum, pick(rest, 1, shifted), gmul(xtime(shifted), rest >> 1));
                lemma_xor_laws(sum, 0, 0);
            }
            if rest & 1 != 0 {
                sum = sum ^ shifted;
            }
            shifted = Self::times_x(shifted);
            rest = rest >> 1;
        }
        proof {
            lemma_gmul_zero(shifted);
            lemma_xor_laws(sum, 0, 0);
        }
        sum
    }
}

impl Field for Gf256 {
    open spec fn zero_spec() -> Self {
        Gf256(0)
    }

    open spec fn one_spec() -> Self {
        Gf256(1)
    }

    open spec fn add_spec(self, rhs: Self) -> Self {
        Gf256(self.0 ^ rhs.0)
    }

    open spec fn neg_spec(self) -> Self {
        self
    }

    open spec fn mul_spec(self, rhs: Self) -> Self {
        Gf256(gmul(self.0, rhs.0))
    }

    open spec fn inv_spec(self) -> Self {
        Gf256(ginv(self.0))
    }

    open spec fn embed_spec(i: u8) -> Self {
        Gf256(i)
    }

    open spec fn width_spec() -> nat {
        1
    }

    open spec fn bytes_spec(self) -> Seq<u8> {
        seq![self.0]
    }

    proof fn lemma_add_commutative(a: Self, b: Self) {
        lemma_xor_laws(a.0, b.0, 0);
    }

    proof fn lemma_add_associative(a: Self, b: Self, c: Self) {
        lemma_xor_laws(a.0, b.0, c.0);
    }

    proof fn lemma_add_zero(a: Self) {
        lemma_xor_laws(a.0, 0, 0);
    }

    proof fn lemma_add_neg(a: Self) {
        lemma_xor_laws(a.0, 0, 0);
    }

    proof fn lemma_mul_commutative(a: Self, b: Self) {
        lemma_gmul_commutative(a.0, b.0);
    }

    proof fn lemma_mul_associative(a: Self, b: Self, c: Self) {
        lemma_gmul_associative(a.0, b.0, c.0);
    }

    proof fn lemma_mul_one(a: Self) {
        lemma_gmul_one(a.0);
    }

    proof fn lemma_mul_inv(a: Self) {
        lemma_gmul_inverse(a.0);
    }

    proof fn lemma_distributive(a: Self, b: Self, c: Self) {
        lemma_gmul_distributive(a.0, b.0, c.0);
    }

    proof fn lemma_embed_injective(i: u8, j: u8) {
    }

    proof fn lemma_bytes_width(a: Self) {
    }

    proof fn lemma_bytes_injective(a: Self, b: Self) {
        assert(a.bytes_spec()[0] == a.0);
        assert(b.bytes_spec()[0] == b.0);
    }

    fn zero() -> Self {
        Gf256(0)
    }

    fn one() -> Self {
        Gf256(1)
    }

    fn add(self, rhs: Self) -> Self {
        Gf256(self.0 ^ rhs.0)
    }

    fn sub(self, rhs: Self) -> Self {
        Gf256(self.0 ^ rhs.0)
    }

    fn neg(self) -> Self {
        self
    }

    fn mul(self, rhs: Self) -> Self {
        Gf256(Self::product(self.0, rhs.0))
    }

    fn invert(self) -> Self {
        let a = self.0;
        let a2 = Self::product(a, a);
        let a4 = Self::product(a2, a2);
        let a8 = Self::product(a4, a4);
        let a16 = Self::product(a8, a8);
        let a32 = Self::product(a16, a16);
        let a64 = Self::product(a32, a32);
        let a128 = Self::product(a64, a64);
        let m1 = Self::product(a128, a64);
        let m2 = Self::product(m1, a32);
        let m3 = Self::product(m2, a16);
        let m4 = Self::product(m3, a8);
        let m5 = Self::product(m4, a4);
        Gf256(Self::product(m5, a2))
    }

    fn equals(&self, other: &Self) -> bool {
        self.0 == other.0
    }

    fn from_small_integer(i: u8) -> Self {
        Gf256(i)
    }

    fn uniform(rng: &mut ThreadRng) -> Self {
        Gf256(random_byte(rng))
    }

    fn to_bytes(&self) -> Vec<u8> {
        let mut bytes: Vec<u8> = Vec::new();
        bytes.push(self.0);
        assert(bytes@ =~= seq![self.0]);
        bytes
    }

    fn from_bytes(bytes: &[u8]) -> Option<Self> {
        if bytes.len() == 1 {
            let a = Gf256(bytes[0]);
            assert(a.bytes_spec() =~= bytes@);
            Some(a)
        } else {
            None
        }
    }
}

} // verus!
