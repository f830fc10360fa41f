//! Points of the prime-order subgroup G1 of the BLS12-381 curve.
use vstd::prelude::*;
use crate::field::{Scalar, modulus};

verus! {

/// Whether `b` is the compressed encoding of a point of G1.
pub uninterp spec fn is_point(b: Seq<u8>) -> bool;

/// The encoding of the sum of the points that `a` and `b` encode.
pub uninterp spec fn point_add(a: Seq<u8>, b: Seq<u8>) -> Seq<u8>;

/// The encoding of `k` times the point that `p` encodes.
pub uninterp spec fn point_mul(p: Seq<u8>, k: int) -> Seq<u8>;

/// The compressed encoding of the point at infinity: both flag bits set,
/// every other bit clear.
pub open spec fn identity_enc() -> Seq<u8> {
    Seq::new(48, |i: int| if i == 0 { 0xc0u8 } else { 0u8 })
}

/// The compressed encoding of the standard generator of G1.
pub open spec fn generator_enc() -> Seq<u8> {
    seq![
        0x97u8, 0xf1, 0xd3, 0xa7, 0x31, 0x97, 0xd7, 0x94, 0x26, 0x95, 0x63, 0x8c, 0x4f, 0xa9,
        0xac, 0x0f, 0xc3, 0x68, 0x8c, 0x4f, 0x97, 0x74, 0xb9, 0x05, 0xa1, 0x4e, 0x3a, 0x3f,
        0x17, 0x1b, 0xac, 0x58, 0x6c, 0x55, 0xe8, 0x3f, 0xf9, 0x7a, 0x1a, 0xef, 0xfb, 0x3a,
        0xf0, 0x0a, 0xdb, 0x22, 0xc6, 0xbb,
    ]
}

/// `g·k` for the generator `g`.
pub open spec fn base_mul(k: int) -> Seq<u8> {
    point_mul(generator_enc(), k)
}

/// A group element, held as its compressed encoding (which is unique to it).
#[derive(Clone, Copy, PartialEq, Eq, Debug)]
pub struct Point {
    bytes: [u8; 48],
}

impl Point {
    pub closed spec fn enc(&self) -> Seq<u8> {
        self.bytes@
    }

    pub open spec fn wf(&self) -> bool {
        is_point(self.enc())
    }

    /// Relies on bls12_381's `G1Projective::identity`: the point at infinity.
    #[verifier::external_body]
    pub fn identity() -> (r: Point)
        ensures
            is_point(r.enc()),
            r.enc() == identity_enc(),
            r.enc() == base_mul(0),
    {
        Point { bytes: bls12_381::G1Affine::from(bls12_381::G1Projective::identity()).to_compressed() }
    }

    /// Relies on bls12_381's `G1Projective::generator`: the fixed generator.
    #[verifier::external_body]
    pub fn generator() -> (r: Point)
        ensures
            is_point(r.enc()),
            r.enc() == generator_enc(),
    {
        Point { bytes: bls12_381::G1Affine::from(bls12_381::G1Projective::generator()).to_compressed() }
    }

    /// Relies on bls12_381's `Add for G1Projective`: the group sum, so that
    /// `g·a + g·b = g·(a + b)`.
    #[verifier::external_body]
    pub(crate) fn add(&self, o: &Point) -> (r: Point)
        requires
            self.wf(),
            o.wf(),
        ensures
            is_point(r.enc()),
            r.enc() == point_add(self.enc(), o.enc()),
            forall|a: int, b: int|
                0 <= a < modulus() && 0 <= b < modulus() && self.enc() == #[trigger] base_mul(a) && o.enc()
                    == #[trigger] base_mul(b) ==> r.enc() == base_mul((a + b) % modulus()),
    {
        let a = bls12_381::G1Projective::from(bls12_381::G1Affine::from_compressed(&self.bytes).unwrap());
        let b = bls12_381::G1Projective::from(bls12_381::G1Affine::from_compressed(&o.bytes).unwrap());
        Point { bytes: bls12_381::G1Affine::from(a + b).to_compressed() }
    }

    /// Relies on bls12_381's `Mul<Scalar> for G1Projective`: scalar
    /// multiplication, so that `(g·a)·k = g·(a·k)`; and, the group having
    /// prime order, `g·k` is `g·a` for no other `a` below the order.
    #[verifier::external_body]
    pub(crate) fn mul(&self, k: &Scalar) -> (r: Point)
        requires
            self.wf(),
            k.wf(),
        ensures
            is_point(r.enc()),
            r.enc() == point_mul(self.enc(), k.val()),
            forall|a: int|
                0 <= a < modulus() && self.enc() == #[trigger] base_mul(a) ==> r.enc() == base_mul(
                    (a * k.val()) % modulus(),
                ),
            self.enc() == generator_enc() ==> forall|a: int|
                0 <= a < modulus() && r.enc() == #[trigger] base_mul(a) ==> a == k.val(),
    {
        let a = bls12_381::G1Projective::from(bls12_381::G1Affine::from_compressed(&self.bytes).unwrap());
        let s = bls12_381::Scalar::from_bytes(&k.bytes).unwrap();
        Point { bytes: bls12_381::G1Affine::from(a * s).to_compressed() }
    }

    /// `g·k`: the public image of the secret `k`.
    pub fn base_times(k: &Scalar) -> (r: Point)
        requires
            k.wf(),
        ensures
            r.wf(),
            r.enc() == base_mul(k.val()),
    {
        Point::generator().mul(k)
    }

    /// Equality of points, by their encodings.
    pub fn equals(&self, o: &Point) -> (r: bool)
        ensures
            r == (self.enc() == o.enc()),
    {
        let mut i: usize = 0;
        while i < 48
            invariant
                0 <= i <= 48,
                forall|k: int| 0 <= k < i ==> self.bytes@[k] == o.bytes@[k],
            decreases 48 - i,
        {
            if self.bytes[i] != o.bytes[i] {
                assert(self.bytes@[i as int] != o.bytes@[i as int]);
                return false;
            }
            i = i + 1;
        }
        assert(self.bytes@ =~= o.bytes@);
        true
    }

    /// The compressed encoding.
    pub fn to_bytes(&self) -> (r: [u8; 48])
        ensures
            r@ == self.enc(),
    {
        self.bytes
    }
}

} // verus!
