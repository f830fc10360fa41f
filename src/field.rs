//! Elements of the scalar field of the BLS12-381 curve.
use vstd::prelude::*;

verus! {

/// The order of the scalar field (and of the prime-order group).
pub open spec fn modulus() -> int {
    let w: int = 0x1_0000_0000_0000_0000;
    ((0x73eda753299d7d48 * w + 0x3339d80809a1d805) * w + 0x53bda402fffe5bfe) * w
        + 0xffffffff00000001
}

/// The integer that a little-endian byte string denotes.
pub open spec fn le_value(b: Seq<u8>) -> nat
    decreases b.len(),
{
    if b.len() == 0 {
        0
    } else {
        b[0] as nat + 256 * le_value(b.skip(1))
    }
}

/// The inverse of `a` modulo the field order, where one exists.
pub open spec fn inverse(a: int) -> int {
    choose|b: int| 0 <= b < modulus() && #[trigger] ((a * b) % modulus()) == 1
}

/// A field element, held as its canonical little-endian encoding.
#[derive(Clone, Copy, PartialEq, Eq, Debug)]
pub struct Scalar {
    pub(crate) bytes: [u8; 32],
}

impl Scalar {
    /// The integer in `0..modulus()` that this element stands for.
    pub closed spec fn val(&self) -> int {
        le_value(self.bytes@) as int
    }

    pub open spec fn wf(&self) -> bool {
        0 <= self.val() < modulus()
    }

    /// Relies on bls12_381's `Scalar::zero`: the additive identity.
    #[verifier::external_body]
    pub fn zero() -> (r: Scalar)
        ensures
            r.wf(),
            r.val() == 0,
    {
        Scalar { bytes: bls12_381::Scalar::zero().to_bytes() }
    }

    /// Relies on bls12_381's `Scalar::one`: the multiplicative identity.
    #[verifier::external_body]
    pub fn one() -> (r: Scalar)
        ensures
            r.wf(),
            r.val() == 1,
    {
        Scalar { bytes: bls12_381::Scalar::one().to_bytes() }
    }

    /// Relies on bls12_381's `From<u64> for Scalar`: the element `v`.
    #[verifier::external_body]
    pub fn from_u64(v: u64) -> (r: Scalar)
        ensures
            r.wf(),
            r.val() == v as int,
    {
        Scalar { bytes: bls12_381::Scalar::from(v).to_bytes() }
    }

    /// Relies on ff's `Field::random` for bls12_381's scalars, fed by rand's
    /// thread-local generator: some element, drawn uniformly.
    #[verifier::external_body]
    pub fn random() -> (r: Scalar)
        ensures
            r.wf(),
    {
        Scalar { bytes: <bls12_381::Scalar as ff::Field>::random(rand::thread_rng()).to_bytes() }
    }

    /// Relies on bls12_381's `Add for Scalar`: the sum modulo the field order.
    #[verifier::external_body]
    pub(crate) fn add(&self, o: &Scalar) -> (r: Scalar)
        requires
            self.wf(),
            o.wf(),
        ensures
            r.wf(),
            r.val() == (self.val() + o.val()) % modulus(),
    {
        let a = bls12_381::Scalar::from_bytes(&self.bytes).unwrap();
        let b = bls12_381::Scalar::from_bytes(&o.bytes).unwrap();
        Scalar { bytes: (a + b).to_bytes() }
    }

    /// Relies on bls12_381's `Sub for Scalar`: the difference modulo the field order.
    #[verifier::external_body]
    pub(crate) fn sub(&self, o: &Scalar) -> (r: Scalar)
        requires
            self.wf(),
            o.wf(),
        ensures
            r.wf(),
            r.val() == (self.val() - o.val()) % modulus(),
    {
        let a = bls12_381::Scalar::from_bytes(&self.bytes).unwrap();
        let b = bls12_381::Scalar::from_bytes(&o.bytes).unwrap();
        Scalar { bytes: (a - b).to_bytes() }
    }

    /// Relies on bls12_381's `Mul for Scalar`: the product modulo the field order.
    #[verifier::external_body]
    pub(crate) fn mul(&self, o: &Scalar) -> (r: Scalar)
        requires
            self.wf(),
            o.wf(),
        ensures
            r.wf(),
            r.val() == (self.val() * o.val()) % modulus(),
    {
        let a = bls12_381::Scalar::from_bytes(&self.bytes).unwrap();
        let b = bls12_381::Scalar::from_bytes(&o.bytes).unwrap();
        Scalar { bytes: (a * b).to_bytes() }
    }

    /// Relies on bls12_381's `Scalar::invert`: the multiplicative inverse,
    /// absent exactly for zero.
    #[verifier::external_body]
    pub(crate) fn invert(&self) -> (r: Option<Scalar>)
        requires
            self.wf(),
        ensures
            r.is_some() <==> self.val() != 0,
            r.is_some() ==> r.unwrap().wf() && r.unwrap().val() == inverse(self.val()),
    {
        let a = bls12_381::Scalar::from_bytes(&self.bytes).unwrap();
        let r = a.invert();
        if bool::from(r.is_some()) {
            Some(Scalar { bytes: r.unwrap().to_bytes() })
        } else {
            None
        }
    }

    /// Equality of field elements.
    pub fn equals(&self, o: &Scalar) -> (r: bool)
        ensures
            r == (self.val() == o.val()),
    {
        proof {
            lemma_le_value_injective(self.bytes@, o.bytes@);
        }
        let mut i: usize = 0;
        while i < 32
            invariant
                0 <= i <= 32,
                forall|k: int| 0 <= k < i ==> self.bytes@[k] == o.bytes@[k],
            decreases 32 - i,
        {
            if self.bytes[i] != o.bytes[i] {
                proof {
                    assert(self.bytes@[i as int] != o.bytes@[i as int]);
                    assert(self.bytes@ != o.bytes@);
                    lemma_le_value_injective(self.bytes@, o.bytes@);
                    assert(le_value(self.bytes@) != le_value(o.bytes@));
                }
                return false;
            }
            i = i + 1;
        }
        assert(self.bytes@ =~= o.bytes@);
        true
    }

    /// The canonical little-endian encoding.
    pub fn to_bytes(&self) -> (r: [u8; 32])
        ensures
            le_value(r@) == self.val(),
    {
        self.bytes
    }
}

/// Two byte strings of one length have the same value only if they are equal.
proof fn lemma_le_value_injective(a: Seq<u8>, b: Seq<u8>)
    requires
        a.len() == b.len(),
    ensures
        le_value(a) == le_value(b) ==> a == b,
    decreases a.len(),
{
    if a.len() > 0 && le_value(a) == le_value(b) {
        lemma_le_value_injective(a.skip(1), b.skip(1));
        assert(a[0] as int == b[0] as int) by (nonlinear_arith)
            requires
                a[0] as int + 256 * le_value(a.skip(1)) == b[0] as int + 256 * le_value(b.skip(1)),
                0 <= a[0] < 256,
                0 <= b[0] < 256,
        ;
        assert(a =~= seq![a[0]] + a.skip(1));
        assert(b =~= seq![b[0]] + b.skip(1));
    }
}

} // verus!
