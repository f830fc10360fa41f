//! Feldman verifiable secret sharing: Shamir shares together with public
//! commitments to the polynomial's coefficients.
use vstd::prelude::*;
use crate::field::{Scalar, modulus};
use crate::group::{Point, base_mul};
use crate::poly::{commits_to, Commitment, Polynomial, Share, all_wf, commit_value, point_encs, poly_value, scalar_vals, shares_of};
use crate::sss::{shares_on, sharing_poly};

verus! {

/// The shares of a dealing and the commitment that they can be checked against.
#[derive(Clone, Debug)]
pub struct VssOutput {
    pub shares: Vec<Share>,
    pub commitment: Commitment,
}

/// `g·y` equals the commitment polynomial evaluated at `x`.
pub open spec fn share_verifies(s: Share, cm: Commitment) -> bool {
    base_mul(s.y.val()) == commit_value(point_encs(cm.points@), s.x.val())
}

/// Splits `secret` as `generate_shares` does and commits to every
/// coefficient of the polynomial used.
pub fn generate_vss_shares(secret: Scalar, t: usize, n: usize) -> (r: VssOutput)
    requires
        secret.wf(),
        1 <= t <= n,
    ensures
        exists|c: Seq<int>| sharing_poly(c, secret.val(), t as int) && #[trigger] shares_on(r.shares@, c, n as int)
            && commits_to(r.commitment, c),
{
    let mut coefficients: Vec<Scalar> = Vec::new();
    coefficients.push(secret);
    let mut k: usize = 1;
    while k < t
        invariant
            1 <= k <= t,
            coefficients.len() == k,
            coefficients@[0] == secret,
            all_wf(coefficients@),
        decreases t - k,
    {
        coefficients.push(Scalar::random());
        k = k + 1;
    }
    let polynomial = Polynomial::new(coefficients);
    let commitment = crate::poly::commit_to(&polynomial);
    let shares = shares_of(&polynomial, n);
    let ghost c = scalar_vals(coefficients@);
    assert(shares_on(shares@, c, n as int));
    assert forall|i: int| 0 <= i < c.len() implies (#[trigger] commitment.points@[i]).enc() == base_mul(c[i]) by {
        assert(polynomial.coefficients()[i].val() == c[i]);
    }
    assert(commits_to(commitment, c));
    assert(sharing_poly(c, secret.val(), t as int));
    let r = VssOutput { shares, commitment };
    assert(shares_on(r.shares@, c, n as int));
    r
}

/// Whether `share` lies on the polynomial that `commitment` commits to:
/// `g·y == commitment.evaluate(x)`.
pub fn verify_share(share: &Share, commitment: &Commitment) -> (r: bool)
    requires
        share.wf(),
        commitment.wf(),
    ensures
        r == share_verifies(*share, *commitment),
        forall|c: Seq<int>| #[trigger] commits_to(*commitment, c)
            ==> (r <==> share.y.val() == poly_value(c, share.x.val()) % modulus()),
{
    let g = Point::generator();
    let lhs = g.mul(&share.y);
    let rhs = commitment.evaluate(share.x);
    lhs.equals(&rhs)
}

} // verus!
