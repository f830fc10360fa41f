//! Shamir secret sharing: a `(t, n)` scheme over the scalar field.
use vstd::prelude::*;
use vstd::arithmetic::div_mod::{
    lemma_add_mod_noop, lemma_mod_add_multiples_vanish, lemma_mul_mod_noop,
    lemma_mul_mod_noop_left, lemma_small_mod,
};
use crate::field::{Scalar, inverse, modulus};
use crate::poly::{Polynomial, Share, all_wf, poly_value, scalar_vals, shares_of};

verus! {

/// `r` holds the shares `(i, P(i))`, `i` in `1..=n`, of the polynomial with
/// coefficient values `c`.
pub open spec fn shares_on(r: Seq<Share>, c: Seq<int>, n: int) -> bool {
    &&& r.len() == n
    &&& forall|i: int| 0 <= i < n ==> (#[trigger] r[i]).wf() && r[i].x.val() == i + 1
        && r[i].y.val() == poly_value(c, i + 1) % modulus()
}

/// The coefficient values `c` of a polynomial of `t` coefficients whose
/// constant term is `s`.
pub open spec fn sharing_poly(c: Seq<int>, s: int, t: int) -> bool {
    &&& c.len() == t
    &&& c[0] == s
    &&& forall|i: int| 0 <= i < t ==> 0 <= #[trigger] c[i] < modulus()
}

pub open spec fn share_xs(s: Seq<Share>) -> Seq<int> {
    s.map_values(|sh: Share| sh.x.val())
}

pub open spec fn share_ys(s: Seq<Share>) -> Seq<int> {
    s.map_values(|sh: Share| sh.y.val())
}

/// Shares whose indices are nonzero and pairwise distinct.
pub open spec fn distinct_nonzero_xs(s: Seq<Share>) -> bool {
    &&& forall|i: int| 0 <= i < s.len() ==> (#[trigger] s[i]).wf() && s[i].x.val() != 0
    &&& forall|i: int, j: int| 0 <= i < s.len() && 0 <= j < s.len() && i != j
        ==> (#[trigger] s[i]).x.val() != (#[trigger] s[j]).x.val()
}

/// The factor `x_j / (x_j - x_i)` of the `i`-th Lagrange basis value at zero.
pub open spec fn lagrange_factor(xs: Seq<int>, i: int, j: int) -> int {
    if j == i {
        1
    } else {
        xs[j] * inverse((xs[j] - xs[i]) % modulus())
    }
}

/// The product of the first `k` factors of the `i`-th basis value.
pub open spec fn lagrange_basis(xs: Seq<int>, i: int, k: nat) -> int
    decreases k,
{
    if k == 0 {
        1
    } else {
        lagrange_basis(xs, i, (k - 1) as nat) * lagrange_factor(xs, i, k - 1)
    }
}

/// `Σ_{i<k} y_i · λ_i(0)`.
pub open spec fn lagrange_sum(xs: Seq<int>, ys: Seq<int>, k: nat) -> int
    decreases k,
{
    if k == 0 {
        0
    } else {
        lagrange_sum(xs, ys, (k - 1) as nat) + ys[k - 1] * lagrange_basis(xs, k - 1, xs.len())
    }
}

/// The Lagrange interpolation at zero of the points `(xs[i], ys[i])`, in the field.
pub open spec fn interpolate_at_zero(xs: Seq<int>, ys: Seq<int>) -> int {
    lagrange_sum(xs, ys, xs.len()) % modulus()
}

proof fn lemma_diff_nonzero(a: int, b: int)
    requires
        0 <= a < modulus(),
        0 <= b < modulus(),
        a != b,
    ensures
        (a - b) % modulus() != 0,
{
    if a > b {
        lemma_small_mod((a - b) as nat, modulus() as nat);
    } else {
        lemma_mod_add_multiples_vanish(a - b, modulus());
        lemma_small_mod((modulus() + a - b) as nat, modulus() as nat);
    }
}

/// Splits `secret` into `n` shares, any `t` of which determine it: the shares
/// lie on a polynomial of `t` coefficients whose constant term is the secret
/// and whose other coefficients are drawn at random.
pub fn generate_shares(secret: Scalar, t: usize, n: usize) -> (r: Vec<Share>)
    requires
        secret.wf(),
        1 <= t <= n,
    ensures
        exists|c: Seq<int>| sharing_poly(c, secret.val(), t as int) && #[trigger] shares_on(r@, c, n as int),
{
    let mut coefficients: Vec<Scalar> = Vec::new();
    coefficients.push(secret);
    let mut k: usize = 1;
    while k < t
        invariant
            1 <= k <= t,
            coefficients.len() == k,
            coefficients@[0] == secret,
            all_wf(coefficients@),
        decreases t - k,
    {
        coefficients.push(Scalar::random());
        k = k + 1;
    }
    let polynomial = Polynomial::new(coefficients);
    let shares = shares_of(&polynomial, n);
    assert(shares_on(shares@, scalar_vals(coefficients@), n as int));
    shares
}

/// The secret that `shares` determine: the Lagrange interpolation at zero of
/// the points they hold. From fewer shares than the threshold this is some
/// field element, not the secret.
pub fn reconstruct_secret(shares: &[Share]) -> (r: Scalar)
    requires
        shares@.len() >= 1,
        distinct_nonzero_xs(shares@),
    ensures
        r.wf(),
        r.val() == interpolate_at_zero(share_xs(shares@), share_ys(shares@)),
{
    let ghost xs = share_xs(shares@);
    let ghost ys = share_ys(shares@);
    let n = shares.len();
    let mut s = Scalar::zero();
    let mut i: usize = 0;
    proof {
        lemma_small_mod(0, modulus() as nat);
    }
    while i < n
        invariant
            n == shares@.len(),
            xs == share_xs(shares@),
            ys == share_ys(shares@),
            distinct_nonzero_xs(shares@),
            i <= n,
            s.wf(),
            s.val() == lagrange_sum(xs, ys, i as nat) % modulus(),
        decreases n - i,
    {
        let x = shares[i].x;
        let y = shares[i].y;
        let mut coef = Scalar::one();
        let mut j: usize = 0;
        proof {
            lemma_small_mod(1, modulus() as nat);
        }
        while j < n
            invariant
                n == shares@.len(),
                xs == share_xs(shares@),
                distinct_nonzero_xs(shares@),
                i < n,
                j <= n,
                x == shares@[i as int].x,
                coef.wf(),
                coef.val() == lagrange_basis(xs, i as int, j as nat) % modulus(),
            decreases n - j,
        {
            let ghost b = lagrange_basis(xs, i as int, j as nat);
            if j != i {
                let xj = shares[j].x;
                let d = xj.sub(&x);
                proof {
                    assert(shares@[j as int].wf() && shares@[i as int].wf());
                    lemma_diff_nonzero(xj.val(), x.val());
                }
                let dinv = d.invert().unwrap();
                let f = xj.mul(&dinv);
                let old_coef = coef;
                coef = old_coef.mul(&f);
                proof {
                    lemma_mul_mod_noop(b, xj.val() * dinv.val(), modulus());
                    lemma_small_mod(f.val() as nat, modulus() as nat);
                    lemma_small_mod(old_coef.val() as nat, modulus() as nat);
                    assert(lagrange_factor(xs, i as int, j as int) == xj.val() * dinv.val());
                }
            } else {
                assert(lagrange_factor(xs, i as int, j as int) == 1);
            }
            j = j + 1;
        }
        let term = coef.mul(&y);
        let old_s = s;
        s = old_s.add(&term);
        proof {
            let b = lagrange_basis(xs, i as int, n as nat);
            let acc = lagrange_sum(xs, ys, i as nat);
            assert(ys[i as int] == y.val());
            lemma_mul_mod_noop_left(b, y.val(), modulus());
            lemma_add_mod_noop(acc, b * y.val(), modulus());
            lemma_small_mod(old_s.val() as nat, modulus() as nat);
            lemma_small_mod(term.val() as nat, modulus() as nat);
            assert(b * y.val() == y.val() * b) by (nonlinear_arith);
        }
        i = i + 1;
    }
    s
}

} // verus!
