//! Polynomials over the scalar field, their evaluations (shares) and their
//! images in the group (commitments).
use vstd::prelude::*;
use vstd::arithmetic::power::pow;
use vstd::arithmetic::div_mod::{lemma_add_mod_noop, lemma_mul_mod_noop_left, lemma_small_mod};
use crate::field::{Scalar, modulus};
use crate::group::{Point, base_mul, identity_enc, point_add, point_mul};

verus! {

/// The values of a sequence of field elements.
pub open spec fn scalar_vals(s: Seq<Scalar>) -> Seq<int> {
    s.map_values(|c: Scalar| c.val())
}

pub open spec fn all_wf(s: Seq<Scalar>) -> bool {
    forall|i: int| 0 <= i < s.len() ==> (#[trigger] s[i]).wf()
}

/// `cm` commits to the coefficient values `c`, all below the order:
/// `cm[i] = g·c[i]`.
pub open spec fn commits_to(cm: Commitment, c: Seq<int>) -> bool {
    &&& cm.wf()
    &&& cm.points.len() == c.len()
    &&& forall|i: int| 0 <= i < c.len() ==> 0 <= #[trigger] c[i] < modulus()
    &&& forall|i: int| 0 <= i < c.len() ==> (#[trigger] cm.points@[i]).enc() == base_mul(c[i])
}

/// The encodings of a sequence of points.
pub open spec fn point_encs(s: Seq<Point>) -> Seq<Seq<u8>> {
    s.map_values(|p: Point| p.enc())
}

pub open spec fn all_points_wf(s: Seq<Point>) -> bool {
    forall|i: int| 0 <= i < s.len() ==> (#[trigger] s[i]).wf()
}

/// `c[0]·x^0 + … + c[k-1]·x^(k-1)`, over the integers.
pub open spec fn power_sum(c: Seq<int>, x: int, k: nat) -> int
    decreases k,
{
    if k == 0 {
        0
    } else {
        power_sum(c, x, (k - 1) as nat) + c[k - 1] * pow(x, (k - 1) as nat)
    }
}

/// The value of the polynomial with coefficients `c` at `x`, over the integers.
pub open spec fn poly_value(c: Seq<int>, x: int) -> int {
    power_sum(c, x, c.len())
}

/// The nested form `c[0] + x·(c[1] + x·(…))`.
pub open spec fn horner(c: Seq<int>, x: int) -> int
    decreases c.len(),
{
    if c.len() == 0 {
        0
    } else {
        c[0] + x * horner(c.skip(1), x)
    }
}

/// The commitment polynomial evaluated in the group, from the highest
/// coefficient down: `((C_{t-1}·x + C_{t-2})·x + …)·x + C_0`.
pub open spec fn commit_value(p: Seq<Seq<u8>>, x: int) -> Seq<u8>
    decreases p.len(),
{
    if p.len() == 0 {
        identity_enc()
    } else {
        point_add(point_mul(commit_value(p.skip(1), x), x), p[0])
    }
}

proof fn lemma_power_sum_shift(c: Seq<int>, x: int, k: nat)
    requires
        k + 1 <= c.len(),
    ensures
        power_sum(c, x, k + 1) == c[0] + x * power_sum(c.skip(1), x, k),
    decreases k,
{
    reveal(pow);
    if k == 0 {
        assert(pow(x, 0) == 1);
        assert(power_sum(c, x, 1) == power_sum(c, x, 0) + c[0] * pow(x, 0));
    } else {
        lemma_power_sum_shift(c, x, (k - 1) as nat);
        let a = power_sum(c.skip(1), x, (k - 1) as nat);
        let p = pow(x, (k - 1) as nat);
        assert(pow(x, k) == x * p);
        assert(c.skip(1)[k - 1] == c[k as int]);
        assert(power_sum(c.skip(1), x, k) == a + c[k as int] * p);
        assert(power_sum(c, x, k + 1) == power_sum(c, x, k) + c[k as int] * pow(x, k));
        assert(x * (a + c[k as int] * p) == x * a + c[k as int] * (x * p)) by (nonlinear_arith);
    }
}

/// The nested form and the sum of powers agree.
pub proof fn lemma_horner_is_power_sum(c: Seq<int>, x: int)
    ensures
        horner(c, x) == poly_value(c, x),
    decreases c.len(),
{
    if c.len() > 0 {
        lemma_horner_is_power_sum(c.skip(1), x);
        lemma_power_sum_shift(c, x, (c.len() - 1) as nat);
    }
}

/// A share: the public index `x` of its holder and the secret evaluation `y`.
#[derive(Clone, Copy, PartialEq, Eq, Debug)]
pub struct Share {
    pub x: Scalar,
    pub y: Scalar,
}

impl Share {
    pub open spec fn wf(&self) -> bool {
        self.x.wf() && self.y.wf()
    }
}

/// A univariate polynomial over the scalar field, lowest coefficient first.
#[derive(Clone, Debug)]
pub struct Polynomial {
    coeffs: Vec<Scalar>,
}

impl Polynomial {
    pub closed spec fn coefficients(&self) -> Seq<Scalar> {
        self.coeffs@
    }

    pub open spec fn wf(&self) -> bool {
        all_wf(self.coefficients())
    }

    /// The polynomial with the given coefficients, as they are.
    pub fn new(coeffs: Vec<Scalar>) -> (r: Polynomial)
        ensures
            r.coefficients() == coeffs@,
    {
        Polynomial { coeffs }
    }

    /// The value at `x`, computed by Horner's rule from the highest
    /// coefficient down.
    pub fn evaluate(&self, x: Scalar) -> (r: Scalar)
        requires
            self.wf(),
            x.wf(),
        ensures
            r.wf(),
            r.val() == poly_value(scalar_vals(self.coefficients()), x.val()) % modulus(),
    {
        let ghost c = scalar_vals(self.coeffs@);
        let mut y = Scalar::zero();
        let mut i: usize = self.coeffs.len();
        assert(c.skip(i as int) =~= Seq::<int>::empty());
        while i > 0
            invariant
                i <= self.coeffs.len(),
                c == scalar_vals(self.coeffs@),
                all_wf(self.coeffs@),
                x.wf(),
                y.wf(),
                y.val() == horner(c.skip(i as int), x.val()) % modulus(),
            decreases i,
        {
            i = i - 1;
            let ghost h = horner(c.skip(i + 1), x.val());
            let t = y.mul(&x);
            y = t.add(&self.coeffs[i]);
            proof {
                assert(c.skip(i as int).skip(1) =~= c.skip(i + 1));
                assert(c.skip(i as int)[0] == self.coeffs@[i as int].val());
                lemma_mul_mod_noop_left(h, x.val(), modulus());
                assert(t.val() == (h * x.val()) % modulus());
                lemma_small_mod(self.coeffs@[i as int].val() as nat, modulus() as nat);
                lemma_add_mod_noop(h * x.val(), self.coeffs@[i as int].val(), modulus());
                assert(h * x.val() == x.val() * h) by (nonlinear_arith);
            }
        }
        proof {
            assert(c.skip(0) =~= c);
            lemma_horner_is_power_sum(c, x.val());
        }
        y
    }
}

/// Commitments to a polynomial's coefficients: `C_i = g·a_i`.
#[derive(Clone, Debug)]
pub struct Commitment {
    pub points: Vec<Point>,
}

impl Commitment {
    pub open spec fn wf(&self) -> bool {
        all_points_wf(self.points@)
    }

    pub fn new(points: Vec<Point>) -> (r: Commitment)
        ensures
            r.points@ == points@,
    {
        Commitment { points }
    }

    /// The commitment polynomial at `x`, by Horner's rule in the group.
    pub fn evaluate(&self, x: Scalar) -> (r: Point)
        requires
            self.wf(),
            x.wf(),
        ensures
            r.wf(),
            r.enc() == commit_value(point_encs(self.points@), x.val()),
            forall|c: Seq<int>| #[trigger] commits_to(*self, c)
                ==> r.enc() == base_mul(poly_value(c, x.val()) % modulus()),
    {
        let ghost p = point_encs(self.points@);
        let mut y = Point::identity();
        let mut i: usize = self.points.len();
        assert(p.skip(i as int) =~= Seq::<Seq<u8>>::empty());
        assert forall|c: Seq<int>| #[trigger] commits_to(*self, c)
            implies y.enc() == base_mul(horner(c.skip(i as int), x.val()) % modulus()) by {
            assert(c.skip(i as int) =~= Seq::<int>::empty());
            lemma_small_mod(0, modulus() as nat);
        }
        while i > 0
            invariant
                i <= self.points.len(),
                p == point_encs(self.points@),
                all_points_wf(self.points@),
                x.wf(),
                y.wf(),
                y.enc() == commit_value(p.skip(i as int), x.val()),
                forall|c: Seq<int>| #[trigger] commits_to(*self, c)
                    ==> y.enc() == base_mul(horner(c.skip(i as int), x.val()) % modulus()),
            decreases i,
        {
            let ghost y0 = y;
            i = i - 1;
            let t = y.mul(&x);
            y = t.add(&self.points[i]);
            assert(p.skip(i as int).skip(1) =~= p.skip(i + 1));
            assert forall|c: Seq<int>| #[trigger] commits_to(*self, c)
                implies y.enc() == base_mul(horner(c.skip(i as int), x.val()) % modulus()) by {
                let h = horner(c.skip(i + 1), x.val());
                let ci = c[i as int];
                assert(c.skip(i as int).skip(1) =~= c.skip(i + 1));
                assert(c.skip(i as int)[0] == ci);
                assert(0 <= ci < modulus());
                assert(self.points@[i as int].enc() == base_mul(ci));
                assert(y0.enc() == base_mul(h % modulus()));
                let hx = (h % modulus()) * x.val();
                assert(t.enc() == base_mul(hx % modulus()));
                assert(y.enc() == base_mul((hx % modulus() + ci) % modulus()));
                lemma_mul_mod_noop_left(h, x.val(), modulus());
                lemma_small_mod(ci as nat, modulus() as nat);
                lemma_add_mod_noop(h * x.val(), ci, modulus());
                assert(h * x.val() == x.val() * h) by (nonlinear_arith);
            }
        }
        assert(p.skip(0) =~= p);
        assert forall|c: Seq<int>| #[trigger] commits_to(*self, c)
            implies y.enc() == base_mul(poly_value(c, x.val()) % modulus()) by {
            assert(c.skip(0) =~= c);
            lemma_horner_is_power_sum(c, x.val());
        }
        y
    }

    /// A copy that keeps every point.
    pub fn copied(&self) -> (r: Commitment)
        ensures
            r.points@ == self.points@,
    {
        let mut v: Vec<Point> = Vec::new();
        let mut i: usize = 0;
        while i < self.points.len()
            invariant
                i <= self.points.len(),
                v@ == self.points@.take(i as int),
            decreases self.points.len() - i,
        {
            v.push(self.points[i]);
            i = i + 1;
            assert(v@ =~= self.points@.take(i as int));
        }
        assert(self.points@.take(i as int) =~= self.points@);
        Commitment { points: v }
    }
}

/// The shares `(i, P(i))` for `i` in `1..=n`.
pub fn shares_of(poly: &Polynomial, n: usize) -> (r: Vec<Share>)
    requires
        poly.wf(),
    ensures
        r.len() == n,
        forall|i: int| 0 <= i < n ==> (#[trigger] r@[i]).wf() && r@[i].x.val() == i + 1
            && r@[i].y.val() == poly_value(scalar_vals(poly.coefficients()), i + 1) % modulus(),
{
    let mut shares: Vec<Share> = Vec::new();
    let mut i: usize = 0;
    while i < n
        invariant
            i <= n,
            poly.wf(),
            shares.len() == i,
            forall|k: int| 0 <= k < i ==> (#[trigger] shares@[k]).wf() && shares@[k].x.val() == k + 1
                && shares@[k].y.val() == poly_value(scalar_vals(poly.coefficients()), k + 1) % modulus(),
        decreases n - i,
    {
        let x = Scalar::from_u64((i + 1) as u64);
        let y = poly.evaluate(x);
        shares.push(Share { x, y });
        i = i + 1;
    }
    shares
}

/// The commitment `[g·a_0, …, g·a_{t-1}]` to the coefficients `a` of `poly`.
pub fn commit_to(poly: &Polynomial) -> (r: Commitment)
    requires
        poly.wf(),
    ensures
        r.wf(),
        r.points.len() == poly.coefficients().len(),
        forall|i: int| 0 <= i < poly.coefficients().len()
            ==> (#[trigger] r.points@[i]).enc() == base_mul(poly.coefficients()[i].val()),
{
    let coeffs = &poly.coeffs;
    let g = Point::generator();
    let mut points: Vec<Point> = Vec::new();
    let mut i: usize = 0;
    while i < coeffs.len()
        invariant
            i <= coeffs.len(),
            all_wf(coeffs@),
            g.wf(),
            g.enc() == crate::group::generator_enc(),
            points.len() == i,
            all_points_wf(points@),
            forall|k: int| 0 <= k < i ==> (#[trigger] points@[k]).enc() == base_mul(coeffs@[k].val()),
        decreases coeffs.len() - i,
    {
        points.push(g.mul(&coeffs[i]));
        i = i + 1;
    }
    Commitment { points }
}

} // verus!
