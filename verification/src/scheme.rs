//! High-level secret sharing scheme: split and recover operations for
//! Shamir's secret sharing over the secp256k1 scalar field.

use vstd::prelude::*;

use vstd::arithmetic::div_mod::{lemma_mod_bound, lemma_mod_multiples_vanish, lemma_small_mod};

use crate::field::{
    cong, field_order, lemma_cong_add, lemma_cong_mod, lemma_cong_mul, mul_mod, sub_mod, Scalar,
};
use crate::math::{
    evaluate_polynomial, has_duplicate, lagrange_interpolate, lagrange_zero, points_xs,
    points_ys, poly_eval, random_coefficients,
};

verus! {

/// Errors that can occur during secret sharing operations.
#[derive(Debug, Clone, Copy, PartialEq, Eq, Structural)]
pub enum FragmentError {
    /// The threshold must be at least 2 and at most the total share count.
    InvalidThreshold,
    /// Too few shares were supplied to determine the secret.
    InsufficientShares,
    /// Two supplied shares carry the same evaluation index.
    DuplicateShareIndex,
    /// No share is held for the requested ceremony.
    ShareNotFound,
}

/// A single share of a secret: the evaluation point `x` and the polynomial
/// value `y` at that point.
#[derive(Debug, PartialEq, Eq)]
pub struct Share {
    pub x: Scalar,
    pub y: Scalar,
}

impl Clone for Share {
    fn clone(&self) -> (r: Self)
        ensures
            r.x@ == self.x@,
            r.y@ == self.y@,
    {
        Share { x: self.x.clone(), y: self.y.clone() }
    }
}

impl Share {
    /// Both coordinates are canonical field elements.
    pub open spec fn wf(&self) -> bool {
        self.x.wf() && self.y.wf()
    }
}

/// All shares of a sequence are well formed.
pub open spec fn shares_wf(shares: Seq<Share>) -> bool {
    forall|i: int| 0 <= i < shares.len() ==> (#[trigger] shares[i]).wf()
}

/// The evaluation indices of a share sequence.
pub open spec fn shares_xs(shares: Seq<Share>) -> Seq<nat> {
    shares.map_values(|s: Share| s.x.val())
}

/// The polynomial values of a share sequence.
pub open spec fn shares_ys(shares: Seq<Share>) -> Seq<nat> {
    shares.map_values(|s: Share| s.y.val())
}

/// Splits a secret into `total_shares` shares, any `threshold` of which can
/// reconstruct it.
///
/// The polynomial's constant term is the secret itself; the remaining
/// `threshold - 1` coefficients are drawn uniformly at random.  Share `k`
/// (counting from zero) is the polynomial's value at `x = k + 1`.
pub fn split_secret(secret: &Scalar, threshold: usize, total_shares: usize) -> (r: Result<
    Vec<Share>,
    FragmentError,
>)
    requires
        secret.wf(),
    ensures
        (match r {
            Ok(shares) => {
                &&& 2 <= threshold <= total_shares
                &&& shares@.len() == total_shares
                &&& forall|k: int|
                    0 <= k < shares@.len() ==> (#[trigger] shares@[k]).wf()
                        && shares@[k].x.val() == k + 1
                &&& exists|coeffs: Seq<nat>|
                    {
                        &&& coeffs.len() == threshold
                        &&& coeffs[0] == secret.val()
                        &&& (forall|t: int| 0 <= t < coeffs.len() ==> #[trigger] coeffs[t] < field_order())
                        &&& (forall|k: int|
                            0 <= k < shares@.len()
                                ==> (#[trigger] shares@[k]).y.val() == poly_eval(
                                coeffs,
                                (k + 1) as nat,
                            ))
                    }
            },
            Err(e) => e == FragmentError::InvalidThreshold && (threshold < 2 || threshold
                > total_shares),
        }),
{
    if threshold < 2 || threshold > total_shares {
        return Err(FragmentError::InvalidThreshold);
    }
    // the constant term is the secret itself; the other coefficients are
    // uniformly random field elements
    let coefficients = random_coefficients(threshold, secret);
    let ghost cv = coefficients@.map_values(|c: Scalar| c.val());
    // evaluate the polynomial at x = 1, 2, ... to create the shares
    let mut shares: Vec<Share> = Vec::new();
    let mut k: usize = 0;
    while k < total_shares
        invariant
            k <= total_shares,
            total_shares <= usize::MAX,
            shares@.len() == k,
            cv == coefficients@.map_values(|c: Scalar| c.val()),
            coefficients@.len() == threshold,
            forall|t: int| 0 <= t < threshold ==> (#[trigger] coefficients@[t]).wf(),
            forall|j: int|
                0 <= j < k ==> (#[trigger] shares@[j]).wf() && shares@[j].x.val() == j + 1
                    && shares@[j].y.val() == poly_eval(cv, (j + 1) as nat),
        decreases total_shares - k,
    {
        let x = Scalar::from_u64((k as u64) + 1);
        let y = evaluate_polynomial(&coefficients, &x);
        shares.push(Share { x, y });
        k = k + 1;
    }
    proof {
        assert(cv.len() == threshold);
        assert(cv[0] == coefficients@[0].val());
        assert(forall|t: int| 0 <= t < cv.len() ==> #[trigger] cv[t] < field_order());
    }
    Ok(shares)
}

/// Reconstructs the secret from a set of shares by Lagrange interpolation at
/// `x = 0`.
///
/// Fewer than two shares can never determine a secret split with a valid
/// threshold; shares with duplicate indices are rejected rather than
/// silently interpolated into a wrong answer.
pub fn recover_secret(shares: &Vec<Share>) -> (r: Result<Scalar, FragmentError>)
    requires
        shares_wf(shares@),
    ensures
        (match r {
            Ok(s) => {
                &&& shares@.len() >= 2
                &&& !has_duplicate(shares_xs(shares@))
                &&& s.wf()
                &&& s.val() == lagrange_zero(shares_xs(shares@), shares_ys(shares@))
            },
            Err(e) => (e == FragmentError::InsufficientShares && shares@.len() < 2) || (e
                == FragmentError::DuplicateShareIndex && shares@.len() >= 2 && has_duplicate(
                shares_xs(shares@),
            )),
        }),
{
    if shares.len() < 2 {
        return Err(FragmentError::InsufficientShares);
    }
    // convert the shares to the point format the interpolation works on
    let mut points: Vec<(Scalar, Scalar)> = Vec::new();
    let mut i: usize = 0;
    while i < shares.len()
        invariant
            i <= shares@.len(),
            shares_wf(shares@),
            points@.len() == i,
            forall|j: int|
                0 <= j < i ==> (#[trigger] points@[j]).0@ == shares@[j].x@ && points@[j].1@
                    == shares@[j].y@,
        decreases shares@.len() - i,
    {
        let share = &shares[i];
        points.push((share.x.clone(), share.y.clone()));
        i = i + 1;
    }
    proof {
        assert(points_xs(points@) =~= shares_xs(shares@));
        assert(points_ys(points@) =~= shares_ys(shares@));
    }
    lagrange_interpolate(&points)
}

/// Confidentiality at threshold 2: a single share `(x, y)` determines
/// nothing about the secret.  For every candidate secret `s` there is a
/// coefficient assignment — a degree-1 polynomial with constant term `s` —
/// consistent with that share, so two distinct candidate secrets are equally
/// compatible with what one shareholder sees.  The caller supplies `xinv`,
/// an inverse of the share index, which exists for every nonzero index
/// because the field order is prime.
pub proof fn lemma_single_share_ambiguity(s: nat, x: nat, y: nat, xinv: nat)
    requires
        s < field_order(),
        x < field_order(),
        y < field_order(),
        xinv < field_order(),
        (x * xinv) % field_order() == 1,
    ensures
        exists|a1: nat| a1 < field_order() && poly_eval(seq![s, a1], x) == y,
{
    let n = field_order();
    let ni = n as int;
    let d = sub_mod(y, s);
    let a1 = mul_mod(d, xinv);
    lemma_mod_bound((d * xinv) as int, ni);
    assert(a1 < n);
    // unfold the polynomial's value at x: ((a1 * x) % n + s) % n
    let coeffs = seq![s, a1];
    assert(coeffs.drop_first() =~= seq![a1]);
    assert(seq![a1].drop_first() =~= Seq::<nat>::empty());
    assert(poly_eval(Seq::<nat>::empty(), x) == 0);
    assert(poly_eval(seq![a1], x) == ((0 * x) % n + a1) % n);
    lemma_small_mod(a1, n);
    assert(poly_eval(seq![a1], x) == a1);
    let p = poly_eval(coeffs, x);
    assert(p == ((a1 * x) % n + s) % n);
    // a1 * x is congruent to (d * xinv) * x == d * (x * xinv), hence to d
    lemma_cong_mod((d * xinv) as int);
    lemma_cong_mul(a1 as int, (d * xinv) as int, x as int, x as int);
    assert((d * xinv) * x == d * (x * xinv)) by (nonlinear_arith);
    lemma_small_mod(1, n);
    assert(cong((x * xinv) as int, 1));
    lemma_cong_mul(d as int, d as int, (x * xinv) as int, 1);
    lemma_small_mod(d, n);
    assert(cong((a1 * x) as int, d as int));
    // d is congruent to y - s
    lemma_cong_mod((y + n - s) as int);
    lemma_mod_multiples_vanish(1, y - s, ni);
    assert(cong(d as int, y - s));
    // hence p is congruent to (y - s) + s == y
    lemma_cong_mod((a1 * x) as int);
    lemma_cong_add(((a1 * x) % n) as int, y - s, s as int, s as int);
    lemma_cong_mod(((a1 * x) % n + s) as int);
    assert(cong(p as int, y as int));
    // both sides are below the order, so congruence is equality
    lemma_mod_bound(((a1 * x) % n + s) as int, ni);
    lemma_small_mod(p, n);
    lemma_small_mod(y, n);
    assert(p == y);
    assert(a1 < n && poly_eval(seq![s, a1], x) == y);
}

} // verus!
