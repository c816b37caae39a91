//! Polynomial evaluation and Lagrange interpolation over the secp256k1
//! scalar field.
//!
//! `evaluate_polynomial` computes a polynomial's value by Horner's method;
//! `lagrange_interpolate` recovers the value at zero from sample points.
//! Both are specified against the spec-level field arithmetic of
//! `crate::field` and verified down to it.

use vstd::arithmetic::div_mod::{lemma_mod_bound, lemma_mod_multiples_vanish, lemma_small_mod};
use vstd::prelude::*;

use crate::field::{
    add_mod, cong, field_inv, field_order, lemma_cong_add, lemma_cong_cancel_inverse,
    lemma_cong_mod, lemma_cong_mul, mul_mod, neg_mod, sub_mod, Scalar,
};
use crate::scheme::FragmentError;

verus! {

/// The value of the polynomial with the given coefficients (lowest degree
/// first) at `x`, with all arithmetic modulo the field order.
pub open spec fn poly_eval(coeffs: Seq<nat>, x: nat) -> nat
    decreases coeffs.len(),
{
    if coeffs.len() == 0 {
        0
    } else {
        add_mod(mul_mod(poly_eval(coeffs.drop_first(), x), x), coeffs.first())
    }
}

/// The Lagrange basis value `L_i(0)`, as the partial product over the first
/// `k` sample abscissas: `prod_{j < k, j != i} (-x_j) / (x_i - x_j)`.
pub open spec fn basis_upto(xs: Seq<nat>, i: int, k: int) -> nat
    decreases k,
{
    if k <= 0 {
        1
    } else if k - 1 == i {
        basis_upto(xs, i, k - 1)
    } else {
        mul_mod(
            mul_mod(basis_upto(xs, i, k - 1), neg_mod(xs[k - 1])),
            field_inv(sub_mod(xs[i], xs[k - 1])),
        )
    }
}

/// The Lagrange basis value `L_i(0)` over all sample abscissas.
pub open spec fn lagrange_basis(xs: Seq<nat>, i: int) -> nat {
    basis_upto(xs, i, xs.len() as int)
}

/// The partial Lagrange sum `sum_{i < k} y_i * L_i(0)`.
pub open spec fn interp_upto(xs: Seq<nat>, ys: Seq<nat>, k: int) -> nat
    decreases k,
{
    if k <= 0 {
        0
    } else {
        add_mod(interp_upto(xs, ys, k - 1), mul_mod(ys[k - 1], lagrange_basis(xs, k - 1)))
    }
}

/// The Lagrange interpolation of the given points, evaluated at zero: the
/// constant term of the unique polynomial of degree below `xs.len()` through
/// them.
pub open spec fn lagrange_zero(xs: Seq<nat>, ys: Seq<nat>) -> nat {
    interp_upto(xs, ys, xs.len() as int)
}

/// Whether two of the abscissas coincide.
pub open spec fn has_duplicate(xs: Seq<nat>) -> bool {
    exists|i: int, j: int| 0 <= i < xs.len() && 0 <= j < xs.len() && i != j && xs[i] == xs[j]
}

/// The abscissas of a point sequence.
pub open spec fn points_xs(points: Seq<(Scalar, Scalar)>) -> Seq<nat> {
    points.map_values(|p: (Scalar, Scalar)| p.0.val())
}

/// The ordinates of a point sequence.
pub open spec fn points_ys(points: Seq<(Scalar, Scalar)>) -> Seq<nat> {
    points.map_values(|p: (Scalar, Scalar)| p.1.val())
}

/// All scalars of a point sequence are canonical.
pub open spec fn points_wf(points: Seq<(Scalar, Scalar)>) -> bool {
    forall|i: int| 0 <= i < points.len()
        ==> (#[trigger] points[i]).0.wf() && points[i].1.wf()
}

/// Evaluates a polynomial at point `x` using Horner's method.  Coefficients
/// are ordered from lowest to highest degree: `[a0, a1, a2, ...]` evaluates
/// to `a0 + a1*x + a2*x^2 + ...` in the field.
pub fn evaluate_polynomial(coefficients: &Vec<Scalar>, x: &Scalar) -> (r: Scalar)
    requires
        forall|i: int| 0 <= i < coefficients@.len() ==> (#[trigger] coefficients@[i]).wf(),
        x.wf(),
    ensures
        r.wf(),
        r.val() == poly_eval(coefficients@.map_values(|c: Scalar| c.val()), x.val()),
{
    let ghost cv = coefficients@.map_values(|c: Scalar| c.val());
    let mut acc = Scalar::zero();
    let mut i: usize = coefficients.len();
    proof {
        assert(cv.skip(i as int) =~= Seq::<nat>::empty());
    }
    while i > 0
        invariant
            i <= coefficients@.len(),
            forall|k: int| 0 <= k < coefficients@.len() ==> (#[trigger] coefficients@[k]).wf(),
            x.wf(),
            cv == coefficients@.map_values(|c: Scalar| c.val()),
            acc.wf(),
            acc.val() == poly_eval(cv.skip(i as int), x.val()),
        decreases i,
    {
        i = i - 1;
        acc = acc.mul(x).add(&coefficients[i]);
        proof {
            assert(cv.skip(i as int).drop_first() =~= cv.skip(i as int + 1));
            assert(cv.skip(i as int).first() == cv[i as int]);
        }
    }
    proof {
        assert(cv.skip(0) =~= cv);
    }
    acc
}

/// Builds the coefficient vector of a random polynomial whose constant term
/// is `secret`: coefficient 0 is the secret itself and the remaining
/// `threshold - 1` coefficients are drawn uniformly at random from the
/// field, freshly on every call.
pub fn random_coefficients(threshold: usize, secret: &Scalar) -> (r: Vec<Scalar>)
    requires
        threshold >= 1,
        secret.wf(),
    ensures
        r@.len() == threshold,
        r@[0].val() == secret.val(),
        forall|t: int| 0 <= t < threshold ==> (#[trigger] r@[t]).wf(),
{
    let mut coefficients: Vec<Scalar> = Vec::new();
    coefficients.push(secret.clone());
    let mut d: usize = 1;
    while d < threshold
        invariant
            1 <= d <= threshold,
            coefficients@.len() == d,
            coefficients@[0].val() == secret.val(),
            forall|t: int| 0 <= t < d ==> (#[trigger] coefficients@[t]).wf(),
        decreases threshold - d,
    {
        coefficients.push(Scalar::random());
        d = d + 1;
    }
    coefficients
}

/// Reconstructs the value at `x = 0` from a set of sample points by Lagrange
/// interpolation.  Two points sharing an abscissa make the interpolation
/// ill-posed; that case is reported as `DuplicateShareIndex` rather than
/// producing a wrong answer.
pub fn lagrange_interpolate(points: &Vec<(Scalar, Scalar)>) -> (r: Result<
    Scalar,
    FragmentError,
>)
    requires
        points_wf(points@),
    ensures
        (match r {
            Ok(s) => {
                &&& !has_duplicate(points_xs(points@))
                &&& s.wf()
                &&& s.val() == lagrange_zero(points_xs(points@), points_ys(points@))
            },
            Err(e) => e == FragmentError::DuplicateShareIndex
                && has_duplicate(points_xs(points@)),
        }),
{
    let ghost xs = points_xs(points@);
    let ghost ys = points_ys(points@);
    let n = points.len();
    let mut secret = Scalar::zero();
    let mut i: usize = 0;
    while i < n
        invariant
            n == points@.len(),
            i <= n,
            points_wf(points@),
            xs == points_xs(points@),
            ys == points_ys(points@),
            secret.wf(),
            secret.val() == interp_upto(xs, ys, i as int),
            forall|a: int, b: int|
                0 <= a < i && 0 <= b < n && a != b ==> xs[a] != xs[b],
        decreases n - i,
    {
        let mut basis = Scalar::one();
        let mut j: usize = 0;
        while j < n
            invariant
                n == points@.len(),
                i < n,
                j <= n,
                points_wf(points@),
                xs == points_xs(points@),
                basis.wf(),
                basis.val() == basis_upto(xs, i as int, j as int),
                forall|b: int| 0 <= b < j && b != i ==> xs[i as int] != xs[b],
            decreases n - j,
        {
            if j != i {
                // numerator -x_j and denominator x_i - x_j of the basis factor
                let numerator = Scalar::zero().sub(&points[j].0);
                let denominator = points[i].0.sub(&points[j].0);
                match denominator.invert() {
                    Some(denominator_inv) => {
                        basis = basis.mul(&numerator).mul(&denominator_inv);
                        proof {
                            lemma_sub_mod_zero_iff_eq(xs[i as int], xs[j as int]);
                        }
                    },
                    None => {
                        proof {
                            lemma_sub_mod_zero_iff_eq(xs[i as int], xs[j as int]);
                            assert(xs[i as int] == xs[j as int]);
                        }
                        return Err(FragmentError::DuplicateShareIndex);
                    },
                }
            }
            j = j + 1;
        }
        secret = secret.add(&points[i].1.mul(&basis));
        i = i + 1;
    }
    proof {
        if has_duplicate(xs) {
            let (a, b) = choose|a: int, b: int|
                0 <= a < xs.len() && 0 <= b < xs.len() && a != b && xs[a] == xs[b];
            assert(xs[a] != xs[b]);
        }
    }
    Ok(secret)
}

/// Threshold-2 recovery: splitting with a degree-1 polynomial and
/// interpolating any two of its sample points at zero returns the constant
/// term — the secret — exactly.  The polynomial has coefficients
/// `[a0, a1]`; the points are its values at two distinct indices.  The
/// caller supplies `i12` and `i21`, inverses of the two index differences,
/// which exist for distinct indices because the field order is prime.
pub proof fn lemma_two_point_recovery(a0: nat, a1: nat, x1: nat, x2: nat, i12: nat, i21: nat)
    requires
        a0 < field_order(),
        a1 < field_order(),
        x1 < field_order(),
        x2 < field_order(),
        x1 != x2,
        i12 < field_order(),
        (sub_mod(x1, x2) * i12) % field_order() == 1,
        i21 < field_order(),
        (sub_mod(x2, x1) * i21) % field_order() == 1,
    ensures
        lagrange_zero(
            seq![x1, x2],
            seq![poly_eval(seq![a0, a1], x1), poly_eval(seq![a0, a1], x2)],
        ) == a0,
{
    let n = field_order();
    let ni = n as int;
    lemma_small_mod(1, n);
    let d12 = sub_mod(x1, x2);
    let d21 = sub_mod(x2, x1);
    // the spec-level inverses agree with the supplied witnesses' defining
    // property, because inverses are unique
    assert(exists|b: nat| b < field_order() && #[trigger] ((d12 * b) % field_order()) == 1) by {
        assert(i12 < field_order() && (d12 * i12) % field_order() == 1);
    }
    assert(exists|b: nat| b < field_order() && #[trigger] ((d21 * b) % field_order()) == 1) by {
        assert(i21 < field_order() && (d21 * i21) % field_order() == 1);
    }
    let fi12 = field_inv(d12);
    let fi21 = field_inv(d21);
    assert(fi12 < n && (d12 * fi12) % n == 1);
    assert(fi21 < n && (d21 * fi21) % n == 1);
    // unfold the two sample values: y_i == ((a1 * x_i) % n + a0) % n
    let coeffs = seq![a0, a1];
    assert(coeffs.drop_first() =~= seq![a1]);
    assert(seq![a1].drop_first() =~= Seq::<nat>::empty());
    assert(poly_eval(Seq::<nat>::empty(), x1) == 0);
    assert(poly_eval(Seq::<nat>::empty(), x2) == 0);
    lemma_small_mod(a1, n);
    assert(poly_eval(seq![a1], x1) == a1);
    assert(poly_eval(seq![a1], x2) == a1);
    let y1 = poly_eval(coeffs, x1);
    let y2 = poly_eval(coeffs, x2);
    assert(y1 == ((a1 * x1) % n + a0) % n);
    assert(y2 == ((a1 * x2) % n + a0) % n);
    lemma_cong_mod((a1 * x1) as int);
    lemma_cong_add(((a1 * x1) % n) as int, (a1 * x1) as int, a0 as int, a0 as int);
    lemma_cong_mod(((a1 * x1) % n + a0) as int);
    assert(cong(y1 as int, (a1 * x1 + a0) as int));
    lemma_cong_mod((a1 * x2) as int);
    lemma_cong_add(((a1 * x2) % n) as int, (a1 * x2) as int, a0 as int, a0 as int);
    lemma_cong_mod(((a1 * x2) % n + a0) as int);
    assert(cong(y2 as int, (a1 * x2 + a0) as int));
    // unfold the interpolation sum and the two basis values
    let xs = seq![x1, x2];
    let ys = seq![y1, y2];
    assert(xs[0] == x1 && xs[1] == x2 && ys[0] == y1 && ys[1] == y2);
    let ng1 = neg_mod(x1);
    let ng2 = neg_mod(x2);
    lemma_mod_bound((0 + n - x2) as int, ni);
    lemma_mod_bound((0 + n - x1) as int, ni);
    lemma_small_mod(ng2, n);
    lemma_small_mod(ng1, n);
    assert(basis_upto(xs, 0, 0) == 1);
    assert(basis_upto(xs, 0, 1) == 1);
    let l0 = lagrange_basis(xs, 0);
    assert(l0 == mul_mod(mul_mod(1, ng2), fi12));
    assert(mul_mod(1, ng2) == ng2);
    assert(l0 == (ng2 * fi12) % n);
    assert(basis_upto(xs, 1, 0) == 1);
    let l1 = lagrange_basis(xs, 1);
    assert(basis_upto(xs, 1, 1) == mul_mod(mul_mod(1, ng1), fi21));
    assert(mul_mod(1, ng1) == ng1);
    assert(l1 == (ng1 * fi21) % n);
    assert(interp_upto(xs, ys, 0) == 0);
    let s1 = interp_upto(xs, ys, 1);
    assert(s1 == add_mod(0, mul_mod(y1, l0)));
    lemma_mod_bound((y1 * l0) as int, ni);
    lemma_small_mod(mul_mod(y1, l0), n);
    assert(s1 == (y1 * l0) % n);
    let r = lagrange_zero(xs, ys);
    assert(r == add_mod(s1, mul_mod(y2, l1)));
    assert(r == (s1 + (y2 * l1) % n) % n);
    // the negated indices and index differences, up to congruence
    lemma_cong_mod((0 + n - x2) as int);
    lemma_mod_multiples_vanish(1, 0 - (x2 as int), ni);
    assert(cong(ng2 as int, 0 - (x2 as int)));
    lemma_cong_mod((0 + n - x1) as int);
    lemma_mod_multiples_vanish(1, 0 - (x1 as int), ni);
    assert(cong(ng1 as int, 0 - (x1 as int)));
    lemma_cong_mod((x1 + n - x2) as int);
    lemma_mod_multiples_vanish(1, x1 - x2, ni);
    assert(cong(d12 as int, x1 - x2));
    lemma_cong_mod((x2 + n - x1) as int);
    lemma_mod_multiples_vanish(1, x2 - x1, ni);
    assert(cong(d21 as int, x2 - x1));
    // the inverse of x2 - x1 is congruent to the negated inverse of x1 - x2
    let nfi12 = 0 - (fi12 as int);
    assert(cong((d21 * fi21) as int, 1));
    assert(cong((d21 as int) * nfi12, 1)) by {
        lemma_cong_mul(d21 as int, x2 - x1, nfi12, nfi12);
        assert(nfi12 == 0 - (fi12 as int));
        assert((x2 - x1) * (0 - (fi12 as int)) == (x1 - x2) * (fi12 as int))
            by (nonlinear_arith);
        lemma_cong_mul(x1 - x2, d12 as int, fi12 as int, fi12 as int);
        assert(cong((d12 * fi12) as int, 1));
    }
    lemma_cong_cancel_inverse(d21 as int, fi21 as int, nfi12);
    assert(cong(fi21 as int, nfi12));
    // the two basis values, up to congruence
    lemma_cong_mod((ng2 * fi12) as int);
    lemma_cong_mul(ng2 as int, 0 - (x2 as int), fi12 as int, fi12 as int);
    assert(cong(l0 as int, (0 - (x2 as int)) * (fi12 as int)));
    lemma_cong_mod((ng1 * fi21) as int);
    lemma_cong_mul(ng1 as int, 0 - (x1 as int), fi21 as int, nfi12);
    assert(cong(l1 as int, (0 - (x1 as int)) * nfi12));
    // assemble the sum
    lemma_cong_mod((y1 * l0) as int);
    lemma_cong_mod((y2 * l1) as int);
    lemma_cong_add(s1 as int, (y1 * l0) as int, ((y2 * l1) % n) as int, (y2 * l1) as int);
    lemma_cong_mod((s1 + (y2 * l1) % n) as int);
    assert(cong(r as int, (y1 * l0 + y2 * l1) as int));
    lemma_cong_mul(y1 as int, (a1 * x1 + a0) as int, l0 as int, (0 - (x2 as int)) * (fi12 as int));
    lemma_cong_mul(y2 as int, (a1 * x2 + a0) as int, l1 as int, (0 - (x1 as int)) * nfi12);
    lemma_cong_add(
        (y1 * l0) as int,
        (a1 * x1 + a0) * ((0 - (x2 as int)) * (fi12 as int)),
        (y2 * l1) as int,
        (a1 * x2 + a0) * ((0 - (x1 as int)) * nfi12),
    );
    // the pure ring identity behind Lagrange interpolation at two points
    assert(nfi12 == 0 - (fi12 as int));
    assert((a1 * x1 + a0) * ((0 - (x2 as int)) * (fi12 as int)) + (a1 * x2 + a0) * ((0 - (
    x1 as int)) * (0 - (fi12 as int))) == (fi12 as int) * ((a0 as int) * (x1 - x2)))
        by (nonlinear_arith);
    lemma_cong_mul(a0 as int, a0 as int, x1 - x2, d12 as int);
    lemma_cong_mul(fi12 as int, fi12 as int, (a0 as int) * (x1 - x2), (a0 * d12) as int);
    assert((fi12 as int) * ((a0 * d12) as int) == (a0 as int) * ((d12 * fi12) as int))
        by (nonlinear_arith);
    lemma_cong_mul(a0 as int, a0 as int, (d12 * fi12) as int, 1);
    assert(cong(r as int, a0 as int));
    // both sides are below the order, so congruence is equality
    lemma_mod_bound((s1 + (y2 * l1) % n) as int, ni);
    lemma_small_mod(r, n);
    lemma_small_mod(a0, n);
}

/// In the field, `a - b` is zero exactly when `a == b`, for canonical
/// operands.
pub proof fn lemma_sub_mod_zero_iff_eq(a: nat, b: nat)
    requires
        a < field_order(),
        b < field_order(),
    ensures
        (sub_mod(a, b) == 0) <==> (a == b),
{
    let n = field_order() as int;
    let v = a + field_order() - b;
    if a == b {
        assert(v == n);
        assert(v % n == 0) by {
            vstd::arithmetic::div_mod::lemma_mod_self_0(n);
        }
    } else if a < b {
        assert(0 < v < n);
        assert(v % n == v) by {
            vstd::arithmetic::div_mod::lemma_small_mod((a + field_order() - b) as nat, field_order());
        }
    } else {
        assert(n < v < 2 * n);
        assert(v % n == v - n) by {
            vstd::arithmetic::div_mod::lemma_mod_sub_multiples_vanish(v, n);
            vstd::arithmetic::div_mod::lemma_small_mod((v - n) as nat, field_order());
        }
    }
}

} // verus!
