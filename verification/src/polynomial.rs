//! Polynomials over GF(256) as the secret-sharing scheme uses them: evaluation
//! by Horner's method, and Lagrange interpolation at zero.

use crate::finite_field::{gf_inv, gf_mul};
use vstd::prelude::*;

verus! {

/// Horner's method from coefficient `j` up: the value at `x` of the polynomial
/// `c[j] + c[j+1] * x + c[j+2] * x^2 + ...`.
pub open spec fn horner(c: Seq<u8>, x: u8, j: nat) -> u8
    decreases c.len() - j,
{
    if j >= c.len() {
        0
    } else {
        gf_mul(horner(c, x, j + 1), x) ^ c[j as int]
    }
}

/// The value at `x` of the polynomial with coefficients `c`, constant term first.
pub open spec fn eval_poly(c: Seq<u8>, x: u8) -> u8 {
    horner(c, x, 0)
}

/// The product of the first `m` entries of `xs`.
pub open spec fn product_upto(xs: Seq<u8>, m: nat) -> u8
    decreases m,
{
    if m == 0 {
        1
    } else {
        gf_mul(product_upto(xs, (m - 1) as nat), xs[m - 1])
    }
}

/// The product of `xs[i] + xs[j]` over the `j < m` other than `i`.
pub open spec fn denominator_upto(xs: Seq<u8>, i: int, m: nat) -> u8
    decreases m,
{
    if m == 0 {
        1
    } else if m - 1 == i {
        denominator_upto(xs, i, (m - 1) as nat)
    } else {
        gf_mul(denominator_upto(xs, i, (m - 1) as nat), xs[i] ^ xs[m - 1])
    }
}

/// The Lagrange basis coefficient of point `i` for interpolation at zero:
/// `(P / xs[i]) / D`, with `P` the product of all the points and `D` the
/// product of the differences between point `i` and the others.
pub open spec fn lagrange_coefficient(xs: Seq<u8>, i: int) -> u8 {
    gf_mul(
        gf_mul(product_upto(xs, xs.len()), gf_inv(xs[i])),
        gf_inv(denominator_upto(xs, i, xs.len())),
    )
}

/// The Lagrange coefficients of all the points.
pub open spec fn lagrange_coefficients(xs: Seq<u8>) -> Seq<u8> {
    Seq::new(xs.len(), |i: int| lagrange_coefficient(xs, i))
}

/// The sum of `ws[i] * ys[i]` over `i < m`.
pub open spec fn weighted_sum(ws: Seq<u8>, ys: Seq<u8>, m: nat) -> u8
    decreases m,
{
    if m == 0 {
        0
    } else {
        weighted_sum(ws, ys, (m - 1) as nat) ^ gf_mul(ws[m - 1], ys[m - 1])
    }
}

/// The value at zero of the polynomial through the points `(xs[i], ys[i])`.
pub open spec fn interpolate_at_zero(xs: Seq<u8>, ys: Seq<u8>) -> u8 {
    weighted_sum(lagrange_coefficients(xs), ys, xs.len())
}

/// No entry is zero.
pub open spec fn all_nonzero(xs: Seq<u8>) -> bool {
    forall|i: int| 0 <= i < xs.len() ==> xs[i] != 0
}

/// No entry occurs twice.
pub open spec fn all_distinct(xs: Seq<u8>) -> bool {
    forall|i: int, j: int| 0 <= i < j < xs.len() ==> xs[i] != xs[j]
}

} // verus!
