//! The polynomials behind a split: one per byte of the data, with the byte as
//! constant term and random bytes as the other coefficients, evaluated by
//! Horner's method at each share's index.

use crate::finite_field::{lemma_xor_laws, FiniteField};
use crate::polynomial::{eval_poly, horner};
use crate::share::ShareModel;
use vstd::prelude::*;

verus! {

/// The polynomial for byte `i` of the data: the byte itself, then the
/// `t - 1` coefficients that belong to it.
pub open spec fn byte_polynomial(data: Seq<u8>, coefficients: Seq<u8>, t: nat, i: int) -> Seq<u8> {
    Seq::new(
        t,
        |j: int|
            if j == 0 {
                data[i]
            } else {
                coefficients[i * (t - 1) + (j - 1)]
            },
    )
}

/// The values at `x` of all the data's polynomials: the data of the share with index `x`.
pub open spec fn evaluate_at(data: Seq<u8>, coefficients: Seq<u8>, t: nat, x: u8) -> Seq<u8> {
    Seq::new(data.len(), |i: int| eval_poly(byte_polynomial(data, coefficients, t, i), x))
}

/// `len` zero bytes: the data behind a refresh.
pub open spec fn zeros(len: nat) -> Seq<u8> {
    Seq::new(len, |i: int| 0u8)
}

/// The bytewise sum of two byte strings of one length.
pub open spec fn xor_bytes(a: Seq<u8>, b: Seq<u8>) -> Seq<u8> {
    Seq::new(a.len(), |i: int| a[i] ^ b[i])
}

/// Whether the coefficients for data of length `len` can be counted in a `usize`.
pub open spec fn fits(len: nat, t: u8) -> bool {
    len * (t - 1) <= usize::MAX
}

/// The share with index `x` that a split of `data` with these coefficients makes.
pub open spec fn dealt_share(
    data: Seq<u8>,
    coefficients: Seq<u8>,
    t: u8,
    n: u8,
    integrity: bool,
    compression: bool,
    x: u8,
) -> ShareModel {
    ShareModel {
        index: x,
        data: evaluate_at(data, coefficients, t as nat, x),
        threshold: t,
        total_shares: n,
        integrity_check: integrity,
        compression,
    }
}

/// The first `count` shares of a split, with indices `first, first + 1, ...`.
pub open spec fn dealt_shares(
    data: Seq<u8>,
    coefficients: Seq<u8>,
    t: u8,
    n: u8,
    integrity: bool,
    compression: bool,
    first: u8,
    count: nat,
) -> Seq<ShareModel> {
    Seq::new(
        count,
        |k: int| dealt_share(data, coefficients, t, n, integrity, compression, (first + k) as u8),
    )
}

/// An index into the coefficients stays inside them.
pub proof fn lemma_coefficient_index(len: nat, t: nat, i: nat, j: nat)
    requires
        i < len,
        1 <= j < t,
    ensures
        i * (t - 1) + (j - 1) < len * (t - 1),
        i * (t - 1) + (j - 1) >= 0,
        i * (t - 1) >= 0,
{
    assert(i * (t - 1) + (t - 1) == (i + 1) * (t - 1)) by (nonlinear_arith);
    assert((i + 1) * (t - 1) <= len * (t - 1)) by (nonlinear_arith)
        requires
            i + 1 <= len,
            t >= 1,
    ;
    assert(i * (t - 1) >= 0) by (nonlinear_arith)
        requires
            t >= 1,
    ;
}

/// The value at `x` of the polynomial of byte `idx`, by Horner's method from
/// the highest coefficient down.
pub fn evaluate_byte(data: &[u8], coefficients: &[u8], threshold: u8, idx: usize, x: u8) -> (y: u8)
    requires
        threshold >= 1,
        idx < data.len(),
        coefficients.len() == data.len() * (threshold - 1),
    ensures
        y == eval_poly(byte_polynomial(data@, coefficients@, threshold as nat, idx as int), x),
{
    let t: usize = threshold as usize;
    let fx = FiniteField::new(x);
    let ghost poly = byte_polynomial(data@, coefficients@, t as nat, idx as int);
    let mut acc = FiniteField::new(0);
    let mut j: usize = t;
    while j > 0
        invariant
            j <= t,
            t == threshold,
            threshold >= 1,
            idx < data.len(),
            coefficients.len() == data.len() * (threshold - 1),
            fx.0 == x,
            poly == byte_polynomial(data@, coefficients@, t as nat, idx as int),
            acc.0 == horner(poly, x, j as nat),
        decreases j,
    {
        j -= 1;
        proof {
            if j > 0 {
                lemma_coefficient_index(data.len() as nat, t as nat, idx as nat, j as nat);
            }
        }
        let coeff = if j == 0 {
            FiniteField::new(data[idx])
        } else {
            FiniteField::new(coefficients[idx * (t - 1) + (j - 1)])
        };
        acc = acc * fx + coeff;
    }
    acc.0
}

/// The data of the share with index `x`: every byte's polynomial evaluated at `x`.
pub fn evaluate_share(data: &[u8], coefficients: &[u8], threshold: u8, x: u8) -> (share: Vec<u8>)
    requires
        threshold >= 1,
        coefficients.len() == data.len() * (threshold - 1),
    ensures
        share@ == evaluate_at(data@, coefficients@, threshold as nat, x),
{
    let mut share: Vec<u8> = Vec::with_capacity(data.len());
    let mut idx: usize = 0;
    while idx < data.len()
        invariant
            idx <= data.len(),
            threshold >= 1,
            coefficients.len() == data.len() * (threshold - 1),
            share@.len() == idx,
            forall|i: int|
                0 <= i < idx ==> share@[i] == eval_poly(
                    byte_polynomial(data@, coefficients@, threshold as nat, i),
                    x,
                ),
        decreases data.len() - idx,
    {
        let y = evaluate_byte(data, coefficients, threshold, idx, x);
        share.push(y);
        idx += 1;
    }
    assert(share@ =~= evaluate_at(data@, coefficients@, threshold as nat, x));
    share
}

/// The value at `x` of the polynomial of byte `idx` of a refresh: the constant
/// term is zero, so Horner's method ends with one more multiplication by `x`
/// in place of adding it.
pub fn evaluate_zero_byte(
    coefficients: &[u8],
    data_length: usize,
    threshold: u8,
    idx: usize,
    x: u8,
) -> (y: u8)
    requires
        threshold >= 1,
        idx < data_length,
        coefficients.len() == data_length * (threshold - 1),
    ensures
        y == eval_poly(
            byte_polynomial(zeros(data_length as nat), coefficients@, threshold as nat, idx as int),
            x,
        ),
{
    let t: usize = threshold as usize;
    let fx = FiniteField::new(x);
    let ghost poly = byte_polynomial(
        zeros(data_length as nat),
        coefficients@,
        t as nat,
        idx as int,
    );
    let mut acc = FiniteField::new(0);
    let mut j: usize = t;
    while j > 1
        invariant
            1 <= j <= t,
            t == threshold,
            idx < data_length,
            coefficients.len() == data_length * (threshold - 1),
            fx.0 == x,
            poly == byte_polynomial(zeros(data_length as nat), coefficients@, t as nat, idx as int),
            acc.0 == horner(poly, x, j as nat),
        decreases j,
    {
        j -= 1;
        proof {
            lemma_coefficient_index(data_length as nat, t as nat, idx as nat, j as nat);
        }
        let coeff = FiniteField::new(coefficients[idx * (t - 1) + (j - 1)]);
        acc = acc * fx + coeff;
    }
    acc = acc * fx;
    proof {
        lemma_xor_laws(acc.0, 0, 0);
    }
    acc.0
}

/// The delta that a refresh adds to the share with index `x`: the values at
/// `x` of polynomials whose constant terms are all zero.
pub fn evaluate_zero_share(coefficients: &[u8], data_length: usize, threshold: u8, x: u8) -> (delta:
    Vec<u8>)
    requires
        threshold >= 1,
        coefficients.len() == data_length * (threshold - 1),
    ensures
        delta@ == evaluate_at(zeros(data_length as nat), coefficients@, threshold as nat, x),
{
    let mut delta: Vec<u8> = Vec::with_capacity(data_length);
    let mut idx: usize = 0;
    while idx < data_length
        invariant
            idx <= data_length,
            threshold >= 1,
            coefficients.len() == data_length * (threshold - 1),
            delta@.len() == idx,
            forall|i: int|
                0 <= i < idx ==> delta@[i] == eval_poly(
                    byte_polynomial(zeros(data_length as nat), coefficients@, threshold as nat, i),
                    x,
                ),
        decreases data_length - idx,
    {
        let y = evaluate_zero_byte(coefficients, data_length, threshold, idx, x);
        delta.push(y);
        idx += 1;
    }
    assert(delta@ =~= evaluate_at(
        zeros(data_length as nat),
        coefficients@,
        threshold as nat,
        x,
    ));
    delta
}

} // verus!
