//! Why Lagrange interpolation at zero gives back the constant term: the proof
//! behind every reconstruction.

use crate::finite_field::{
    gf_inv, gf_mul, lemma_inv_mul, lemma_inv_one, lemma_mul_associative, lemma_mul_commutative,
    lemma_mul_distributive, lemma_mul_inverse, lemma_mul_one, lemma_mul_zero,
    lemma_no_zero_divisors, lemma_xor_interchange, lemma_xor_laws,
};
use crate::polynomial::{
    denominator_upto, eval_poly, horner, interpolate_at_zero, lagrange_coefficient,
    lagrange_coefficients, product_upto, weighted_sum,
};
use vstd::prelude::*;

verus! {

/// The product of the `xs[j]` over the `j < m` other than `skip`.
pub open spec fn numer(xs: Seq<u8>, skip: int, m: nat) -> u8
    decreases m,
{
    if m == 0 {
        1
    } else if m - 1 == skip {
        numer(xs, skip, (m - 1) as nat)
    } else {
        gf_mul(numer(xs, skip, (m - 1) as nat), xs[m - 1])
    }
}

/// The product of `c + xs[j]` over the `j < m` other than `skip`.
pub open spec fn denom(xs: Seq<u8>, c: u8, skip: int, m: nat) -> u8
    decreases m,
{
    if m == 0 {
        1
    } else if m - 1 == skip {
        denom(xs, c, skip, (m - 1) as nat)
    } else {
        gf_mul(denom(xs, c, skip, (m - 1) as nat), c ^ xs[m - 1])
    }
}

/// The weight of point `k` among the first `n` points.
pub open spec fn weight(xs: Seq<u8>, k: int, n: nat) -> u8 {
    gf_mul(numer(xs, k, n), gf_inv(denom(xs, xs[k], k, n)))
}

/// The first `n` points are nonzero and pairwise distinct.
pub open spec fn good_points(xs: Seq<u8>, n: nat) -> bool {
    &&& n <= xs.len()
    &&& forall|i: int| 0 <= i < n ==> xs[i] != 0
    &&& forall|i: int, j: int| 0 <= i < j < n ==> xs[i] != xs[j]
}

/// The sum of the first `m` entries of `s`.
pub open spec fn xor_sum(s: Seq<u8>, m: nat) -> u8
    decreases m,
{
    if m == 0 {
        0
    } else {
        xor_sum(s, (m - 1) as nat) ^ s[m - 1]
    }
}

/// Products over a prefix depend on that prefix alone, and not on a skipped
/// index that lies outside it.
pub proof fn lemma_products_agree(xs: Seq<u8>, ys: Seq<u8>, c: u8, s: int, t: int, m: nat)
    requires
        m <= xs.len(),
        m <= ys.len(),
        forall|j: int| 0 <= j < m ==> xs[j] == ys[j],
        s == t || (s >= m && t >= m) || (s < 0 && t < 0) || (s >= m && t < 0) || (s < 0 && t >= m),
    ensures
        numer(xs, s, m) == numer(ys, t, m),
        denom(xs, c, s, m) == denom(ys, c, t, m),
    decreases m,
{
    if m > 0 {
        lemma_products_agree(xs, ys, c, s, t, (m - 1) as nat);
    }
}

/// The denominator of the usual definition is the one used here.
pub proof fn lemma_denominator_is_denom(xs: Seq<u8>, i: int, m: nat)
    ensures
        denominator_upto(xs, i, m) == denom(xs, xs[i], i, m),
    decreases m,
{
    if m > 0 {
        lemma_denominator_is_denom(xs, i, (m - 1) as nat);
    }
}

/// The product of all the points is the product of the others times the one left out.
pub proof fn lemma_product_split(xs: Seq<u8>, i: int, m: nat)
    requires
        m <= xs.len(),
        0 <= i,
    ensures
        product_upto(xs, m) == if i < m {
            gf_mul(numer(xs, i, m), xs[i])
        } else {
            numer(xs, i, m)
        },
    decreases m,
{
    if m > 0 {
        lemma_product_split(xs, i, (m - 1) as nat);
        if m - 1 == i {
        } else if i < m - 1 {
            // (N * x_i) * x_m == (N * x_m) * x_i
            let n0 = numer(xs, i, (m - 1) as nat);
            lemma_mul_associative(n0, xs[i], xs[m - 1]);
            lemma_mul_commutative(xs[i], xs[m - 1]);
            lemma_mul_associative(n0, xs[m - 1], xs[i]);
        }
    }
}

/// A nonzero product has nonzero factors: no denominator over distinct points vanishes.
pub proof fn lemma_denom_nonzero(xs: Seq<u8>, c: u8, skip: int, m: nat)
    requires
        m <= xs.len(),
        forall|j: int| 0 <= j < m && j != skip ==> xs[j] != c,
    ensures
        denom(xs, c, skip, m) != 0,
    decreases m,
{
    if m > 0 {
        lemma_denom_nonzero(xs, c, skip, (m - 1) as nat);
        if m - 1 != skip {
            let d = c ^ xs[m - 1];
            lemma_xor_laws(c, xs[m - 1], 0);
            if gf_mul(denom(xs, c, skip, (m - 1) as nat), d) == 0 {
                lemma_no_zero_divisors(denom(xs, c, skip, (m - 1) as nat), d);
            }
        }
    }
}

/// The coefficient of the usual definition is the weight used here.
pub proof fn lemma_coefficient_is_weight(xs: Seq<u8>, i: int)
    requires
        0 <= i < xs.len(),
        xs[i] != 0,
    ensures
        lagrange_coefficient(xs, i) == weight(xs, i, xs.len()),
{
    let n = xs.len();
    lemma_product_split(xs, i, n);
    lemma_denominator_is_denom(xs, i, n);
    let n0 = numer(xs, i, n);
    lemma_mul_associative(n0, xs[i], gf_inv(xs[i]));
    lemma_mul_inverse(xs[i]);
    lemma_mul_one(n0);
}

/// `(a * b) * c == (a * c) * b`.
pub proof fn lemma_mul_swap_right(a: u8, b: u8, c: u8)
    ensures
        gf_mul(gf_mul(a, b), c) == gf_mul(gf_mul(a, c), b),
{
    lemma_mul_associative(a, b, c);
    lemma_mul_commutative(b, c);
    lemma_mul_associative(a, c, b);
}

/// Equal multiples of a nonzero element come from equal elements.
pub proof fn lemma_mul_cancel(a: u8, b: u8, d: u8)
    requires
        d != 0,
        gf_mul(a, d) == gf_mul(b, d),
    ensures
        a == b,
{
    lemma_mul_distributive(d, a, b);
    lemma_xor_laws(gf_mul(a, d), 0, 0);
    lemma_no_zero_divisors(a ^ b, d);
    lemma_xor_laws(a, b, 0);
}

/// Adding one more point `x_m` multiplies the weight of point `k` by
/// `x_m / (x_k + x_m)`.
pub proof fn lemma_weight_step(xs: Seq<u8>, k: int, m: nat)
    requires
        0 <= k < m < xs.len(),
        xs[k] != xs[m as int],
    ensures
        gf_mul(weight(xs, k, m + 1), xs[k] ^ xs[m as int]) == gf_mul(
            weight(xs, k, m),
            xs[m as int],
        ),
{
    let n0 = numer(xs, k, m);
    let d0 = denom(xs, xs[k], k, m);
    let xm = xs[m as int];
    let d = xs[k] ^ xm;
    lemma_xor_laws(xs[k], xm, 0);
    assert(d != 0);
    assert(numer(xs, k, m + 1) == gf_mul(n0, xm));
    assert(denom(xs, xs[k], k, m + 1) == gf_mul(d0, d));
    lemma_inv_mul(d0, d);
    // ((N * xm) * (D' * d')) * d == (N * xm) * D'
    let nx = gf_mul(n0, xm);
    lemma_mul_associative(nx, gf_mul(gf_inv(d0), gf_inv(d)), d);
    lemma_mul_associative(gf_inv(d0), gf_inv(d), d);
    lemma_mul_inverse(d);
    lemma_mul_one(gf_inv(d0));
    // (N * xm) * D' == (N * D') * xm
    lemma_mul_swap_right(n0, xm, gf_inv(d0));
}

/// The weight of the last of `m + 2` points, against its weight once the point
/// before it is left out.
pub proof fn lemma_weight_last(xs: Seq<u8>, ys: Seq<u8>, m: int)
    requires
        0 <= m,
        m + 2 <= xs.len(),
        m + 1 <= ys.len(),
        forall|j: int| 0 <= j < m ==> xs[j] == ys[j],
        ys[m] == xs[m + 1],
        xs[m] != xs[m + 1],
    ensures
        gf_mul(weight(xs, m + 1, (m + 2) as nat), xs[m] ^ xs[m + 1]) == gf_mul(
            weight(ys, m, (m + 1) as nat),
            xs[m],
        ),
{
    let a = xs[m];
    let b = xs[m + 1];
    let n0 = numer(ys, m, m as nat);
    let d0 = denom(ys, b, m, m as nat);
    lemma_products_agree(xs, ys, b, m + 1, m, m as nat);
    let d = a ^ b;
    lemma_xor_laws(a, b, 0);
    assert(d != 0);
    assert(numer(xs, m + 1, (m + 2) as nat) == gf_mul(n0, a)) by {
        assert(numer(xs, m + 1, (m + 2) as nat) == numer(xs, m + 1, (m + 1) as nat));
        assert(numer(xs, m + 1, (m + 1) as nat) == gf_mul(numer(xs, m + 1, m as nat), a));
    }
    assert(denom(xs, b, m + 1, (m + 2) as nat) == gf_mul(d0, d)) by {
        assert(denom(xs, b, m + 1, (m + 2) as nat) == denom(xs, b, m + 1, (m + 1) as nat));
        assert(denom(xs, b, m + 1, (m + 1) as nat) == gf_mul(
            denom(xs, b, m + 1, m as nat),
            b ^ a,
        ));
    }
    assert(weight(ys, m, (m + 1) as nat) == gf_mul(n0, gf_inv(d0))) by {
        assert(numer(ys, m, (m + 1) as nat) == n0);
        assert(denom(ys, b, m, (m + 1) as nat) == d0);
    }
    lemma_inv_mul(d0, d);
    let na = gf_mul(n0, a);
    lemma_mul_associative(na, gf_mul(gf_inv(d0), gf_inv(d)), d);
    lemma_mul_associative(gf_inv(d0), gf_inv(d), d);
    lemma_mul_inverse(d);
    lemma_mul_one(gf_inv(d0));
    lemma_mul_swap_right(n0, a, gf_inv(d0));
}

/// Sums are linear: where each entry of `f` is `u * g[k] + v * h[k]`, the sum
/// of `f` is `u` times the sum of `g` plus `v` times the sum of `h`.
pub proof fn lemma_xor_sum_linear(f: Seq<u8>, g: Seq<u8>, h: Seq<u8>, u: u8, v: u8, m: nat)
    requires
        m <= f.len(),
        m <= g.len(),
        m <= h.len(),
        forall|k: int| 0 <= k < m ==> f[k] == gf_mul(u, g[k]) ^ gf_mul(v, h[k]),
    ensures
        xor_sum(f, m) == gf_mul(u, xor_sum(g, m)) ^ gf_mul(v, xor_sum(h, m)),
    decreases m,
{
    if m == 0 {
        lemma_mul_zero(u);
        lemma_mul_zero(v);
        lemma_xor_laws(0, 0, 0);
    } else {
        let p = (m - 1) as nat;
        lemma_xor_sum_linear(f, g, h, u, v, p);
        lemma_mul_distributive(u, xor_sum(g, p), g[m - 1]);
        lemma_mul_distributive(v, xor_sum(h, p), h[m - 1]);
        lemma_xor_interchange(
            gf_mul(u, xor_sum(g, p)),
            gf_mul(v, xor_sum(h, p)),
            gf_mul(u, g[m - 1]),
            gf_mul(v, h[m - 1]),
        );
    }
}

/// The weights of the first `n` points, as a sequence.
pub open spec fn weights(xs: Seq<u8>, n: nat) -> Seq<u8> {
    Seq::new(n, |k: int| weight(xs, k, n))
}

/// Among `m + 2` points whose last two are `a` and `b`, the weight of an
/// earlier point, times `a + b`, is `b` times its weight without `b` plus `a`
/// times its weight without `a`.
pub proof fn lemma_weight_two_ways(xs: Seq<u8>, ys: Seq<u8>, k: int, m: int)
    requires
        0 <= k < m,
        good_points(xs, (m + 2) as nat),
        ys == xs.update(m, xs[m + 1]),
    ensures
        gf_mul(xs[m] ^ xs[m + 1], weight(xs, k, (m + 2) as nat)) == gf_mul(
            xs[m + 1],
            weight(xs, k, (m + 1) as nat),
        ) ^ gf_mul(xs[m], weight(ys, k, (m + 1) as nat)),
{
    let a = xs[m];
    let b = xs[m + 1];
    let w = weight(xs, k, (m + 2) as nat);
    let u = weight(xs, k, (m + 1) as nat);
    let v = weight(ys, k, (m + 1) as nat);
    let w0 = weight(xs, k, m as nat);
    let da = xs[k] ^ a;
    let db = xs[k] ^ b;
    lemma_xor_laws(xs[k], b, 0);
    assert(db != 0);
    lemma_products_agree(xs, ys, xs[k], k, k, m as nat);
    assert(weight(ys, k, m as nat) == w0);
    lemma_weight_step(xs, k, (m + 1) as nat);
    lemma_weight_step(xs, k, m as nat);
    lemma_weight_step(ys, k, m as nat);
    assert(gf_mul(w, db) == gf_mul(u, b));
    assert(gf_mul(u, da) == gf_mul(w0, a));
    assert(gf_mul(v, db) == gf_mul(w0, b));
    // (w * da) * db == (v * a) * db
    lemma_mul_swap_right(w, da, db);
    lemma_mul_swap_right(u, b, da);
    lemma_mul_swap_right(v, a, db);
    lemma_mul_swap_right(w0, b, a);
    lemma_mul_cancel(gf_mul(w, da), gf_mul(v, a), db);
    // (a + b) * w == w * da + w * db
    lemma_xor_laws(a, b, xs[k]);
    lemma_xor_laws(xs[k], a, 0);
    lemma_xor_laws(xs[k], b, 0);
    assert(da ^ db == a ^ b);
    lemma_mul_distributive(w, da, db);
    lemma_mul_commutative(w, a ^ b);
    lemma_mul_commutative(v, a);
    lemma_mul_commutative(u, b);
    lemma_xor_laws(gf_mul(v, a), gf_mul(u, b), 0);
}

/// The weights of any nonzero, pairwise distinct points sum to one.
pub proof fn lemma_weights_sum_to_one(xs: Seq<u8>, n: nat)
    requires
        n >= 1,
        good_points(xs, n),
    ensures
        xor_sum(weights(xs, n), n) == 1,
    decreases n,
{
    if n == 1 {
        reveal_with_fuel(numer, 2);
        reveal_with_fuel(denom, 2);
        reveal_with_fuel(xor_sum, 2);
        lemma_inv_one();
        lemma_mul_one(1);
        lemma_xor_laws(1, 0, 0);
    } else {
        let m = n - 2;
        let p = (n - 1) as nat;
        let a = xs[m];
        let b = xs[m + 1];
        let ys = xs.update(m, b);
        assert(good_points(ys, p));
        lemma_weights_sum_to_one(xs, p);
        lemma_weights_sum_to_one(ys, p);
        let d = a ^ b;
        lemma_xor_laws(a, b, 0);
        assert(d != 0);
        let wn = weights(xs, n);
        let w1 = weights(xs, p);
        let w2 = weights(ys, p);
        let f = Seq::new(n, |k: int| gf_mul(d, wn[k]));
        let zeros = Seq::new(n, |k: int| 0u8);
        // The scaled weights sum to the scaled sum.
        assert forall|k: int| 0 <= k < n implies f[k] == gf_mul(d, wn[k]) ^ gf_mul(0, zeros[k]) by {
            lemma_mul_zero(0);
            lemma_xor_laws(f[k], 0, 0);
        }
        lemma_xor_sum_linear(f, wn, zeros, d, 0, n);
        lemma_mul_zero(xor_sum(zeros, n));
        lemma_xor_laws(gf_mul(d, xor_sum(wn, n)), 0, 0);
        assert(xor_sum(f, n) == gf_mul(d, xor_sum(wn, n)));
        // The earlier points, two ways.
        assert forall|k: int| 0 <= k < m implies f[k] == gf_mul(b, w1[k]) ^ gf_mul(a, w2[k]) by {
            lemma_weight_two_ways(xs, ys, k, m);
        }
        lemma_xor_sum_linear(f, w1, w2, b, a, m as nat);
        // The last two points.
        lemma_weight_step(xs, m, (m + 1) as nat);
        lemma_weight_last(xs, ys, m);
        lemma_mul_commutative(d, wn[m]);
        lemma_mul_commutative(d, wn[m + 1]);
        lemma_mul_commutative(b, w1[m]);
        lemma_mul_commutative(a, w2[m]);
        assert(f[m] == gf_mul(b, w1[m]));
        assert(f[m + 1] == gf_mul(a, w2[m]));
        let s1 = xor_sum(w1, m as nat);
        let s2 = xor_sum(w2, m as nat);
        assert(xor_sum(w1, p) == s1 ^ w1[m]);
        assert(xor_sum(w2, p) == s2 ^ w2[m]);
        lemma_mul_distributive(b, s1, w1[m]);
        lemma_mul_distributive(a, s2, w2[m]);
        lemma_mul_one(a);
        lemma_mul_one(b);
        assert(xor_sum(f, n) == (xor_sum(f, m as nat) ^ f[m]) ^ f[m + 1]) by {
            assert(xor_sum(f, n) == xor_sum(f, p) ^ f[n - 1]);
            assert(xor_sum(f, p) == xor_sum(f, m as nat) ^ f[p - 1]);
        }
        lemma_xor_interchange(gf_mul(b, s1), gf_mul(a, s2), gf_mul(b, w1[m]), gf_mul(a, w2[m]));
        lemma_xor_laws(
            gf_mul(b, s1) ^ gf_mul(a, s2),
            gf_mul(b, w1[m]),
            gf_mul(a, w2[m]),
        );
        lemma_xor_laws(a, b, 0);
        assert(xor_sum(f, n) == d);
        lemma_mul_one(d);
        lemma_mul_commutative(d, xor_sum(wn, n));
        lemma_mul_commutative(d, 1);
        lemma_mul_cancel(xor_sum(wn, n), 1, d);
    }
}

/// The quotient of the polynomial `c` by `x + z`: its coefficients are the
/// intermediate values of Horner's method at `z`.
pub open spec fn quotient(c: Seq<u8>, z: u8) -> Seq<u8> {
    Seq::new((c.len() - 1) as nat, |j: int| horner(c, z, (j + 1) as nat))
}

/// The rearrangement of sums that the division step needs.
proof fn lemma_xor_rearrange(zx: u8, t: u8, cj: u8, zz: u8)
    by (bit_vector)
    ensures
        (zx ^ t) ^ cj == (zz ^ cj) ^ (t ^ (zx ^ zz)),
{
}

/// Division with remainder by `x + z`: `P(x) == P(z) + (x + z) * Q(x)`, stated
/// for every tail of Horner's method.
pub proof fn lemma_division(c: Seq<u8>, z: u8, x: u8, j: nat)
    requires
        c.len() >= 1,
    ensures
        horner(c, x, j) == horner(c, z, j) ^ gf_mul(x ^ z, horner(quotient(c, z), x, j)),
    decreases c.len() - j,
{
    let q = quotient(c, z);
    let d = x ^ z;
    if j >= c.len() {
        lemma_mul_zero(d);
        lemma_xor_laws(0, 0, 0);
    } else {
        lemma_division(c, z, x, j + 1);
        let h = horner(c, x, j + 1);
        let hz = horner(c, z, j + 1);
        let q1 = horner(q, x, j + 1);
        let cj = c[j as int];
        if j + 1 >= c.len() {
            assert(horner(q, x, j) == 0);
            lemma_mul_zero(d);
            lemma_mul_zero(x);
            lemma_mul_zero(z);
            lemma_xor_laws(horner(c, z, j), 0, 0);
        } else {
            assert(q[j as int] == hz);
            assert(horner(q, x, j) == gf_mul(q1, x) ^ hz);
            let t = gf_mul(gf_mul(d, q1), x);
            // (hz + d * q1) * x == hz * x + (d * q1) * x
            lemma_mul_distributive(x, hz, gf_mul(d, q1));
            lemma_mul_commutative(x, hz);
            lemma_mul_commutative(x, gf_mul(d, q1));
            lemma_mul_commutative(x, h);
            assert(gf_mul(h, x) == gf_mul(hz, x) ^ t);
            // d * (q1 * x + hz) == (d * q1) * x + (hz * x + hz * z)
            lemma_mul_distributive(d, gf_mul(q1, x), hz);
            lemma_mul_associative(d, q1, x);
            lemma_mul_distributive(hz, x, z);
            lemma_mul_commutative(d, hz);
            lemma_xor_rearrange(gf_mul(hz, x), t, cj, gf_mul(hz, z));
        }
    }
}

/// The values of the polynomial `c` at the points `xs`.
pub open spec fn evaluations(c: Seq<u8>, xs: Seq<u8>) -> Seq<u8> {
    Seq::new(xs.len(), |k: int| eval_poly(c, xs[k]))
}

/// The products `ws[k] * ys[k]`.
pub open spec fn products(ws: Seq<u8>, ys: Seq<u8>, n: nat) -> Seq<u8> {
    Seq::new(n, |k: int| gf_mul(ws[k], ys[k]))
}

/// A weighted sum is the sum of the products.
pub proof fn lemma_weighted_sum_is_sum(ws: Seq<u8>, ys: Seq<u8>, n: nat, m: nat)
    requires
        m <= n,
    ensures
        weighted_sum(ws, ys, m) == xor_sum(products(ws, ys, n), m),
    decreases m,
{
    if m > 0 {
        lemma_weighted_sum_is_sum(ws, ys, n, (m - 1) as nat);
    }
}

/// A polynomial's value at zero is its constant term.
pub proof fn lemma_eval_at_zero(c: Seq<u8>)
    requires
        c.len() >= 1,
    ensures
        eval_poly(c, 0) == c[0],
{
    lemma_mul_zero(horner(c, 0, 1));
    lemma_xor_laws(c[0], 0, 0);
}

/// Interpolation at zero over `n` nonzero, pairwise distinct points gives the
/// constant term of any polynomial with at most `n` coefficients.
pub proof fn lemma_interpolation_core(xs: Seq<u8>, n: nat, c: Seq<u8>)
    requires
        good_points(xs, n),
        1 <= c.len() <= n,
    ensures
        weighted_sum(weights(xs, n), evaluations(c, xs), n) == c[0],
    decreases n,
{
    let wn = weights(xs, n);
    let ev = evaluations(c, xs);
    let pr = products(wn, ev, n);
    lemma_weighted_sum_is_sum(wn, ev, n, n);
    lemma_weights_sum_to_one(xs, n);
    if c.len() == 1 {
        let zeros = Seq::new(n, |k: int| 0u8);
        assert forall|k: int| 0 <= k < n implies pr[k] == gf_mul(c[0], wn[k]) ^ gf_mul(
            0,
            zeros[k],
        ) by {
            assert(horner(c, xs[k], 1) == 0);
            lemma_mul_zero(xs[k]);
            lemma_xor_laws(c[0], 0, 0);
            assert(ev[k] == c[0]);
            lemma_mul_commutative(c[0], wn[k]);
            lemma_mul_zero(0);
            lemma_xor_laws(pr[k], 0, 0);
        }
        lemma_xor_sum_linear(pr, wn, zeros, c[0], 0, n);
        lemma_mul_zero(xor_sum(zeros, n));
        lemma_mul_one(c[0]);
        lemma_xor_laws(c[0], 0, 0);
    } else {
        let p = (n - 1) as nat;
        let z = xs[n - 1];
        let q = quotient(c, z);
        let pz = eval_poly(c, z);
        lemma_interpolation_core(xs, p, q);
        let wp = weights(xs, p);
        let evq = evaluations(q, xs);
        let prq = products(wp, evq, p);
        lemma_weighted_sum_is_sum(wp, evq, p, p);
        assert(xor_sum(prq, p) == q[0]);
        assert forall|k: int| 0 <= k < p implies pr[k] == gf_mul(pz, wn[k]) ^ gf_mul(z, prq[k]) by {
            let xk = xs[k];
            let d = xk ^ z;
            let qk = eval_poly(q, xk);
            lemma_division(c, z, xk, 0);
            assert(ev[k] == pz ^ gf_mul(d, qk));
            lemma_mul_distributive(wn[k], pz, gf_mul(d, qk));
            lemma_mul_commutative(wn[k], pz);
            // w_n * (d * Q) == (w_n * d) * Q == (w_p * z) * Q == z * (w_p * Q)
            lemma_mul_associative(wn[k], d, qk);
            lemma_weight_step(xs, k, p);
            lemma_mul_swap_right(wp[k], z, qk);
            lemma_mul_commutative(gf_mul(wp[k], qk), z);
        }
        lemma_xor_sum_linear(pr, wn, prq, pz, z, p);
        // The last point.
        let s = xor_sum(wn, p);
        assert(xor_sum(wn, n) == s ^ wn[n - 1]);
        assert(xor_sum(pr, n) == xor_sum(pr, p) ^ pr[n - 1]);
        assert(pr[n - 1] == gf_mul(wn[n - 1], pz));
        lemma_mul_commutative(wn[n - 1], pz);
        lemma_mul_distributive(pz, s, wn[n - 1]);
        lemma_mul_one(pz);
        let zq = gf_mul(z, q[0]);
        lemma_xor_laws(gf_mul(pz, s), zq, gf_mul(pz, wn[n - 1]));
        lemma_xor_laws(zq, gf_mul(pz, wn[n - 1]), 0);
        lemma_xor_laws(gf_mul(pz, s), gf_mul(pz, wn[n - 1]), zq);
        assert(xor_sum(pr, n) == pz ^ zq);
        // P(0) == P(z) + z * Q(0)
        lemma_division(c, z, 0, 0);
        lemma_eval_at_zero(c);
        lemma_eval_at_zero(q);
        lemma_xor_laws(z, 0, 0);
    }
}

/// Weighted sums over a prefix depend on that prefix alone.
pub proof fn lemma_weighted_sum_agree(
    ws: Seq<u8>,
    ys: Seq<u8>,
    ws2: Seq<u8>,
    ys2: Seq<u8>,
    m: nat,
)
    requires
        forall|k: int| 0 <= k < m ==> ws[k] == ws2[k] && ys[k] == ys2[k],
    ensures
        weighted_sum(ws, ys, m) == weighted_sum(ws2, ys2, m),
    decreases m,
{
    if m > 0 {
        lemma_weighted_sum_agree(ws, ys, ws2, ys2, (m - 1) as nat);
    }
}

/// Lagrange interpolation at zero through the values of a polynomial at
/// nonzero, pairwise distinct points gives the polynomial's constant term,
/// when there are at least as many points as coefficients.
pub proof fn lemma_interpolation_recovers_constant(xs: Seq<u8>, ys: Seq<u8>, c: Seq<u8>)
    requires
        forall|i: int| 0 <= i < xs.len() ==> xs[i] != 0,
        forall|i: int, j: int| 0 <= i < j < xs.len() ==> xs[i] != xs[j],
        1 <= c.len() <= xs.len(),
        ys.len() == xs.len(),
        forall|k: int| 0 <= k < xs.len() ==> ys[k] == eval_poly(c, xs[k]),
    ensures
        interpolate_at_zero(xs, ys) == c[0],
{
    let n = xs.len();
    lemma_interpolation_core(xs, n, c);
    let ls = lagrange_coefficients(xs);
    let ws = weights(xs, n);
    let ev = evaluations(c, xs);
    assert forall|k: int| 0 <= k < n implies ls[k] == ws[k] && ys[k] == ev[k] by {
        lemma_coefficient_is_weight(xs, k);
    }
    lemma_weighted_sum_agree(ls, ys, ws, ev, n);
}

/// Interpolation is linear in the values: the sum of two sets of values
/// interpolates to the sum of what each interpolates to.
pub proof fn lemma_weighted_sum_linear(ws: Seq<u8>, ys: Seq<u8>, ds: Seq<u8>, zs: Seq<u8>, m: nat)
    requires
        forall|k: int| 0 <= k < m ==> zs[k] == ys[k] ^ ds[k],
    ensures
        weighted_sum(ws, zs, m) == weighted_sum(ws, ys, m) ^ weighted_sum(ws, ds, m),
    decreases m,
{
    if m == 0 {
        lemma_xor_laws(0, 0, 0);
    } else {
        let p = (m - 1) as nat;
        lemma_weighted_sum_linear(ws, ys, ds, zs, p);
        lemma_mul_distributive(ws[m - 1], ys[m - 1], ds[m - 1]);
        lemma_xor_interchange(
            weighted_sum(ws, ys, p),
            weighted_sum(ws, ds, p),
            gf_mul(ws[m - 1], ys[m - 1]),
            gf_mul(ws[m - 1], ds[m - 1]),
        );
    }
}

/// A product of nonzero points is not zero.
pub proof fn lemma_numer_nonzero(xs: Seq<u8>, skip: int, m: nat)
    requires
        m <= xs.len(),
        forall|j: int| 0 <= j < m ==> xs[j] != 0,
    ensures
        numer(xs, skip, m) != 0,
    decreases m,
{
    if m > 0 {
        lemma_numer_nonzero(xs, skip, (m - 1) as nat);
        if m - 1 != skip {
            if gf_mul(numer(xs, skip, (m - 1) as nat), xs[m - 1]) == 0 {
                lemma_no_zero_divisors(numer(xs, skip, (m - 1) as nat), xs[m - 1]);
            }
        }
    }
}

/// The inverse of a nonzero element is not zero.
pub proof fn lemma_inv_nonzero(a: u8)
    requires
        a != 0,
    ensures
        gf_inv(a) != 0,
{
    lemma_mul_inverse(a);
    lemma_mul_zero(a);
}

/// No Lagrange coefficient over nonzero, pairwise distinct points is zero:
/// every point has a say in what is interpolated.
pub proof fn lemma_coefficient_nonzero(xs: Seq<u8>, i: int)
    requires
        0 <= i < xs.len(),
        forall|a: int| 0 <= a < xs.len() ==> xs[a] != 0,
        forall|a: int, b: int| 0 <= a < b < xs.len() ==> xs[a] != xs[b],
    ensures
        lagrange_coefficient(xs, i) != 0,
{
    let n = xs.len();
    lemma_coefficient_is_weight(xs, i);
    lemma_numer_nonzero(xs, i, n);
    lemma_denom_nonzero(xs, xs[i], i, n);
    lemma_inv_nonzero(denom(xs, xs[i], i, n));
    if weight(xs, i, n) == 0 {
        lemma_no_zero_divisors(numer(xs, i, n), gf_inv(denom(xs, xs[i], i, n)));
    }
}

/// A weighted sum of values that are zero but at one place is that place's term.
pub proof fn lemma_weighted_sum_single(ws: Seq<u8>, ds: Seq<u8>, i: int, m: nat)
    requires
        0 <= i,
        forall|k: int| 0 <= k < m && k != i ==> ds[k] == 0,
    ensures
        weighted_sum(ws, ds, m) == if i < m {
            gf_mul(ws[i], ds[i])
        } else {
            0
        },
    decreases m,
{
    if m > 0 {
        lemma_weighted_sum_single(ws, ds, i, (m - 1) as nat);
        lemma_mul_zero(ws[m - 1]);
        lemma_xor_laws(gf_mul(ws[i], ds[i]), 0, 0);
        lemma_xor_laws(0, 0, 0);
    }
}

} // verus!
