//! Arithmetic in GF(2^8) under the reduction polynomial x^8 + x^4 + x^3 + x + 1.
//!
//! Addition and subtraction are XOR. Multiplication runs a fixed number of
//! rounds whatever the operands are, and inversion raises to the power 254.

use vstd::prelude::*;

verus! {

/// Multiplication by `x`: one left shift, reduced when the top bit falls out.
pub open spec fn xtime(a: u8) -> u8 {
    if a & 0x80 != 0 {
        (a << 1) ^ 0x1b
    } else {
        a << 1
    }
}

/// `x^n * a`: `xtime` applied `n` times.
pub open spec fn xtime_n(a: u8, n: nat) -> u8
    decreases n,
{
    if n == 0 {
        a
    } else {
        xtime(xtime_n(a, (n - 1) as nat))
    }
}

/// What bit `i` of `b` selects: `a` when it is set, zero when it is not.
pub open spec fn bit_term(a: u8, b: u8, i: u8) -> u8 {
    if (b >> i) & 1 != 0 {
        a
    } else {
        0
    }
}

/// The sum over the low `n` bits of `b` of `b_i * x^i * a`.
pub open spec fn mul_partial(a: u8, b: u8, n: nat) -> u8
    decreases n,
{
    if n == 0 {
        0
    } else {
        mul_partial(a, b, (n - 1) as nat) ^ bit_term(
            xtime_n(a, (n - 1) as nat),
            b,
            (n - 1) as u8,
        )
    }
}

/// The product of `a` and `b` in GF(256): the sum over the eight bits of `b`
/// of `b_i * x^i * a`.
pub closed spec fn gf_mul(a: u8, b: u8) -> u8 {
    mul_partial(a, b, 8)
}

/// `a` raised to the power `n` in GF(256).
pub open spec fn gf_pow(a: u8, n: nat) -> u8
    decreases n,
{
    if n == 0 {
        1
    } else {
        gf_mul(a, gf_pow(a, (n - 1) as nat))
    }
}

/// The multiplicative inverse of a nonzero `a`, as the power `a^254`; zero for zero.
pub open spec fn gf_inv(a: u8) -> u8 {
    gf_pow(a, 254)
}

/// The eight terms of a product, with the multiples `x^i * a` given by name.
pub open spec fn combine(
    t0: u8,
    t1: u8,
    t2: u8,
    t3: u8,
    t4: u8,
    t5: u8,
    t6: u8,
    t7: u8,
    b: u8,
) -> u8 {
    bit_term(t0, b, 0) ^ bit_term(t1, b, 1) ^ bit_term(t2, b, 2) ^ bit_term(t3, b, 3) ^ bit_term(
        t4,
        b,
        4,
    ) ^ bit_term(t5, b, 5) ^ bit_term(t6, b, 6) ^ bit_term(t7, b, 7)
}

/// The product written out without recursion: the eight terms over the chain
/// of multiples of `a`.
pub open spec fn mul_flat(a: u8, b: u8) -> u8 {
    combine(
        a,
        xtime(a),
        xtime(xtime(a)),
        xtime(xtime(xtime(a))),
        xtime(xtime(xtime(xtime(a)))),
        xtime(xtime(xtime(xtime(xtime(a))))),
        xtime(xtime(xtime(xtime(xtime(xtime(a)))))),
        xtime(xtime(xtime(xtime(xtime(xtime(xtime(a))))))),
        b,
    )
}

/// `gf_mul` agrees with its written-out form.
pub proof fn lemma_mul_unfold(a: u8, b: u8)
    ensures
        gf_mul(a, b) == mul_flat(a, b),
{
    reveal_with_fuel(xtime_n, 9);
    reveal_with_fuel(mul_partial, 9);
    let t0 = bit_term(xtime_n(a, 0), b, 0);
    assert(mul_partial(a, b, 1) == t0) by {
        assert(0u8 ^ t0 == t0) by (bit_vector);
    }
}

/// Addition in GF(256), which is XOR, is commutative and associative, has zero
/// as its identity, and every element is its own negative.
pub proof fn lemma_xor_laws(a: u8, b: u8, c: u8)
    by (bit_vector)
    ensures
        a ^ b == b ^ a,
        (a ^ b) ^ c == a ^ (b ^ c),
        a ^ a == 0,
        a ^ 0 == a,
        0 ^ a == a,
        (a ^ b) ^ b == a,
        a ^ b == 0 ==> a == b,
        (a ^ c) ^ (b ^ c) == a ^ b,
{
}

/// `(a + b) + (c + d) == (a + c) + (b + d)`.
pub proof fn lemma_xor_interchange(a: u8, b: u8, c: u8, d: u8)
    by (bit_vector)
    ensures
        (a ^ b) ^ (c ^ d) == (a ^ c) ^ (b ^ d),
{
}

/// Zero annihilates.
pub proof fn lemma_mul_zero(a: u8)
    ensures
        gf_mul(a, 0) == 0,
        gf_mul(0, a) == 0,
{
    lemma_mul_unfold(a, 0);
    lemma_mul_unfold(0, a);
    assert(mul_flat(a, 0) == 0 && mul_flat(0, a) == 0) by (bit_vector);
}

/// One is the multiplicative identity.
pub proof fn lemma_mul_one(a: u8)
    ensures
        gf_mul(a, 1) == a,
        gf_mul(1, a) == a,
{
    lemma_mul_unfold(a, 1);
    lemma_mul_unfold(1, a);
    assert(mul_flat(a, 1) == a && mul_flat(1, a) == a) by (bit_vector);
}

/// Multiplication distributes over addition on the right.
pub proof fn lemma_mul_distributive_right(a: u8, b: u8, c: u8)
    ensures
        gf_mul(a, b ^ c) == gf_mul(a, b) ^ gf_mul(a, c),
{
    lemma_mul_unfold(a, b ^ c);
    lemma_mul_unfold(a, b);
    lemma_mul_unfold(a, c);
    assert(mul_flat(a, b ^ c) == mul_flat(a, b) ^ mul_flat(a, c)) by (bit_vector);
}

/// `xtime` is linear.
pub proof fn lemma_xtime_linear(a: u8, c: u8)
    ensures
        xtime(a ^ c) == xtime(a) ^ xtime(c),
{
    assert(xtime(a ^ c) == xtime(a) ^ xtime(c)) by (bit_vector);
}

/// Multiplication distributes over addition on the left.
pub proof fn lemma_mul_distributive_left(a: u8, c: u8, b: u8)
    ensures
        gf_mul(a ^ c, b) == gf_mul(a, b) ^ gf_mul(c, b),
{
    lemma_mul_unfold(a ^ c, b);
    lemma_mul_unfold(a, b);
    lemma_mul_unfold(c, b);
    let a1 = xtime(a);
    let a2 = xtime(a1);
    let a3 = xtime(a2);
    let a4 = xtime(a3);
    let a5 = xtime(a4);
    let a6 = xtime(a5);
    let a7 = xtime(a6);
    let c1 = xtime(c);
    let c2 = xtime(c1);
    let c3 = xtime(c2);
    let c4 = xtime(c3);
    let c5 = xtime(c4);
    let c6 = xtime(c5);
    let c7 = xtime(c6);
    lemma_xtime_linear(a, c);
    lemma_xtime_linear(a1, c1);
    lemma_xtime_linear(a2, c2);
    lemma_xtime_linear(a3, c3);
    lemma_xtime_linear(a4, c4);
    lemma_xtime_linear(a5, c5);
    lemma_xtime_linear(a6, c6);
    assert(combine(
        a ^ c,
        a1 ^ c1,
        a2 ^ c2,
        a3 ^ c3,
        a4 ^ c4,
        a5 ^ c5,
        a6 ^ c6,
        a7 ^ c7,
        b,
    ) == combine(a, a1, a2, a3, a4, a5, a6, a7, b) ^ combine(c, c1, c2, c3, c4, c5, c6, c7, b))
        by (bit_vector);
}

/// Multiplication by a single bit of `b` is commutative.
#[verifier::rlimit(50)]
proof fn lemma_mul_commutative_bit(a: u8, b: u8, mask: u8)
    requires
        mask == 1 || mask == 2 || mask == 4 || mask == 8 || mask == 16 || mask == 32 || mask == 64
            || mask == 128,
    ensures
        gf_mul(a, b & mask) == gf_mul(b & mask, a),
{
    let c = b & mask;
    lemma_mul_unfold(a, c);
    lemma_mul_unfold(c, a);
    let a1 = xtime(a);
    let a2 = xtime(a1);
    let a3 = xtime(a2);
    let a4 = xtime(a3);
    let a5 = xtime(a4);
    let a6 = xtime(a5);
    let a7 = xtime(a6);
    let c1 = xtime(c);
    let c2 = xtime(c1);
    let c3 = xtime(c2);
    let c4 = xtime(c3);
    let c5 = xtime(c4);
    let c6 = xtime(c5);
    let c7 = xtime(c6);
    assert(combine(a, a1, a2, a3, a4, a5, a6, a7, c) == combine(c, c1, c2, c3, c4, c5, c6, c7, a))
        by (bit_vector)
        requires
            c == b & mask,
            mask == 1 || mask == 2 || mask == 4 || mask == 8 || mask == 16 || mask == 32 || mask
                == 64 || mask == 128,
            a1 == xtime(a),
            a2 == xtime(a1),
            a3 == xtime(a2),
            a4 == xtime(a3),
            a5 == xtime(a4),
            a6 == xtime(a5),
            a7 == xtime(a6),
            c1 == xtime(c),
            c2 == xtime(c1),
            c3 == xtime(c2),
            c4 == xtime(c3),
            c5 == xtime(c4),
            c6 == xtime(c5),
            c7 == xtime(c6),
    ;
}

/// Multiplication is commutative.
pub proof fn lemma_mul_commutative(a: u8, b: u8)
    ensures
        gf_mul(a, b) == gf_mul(b, a),
{
    let bit0 = b & 1;
    let bit1 = b & 2;
    let bit2 = b & 4;
    let bit3 = b & 8;
    let bit4 = b & 16;
    let bit5 = b & 32;
    let bit6 = b & 64;
    let bit7 = b & 128;
    let s1 = bit0 ^ bit1;
    let s2 = s1 ^ bit2;
    let s3 = s2 ^ bit3;
    let s4 = s3 ^ bit4;
    let s5 = s4 ^ bit5;
    let s6 = s5 ^ bit6;
    assert(s6 ^ bit7 == b) by (bit_vector)
        requires
            s6 == (b & 1) ^ (b & 2) ^ (b & 4) ^ (b & 8) ^ (b & 16) ^ (b & 32) ^ (b & 64),
            bit7 == b & 128,
    ;
    lemma_mul_commutative_bit(a, b, 1);
    lemma_mul_commutative_bit(a, b, 2);
    lemma_mul_commutative_bit(a, b, 4);
    lemma_mul_commutative_bit(a, b, 8);
    lemma_mul_commutative_bit(a, b, 16);
    lemma_mul_commutative_bit(a, b, 32);
    lemma_mul_commutative_bit(a, b, 64);
    lemma_mul_commutative_bit(a, b, 128);
    lemma_mul_distributive_right(a, bit0, bit1);
    lemma_mul_distributive_left(bit0, bit1, a);
    lemma_mul_distributive_right(a, s1, bit2);
    lemma_mul_distributive_left(s1, bit2, a);
    lemma_mul_distributive_right(a, s2, bit3);
    lemma_mul_distributive_left(s2, bit3, a);
    lemma_mul_distributive_right(a, s3, bit4);
    lemma_mul_distributive_left(s3, bit4, a);
    lemma_mul_distributive_right(a, s4, bit5);
    lemma_mul_distributive_left(s4, bit5, a);
    lemma_mul_distributive_right(a, s5, bit6);
    lemma_mul_distributive_left(s5, bit6, a);
    lemma_mul_distributive_right(a, s6, bit7);
    lemma_mul_distributive_left(s6, bit7, a);
}

/// Multiplication distributes over addition, on either side.
pub proof fn lemma_mul_distributive(a: u8, b: u8, c: u8)
    ensures
        gf_mul(a, b ^ c) == gf_mul(a, b) ^ gf_mul(a, c),
        gf_mul(b ^ c, a) == gf_mul(b, a) ^ gf_mul(c, a),
{
    lemma_mul_distributive_right(a, b, c);
    lemma_mul_commutative(a, b ^ c);
    lemma_mul_commutative(a, b);
    lemma_mul_commutative(a, c);
}

/// Multiplying one factor by `x` multiplies the product by `x`.
pub proof fn lemma_mul_xtime(a: u8, b: u8)
    ensures
        gf_mul(xtime(a), b) == xtime(gf_mul(a, b)),
        gf_mul(a, xtime(b)) == xtime(gf_mul(a, b)),
{
    lemma_mul_xtime_left(a, b);
    lemma_mul_commutative(a, xtime(b));
    lemma_mul_xtime_left(b, a);
    lemma_mul_commutative(a, b);
}

/// Multiplying the left factor by `x` multiplies the product by `x`.
proof fn lemma_mul_xtime_left(a: u8, b: u8)
    ensures
        gf_mul(xtime(a), b) == xtime(gf_mul(a, b)),
{
    lemma_mul_unfold(a, b);
    lemma_mul_unfold(xtime(a), b);
    let a1 = xtime(a);
    let a2 = xtime(a1);
    let a3 = xtime(a2);
    let a4 = xtime(a3);
    let a5 = xtime(a4);
    let a6 = xtime(a5);
    let a7 = xtime(a6);
    let a8 = xtime(a7);
    // `xtime` of a sum of selected terms is the sum of the selected `xtime`s.
    assert(combine(
        xtime(a),
        xtime(a1),
        xtime(a2),
        xtime(a3),
        xtime(a4),
        xtime(a5),
        xtime(a6),
        xtime(a7),
        b,
    ) == xtime(combine(a, a1, a2, a3, a4, a5, a6, a7, b))) by (bit_vector);
}

/// Multiplication is associative.
pub proof fn lemma_mul_associative(a: u8, b: u8, c: u8)
    ensures
        gf_mul(gf_mul(a, b), c) == gf_mul(a, gf_mul(b, c)),
{
    let m = gf_mul(a, b);
    let b1 = xtime(b);
    let b2 = xtime(b1);
    let b3 = xtime(b2);
    let b4 = xtime(b3);
    let b5 = xtime(b4);
    let b6 = xtime(b5);
    let b7 = xtime(b6);
    // a * (x^i * b) == x^i * (a * b)
    lemma_mul_xtime(a, b);
    lemma_mul_xtime(a, b1);
    lemma_mul_xtime(a, b2);
    lemma_mul_xtime(a, b3);
    lemma_mul_xtime(a, b4);
    lemma_mul_xtime(a, b5);
    lemma_mul_xtime(a, b6);
    lemma_mul_unfold(b, c);
    lemma_mul_unfold(m, c);
    lemma_mul_zero(a);
    let u0 = bit_term(b, c, 0);
    let u1 = bit_term(b1, c, 1);
    let u2 = bit_term(b2, c, 2);
    let u3 = bit_term(b3, c, 3);
    let u4 = bit_term(b4, c, 4);
    let u5 = bit_term(b5, c, 5);
    let u6 = bit_term(b6, c, 6);
    let u7 = bit_term(b7, c, 7);
    // a * (u0 + ... + u7) == a * u0 + ... + a * u7
    lemma_mul_distributive_right(a, u0, u1);
    lemma_mul_distributive_right(a, u0 ^ u1, u2);
    lemma_mul_distributive_right(a, u0 ^ u1 ^ u2, u3);
    lemma_mul_distributive_right(a, u0 ^ u1 ^ u2 ^ u3, u4);
    lemma_mul_distributive_right(a, u0 ^ u1 ^ u2 ^ u3 ^ u4, u5);
    lemma_mul_distributive_right(a, u0 ^ u1 ^ u2 ^ u3 ^ u4 ^ u5, u6);
    lemma_mul_distributive_right(a, u0 ^ u1 ^ u2 ^ u3 ^ u4 ^ u5 ^ u6, u7);
}

/// `(a * b) * (c * d) == (a * c) * (b * d)`.
pub proof fn lemma_mul_interchange(a: u8, b: u8, c: u8, d: u8)
    ensures
        gf_mul(gf_mul(a, b), gf_mul(c, d)) == gf_mul(gf_mul(a, c), gf_mul(b, d)),
{
    lemma_mul_associative(a, b, gf_mul(c, d));
    lemma_mul_associative(b, c, d);
    lemma_mul_commutative(b, c);
    lemma_mul_associative(c, b, d);
    lemma_mul_associative(a, c, gf_mul(b, d));
}

/// `a^(m + n) == a^m * a^n`.
pub proof fn lemma_pow_add(a: u8, m: nat, n: nat)
    ensures
        gf_pow(a, m + n) == gf_mul(gf_pow(a, m), gf_pow(a, n)),
    decreases m,
{
    if m == 0 {
        lemma_mul_one(gf_pow(a, n));
    } else {
        lemma_pow_add(a, (m - 1) as nat, n);
        lemma_mul_associative(a, gf_pow(a, (m - 1) as nat), gf_pow(a, n));
        assert(m + n - 1 == (m - 1) as nat + n);
    }
}

/// `(a * a)^k == a^(2k)`.
pub proof fn lemma_pow_square(a: u8, k: nat)
    ensures
        gf_pow(gf_mul(a, a), k) == gf_pow(a, 2 * k),
    decreases k,
{
    reveal_with_fuel(gf_pow, 3);
    if k > 0 {
        lemma_pow_square(a, (k - 1) as nat);
        lemma_mul_one(a);
        lemma_pow_add(a, 2, (2 * (k - 1)) as nat);
        assert(2 + 2 * (k - 1) == 2 * k);
    }
}

/// `(a * b)^n == a^n * b^n`.
pub proof fn lemma_pow_mul(a: u8, b: u8, n: nat)
    ensures
        gf_pow(gf_mul(a, b), n) == gf_mul(gf_pow(a, n), gf_pow(b, n)),
    decreases n,
{
    if n == 0 {
        lemma_mul_one(1);
    } else {
        lemma_pow_mul(a, b, (n - 1) as nat);
        lemma_mul_interchange(a, b, gf_pow(a, (n - 1) as nat), gf_pow(b, (n - 1) as nat));
    }
}

/// Every nonzero element times its 254th power is one.
pub proof fn lemma_mul_inverse(a: u8)
    requires
        a != 0,
    ensures
        gf_mul(a, gf_inv(a)) == 1,
        gf_mul(gf_inv(a), a) == 1,
{
    let s1 = gf_mul(a, a);
    let s2 = gf_mul(s1, s1);
    let s3 = gf_mul(s2, s2);
    let s4 = gf_mul(s3, s3);
    let s5 = gf_mul(s4, s4);
    let s6 = gf_mul(s5, s5);
    let s7 = gf_mul(s6, s6);
    let r2 = gf_mul(s1, s2);
    let r3 = gf_mul(r2, s3);
    let r4 = gf_mul(r3, s4);
    let r5 = gf_mul(r4, s5);
    let r6 = gf_mul(r5, s6);
    let r7 = gf_mul(r6, s7);
    let last = gf_mul(a, r7);
    lemma_mul_unfold(a, a);
    lemma_mul_unfold(s1, s1);
    lemma_mul_unfold(s2, s2);
    lemma_mul_unfold(s3, s3);
    lemma_mul_unfold(s4, s4);
    lemma_mul_unfold(s5, s5);
    lemma_mul_unfold(s6, s6);
    lemma_mul_unfold(s1, s2);
    lemma_mul_unfold(r2, s3);
    lemma_mul_unfold(r3, s4);
    lemma_mul_unfold(r4, s5);
    lemma_mul_unfold(r5, s6);
    lemma_mul_unfold(r6, s7);
    lemma_mul_unfold(a, r7);
    assert(last == 1) by (bit_vector)
        requires
            a != 0,
            s1 == mul_flat(a, a),
            s2 == mul_flat(s1, s1),
            s3 == mul_flat(s2, s2),
            s4 == mul_flat(s3, s3),
            s5 == mul_flat(s4, s4),
            s6 == mul_flat(s5, s5),
            s7 == mul_flat(s6, s6),
            r2 == mul_flat(s1, s2),
            r3 == mul_flat(r2, s3),
            r4 == mul_flat(r3, s4),
            r5 == mul_flat(r4, s5),
            r6 == mul_flat(r5, s6),
            r7 == mul_flat(r6, s7),
            last == mul_flat(a, r7),
    ;
    // The chain computes a^254.
    reveal_with_fuel(gf_pow, 3);
    lemma_mul_one(a);
    assert(s1 == gf_pow(a, 2));
    lemma_pow_add(a, 2, 2);
    lemma_pow_add(a, 4, 4);
    lemma_pow_add(a, 8, 8);
    lemma_pow_add(a, 16, 16);
    lemma_pow_add(a, 32, 32);
    lemma_pow_add(a, 64, 64);
    assert(s7 == gf_pow(a, 128));
    lemma_pow_add(a, 2, 4);
    lemma_pow_add(a, 6, 8);
    lemma_pow_add(a, 14, 16);
    lemma_pow_add(a, 30, 32);
    lemma_pow_add(a, 62, 64);
    lemma_pow_add(a, 126, 128);
    assert(r7 == gf_pow(a, 254));
    lemma_mul_commutative(a, gf_inv(a));
}

/// A product is zero only when a factor is.
pub proof fn lemma_no_zero_divisors(a: u8, b: u8)
    requires
        gf_mul(a, b) == 0,
    ensures
        a == 0 || b == 0,
{
    if a != 0 {
        lemma_mul_inverse(a);
        lemma_mul_associative(gf_inv(a), a, b);
        lemma_mul_one(b);
        lemma_mul_zero(gf_inv(a));
    }
}

/// The inverse of a product is the product of the inverses.
pub proof fn lemma_inv_mul(a: u8, b: u8)
    ensures
        gf_inv(gf_mul(a, b)) == gf_mul(gf_inv(a), gf_inv(b)),
{
    lemma_pow_mul(a, b, 254);
}

/// The inverse of one is one.
pub proof fn lemma_inv_one()
    ensures
        gf_inv(1) == 1,
{
    lemma_mul_inverse(1);
    lemma_mul_one(gf_inv(1));
}

/// Multiplication in GF(256) in eight rounds, whatever the operands.
pub fn gf256_multiply_const_time(a: u8, b: u8) -> (p: u8)
    ensures
        p == gf_mul(a, b),
{
    let ghost a0 = a;
    let ghost b0 = b;
    let mut a = a;
    let mut b = b;
    let mut p: u8 = 0;
    let mut i: u8 = 0;
    proof {
        assert(b >> 0u8 == b) by (bit_vector);
    }
    while i < 8
        invariant
            i <= 8,
            a == xtime_n(a0, i as nat),
            b == b0 >> i,
            p == mul_partial(a0, b0, i as nat),
        decreases 8 - i,
    {
        proof {
            assert((b0 >> i) >> 1u8 == b0 >> ((i + 1) as u8)) by (bit_vector)
                requires
                    i < 8,
            ;
            assert(p ^ 0 == p) by (bit_vector);
        }
        if (b & 1) != 0 {
            p ^= a;
        }
        let carry = a & 0x80;
        a <<= 1;
        if carry != 0 {
            a ^= 0x1b;
        }
        b >>= 1;
        i += 1;
    }
    p
}

/// The inverse of `a` as `a^254`, by square-and-multiply over a fixed exponent.
/// Zero, which has no inverse, gives zero.
pub fn gf256_inverse_const_time(a: u8) -> (r: u8)
    ensures
        r == gf_inv(a),
        a != 0 ==> gf_mul(a, r) == 1,
        a == 0 ==> r == 0,
{
    if a == 0 {
        proof {
            lemma_mul_zero(gf_pow(0, 253));
        }
        return 0;
    }
    proof {
        lemma_mul_inverse(a);
    }
    FiniteField(a).exp(254).0
}

/// An element of GF(2^8) under the reduction polynomial x^8 + x^4 + x^3 + x + 1.
#[derive(Debug, Clone, Copy, PartialEq, Eq, Structural)]
pub struct FiniteField(pub u8);

impl FiniteField {
    /// The element with the given byte.
    pub fn new(value: u8) -> (r: Self)
        ensures
            r.0 == value,
    {
        Self(value)
    }

    /// The product in GF(256), in a fixed number of rounds.
    pub fn multiply(self, other: Self) -> (r: Self)
        ensures
            r.0 == gf_mul(self.0, other.0),
    {
        Self(gf256_multiply_const_time(self.0, other.0))
    }

    /// `self` raised to the power `exp`, by square-and-multiply.
    pub fn exp(self, exp: u32) -> (r: Self)
        ensures
            r.0 == gf_pow(self.0, exp as nat),
    {
        let mut exp = exp;
        let ghost n = exp;
        let mut result = FiniteField::new(1);
        let mut base = self;
        proof {
            lemma_mul_one(gf_pow(self.0, n as nat));
        }
        while exp > 0
            invariant
                gf_mul(result.0, gf_pow(base.0, exp as nat)) == gf_pow(self.0, n as nat),
            decreases exp,
        {
            proof {
                let half = exp >> 1;
                assert(half == exp / 2 && (exp & 1 == 1 <==> exp % 2 == 1)) by (bit_vector)
                    requires
                        half == exp >> 1,
                ;
                lemma_pow_square(base.0, half as nat);
                if exp & 1 == 1 {
                    assert(exp as nat == 2 * (half as nat) + 1);
                    lemma_mul_associative(
                        result.0,
                        base.0,
                        gf_pow(base.0, (2 * (half as nat)) as nat),
                    );
                } else {
                    assert(exp as nat == 2 * (half as nat));
                }
            }
            if exp & 1 == 1 {
                result = result.multiply(base);
            }
            base = base.multiply(base);
            exp >>= 1;
        }
        proof {
            lemma_mul_one(result.0);
        }
        result
    }

    /// Overwrites the element with zero.
    pub fn zeroize(&mut self)
        ensures
            final(self).0 == 0,
    {
        self.0 = 0;
    }

    /// The multiplicative inverse; `None` for zero, which has none.
    pub fn inverse(self) -> (r: Option<Self>)
        ensures
            self.0 == 0 <==> r is None,
            r matches Some(inv) ==> inv.0 == gf_inv(self.0) && gf_mul(self.0, inv.0) == 1,
    {
        if self.0 == 0 {
            None
        } else {
            Some(Self(gf256_inverse_const_time(self.0)))
        }
    }
}

/// Addition in GF(256) is XOR.
impl core::ops::Add for FiniteField {
    type Output = Self;

    fn add(self, other: Self) -> (r: Self) {
        Self(self.0 ^ other.0)
    }
}

impl vstd::std_specs::ops::AddSpecImpl for FiniteField {
    open spec fn obeys_add_spec() -> bool {
        true
    }

    open spec fn add_req(self, other: Self) -> bool {
        true
    }

    open spec fn add_spec(self, other: Self) -> Self {
        FiniteField(self.0 ^ other.0)
    }
}

/// Multiplication in GF(256) is `multiply`.
impl core::ops::Mul for FiniteField {
    type Output = Self;

    fn mul(self, other: Self) -> (r: Self) {
        self.multiply(other)
    }
}

impl vstd::std_specs::ops::MulSpecImpl for FiniteField {
    open spec fn obeys_mul_spec() -> bool {
        true
    }

    open spec fn mul_req(self, other: Self) -> bool {
        true
    }

    open spec fn mul_spec(self, other: Self) -> Self {
        FiniteField(gf_mul(self.0, other.0))
    }
}

/// Subtraction in GF(256) is addition.
impl core::ops::Sub for FiniteField {
    type Output = Self;

    fn sub(self, other: Self) -> (r: Self) {
        self + other
    }
}

impl vstd::std_specs::ops::SubSpecImpl for FiniteField {
    open spec fn obeys_sub_spec() -> bool {
        true
    }

    open spec fn sub_req(self, other: Self) -> bool {
        true
    }

    open spec fn sub_spec(self, other: Self) -> Self {
        FiniteField(self.0 ^ other.0)
    }
}

} // verus!
