use shamir_share::finite_field::{gf256_inverse_const_time, gf256_multiply_const_time};
use shamir_share::FiniteField;

#[test]
fn test_addition() {
    let a = FiniteField::new(0x53);
    let b = FiniteField::new(0xCA);
    assert_eq!((a + b).0, 0x99);
}

#[test]
fn test_multiplication() {
    let a = FiniteField::new(0x53);
    let b = FiniteField::new(0xCA);
    assert_eq!((a * b).0, 0x1);
}

#[test]
fn test_inverse() {
    let a = FiniteField::new(0x53);
    let inv = a.inverse().unwrap();
    assert_eq!((a * inv).0, 0x01);
}

#[test]
fn test_zero_inverse() {
    let zero = FiniteField::new(0);
    assert_eq!(zero.inverse(), None);
}

#[test]
fn test_multiplication_associativity() {
    let a = FiniteField::new(0x53);
    let b = FiniteField::new(0xCA);
    let c = FiniteField::new(0x7B);
    assert_eq!((a * b) * c, a * (b * c));
}

#[test]
fn test_all_inverses() {
    for i in 1..=255 {
        let a = FiniteField::new(i);
        let inv = a.inverse().unwrap();
        assert_eq!((a * inv).0, 0x01);
    }
}

#[test]
fn test_specific_inverses() {
    let test_values = [(0x53, 0xCA), (0x7B, 0x06), (0xA4, 0x8F), (0xE1, 0x0D)];

    for &(a, expected_inv) in &test_values {
        let field_a = FiniteField::new(a);
        let inv = field_a.inverse().unwrap();
        assert_eq!(inv.0, expected_inv, "Inverse mismatch for 0x{:02X}", a);
        assert_eq!((field_a * inv).0, 0x01);
    }
}

#[test]
fn test_commutativity() {
    let a = FiniteField::new(0x53);
    let b = FiniteField::new(0xCA);
    assert_eq!(a * b, b * a);
}

#[test]
fn test_distributivity() {
    let a = FiniteField::new(0x12);
    let b = FiniteField::new(0x34);
    let c = FiniteField::new(0x56);
    assert_eq!(a * (b + c), (a * b) + (a * c));
}

#[test]
fn test_identity() {
    let one = FiniteField::new(1);
    let value = FiniteField::new(0xAB);
    assert_eq!(value * one, value);
}

#[test]
fn test_subtraction_is_addition() {
    let a = FiniteField::new(0x53);
    let b = FiniteField::new(0xCA);
    assert_eq!(a - b, a + b);
    assert_eq!((a - a).0, 0);
}

#[test]
fn test_multiply_known_products() {
    assert_eq!(gf256_multiply_const_time(0x57, 0x83), 0xC1);
    assert_eq!(gf256_multiply_const_time(0x57, 0x13), 0xFE);
    assert_eq!(gf256_multiply_const_time(0x02, 0x80), 0x1B);
    assert_eq!(gf256_multiply_const_time(0, 0xFF), 0);
    assert_eq!(gf256_multiply_const_time(0xFF, 0), 0);
}

#[test]
fn test_field_laws_on_all_pairs() {
    for a in 0..=255u8 {
        for b in 0..=255u8 {
            let ab = gf256_multiply_const_time(a, b);
            assert_eq!(ab, gf256_multiply_const_time(b, a));
            if a != 0 && b != 0 {
                assert_ne!(ab, 0);
            }
        }
    }
}

#[test]
fn test_inverse_helper_of_zero_is_zero() {
    assert_eq!(gf256_inverse_const_time(0), 0);
    assert_eq!(gf256_inverse_const_time(1), 1);
    assert_eq!(gf256_inverse_const_time(0x53), 0xCA);
}

#[test]
fn test_exp() {
    let base = FiniteField::new(0x03);
    assert_eq!(base.exp(0), FiniteField::new(1));
    assert_eq!(base.exp(1), base);
    assert_eq!(base.exp(3), base * base * base);
    assert_eq!(base.exp(255), FiniteField::new(1));
    assert_eq!(FiniteField::new(0).exp(0), FiniteField::new(1));
    assert_eq!(FiniteField::new(0).exp(5), FiniteField::new(0));
    assert_eq!(base.exp(254), base.inverse().unwrap());
}
