use reform::error::KernelError;
use reform::poly::raw::zp;

fn check_add(x: u8, y: u8, p: u8) {
    let x64 = x as u64;
    let y64 = y as u64;
    let p64 = p as u64;
    let z64 = zp::add(x, y, p) as u64;
    assert_eq!(z64, (x64 + y64) % p64);
}

#[test]
fn test_add() {
    check_add(100, 200, 251);
    check_add(100, 151, 251);
    check_add(100, 100, 251);
}

fn check_sub(x: u8, y: u8, p: u8) {
    let x64 = x as u64;
    let y64 = y as u64;
    let p64 = p as u64;
    let z64 = zp::sub(x, y, p) as u64;
    assert_eq!(z64, (p64 + x64 - y64) % p64);
}

#[test]
fn test_sub() {
    check_sub(100, 200, 251);
    check_sub(200, 100, 251);
}

fn check_mul(x: u8, y: u8, p: u8) {
    let x64 = x as u64;
    let y64 = y as u64;
    let p64 = p as u64;
    let z64 = zp::mul(x, y, p) as u64;
    assert_eq!(z64, x64 * y64 % p64);
}

#[test]
fn test_mul() {
    check_mul(100, 200, 251);
    check_mul(11, 23, 251);
    check_mul(10, 20, 251);

    check_mul(250, 250, 251);
    check_mul(250, 2, 251);
    check_mul(2, 250, 251);
    check_mul(16, 16, 251);
    check_mul(128, 2, 251);
    check_mul(2, 128, 251);

    check_mul(0, 0, 251);
    check_mul(0, 1, 251);
    check_mul(0, 250, 251);
    check_mul(1, 0, 251);
    check_mul(250, 0, 251);
}

fn check_neg(x: u8, p: u8) {
    let z = zp::neg(x, p);
    assert_eq!(zp::add(x, z, p), 0);
}

#[test]
fn test_neg() {
    check_neg(0, 251);
    check_neg(1, 251);
    check_neg(2, 251);
    check_neg(10, 251);
    check_neg(16, 251);
    check_neg(31, 251);
    check_neg(100, 251);
    check_neg(200, 251);
    check_neg(249, 251);
    check_neg(250, 251);
}

fn check_inv(x: u8, p: u8) {
    let z = zp::inv(x, p).unwrap();
    assert_eq!(zp::mul(x, z, p), 1);
}

#[test]
fn test_inv() {
    check_inv(1, 251);
    check_inv(2, 251);
    check_inv(10, 251);
    check_inv(16, 251);
    check_inv(31, 251);
    check_inv(100, 251);
    check_inv(200, 251);
    check_inv(249, 251);
    check_inv(250, 251);
}

fn check_pow(x: u8, n: u8, p: u8) {
    let x64 = x as u64;
    let n32 = n as u32;
    let p64 = p as u64;
    let z64 = zp::pow(x, n as u32, p) as u64;
    assert_eq!(z64, x64.pow(n32) % p64);
}

#[test]
fn test_pow() {
    check_pow(0, 0, 251);
    check_pow(1, 0, 251);
    check_pow(2, 0, 251);
    check_pow(0, 1, 251);
    check_pow(1, 1, 251);
    check_pow(2, 1, 251);
    check_pow(0, 2, 251);
    check_pow(1, 2, 251);
    check_pow(2, 2, 251);

    check_pow(3, 3, 241);
    check_pow(3, 4, 241);
    check_pow(3, 5, 241);
    check_pow(3, 6, 241);

    check_pow(3, 3, 251);
    check_pow(3, 4, 251);
    check_pow(3, 5, 251);
    check_pow(3, 6, 251);

    check_pow(10, 3, 251);
    check_pow(10, 4, 251);
    check_pow(10, 5, 251);
    check_pow(10, 6, 251);

    check_pow(101, 3, 251);
    check_pow(101, 4, 251);
    check_pow(101, 5, 251);
    check_pow(101, 6, 251);
}

#[test]
fn inv_of_zero_is_not_invertible() {
    assert_eq!(zp::inv(0u64, 251u64), Err(KernelError::NotInvertible));
    assert_eq!(zp::inv(0u8, 2u8), Err(KernelError::NotInvertible));
}

#[test]
fn inv_fails_on_common_divisor() {
    assert_eq!(zp::inv(6u32, 15u32), Err(KernelError::NotInvertible));
    assert_eq!(zp::inv(4u32, 15u32), Ok(4));
}

#[test]
fn inv_times_value_is_one_for_every_residue() {
    let p: u16 = 257;
    let mut x: u16 = 1;
    while x < p {
        let z = zp::inv(x, p).unwrap();
        assert!(z < p);
        assert_eq!(zp::mul(x, z, p), 1);
        x += 1;
    }
}

#[test]
fn add_of_negation_is_zero() {
    let p: u64 = 18446744073709551557;
    for x in [0u64, 1, 2, 9223372036854775807, 18446744073709551556] {
        assert_eq!(zp::add(x, zp::neg(x, p), p), 0);
    }
}

#[test]
fn arithmetic_near_the_top_of_the_word() {
    let p: u64 = 18446744073709551557;
    let a: u64 = 18446744073709551556;
    let b: u64 = 18446744073709551555;
    // (-1) + (-2) = -3, (-1) - (-2) = 1, (-1) * (-2) = 2
    assert_eq!(zp::add(a, b, p), 18446744073709551554);
    assert_eq!(zp::sub(a, b, p), 1);
    assert_eq!(zp::sub(b, a, p), 18446744073709551556);
    assert_eq!(zp::mul(a, b, p), 2);
    assert_eq!(zp::mul(4294967296u64, 4294967296u64, p), 59);
    assert_eq!(zp::pow(2u64, 64, p), 59);
    assert_eq!(zp::pow(0u64, 0, p), 1);
    assert_eq!(zp::pow(0u64, 5, p), 0);
    assert_eq!(zp::add(200u8, 250u8, 251u8), 199);
}
