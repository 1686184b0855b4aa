use encipher::bigint::{big_eq, big_from_le, big_from_u64, big_lt, big_to_le};
use encipher::hash::{DigestSum, Hasher};
use encipher::kernel::{
    big_pow2, get_k_s, integer_sqrt, mod_inverse, mod_mul, mod_sub, pow_mod, square_root_mod,
    SqrtExt,
};
use encipher::result::Error;

#[test]
fn pow_mod_small_values() {
    // 3^5 mod 7 == 243 mod 7 == 5
    let r = pow_mod(&big_from_u64(3), &big_from_u64(5), &big_from_u64(7));
    assert!(big_eq(&r, &big_from_u64(5)));
    // anything to the zeroth power is one
    let r = pow_mod(&big_from_u64(12), &big_from_u64(0), &big_from_u64(100));
    assert!(big_eq(&r, &big_from_u64(1)));
    // modulus one collapses everything
    let r = pow_mod(&big_from_u64(5), &big_from_u64(3), &big_from_u64(1));
    assert!(big_eq(&r, &big_from_u64(0)));
}

#[test]
fn mod_inverse_found_and_checked() {
    // 3 * 5 == 15 == 2*7 + 1
    let inv = mod_inverse(&big_from_u64(3), &big_from_u64(7)).unwrap();
    assert!(big_eq(&inv, &big_from_u64(5)));
}

#[test]
fn mod_inverse_rejects_common_divisor() {
    let r = mod_inverse(&big_from_u64(6), &big_from_u64(9));
    assert_eq!(r.unwrap_err(), Error::MathError);
}

#[test]
fn mod_sub_wraps_under_zero() {
    // 2 - 5 mod 7 == 4
    let r = mod_sub(&big_from_u64(2), &big_from_u64(5), &big_from_u64(7));
    assert!(big_eq(&r, &big_from_u64(4)));
}

#[test]
fn integer_sqrt_exact_only() {
    let r = integer_sqrt(&big_from_u64(144)).unwrap();
    assert!(big_eq(&r, &big_from_u64(12)));
    assert!(integer_sqrt(&big_from_u64(10)).is_none());
    let r = integer_sqrt(&big_from_u64(0)).unwrap();
    assert!(big_eq(&r, &big_from_u64(0)));
    let r = integer_sqrt(&big_from_u64(1)).unwrap();
    assert!(big_eq(&r, &big_from_u64(1)));
}

#[test]
fn sqrt_extension_trait() {
    let n = big_from_u64(169);
    let r = (&n).sqrt().unwrap();
    assert!(big_eq(&r, &big_from_u64(13)));
    let n = big_from_u64(170);
    let r: Option<ibig::UBig> = (&n).sqrt();
    assert!(r.is_none());
}

#[test]
fn two_adic_split_counts_halvings() {
    // 40 == 2^3 * 5, and the exponent counts halvings plus one
    let (s, q) = get_k_s(&big_from_u64(40)).unwrap();
    assert_eq!(s, 4);
    assert!(big_eq(&q, &big_from_u64(5)));
    let (s, q) = get_k_s(&big_from_u64(5)).unwrap();
    assert_eq!(s, 1);
    assert!(big_eq(&q, &big_from_u64(5)));
}

#[test]
fn square_root_mod_known_residue() {
    // the square roots of 2 modulo 7 are 3 and 4
    let p = big_from_u64(7);
    let (r1, r2) = square_root_mod(&big_from_u64(2), &p).unwrap();
    let s1 = mod_mul(&r1, &r1, &p);
    let s2 = mod_mul(&r2, &r2, &p);
    assert!(big_eq(&s1, &big_from_u64(2)));
    assert!(big_eq(&s2, &big_from_u64(2)));
}

#[test]
fn square_root_mod_rejects_non_residue() {
    // 3 is not a square modulo 7
    assert!(square_root_mod(&big_from_u64(3), &big_from_u64(7)).is_none());
}

#[test]
fn square_root_mod_large_prime() {
    // 1000003 is prime and congruent to three modulo four
    let p = big_from_u64(1000003);
    let a = big_from_u64(98765);
    let sq = mod_mul(&a, &a, &p);
    let (r1, r2) = square_root_mod(&sq, &p).unwrap();
    let s1 = mod_mul(&r1, &r1, &p);
    let s2 = mod_mul(&r2, &r2, &p);
    assert!(big_eq(&s1, &sq));
    assert!(big_eq(&s2, &sq));
}

#[test]
fn pow2_and_byte_conversions() {
    let v = big_pow2(16);
    assert!(big_eq(&v, &big_from_u64(65536)));
    // 258 is [2, 1] little-endian, with no trailing zero byte
    let b = big_to_le(&big_from_u64(258));
    assert_eq!(b, vec![2, 1]);
    let v = big_from_le(&[2, 1, 0, 0]);
    assert!(big_eq(&v, &big_from_u64(258)));
    // zero encodes as the empty string
    assert_eq!(big_to_le(&big_from_u64(0)), Vec::<u8>::new());
}

#[test]
fn digest_sum_is_the_byte_sum() {
    let h = DigestSum.hash(&[1, 2, 3]);
    assert_eq!(h, vec![6, 0, 0, 0, 0, 0, 0, 0]);
    let h = DigestSum.hash(&[255, 255, 255]);
    assert_eq!(h, vec![253, 2, 0, 0, 0, 0, 0, 0]);
}

#[test]
fn generated_primes_have_the_requested_shape() {
    let p = encipher::kernel::gen_sized_prime(24, 4);
    let lo = big_pow2(23);
    let hi = big_pow2(24);
    assert!(!big_lt(&p, &lo));
    assert!(big_lt(&p, &hi));
}
