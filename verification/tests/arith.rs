use ark_ec::batch::batch_inv_mod;
use ark_ec::bytes::{read_le, write_le};
use ark_ec::field::{add_mod, inv_mod, is_prime_u64, mul_mod, neg_mod, pow_mod, sqrt_mod, sub_mod};

#[test]
fn residue_arithmetic() {
    assert_eq!(add_mod(23, 20, 5), 2);
    assert_eq!(add_mod(23, 3, 5), 8);
    assert_eq!(sub_mod(23, 3, 5), 21);
    assert_eq!(sub_mod(23, 5, 3), 2);
    assert_eq!(neg_mod(23, 0), 0);
    assert_eq!(neg_mod(23, 10), 13);
    assert_eq!(mul_mod(23, 7, 10), 1);
    let p: u64 = 18446744073709551557;
    assert_eq!(mul_mod(p, p - 1, p - 1), 1);
    assert_eq!(add_mod(p, p - 1, p - 1), p - 2);
}

#[test]
fn inverses_and_powers() {
    assert_eq!(inv_mod(23, 0), None);
    assert_eq!(inv_mod(23, 3), Some(8));
    assert_eq!(inv_mod(23, 22), Some(22));
    assert_eq!(inv_mod(23, 1), Some(1));
    assert_eq!(pow_mod(23, 5, 11), 22);
    assert_eq!(pow_mod(23, 2, 11), 1);
    assert_eq!(pow_mod(23, 7, 0), 1);
    assert_eq!(pow_mod(101, 3, 100), 1);
}

#[test]
fn primality() {
    assert!(!is_prime_u64(0));
    assert!(!is_prime_u64(1));
    assert!(is_prime_u64(2));
    assert!(is_prime_u64(23));
    assert!(!is_prime_u64(91));
    assert!(is_prime_u64(97));
    assert!(!is_prime_u64(1000000007 * 3));
}

#[test]
fn square_roots() {
    let r = sqrt_mod(23, 5, 8).unwrap();
    assert!(r == 10 || r == 13);
    assert_eq!(sqrt_mod(23, 5, 0), Some(0));
    assert_eq!(sqrt_mod(23, 5, 11), None);
    for a in 1..23u64 {
        if let Some(y) = sqrt_mod(23, 5, a) {
            assert_eq!(y * y % 23, a);
        }
    }
    // 97 - 1 = 2^5 * 3 exercises several rounds of the Tonelli-Shanks loop
    for a in 1..97u64 {
        match sqrt_mod(97, 5, a) {
            Some(y) => assert_eq!(y * y % 97, a),
            None => assert_eq!(pow_mod(97, a, 48), 96),
        }
    }
}

#[test]
fn batch_inversion() {
    let mut v = vec![3, 0, 1, 22, 10];
    batch_inv_mod(23, &mut v);
    assert_eq!(v, vec![8, 0, 1, 22, 7]);
    let mut e: Vec<u64> = vec![];
    batch_inv_mod(23, &mut e);
    assert!(e.is_empty());
    let mut z = vec![0, 0];
    batch_inv_mod(23, &mut z);
    assert_eq!(z, vec![0, 0]);
}

#[test]
fn little_endian_bytes() {
    assert_eq!(write_le(0x0102, 3), vec![2, 1, 0]);
    assert_eq!(write_le(0x0102, 1), vec![2]);
    assert_eq!(read_le(&[2, 1, 0], 0, 3), 0x0102);
    assert_eq!(read_le(&[9, 2, 1], 1, 3), 0x0102);
    assert_eq!(read_le(&[0xff; 8], 0, 8), u64::MAX);
    assert_eq!(read_le(&write_le(123456789, 8), 0, 8), 123456789);
}
