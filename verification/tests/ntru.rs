use falcon_core::common::{merge, split, sqnorm, sqnorm_fits};
use falcon_core::falcon::{logn, PublicKey, SecretKey, HEAD_LEN, SALT_LEN, SEED_LEN};
use falcon_core::ntrugen::{
    bitsize, field_norm, galois_conjugate, is_power_of_two, karamul, karatsuba, lift, norms_fit,
    xgcd,
};

fn schoolbook(a: &[i64], b: &[i64]) -> Vec<i64> {
    let mut r = vec![0i64; a.len() + b.len()];
    for i in 0..a.len() {
        for j in 0..b.len() {
            r[i + j] += a[i] * b[j];
        }
    }
    r
}

fn negacyclic(a: &[i64], b: &[i64]) -> Vec<i64> {
    let n = a.len();
    let p = schoolbook(a, b);
    (0..n).map(|i| p[i] - p[i + n]).collect()
}

fn gcd(a: i64, b: i64) -> i64 {
    if b == 0 {
        a.abs()
    } else {
        gcd(b, a % b)
    }
}

#[test]
fn karatsuba_is_the_plain_product() {
    assert_eq!(karatsuba(&[3], &[-4], 1), vec![-12, 0]);
    assert_eq!(karatsuba(&[1, 2], &[3, 4], 2), vec![3, 10, 8, 0]);
    let mut n = 1;
    while n <= 64 {
        let a: Vec<i64> = (0..n as i64).map(|i| (i * 31 + 7) % 41 - 20).collect();
        let b: Vec<i64> = (0..n as i64).map(|i| (i * 17 + 3) % 29 - 14).collect();
        assert_eq!(karatsuba(&a, &b, n), schoolbook(&a, &b));
        n *= 2;
    }
}

#[test]
fn karamul_reduces_modulo_x_n_plus_one() {
    assert_eq!(karamul(&[0, 1], &[0, 1]), vec![-1, 0]);
    assert_eq!(karamul(&[1, 2, 3, 4], &[5, 6, 7, 8]), vec![-56, -36, 2, 60]);
    let a: Vec<i64> = (0..32).map(|i| (i * i) % 23 - 11).collect();
    let b: Vec<i64> = (0..32).map(|i| (i * 5) % 19 - 9).collect();
    assert_eq!(karamul(&a, &b), negacyclic(&a, &b));
}

#[test]
fn large_coefficients_within_the_bound_multiply_exactly() {
    let a = vec![1i64 << 30, -(1i64 << 30)];
    let b = vec![1i64 << 30, 1i64 << 30];
    assert_eq!(karatsuba(&a, &b, 2), vec![1i64 << 60, 0, -(1i64 << 60), 0]);
}

#[test]
fn conjugate_changes_the_sign_of_odd_coefficients() {
    assert_eq!(galois_conjugate(&[1, 2, 3, 4]), vec![1, -2, 3, -4]);
    assert_eq!(galois_conjugate(&[]), Vec::<i64>::new());
    assert_eq!(galois_conjugate(&[i64::MIN + 1, i64::MAX]), vec![i64::MIN + 1, -i64::MAX]);
}

#[test]
fn lift_spreads_the_coefficients() {
    assert_eq!(lift(&[1, 2, 3]), vec![1, 0, 2, 0, 3, 0]);
    assert_eq!(lift(&[]), Vec::<i64>::new());
}

#[test]
fn field_norm_known_value() {
    assert_eq!(field_norm(&[1, 2, 3, 4, 5, 6, 7, 8]), vec![14, 32, 50, 68]);
    assert_eq!(field_norm(&[3, 4]), vec![25]);
}

#[test]
fn lifted_field_norm_is_the_product_with_the_conjugate() {
    let mut n = 2;
    while n <= 64 {
        let a: Vec<i64> = (0..n as i64).map(|i| (i * 13 + 5) % 37 - 18).collect();
        let direct = negacyclic(&a, &galois_conjugate(&a));
        assert_eq!(lift(&field_norm(&a)), direct);
        assert_eq!(karamul(&a, &galois_conjugate(&a)), direct);
        n *= 2;
    }
}

#[test]
fn bitsize_counts_bytes() {
    assert_eq!(bitsize(0), 0);
    assert_eq!(bitsize(1), 1);
    assert_eq!(bitsize(255), 1);
    assert_eq!(bitsize(256), 2);
    assert_eq!(bitsize(-256), 2);
    assert_eq!(bitsize(65535), 2);
    assert_eq!(bitsize(65536), 3);
    assert_eq!(bitsize(i64::MAX), 8);
    assert_eq!(bitsize(i64::MIN), 8);
}

#[test]
fn xgcd_known_values() {
    assert_eq!(xgcd(240, 46), (2, -9, 47));
    assert_eq!(xgcd(0, 0), (0, 1, 0));
    assert_eq!(xgcd(7, 0), (7, 1, 0));
    assert_eq!(xgcd(0, 7), (7, 0, 1));
    assert_eq!(xgcd(-4, 0), (-4, 1, 0));
}

#[test]
fn xgcd_gives_the_gcd_and_its_coefficients() {
    let values = [
        0i64, 1, -1, 2, 12289, -12289, 240, 46, 1 << 40, (1 << 40) + 1, 1_000_000_007,
        -998_244_353, i64::MAX, i64::MIN + 1, 600, -36,
    ];
    for &b in &values {
        for &n in &values {
            let (g, x, y) = xgcd(b, n);
            assert_eq!(g as i128, b as i128 * x as i128 + n as i128 * y as i128);
            assert_eq!(g.abs(), gcd(b, n));
            if b >= 0 && n >= 0 {
                assert!(g >= 0);
            }
        }
    }
}

#[test]
fn split_and_merge() {
    let f = vec![10, 11, 12, 13, 14, 15];
    let (f0, f1) = split(&f);
    assert_eq!(f0, vec![10, 12, 14]);
    assert_eq!(f1, vec![11, 13, 15]);
    assert_eq!(merge((&f0, &f1)), f);
    let (g0, g1) = split(&[1u8, 2, 3]);
    assert_eq!(g0, vec![1]);
    assert_eq!(g1, vec![2]);
    assert_eq!(merge::<i32>((&[], &[])), Vec::<i32>::new());
}

#[test]
fn sqnorm_sums_the_squares() {
    assert_eq!(sqnorm(&[vec![1i32, -2, 3], vec![4, 0]]), 30);
    assert_eq!(sqnorm::<i64>(&[]), 0);
    assert_eq!(sqnorm(&[vec![3_000_000_000i64], vec![-1]]), 9_000_000_000_000_000_001);
    assert_eq!(sqnorm(&[vec![255u8; 4]]), 4 * 255 * 255);
}

#[test]
fn logn_of_the_supported_degrees() {
    for k in 1..=10 {
        assert_eq!(logn(1 << k), Some(k));
    }
    for n in [0usize, 1, 3, 12, 1000, 2048] {
        assert_eq!(logn(n), None);
    }
}

#[test]
fn lengths_and_key_shapes() {
    assert_eq!(HEAD_LEN, 1);
    assert_eq!(SALT_LEN, 40);
    assert_eq!(SEED_LEN, 56);
    let pk = PublicKey { n: 512 };
    let sk = SecretKey { n: 512 };
    assert_eq!(pk.clone().n, sk.clone().n);
}

#[test]
fn conjugate_leaves_the_even_coefficients_alone() {
    assert_eq!(galois_conjugate(&[i64::MIN, 1, i64::MIN]), vec![i64::MIN, -1, i64::MIN]);
}

#[test]
fn bounds_can_be_tested_before_a_call() {
    assert!(is_power_of_two(1));
    assert!(is_power_of_two(1024));
    assert!(is_power_of_two(1 << 40));
    assert!(!is_power_of_two(0));
    assert!(!is_power_of_two(12));
    assert!(norms_fit(&[1 << 30, -(1 << 30)], &[1 << 30, 1 << 30]));
    assert!(norms_fit(&[i64::MAX], &[1]));
    assert!(norms_fit(&[i64::MAX], &[0]));
    assert!(!norms_fit(&[i64::MAX], &[2]));
    assert!(!norms_fit(&[i64::MIN], &[0]));
    assert!(!norms_fit(&[1 << 62, 1 << 62], &[0]));
    assert!(norms_fit(&[], &[]));
    assert!(sqnorm_fits(&[vec![3_000_000_000i64], vec![-1]]));
    assert!(sqnorm_fits(&[vec![3_037_000_499i64]]));
    assert!(!sqnorm_fits(&[vec![3_037_000_500i64]]));
    assert!(!sqnorm_fits(&[vec![i64::MIN], vec![i64::MIN, i64::MAX, 5]]));
    assert!(sqnorm_fits::<i32>(&[]));
}
