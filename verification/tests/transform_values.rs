use falcon_core::ntrugen::karamul;
use falcon_core::ntt::{
    add_ntt, div_ntt, div_zq, intt, merge_ntt, mul_ntt, mul_zq, neg_zq, ntt, split_ntt, sub_ntt,
};
use falcon_core::ntt_constants::{get_inv_mod_q, get_roots_dict, roots_dict_zq, table_of};

const Q: i64 = 12289;

fn ramp(n: usize, step: u32) -> Vec<u32> {
    (0..n as u32).map(|i| (i * step + 7) % 12289).collect()
}

#[test]
fn root_tables_start_with_the_known_roots() {
    let dict = roots_dict_zq();
    assert_eq!(dict.get(&2).unwrap(), &vec![1479, 10810]);
    assert_eq!(dict.get(&4).unwrap(), &vec![4043, 8246, 5146, 7143]);
    assert_eq!(
        dict.get(&8).unwrap(),
        &vec![5736, 6553, 4134, 8155, 722, 11567, 1305, 10984]
    );
    let big = dict.get(&1024).unwrap();
    assert_eq!(big.len(), 1024);
    assert_eq!(&big[..4], &[1826, 10463, 2926, 9363]);
    assert_eq!(&big[1022..], &[2595, 9694]);
    assert_eq!(big.iter().map(|&x| x as u64).sum::<u64>(), 6291968);
}

#[test]
fn root_tables_cover_two_to_1024_and_nothing_else() {
    let dict = get_roots_dict();
    let mut n = 2;
    while n <= 1024 {
        assert!(dict.contains_key(&n));
        assert_eq!(dict.get(&n).unwrap().len(), n);
        assert_eq!(dict[&n].len(), n);
        n *= 2;
    }
    for n in [0usize, 1, 3, 6, 100, 2048] {
        assert!(!dict.contains_key(&n));
        assert!(dict.get(&n).is_none());
    }
    assert_eq!(dict.len(), 10);
    assert_eq!(table_of(&dict, 8), &dict[&8]);
}

#[test]
fn roots_are_paired_square_roots() {
    let dict = get_roots_dict();
    let mut n = 4;
    while n <= 1024 {
        let w = &dict[&n];
        let half = &dict[&(n / 2)];
        for i in 0..n / 2 {
            let r = w[2 * i] as u64;
            assert_eq!(w[2 * i + 1] as u64, 12289 - r);
            assert!(w[2 * i] < w[2 * i + 1]);
            assert_eq!(r * r % 12289, half[i] as u64);
        }
        n *= 2;
    }
    let w = &dict[&2];
    assert_eq!((w[0] as u64 * w[0] as u64) % 12289, 12288);
}

#[test]
fn inverse_table_holds_inverses() {
    let inv = get_inv_mod_q();
    assert_eq!(
        &inv[..16],
        &[0, 1, 6145, 8193, 9217, 2458, 10241, 8778, 10753, 2731, 1229, 5586, 11265, 2836, 4389, 9012]
    );
    assert_eq!(inv[12288], 12288);
    for x in 1..12289u64 {
        assert_eq!(x * inv[x as usize] as u64 % 12289, 1);
    }
}

#[test]
fn transform_of_small_polynomials() {
    assert_eq!(ntt(&[5]), vec![5]);
    assert_eq!(intt(&[5]), vec![5]);
    assert_eq!(ntt(&[1, 2]), vec![2959, 9332]);
    assert_eq!(ntt(&[1, 2, 3, 4]), vec![4229, 4647, 1973, 1444]);
    assert_eq!(intt(&[4229, 4647, 1973, 1444]), vec![1, 2, 3, 4]);
}

#[test]
fn transform_round_trip_for_every_size() {
    let mut n = 1;
    while n <= 1024 {
        let f = ramp(n, 977);
        assert_eq!(intt(&ntt(&f)), f);
        assert_eq!(ntt(&intt(&f)), f);
        n *= 2;
    }
}

#[test]
fn split_and_merge_are_inverse() {
    let f = ramp(16, 4001);
    let (a, b) = split_ntt(&f);
    assert_eq!(a.len(), 8);
    assert_eq!(merge_ntt(&a, &b), f);
    let (c, d) = split_ntt(&merge_ntt(&a, &b));
    assert_eq!(c, a);
    assert_eq!(d, b);
    assert_eq!(merge_ntt(&[3], &[4]), vec![(3 + 1479 * 4) % 12289, (3 + 12289 * 4 - 1479 * 4) % 12289]);
}

#[test]
fn multiplication_wraps_with_a_sign_change() {
    assert_eq!(mul_zq(&[0, 1], &[0, 1]), vec![12288, 0]);
    assert_eq!(mul_zq(&[1, 2, 3, 4], &[5, 6, 7, 8]), vec![12233, 12253, 2, 60]);
    assert_eq!(mul_zq(&[3], &[5]), vec![15]);
}

#[test]
fn multiplication_agrees_with_karatsuba() {
    let mut n = 1;
    while n <= 256 {
        let a: Vec<i64> = (0..n as i64).map(|i| (i * 37 + 11) % 201 - 100).collect();
        let b: Vec<i64> = (0..n as i64).map(|i| (i * 53 + 5) % 151 - 75).collect();
        let exact = karamul(&a, &b);
        let am: Vec<u32> = a.iter().map(|&x| x.rem_euclid(Q) as u32).collect();
        let bm: Vec<u32> = b.iter().map(|&x| x.rem_euclid(Q) as u32).collect();
        let expected: Vec<u32> = exact.iter().map(|&x| x.rem_euclid(Q) as u32).collect();
        assert_eq!(mul_zq(&am, &bm), expected);
        n *= 2;
    }
}

#[test]
fn division_undoes_multiplication() {
    let f = ramp(32, 611);
    let g = ramp(32, 5003);
    let h = mul_zq(&f, &g);
    assert_eq!(div_zq(&h, &g), Ok(f));
}

#[test]
fn division_by_a_zero_divisor_is_an_error() {
    assert_eq!(div_zq(&[1, 2], &[0, 0]), Err("ZeroDivisionError"));
    // x^2 + 1 has the root 1479, so 1479 - x (and x - 1479) divides it
    assert!(ntt(&[12289 - 1479, 1]).contains(&0));
    assert_eq!(div_zq(&[1, 0], &[12289 - 1479, 1]), Err("ZeroDivisionError"));
    assert_eq!(div_zq(&[7], &[0]), Err("ZeroDivisionError"));
    assert_eq!(div_zq(&[7], &[12289]), Err("ZeroDivisionError"));
    assert_eq!(div_zq(&[6], &[2]), Ok(vec![3]));
}

#[test]
fn pointwise_operations() {
    assert_eq!(neg_zq(&[0, 1, 12288, 5]), vec![0, 12288, 1, 12284]);
    assert_eq!(add_ntt(&[12288, 5], &[1, 6]), vec![0, 11]);
    assert_eq!(sub_ntt(&[0, 5], &[1, 6]), vec![12288, 12288]);
    assert_eq!(mul_ntt(&[12288, 100], &[12288, 200]), vec![1, 20000 % 12289]);
    assert_eq!(div_ntt(&[1, 10], &[2, 5]), vec![6145, 2]);
    assert_eq!(mul_ntt(&[4294967295], &[4294967295]), vec![((4294967295u64 % 12289).pow(2) % 12289) as u32]);
}

#[test]
fn transform_is_evaluation_at_the_roots() {
    let dict = get_roots_dict();
    assert_eq!(dict.len(), 10);
    let mut n = 2;
    while n <= 64 {
        let f = ramp(n, 3001);
        let image = ntt(&f);
        let w = &dict[&n];
        for k in 0..n {
            let mut value = 0u64;
            for j in (0..n).rev() {
                value = (value * w[k] as u64 + f[j] as u64) % 12289;
            }
            assert_eq!(image[k] as u64, value);
        }
        n *= 2;
    }
}
