use falcon_core::rng::ChaCha20;
use falcon_core::samplerz::{
    approxexp, base_sample, basesampler, berexp, berexp_step, berexp_threshold, reflect, C, RCDT,
    RCDT_PREC,
};

const MAX_SIGMA: f64 = 1.8205;
const INV_2SIGMA2: f64 = 1.0 / (2.0 * (MAX_SIGMA * MAX_SIGMA));
const LN2: f64 = 0.69314718056;
const ILN2: f64 = 1.44269504089;

fn generator(tag: u8) -> ChaCha20 {
    let seed: Vec<u8> = (0..56).map(|i| if i < 48 { (i as u8).wrapping_mul(31) ^ tag } else { 0 }).collect();
    ChaCha20::new(&seed)
}

// The whole sampler, with the real-valued steps done here.
fn sample(mu: f64, sigma: f64, sigmin: f64, rng: &mut ChaCha20) -> i32 {
    assert!(sigmin <= sigma && sigma <= MAX_SIGMA);
    let s = mu.floor() as i32;
    let r = mu - s as f64;
    let dss = 1.0 / (2.0 * sigma * sigma);
    let ccs = sigmin / sigma;
    loop {
        assert!(rng.can_emit(9));
        let z0 = basesampler(rng);
        assert!(rng.can_emit(1));
        let b = rng.randombytes(1)[0];
        let z = reflect(b, z0);
        let mut x = (z as f64 - r).powi(2) * dss;
        x -= (z0 as f64).powi(2) * INV_2SIGMA2;
        let shift = (x * ILN2) as i32;
        let rest = x - (shift as f64) * LN2;
        let x63 = (rest * (1u64 << 63) as f64) as u64;
        let ccs63 = (ccs * (1u64 << 63) as f64) as u64;
        assert!(x63 < 1 << 63 && ccs63 <= 1 << 63);
        let v = approxexp(x63, ccs63);
        assert!(v >= 1);
        let threshold = berexp_threshold(shift as u32, v);
        assert!(rng.can_emit(8));
        if berexp(threshold, rng) {
            return z + s;
        }
    }
}

#[test]
fn tables_have_their_shape() {
    assert_eq!(RCDT_PREC, 72);
    assert_eq!(RCDT.len(), 18);
    assert_eq!(C.len(), 13);
    assert!(RCDT.windows(2).all(|w| w[0] > w[1]));
    assert!(RCDT[0] < 1 << 72);
    assert_eq!(C[12], 1 << 63);
}

#[test]
fn base_sample_counts_thresholds() {
    assert_eq!(base_sample(&[0; 9]), 18);
    assert_eq!(base_sample(&[255; 9]), 0);
    assert_eq!(base_sample(&[0, 0, 0, 0, 0, 0, 0, 0, 0x40]), 2);
    assert_eq!(base_sample(&[1, 0, 0, 0, 0, 0, 0, 0, 0]), 17);
    // 198 is the threshold before the last: 198 itself is not below it
    assert_eq!(base_sample(&[198, 0, 0, 0, 0, 0, 0, 0, 0]), 16);
    assert_eq!(base_sample(&[197, 0, 0, 0, 0, 0, 0, 0, 0]), 17);
}

#[test]
fn basesampler_draws_nine_bytes() {
    let mut a = generator(1);
    let mut b = generator(1);
    let z0 = basesampler(&mut a);
    let bytes = b.randombytes(9);
    assert_eq!(z0, base_sample(&bytes));
    assert_eq!(a.randombytes(32), b.randombytes(32));
}

#[test]
fn approxexp_known_values() {
    assert_eq!(approxexp(0, 1 << 63), 18446744073709551616);
    assert_eq!(approxexp(1 << 62, 1 << 63), 11188515852577162946);
    assert_eq!(approxexp(1 << 62, 1 << 62), 5594257926288581473);
    assert_eq!(approxexp(123456789012345678, 6000000000000000000), 11840447660470527390);
    assert_eq!(approxexp(5, 0), 0);
}

#[test]
fn approxexp_follows_the_exponential() {
    for (x, ccs) in [(0.1f64, 1.0f64), (0.5, 0.7), (0.69, 0.9)] {
        let v = approxexp((x * (1u64 << 63) as f64) as u64, (ccs * (1u64 << 63) as f64) as u64);
        let expected = ccs * (-x).exp();
        let got = v as f64 / 18446744073709551616.0;
        assert!((got - expected).abs() < 1e-9);
    }
}

#[test]
fn threshold_is_a_shift() {
    assert_eq!(berexp_threshold(0, 1), 0);
    assert_eq!(berexp_threshold(0, 1 << 64), u64::MAX);
    assert_eq!(berexp_threshold(4, 0x1_0000), 0xfff);
    assert_eq!(berexp_threshold(63, 1 << 64), 1);
    assert_eq!(berexp_threshold(64, 1 << 64), 1);
    assert_eq!(berexp_threshold(1000, 1 << 63), 0);
}

#[test]
fn one_byte_accepts_rejects_or_defers() {
    let z = 0x0102_0304_0506_0708u64;
    assert_eq!(berexp_step(z, 0, 0), Some(true));
    assert_eq!(berexp_step(z, 0, 1), None);
    assert_eq!(berexp_step(z, 0, 2), Some(false));
    assert_eq!(berexp_step(z, 7, 7), Some(true));
    assert_eq!(berexp_step(z, 7, 8), None);
    assert_eq!(berexp_step(z, 3, 200), Some(false));
    assert_eq!(berexp_step(0, 5, 0), None);
}

#[test]
fn berexp_decides_at_the_first_byte_that_differs() {
    for tag in 0..20u8 {
        let mut probe = generator(tag);
        let bytes: Vec<u8> = (0..8).map(|_| probe.randombytes(1)[0]).collect();
        let as_number = bytes.iter().fold(0u64, |acc, &b| (acc << 8) | b as u64);
        // the same bytes as threshold: eight equal bytes reject, all are used
        let mut g = generator(tag);
        assert!(!berexp(as_number, &mut g));
        assert_eq!(g.randombytes(4), probe.randombytes(4));
        // a larger threshold accepts, a smaller one rejects
        if as_number < u64::MAX {
            let mut g = generator(tag);
            assert!(berexp(as_number + 1, &mut g));
        }
        if as_number > 0 {
            let mut g = generator(tag);
            assert!(!berexp(as_number - 1, &mut g));
        }
        // a threshold that differs in the first byte needs one byte only
        let mut g = generator(tag);
        let mut one = generator(tag);
        let first = one.randombytes(1)[0];
        let z = ((first ^ 0x80) as u64) << 56;
        assert_eq!(berexp(z, &mut g), first < (first ^ 0x80));
        assert_eq!(g.randombytes(4), one.randombytes(4));
    }
}

#[test]
fn reflect_known_values() {
    assert_eq!(reflect(0, 0), 0);
    assert_eq!(reflect(1, 0), 1);
    assert_eq!(reflect(0, 5), -5);
    assert_eq!(reflect(1, 5), 6);
    assert_eq!(reflect(254, 18), -18);
    assert_eq!(reflect(255, 18), 19);
}

#[test]
fn sampler_is_deterministic() {
    let mut a = generator(7);
    let mut b = generator(7);
    for _ in 0..200 {
        assert_eq!(sample(0.3, 1.5, 1.2, &mut a), sample(0.3, 1.5, 1.2, &mut b));
    }
}

#[test]
fn sampler_distribution_sanity() {
    let mut rng = generator(42);
    let draws = 20000;
    let sigma = MAX_SIGMA;
    let sigmin = 1.8;
    let mut sum = 0.0f64;
    let mut squares = 0.0f64;
    for _ in 0..draws {
        let z = sample(0.0, sigma, sigmin, &mut rng) as f64;
        sum += z;
        squares += z * z;
    }
    let mean = sum / draws as f64;
    let variance = squares / draws as f64 - mean * mean;
    assert!(mean.abs() < 0.1, "mean {}", mean);
    assert!((variance - sigma * sigma).abs() < 0.1 * sigma * sigma, "variance {}", variance);
}

#[test]
fn sampler_follows_its_center() {
    let mut rng = generator(3);
    let draws = 10000;
    let mut sum = 0.0f64;
    for _ in 0..draws {
        sum += sample(-7.5, 1.6, 1.3, &mut rng) as f64;
    }
    assert!((sum / draws as f64 + 7.5).abs() < 0.1);
}
