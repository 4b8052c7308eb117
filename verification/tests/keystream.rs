use falcon_core::rng::{ChaCha20, BLOCK_BYTES};

fn seed_of(f: impl Fn(usize) -> u8) -> Vec<u8> {
    (0..56).map(f).collect()
}

#[test]
fn keystream_known_bytes() {
    let mut g = ChaCha20::new(&seed_of(|_| 0));
    assert!(g.can_emit(16));
    assert_eq!(
        g.randombytes(16),
        vec![118, 184, 224, 173, 239, 63, 223, 214, 208, 197, 185, 183, 2, 47, 43, 240]
    );
    assert_eq!(
        g.randombytes(16),
        vec![85, 19, 137, 217, 45, 139, 38, 52, 91, 19, 178, 35, 216, 177, 202, 191]
    );
    let mut g = ChaCha20::new(&seed_of(|i| i as u8));
    assert_eq!(
        g.randombytes(16),
        vec![207, 157, 20, 26, 32, 189, 253, 189, 158, 159, 185, 186, 54, 154, 87, 178]
    );
}

#[test]
fn keystream_is_deterministic() {
    let seed = seed_of(|i| (i * 7 + 3) as u8);
    let mut a = ChaCha20::new(&seed);
    let mut b = ChaCha20::new(&seed);
    for k in [1usize, 9, 16, 0, 511, 512, 3, 200, 400] {
        assert!(a.can_emit(k));
        assert!(b.can_emit(k));
        let x = a.randombytes(k);
        assert_eq!(x.len(), k);
        assert_eq!(x, b.randombytes(k));
    }
}

#[test]
fn only_the_first_56_bytes_of_the_seed_count() {
    let mut long = seed_of(|i| i as u8);
    long.extend_from_slice(&[9, 9, 9]);
    let mut a = ChaCha20::new(&long);
    let mut b = ChaCha20::new(&seed_of(|i| i as u8));
    assert_eq!(a.randombytes(64), b.randombytes(64));
}

#[test]
fn distinct_seeds_give_distinct_streams() {
    let mut zero = ChaCha20::new(&seed_of(|_| 0));
    let mut other = ChaCha20::new(&seed_of(|i| if i == 0 { 1 } else { 0 }));
    let z1 = zero.randombytes(16);
    let z2 = zero.randombytes(16);
    let o1 = other.randombytes(16);
    let o2 = other.randombytes(16);
    assert_ne!(z1, o1);
    assert_ne!(z2, o2);
    assert_ne!(z1, z2);
}

#[test]
fn a_request_that_the_pending_bytes_cannot_serve_starts_a_fresh_block() {
    let seed = seed_of(|i| i as u8);
    let mut g = ChaCha20::new(&seed);
    let _ = g.randombytes(500);
    // 12 bytes are pending; a request for 20 drops them
    assert_eq!(
        g.randombytes(20),
        vec![198, 65, 15, 93, 64, 18, 28, 182, 211, 150, 209, 128, 121, 117, 32, 233, 100, 56, 25, 94]
    );
}

#[test]
fn requests_beyond_a_block_or_an_exhausted_counter_cannot_be_served() {
    let mut g = ChaCha20::new(&seed_of(|_| 0));
    assert_eq!(BLOCK_BYTES, 512);
    assert!(g.can_emit(512));
    assert!(!g.can_emit(513));
    // the counter is the number that seed bytes 48 to 55 spell
    let mut last = ChaCha20::new(&seed_of(|i| if i >= 48 { 255 } else { 0 }));
    assert!(last.can_emit(0));
    assert!(!last.can_emit(1));
    let mut near = ChaCha20::new(&seed_of(|i| if i == 48 { 247 } else if i > 48 { 255 } else { 0 }));
    assert!(near.can_emit(512));
    let _ = near.randombytes(512);
    assert!(!near.can_emit(1));
    let _ = g.randombytes(1);
    let _ = last.randombytes(0);
}
