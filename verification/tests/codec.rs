use falcon_core::encoding::{compress, decompress};

#[test]
fn compress_known_bytes() {
    assert_eq!(
        compress(&[1, -1, 0, 127, -128, 300], 8),
        Some(vec![1, 192, 192, 47, 248, 4, 176, 128])
    );
    assert_eq!(compress(&[5, -3], 3), Some(vec![5, 193, 192]));
    assert_eq!(compress(&[], 2), Some(vec![0, 0]));
    assert_eq!(compress(&[], 0), Some(vec![]));
}

#[test]
fn compress_fails_exactly_when_the_bits_do_not_fit() {
    // 57 bits: 8 bytes are enough, 7 are not
    assert!(compress(&[1, -1, 0, 127, -128, 300], 8).is_some());
    assert_eq!(compress(&[1, -1, 0, 127, -128, 300], 7), None);
    assert_eq!(compress(&[1, -1, 0, 127, -128, 300], 6), None);
    // one coefficient of magnitude 128 * 7: 9 + 7 = 16 bits
    assert!(compress(&[896], 2).is_some());
    assert_eq!(compress(&[896 + 127], 2).map(|w| w.len()), Some(2));
    assert_eq!(compress(&[1024], 2), None);
    assert_eq!(compress(&[0], 0), None);
}

#[test]
fn codec_round_trip() {
    let vectors: Vec<Vec<i32>> = vec![
        vec![],
        vec![0],
        vec![1, -1, 0, 127, -128, 300],
        vec![-2047, 2047, 128, -129, 0, 0, 5],
        (0..64).map(|i| (i * 37 % 400) - 200).collect(),
    ];
    for v in vectors {
        for slen in [40usize, 200, 666] {
            match compress(&v, slen) {
                Some(w) => {
                    assert_eq!(w.len(), slen);
                    assert_eq!(decompress(&w, slen, v.len()), Some(v.clone()));
                }
                None => assert!(slen == 40),
            }
        }
    }
}

#[test]
fn round_trip_of_the_extreme_coefficients() {
    let v = vec![i32::MAX];
    let slen = (9 + (i32::MAX as usize >> 7)) / 8 + 1;
    let w = compress(&v, slen).unwrap();
    assert_eq!(decompress(&w, slen, 1), Some(v));
    let v = vec![i32::MIN];
    let slen = (9 + (1usize << 24)) / 8 + 1;
    let w = compress(&v, slen).unwrap();
    assert_eq!(decompress(&w, slen, 1), Some(v));
}

#[test]
fn decompress_rejects_a_negative_zero() {
    // sign 1, seven zero bits, closing one
    assert_eq!(decompress(&[0b1000_0000, 0b1000_0000], 2, 1), None);
    // the same after a valid coefficient (+1: 0 0000001 1)
    assert_eq!(decompress(&[0b0000_0001, 0b1100_0000, 0b0100_0000], 3, 2), None);
    // a positive zero is fine
    assert_eq!(decompress(&[0b0000_0000, 0b1000_0000], 2, 1), Some(vec![0]));
}

#[test]
fn decompress_rejects_malformed_input() {
    let w = compress(&[5, -3], 3).unwrap();
    // too long for the stated length
    assert_eq!(decompress(&w, 2, 2), None);
    // wrong number of coefficients
    assert_eq!(decompress(&w, 3, 1), None);
    assert_eq!(decompress(&w, 3, 3), None);
    assert_eq!(decompress(&w, 3, 2), Some(vec![5, -3]));
    // a shorter input with the padding cut off decodes too
    assert_eq!(decompress(&w[..3], 10, 2), Some(vec![5, -3]));
    // nothing but padding
    assert_eq!(decompress(&[0, 0, 0], 3, 0), Some(vec![]));
    assert_eq!(decompress(&[0, 0, 0], 3, 1), None);
    assert_eq!(decompress(&[], 3, 0), Some(vec![]));
    // the unary part is never closed: sign, low bits, then only the bits of
    // a stripped tail
    assert_eq!(decompress(&[0b0000_0100], 1, 1), None);
    // fewer than nine bits are left for a coefficient
    assert_eq!(decompress(&[0b0000_0001, 0b1100_0000], 2, 2), None);
}

#[test]
fn what_decodes_is_the_compressed_form_of_what_it_decodes_to() {
    // every two-byte string: where it decodes, compressing gives it back
    let mut decodable = 0;
    for a in 0..=255u8 {
        for b in 0..=255u8 {
            for n in 0..3usize {
                if let Some(v) = decompress(&[a, b], 2, n) {
                    assert_eq!(compress(&v, 2), Some(vec![a, b]));
                    decodable += 1;
                }
            }
        }
    }
    // nothing but padding for no coefficients, and one coefficient with
    // either sign, any low bits and a unary part of one to eight bits; the
    // negative zero is not among them
    assert_eq!(decodable, 1 + 2 * 128 * 8 - 1);
}
