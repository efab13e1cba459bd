use lzan::zx0compat::{
    compress_zx0_compatible, compress_zx0_compatible_backward, dzx0_decode, dzx0_decode_backward,
    max_gap_backward, max_gap_forward,
};
use lzan::zx0opt::{optimize_zx0_with_bits, ZX0_MAX_OFFSET};


/// The in-place safety gap tracks running expansion. Literals are stored as they
/// are, so data without order expands slowly, by the flags and lengths of the small
/// matches that are still found; 16 KiB of it need more than the default margin of 32
/// bytes, while a stream that shrinks well barely moves the gap.
#[test]
fn zx0compat_in_place_gap_reflects_expansion() {
    // Incompressible data: the running gap exceeds the fixed 32-byte default margin.
    let mut s: u32 = 0x1234_5678;
    let noise: Vec<u8> = (0..16384)
        .map(|_| {
            s = s.wrapping_mul(1664525).wrapping_add(1013904223);
            (s >> 24) as u8
        })
        .collect();
    assert!(
        max_gap_forward(&compress_zx0_compatible(&noise)) > 32,
        "incompressible forward gap must exceed the fixed 32-byte margin"
    );
    assert!(
        max_gap_backward(&compress_zx0_compatible_backward(&noise)) > 32,
        "incompressible backward gap must exceed the fixed 32-byte margin"
    );
    // Highly compressible data barely expands: the default margin is fine.
    let zeros = vec![0u8; 8192];
    assert!(
        max_gap_backward(&compress_zx0_compatible_backward(&zeros)) <= 32,
        "compressible data should fit within the default margin"
    );
}

fn roundtrips(data: &[u8]) {
    let blob = compress_zx0_compatible(data);
    let out = dzx0_decode(&blob);
    assert_eq!(out, data, "zx0compat roundtrip len {}", data.len());
}

#[test]
fn tiny() {
    roundtrips(&[42]);
    roundtrips(&[1, 2, 3, 4, 5]);
    roundtrips(b"abcabcabcabcabc");
    roundtrips(b"aaaaaaaaaaaaaaaaaaaaaaaaaaaa");
}

#[test]
fn zx0compat_repetitive() {
    let data: Vec<u8> = (0..5000).map(|i| (i % 7) as u8).collect();
    roundtrips(&data);
}

#[test]
fn zx0compat_text_like() {
    let base = b"the quick brown fox jumps over the lazy dog. ";
    let mut data = Vec::new();
    for _ in 0..200 {
        data.extend_from_slice(base);
    }
    roundtrips(&data);
}

#[test]
fn zx0compat_pseudo_random() {
    let mut state = 12345u32;
    let data: Vec<u8> = (0..6000)
        .map(|_| {
            state = state.wrapping_mul(1664525).wrapping_add(1013904223);
            ((state >> 24) % 20) as u8
        })
        .collect();
    roundtrips(&data);
}

/// The emitted byte length equals ZX0's predicted `(bits + 25) / 8`.
#[test]
fn size_matches_predicted_bits() {
    let base = b"the quick brown fox jumps over the lazy dog. ";
    let mut data = Vec::new();
    for _ in 0..200 {
        data.extend_from_slice(base);
    }
    let (_cmds, bits) = optimize_zx0_with_bits(&data, ZX0_MAX_OFFSET);
    let predicted = (bits + 25) / 8;
    let blob = compress_zx0_compatible(&data);
    assert_eq!(blob.len() as u64, predicted, "output size vs (bits+25)/8");
}

fn roundtrips_backward(data: &[u8]) {
    let blob = compress_zx0_compatible_backward(data);
    let out = dzx0_decode_backward(&blob);
    assert_eq!(out, data, "zx0compat backward roundtrip len {}", data.len());
}

#[test]
fn backward_tiny() {
    roundtrips_backward(&[42]);
    roundtrips_backward(&[1, 2, 3, 4, 5]);
    roundtrips_backward(b"abcabcabcabcabc");
    roundtrips_backward(b"aaaaaaaaaaaaaaaaaaaaaaaaaaaa");
}

#[test]
fn backward_repetitive() {
    let data: Vec<u8> = (0..5000).map(|i| (i % 7) as u8).collect();
    roundtrips_backward(&data);
}

#[test]
fn backward_text_like() {
    let base = b"the quick brown fox jumps over the lazy dog. ";
    let mut data = Vec::new();
    for _ in 0..200 {
        data.extend_from_slice(base);
    }
    roundtrips_backward(&data);
}

#[test]
fn backward_pseudo_random() {
    let mut state = 12345u32;
    let data: Vec<u8> = (0..6000)
        .map(|_| {
            state = state.wrapping_mul(1664525).wrapping_add(1013904223);
            ((state >> 24) % 20) as u8
        })
        .collect();
    roundtrips_backward(&data);
}
