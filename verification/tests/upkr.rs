use lzan::upkr::{
    compress, compress_native, compress_upkr, compress_upkr_6502, compress_upkr_6502_backward,
    compress_upkr_reverse, config_6502, decompress, max_gap_backward, max_gap_forward, unpack,
    MAX_LEVEL, MAX_NATIVE_LEVEL,
};

fn roundtrip(input: &[u8]) {
    for level in 1..=MAX_LEVEL {
        let packed = compress(input, level, false);
        assert_eq!(decompress(&packed, false), input, "forward level {level}");

        let packed_rev = compress(input, level, true);
        assert_eq!(
            decompress(&packed_rev, true),
            input,
            "reverse level {level}"
        );
    }
    // Every native level round-trips both directions (the stream format is
    // level-independent).
    for nat in 0..=MAX_NATIVE_LEVEL {
        assert_eq!(
            decompress(&compress_native(input, nat, false), false),
            input
        );
        assert_eq!(decompress(&compress_native(input, nat, true), true), input);
    }
    // Tier 3 (the absolute best) == native 9 == the level-9 helpers, byte for
    // byte, both directions.
    assert_eq!(
        compress(input, MAX_LEVEL, false),
        compress_native(input, 9, false)
    );
    assert_eq!(
        compress(input, MAX_LEVEL, true),
        compress_native(input, 9, true)
    );
    assert_eq!(compress_upkr(input), compress_native(input, 9, false));
    assert_eq!(
        compress_upkr_reverse(input),
        compress_native(input, 9, true)
    );
    assert_eq!(compress_upkr(input), compress(input, MAX_LEVEL, false));
    assert_eq!(
        compress_upkr_reverse(input),
        compress(input, MAX_LEVEL, true)
    );
    // Monotone non-increasing size across tiers (best tier is smallest).
    // Checked on non-trivial inputs; on tiny inputs all tiers collapse to the
    // same few bytes and the relation is uninteresting.
    if input.len() >= 64 {
        let s1 = compress(input, 1, false).len();
        let s2 = compress(input, 2, false).len();
        let s3 = compress(input, 3, false).len();
        assert!(s1 >= s2, "tier1 {s1} < tier2 {s2}");
        assert!(s2 >= s3, "tier2 {s2} < tier3 {s3}");
    }
}

#[test]
fn upkr_roundtrip_basic() {
    roundtrip(&[]);
    roundtrip(&[0]);
    roundtrip(&[42]);
    roundtrip(&[1, 2, 3, 4, 5]);
    roundtrip(b"abcabcabcabc abracadabra ");
    roundtrip(&[7u8; 4096]);
}

#[test]
fn upkr_in_place_gap_reflects_expansion() {
    let mut s: u32 = 0x1234_5678;
    let noise: Vec<u8> = (0..8192)
        .map(|_| {
            s = s.wrapping_mul(1664525).wrapping_add(1013904223);
            (s >> 24) as u8
        })
        .collect();
    // Incompressible data overruns the fixed 32-byte in-place margin.
    assert!(max_gap_forward(&compress_upkr_6502(&noise)) > 32);
    assert!(max_gap_backward(&compress_upkr_6502_backward(&noise)) > 32);
    // Highly compressible data stays within it.
    assert!(max_gap_backward(&compress_upkr_6502_backward(&vec![0u8; 8192])) <= 32);
}

#[test]
fn upkr_roundtrip_repetitive() {
    let base = b"the quick brown fox jumps over the lazy dog. ";
    let mut v = Vec::new();
    for _ in 0..500 {
        v.extend_from_slice(base);
    }
    roundtrip(&v);
}

#[test]
fn roundtrip_6502_config() {
    // The 6502 variant must round-trip through unpack: encode with compress_upkr_6502, decode with config_6502().
    let cfg = config_6502();
    let check = |input: &[u8]| {
        let packed = compress_upkr_6502(input);
        let out = unpack(&packed, &cfg, usize::MAX)
            .expect("compress_upkr_6502 output must unpack under config_6502");
        assert_eq!(out, input, "6502-config round-trip mismatch");
    };
    check(&[]);
    check(&[0]);
    check(&[42]);
    check(b"abcabcabcabc abracadabra ");
    check(&[7u8; 4096]);
    let base = b"the quick brown fox jumps over the lazy dog. ";
    let mut v = Vec::new();
    for _ in 0..200 {
        v.extend_from_slice(base);
    }
    check(&v);
    // Pseudorandom (literal-heavy) input.
    let mut r = Vec::with_capacity(4096);
    let mut x = 0x1234_5678u32;
    for _ in 0..4096 {
        x = x.wrapping_mul(1_103_515_245).wrapping_add(12345);
        r.push((x >> 16) as u8);
    }
    check(&r);
}

#[test]
fn roundtrip_pseudorandom() {
    let mut v = Vec::with_capacity(8192);
    let mut x = 0x1234_5678u32;
    for _ in 0..8192 {
        x = x.wrapping_mul(1_103_515_245).wrapping_add(12345);
        v.push((x >> 16) as u8);
    }
    roundtrip(&v);
}
