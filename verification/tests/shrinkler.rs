use lzan::shrinkler::{
    compress, compress_forward_anchor, compress_native, compress_shrinkler,
    compress_shrinkler_backward, decompress, params_no_parity, MAX_LEVEL,
};

fn roundtrip(input: &[u8]) {
    // Both levels roundtrip both directions.
    for level in 1..=MAX_LEVEL {
        let packed = compress(input, level, false);
        assert_eq!(
            decompress(&packed, false),
            input,
            "forward roundtrip L{level}"
        );

        let packed_rev = compress(input, level, true);
        assert_eq!(
            decompress(&packed_rev, true),
            input,
            "backward roundtrip L{level}"
        );
    }

    // Level 1 == the stock -9 anchor (fast tier).
    assert_eq!(
        compress(input, 1, false),
        compress_forward_anchor(input),
        "level 1 == -9 anchor"
    );
    // Level 2 == the current best-of (== compress_shrinkler).
    let best = compress(input, 2, false);
    assert_eq!(compress_shrinkler(input), best, "level 2 == best-of");
    // Best-of (level 2) never larger than the anchor (level 1).
    assert!(
        best.len() <= compress(input, 1, false).len(),
        "level 2 <= level 1"
    );
    // Clamp: 0 -> 1, 255 -> MAX_LEVEL.
    assert_eq!(compress(input, 0, false), compress(input, 1, false));
    assert_eq!(
        compress(input, 255, false),
        compress(input, MAX_LEVEL, false)
    );

    assert_eq!(decompress(&compress_shrinkler_backward(input), true), input);

    // Native API: the -9 preset drives pack_data to the same bytes as the anchor.
    assert_eq!(
        compress_native(input, &params_no_parity(), false),
        compress(input, 1, false),
        "native(-9 preset) == level 1 anchor"
    );
    assert_eq!(
        decompress(&compress_native(input, &params_no_parity(), true), true),
        input
    );
}

#[test]
fn shrinkler_roundtrip_basic() {
    roundtrip(b"");
    roundtrip(b"a");
    roundtrip(b"hello, hello, hello, world!");
    roundtrip(b"aaaaaaaaaaaaaaaaaaaaaaaaaaaaaaaaaaaaaaaa");
    roundtrip(&[0u8; 256]);
    let mut v = Vec::new();
    for i in 0..1000u32 {
        v.push((i.wrapping_mul(2654435761) >> 24) as u8);
    }
    roundtrip(&v);
}

#[test]
fn roundtrip_abracadabra() {
    roundtrip(b"abracadabra abracadabra abracadabra");
}
