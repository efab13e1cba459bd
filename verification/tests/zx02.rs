use lzan::zx02::{
    compress_zx02, compress_zx02_backward, decompress_zx02, decompress_zx02_backward,
    max_gap_backward, max_gap_forward,
};

fn rt(data: &[u8]) {
    // forward
    let c = compress_zx02(data);
    let d = decompress_zx02(&c);
    assert_eq!(d, data, "zx02 forward roundtrip len {}", data.len());
    // backward
    let cb = compress_zx02_backward(data);
    let db = decompress_zx02_backward(&cb);
    assert_eq!(db, data, "zx02 backward roundtrip len {}", data.len());
}

#[test]
fn tiny_and_empty() {
    rt(&[]);
    rt(&[42]);
    rt(&[1, 2, 3, 4, 5]);
    rt(b"abcabcabcabcabc");
    rt(b"abcabcabcabcabcabcdefdefdefdef abcabc");
}

#[test]
fn zx02_in_place_gap_reflects_expansion() {
    // Incompressible data expands the stream, so an in-place layout needs a
    // margin far larger than the fixed 32-byte default.
    let mut s: u32 = 0x1234_5678;
    let noise: Vec<u8> = (0..8192)
        .map(|_| {
            s = s.wrapping_mul(1664525).wrapping_add(1013904223);
            (s >> 24) as u8
        })
        .collect();
    assert!(
        max_gap_forward(&compress_zx02(&noise)) > 32,
        "incompressible forward gap must exceed the fixed 32-byte margin"
    );
    assert!(
        max_gap_backward(&compress_zx02_backward(&noise)) > 32,
        "incompressible backward gap must exceed the fixed 32-byte margin"
    );
    // Highly compressible data barely expands: the default margin is fine.
    assert!(
        max_gap_backward(&compress_zx02_backward(&vec![0u8; 8192])) <= 32,
        "compressible data should fit within the default margin"
    );
}

#[test]
fn zx02_repetitive() {
    let data: Vec<u8> = (0..5000).map(|i| (i % 7) as u8).collect();
    rt(&data);
}

#[test]
fn zx02_text_like() {
    let base = b"the quick brown fox jumps over the lazy dog. ";
    let mut data = Vec::new();
    for _ in 0..200 {
        data.extend_from_slice(base);
    }
    rt(&data);
}

#[test]
fn zx02_pseudo_random() {
    let mut state = 12345u32;
    let data: Vec<u8> = (0..6000)
        .map(|_| {
            state = state.wrapping_mul(1664525).wrapping_add(1013904223);
            ((state >> 24) % 20) as u8
        })
        .collect();
    rt(&data);
}

#[test]
fn all_byte_values() {
    let data: Vec<u8> = (0..=255u8).cycle().take(4096).collect();
    rt(&data);
}
