use lzan::pucrunch::{
    compress_pucrunch_6502, compress_pucrunch_6502_backward, compress_pucrunch_raw,
    decompress_pucrunch, decompress_pucrunch_6502, decompress_pucrunch_6502_backward, detect_sys,
    gamma_cost, BitReader, BitWriter, MAX_GAMMA,
};

#[test]
fn gamma_examples_match_study() {
    let cases: &[(u32, &str)] = &[
        (1, "0"),
        (2, "100"),
        (3, "101"),
        (4, "11000"),
        (5, "11001"),
        (6, "11010"),
        (7, "11011"),
        (8, "1110000"),
        (127, "1111110111111"),
        (128, "11111110000000"),
        (255, "11111111111111"),
    ];
    for &(v, bits) in cases {
        let mut w = BitWriter::new();
        w.gamma(v);
        assert_eq!(w.bit_len(), bits.len(), "gamma({v}) length");
        let bytes = w.finish();
        let got: String = (0..bits.len())
            .map(|i| {
                let b = (bytes[i / 8] >> (7 - (i % 8))) & 1;
                char::from(b'0' + b)
            })
            .collect();
        assert_eq!(got, bits, "gamma({v}) bits");
        assert_eq!(gamma_cost(v), bits.len() as u32, "gamma_cost({v})");
        // Round-trip.
        let mut r = BitReader::new(&bytes);
        assert_eq!(r.gamma(MAX_GAMMA).unwrap(), v);
    }
}

fn rt_6502(input: &[u8], label: &str) {
    let c = compress_pucrunch_6502(input);
    let d = decompress_pucrunch_6502(&c).unwrap_or_else(|e| panic!("[{label}] fwd: {e:?}"));
    assert_eq!(d, input, "[{label}] forward container");
    let cb = compress_pucrunch_6502_backward(input);
    let db = decompress_pucrunch_6502_backward(&cb)
        .unwrap_or_else(|e| panic!("[{label}] back: {e:?}"));
    assert_eq!(db, input, "[{label}] backward container");
}

#[test]
fn container_roundtrips() {
    rt_6502(&[], "empty");
    rt_6502(b"X", "single");
    rt_6502(b"AA", "two");
    rt_6502(
        b"ABCABCABCABCABCABCABC the quick brown fox 123451234512345",
        "repetitive",
    );
    let run: Vec<u8> = std::iter::repeat_n(0x5A, 5000).collect();
    rt_6502(&run, "long_run");
    let mut mixed = Vec::new();
    for i in 0..4096usize {
        mixed.push(((i / 64) ^ (i % 7)) as u8);
    }
    rt_6502(&mixed, "mixed");
    let cyc: Vec<u8> = (0..=255u8).cycle().take(1000).collect();
    rt_6502(&cyc, "allbytes");
}

/// Edges of the codes: gamma boundaries, LZ distances and
/// lengths, RLE lengths around the short/long switch and 256-boundaries.
#[test]
fn conformance_edges() {
    // LZ distances 1, 255, 256, 257 and length boundaries: construct data
    // with a unique block repeated at controlled gaps.
    for gap in [1usize, 253, 254, 255, 256, 257] {
        let mut v: Vec<u8> = (0..64u8).map(|i| i.wrapping_mul(37)).collect(); // block A
        v.extend((0..gap).map(|i| 128 + ((i * 11) % 97) as u8)); // filler
        v.extend((0..64u8).map(|i| i.wrapping_mul(37))); // block A again
        rt_6502(&v, &format!("lz_gap_{gap}"));
    }
    // LZ lengths 2, 3, 255, 256 via long runs of a 2-byte pattern.
    for len in [2usize, 3, 255, 256, 300] {
        let mut v: Vec<u8> = b"start".to_vec();
        let pat: Vec<u8> = (0..len)
            .map(|i| if i % 2 == 0 { 0x11 } else { 0x22 })
            .collect();
        v.extend_from_slice(&pat);
        v.extend_from_slice(b"mid");
        v.extend_from_slice(&pat);
        rt_6502(&v, &format!("lz_len_{len}"));
    }
    // RLE lengths at the short/long switch and around 256/257 and beyond.
    for len in [2usize, 127, 128, 129, 255, 256, 257, 511, 513, 1000, 40000] {
        let mut v: Vec<u8> = b"abc".to_vec();
        v.extend(std::iter::repeat_n(0xEE, len));
        v.extend_from_slice(b"xyz");
        rt_6502(&v, &format!("rle_{len}"));
    }
    // Unranked RLE bytes: 16+ distinct run bytes forces codes >= 16.
    let mut v = Vec::new();
    for b in 0..20u8 {
        v.extend(std::iter::repeat_n(b.wrapping_mul(13), 30));
    }
    rt_6502(&v, "unranked_rle");
}

#[test]
fn malformed_streams_rejected() {
    // Truncated header.
    assert!(decompress_pucrunch(&[0x01, 0x08, b'p']).is_err());
    // Bad magic.
    let mut f = compress_pucrunch_raw(b"hello world", 0x0801, 0x0801);
    f[2] = b'q';
    assert!(decompress_pucrunch(&f).is_err());
    // Truncated bitstream (missing EOF).
    let f = compress_pucrunch_raw(b"hello world hello world", 0x0801, 0x0801);
    let cut = &f[..f.len() - 2];
    assert!(decompress_pucrunch(cut).is_err());
    // Bad escBits.
    let mut f = compress_pucrunch_raw(b"hello", 0x0801, 0x0801);
    f[9] = 9;
    assert!(decompress_pucrunch(&f).is_err());
    // maxGammaPlusOne = 0 must reject, not underflow (debug-build panic).
    let mut f = compress_pucrunch_raw(b"hello", 0x0801, 0x0801);
    f[10] = 0;
    assert!(decompress_pucrunch(&f).is_err());
}

/// Placement fields must stay sane (no u16 wrap) even when the safe
/// placement cannot fit below $10000; the stream itself still decodes.
#[test]
fn placement_clamps_instead_of_wrapping() {
    // 32000 zero bytes at $8300: output ends exactly at $10000 and the
    // stream is a single RLE token, so the naive placement would wrap.
    let f = compress_pucrunch_raw(&vec![0u8; 32000], 0x8300, 0x8300);
    let inpos = u16::from_le_bytes([f[0], f[1]]);
    let in_mem = f.len() - 2;
    assert!(
        inpos as usize + in_mem <= 0x1_0000,
        "INPOS ${inpos:04X} + {in_mem} B wraps past $FFFF"
    );
    assert!(
        inpos >= 0x8300,
        "INPOS ${inpos:04X} wrapped below the output"
    );
    let out = decompress_pucrunch(&f).unwrap();
    assert_eq!(out.len(), 32002);
    // Same idea near the very top of memory with a compressible payload.
    let f = compress_pucrunch_raw(&vec![0u8; 63000], 0x0801, 0x0801);
    let inpos = u16::from_le_bytes([f[0], f[1]]);
    assert!(inpos as usize + (f.len() - 2) <= 0x1_0000);
}

/// SYS detection must survive a leading REM line and a $9E byte inside a
/// string before the real SYS.
#[test]
fn detect_sys_walks_lines_and_retries() {
    // Line 1: 1 REM "x", line 2: 2 SYS2061, at $0801.
    let mut pl: Vec<u8> = Vec::new();
    let l2_at = 0x0801u16 + 8; // line 1 is 8 bytes: link+num+3-byte body+$00
    pl.extend_from_slice(&l2_at.to_le_bytes()); // link
    pl.extend_from_slice(&[0x01, 0x00, 0x8F, b'x', 0x9E, 0x00]); // 1 REM x <$9E-in-junk>
                                                                 // (the $9E inside line 1's body has no digits after it)
    let l3_at = l2_at + 10;
    pl.extend_from_slice(&l3_at.to_le_bytes());
    pl.extend_from_slice(&[0x02, 0x00, 0x9E, b'2', b'0', b'6', b'1', 0x00]); // 2 SYS2061
    pl.extend_from_slice(&[0x00, 0x00]); // end of program
    assert_eq!(detect_sys(0x0801, &pl), Some(2061));
    // No SYS anywhere -> None.
    let plain = [
        0x0B, 0x08, 0x0A, 0x00, 0x99, b'"', b'H', b'"', 0x00, 0x00, 0x00,
    ];
    assert_eq!(detect_sys(0x0801, &plain), None);
}

#[test]
fn empty_input_is_just_eof() {
    let f = compress_pucrunch_raw(&[], 0x0801, 0x0801);
    let out = decompress_pucrunch(&f).unwrap();
    assert_eq!(out, vec![0x01, 0x08]);
}
