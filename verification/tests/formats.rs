//! Errors, edges and relations between the functions of the formats.
use lzan::pucrunch::{
    compress_pucrunch_6502, compress_pucrunch_6502_backward, compress_pucrunch_prg,
    compress_pucrunch_raw, container_max_gap, container_max_gap_backward, decompress_pucrunch,
    decompress_pucrunch_6502, decompress_pucrunch_6502_backward, detect_sys,
};
use lzan::pustream::PuError;
use lzan::shrinkler;
use lzan::subsizer;
use lzan::tscrunch;
use lzan::upkr;
use lzan::zx02;
use lzan::zx0compat;

/// A string of zeros and ones as bytes, filled up with zeros.
fn packed_bits(text: &str) -> Vec<u8> {
    let mut out = Vec::new();
    let mut acc = 0u8;
    let mut n = 0;
    for c in text.chars() {
        acc = acc * 2 + if c == '1' { 1 } else { 0 };
        n += 1;
        if n == 8 {
            out.push(acc);
            acc = 0;
            n = 0;
        }
    }
    if n > 0 {
        while n < 8 {
            acc *= 2;
            n += 1;
        }
        out.push(acc);
    }
    out
}

/// A container with no escape bits and an empty table, around a stream.
fn container(text: &str) -> Vec<u8> {
    let mut c = vec![0u8, 0, 8, 0];
    c.extend_from_slice(&[0u8; 15]);
    c.extend_from_slice(&packed_bits(text));
    c
}

/// A standalone file with no escape bits and an empty table, around a stream.
fn standalone(text: &str) -> Vec<u8> {
    let mut f = vec![0u8, 0, 0x70, 0x75, 0, 0, 0, 0x01, 0x08, 0, 8, 128, 0, 0x01, 0x08, 0];
    f.extend_from_slice(&packed_bits(text));
    f
}

#[test]
fn pucrunch_end_marker_alone_is_the_empty_payload() {
    let end = "10011111111111111";
    assert_eq!(decompress_pucrunch_6502(&container(end)), Ok(vec![]));
    assert_eq!(decompress_pucrunch(&standalone(end)), Ok(vec![0x01, 0x08]));
}

#[test]
fn pucrunch_literal_stream_decodes() {
    // A new escape value of no bits and a literal of eight, then the end.
    let text = format!("{}{}{}", "010", "01000001", "10011111111111111");
    assert_eq!(decompress_pucrunch_6502(&container(&text)), Ok(vec![0x41]));
}

#[test]
fn pucrunch_stream_errors() {
    let bad = |text: &str| decompress_pucrunch_6502(&container(text)).unwrap_err();
    assert_eq!(bad(""), PuError::Overrun);
    assert_eq!(bad("0011111111"), PuError::ShortMatchUnderrun);
    assert_eq!(bad("100011111111"), PuError::MatchUnderrun);
    assert_eq!(bad("10111111111111111"), PuError::DeltaMatch);
    assert_eq!(bad("011011111000000"), PuError::BadByteCode { byte_code: 32 });
    assert_eq!(
        decompress_pucrunch(&standalone("01100")).unwrap_err(),
        PuError::RankBeyondTable { code: 1, len: 0 }
    );
}

#[test]
fn pucrunch_header_errors() {
    let end = "10011111111111111";
    let with = |at: usize, v: u8| {
        let mut f = standalone(end);
        f[at] = v;
        decompress_pucrunch(&f).unwrap_err()
    };
    assert_eq!(decompress_pucrunch(&[0u8; 15]).unwrap_err(), PuError::ShortHeader);
    assert_eq!(with(2, 0x71), PuError::BadMagic);
    assert_eq!(with(10, 0), PuError::ZeroMaxGamma);
    assert_eq!(with(9, 9), PuError::EscBits { bits: 9 });
    assert_eq!(with(10, 9), PuError::MaxGamma { max: 8 });
    assert_eq!(with(11, 127), PuError::ShortRleLimit);
    assert_eq!(with(12, 5), PuError::ExtraBits { extra: 5 });
    assert_eq!(with(15, 16), PuError::RleUsed { used: 16 });
    assert_eq!(with(15, 4), PuError::ShortTable);
}

#[test]
fn pucrunch_container_errors() {
    let with = |at: usize, v: u8| {
        let mut c = container("10011111111111111");
        c[at] = v;
        decompress_pucrunch_6502(&c).unwrap_err()
    };
    assert_eq!(decompress_pucrunch_6502(&[0u8; 18]).unwrap_err(), PuError::ShortContainer);
    assert_eq!(with(1, 9), PuError::EscBits { bits: 9 });
    assert_eq!(with(2, 7), PuError::LitBits);
    assert_eq!(with(3, 5), PuError::ExtraBits { extra: 5 });
}

#[test]
fn pucrunch_gap_and_payload_agree_on_errors() {
    let short = [0u8; 3];
    assert_eq!(container_max_gap(&short).unwrap_err(), PuError::ShortContainer);
    assert_eq!(container_max_gap_backward(&short).unwrap_err(), PuError::ShortContainer);
    assert_eq!(
        decompress_pucrunch_6502_backward(&short).unwrap_err(),
        PuError::ShortContainer
    );
    let data = b"abcabcabcabc abcabcabc";
    let c = compress_pucrunch_6502(data);
    assert!(container_max_gap(&c).unwrap() < data.len() as i64);
    let b = compress_pucrunch_6502_backward(data);
    assert_eq!(decompress_pucrunch_6502_backward(&b).unwrap(), data);
    assert_eq!(
        container_max_gap_backward(&b).unwrap(),
        container_max_gap(&compress_pucrunch_6502(&data.iter().rev().copied().collect::<Vec<u8>>()))
            .unwrap()
    );
}

#[test]
fn pucrunch_file_holds_its_addresses() {
    let f = compress_pucrunch_raw(b"hello hello hello hello", 0x2000, 0x2345);
    assert_eq!(&f[7..9], &[0x00, 0x20]);
    assert_eq!(&f[13..15], &[0x45, 0x23]);
    let out = decompress_pucrunch(&f).unwrap();
    assert_eq!(&out[..2], &[0x00, 0x20]);
    assert_eq!(&out[2..], b"hello hello hello hello");
}

#[test]
fn pucrunch_program_starts_where_its_line_says() {
    // 10 SYS 4096
    let mut prg = vec![0x01, 0x08, 0x0b, 0x08, 0x0a, 0x00, 0x9e, 0x34, 0x30, 0x39, 0x36, 0x00];
    prg.extend_from_slice(&[0u8, 0, 1, 2, 3]);
    assert_eq!(detect_sys(0x0801, &prg[2..]), Some(4096));
    let f = compress_pucrunch_prg(&prg);
    assert_eq!(u16::from_le_bytes([f[13], f[14]]), 4096);
    assert_eq!(decompress_pucrunch(&f).unwrap(), prg);
    // Without such a line it starts where it loads.
    let plain = vec![0x00, 0xc0, 1, 2, 3, 4, 5];
    let f = compress_pucrunch_prg(&plain);
    assert_eq!(u16::from_le_bytes([f[13], f[14]]), 0xc000);
    assert_eq!(decompress_pucrunch(&f).unwrap(), plain);
}

#[test]
fn empty_inputs_come_back() {
    assert_eq!(shrinkler::decompress(&shrinkler::compress(&[], 1, false), false), vec![]);
    assert_eq!(shrinkler::decompress(&shrinkler::compress(&[], 1, true), true), vec![]);
    assert_eq!(subsizer::decompress(&subsizer::compress(&[], 1, false), false), vec![]);
    assert_eq!(subsizer::decompress_subsizer_marker(&subsizer::compress_subsizer_marker(&[])), vec![]);
    assert_eq!(upkr::decompress(&upkr::compress(&[], 1, false), false), vec![]);
    assert_eq!(tscrunch::decompress(&tscrunch::compress(&[], 1, false), false), vec![]);
    assert_eq!(zx02::decompress(&zx02::compress(&[], 1, false), false), vec![]);
    assert_eq!(zx0compat::decompress(&zx0compat::compress(&[7], 1, false), false), vec![7]);
}

#[test]
fn levels_beyond_the_highest_do_what_the_highest_does() {
    let data = b"abracadabra abracadabra, abracadabra and so on and so on";
    for backward in [false, true] {
        assert_eq!(
            shrinkler::compress(data, 200, backward),
            shrinkler::compress(data, shrinkler::MAX_LEVEL, backward)
        );
        assert_eq!(
            subsizer::compress(data, 200, backward),
            subsizer::compress(data, subsizer::MAX_LEVEL, backward)
        );
        assert_eq!(
            upkr::compress(data, 200, backward),
            upkr::compress(data, upkr::MAX_LEVEL, backward)
        );
        assert_eq!(
            tscrunch::compress(data, 200, backward),
            tscrunch::compress(data, 2, backward)
        );
    }
}

#[test]
fn a_higher_shrinkler_level_is_no_longer() {
    let mut data = Vec::new();
    for i in 0..60u32 {
        data.extend_from_slice(b"load store jump ");
        data.push((i * 37 % 251) as u8);
    }
    let low = shrinkler::compress(&data, 1, false);
    let high = shrinkler::compress(&data, 2, false);
    assert!(high.len() <= low.len());
    assert_eq!(shrinkler::decompress(&high, false), data);
}

#[test]
fn backward_streams_are_those_of_the_reversed_input() {
    let data = b"one two three two one two three one one two".to_vec();
    let mut turned = data.clone();
    turned.reverse();
    let mut b = subsizer::compress_subsizer_backward(&data);
    b.reverse();
    assert_eq!(subsizer::decompress_subsizer(&b), turned);
    let mut b = upkr::compress_upkr_reverse(&data);
    b.reverse();
    assert_eq!(upkr::decompress(&b, false), turned);
    let mut b = zx02::compress_zx02_backward(&data);
    b.reverse();
    assert_eq!(zx02::decompress_zx02(&b), turned);
    let mut b = shrinkler::compress_shrinkler_backward(&data);
    b.reverse();
    assert_eq!(shrinkler::decompress(&b, false), turned);
}

#[test]
fn upkr_rejects_what_is_cut_off() {
    let data = b"the rain in Spain stays mainly in the plain".to_vec();
    let c = upkr::compress_upkr_6502(&data);
    let config = upkr::config_6502();
    assert_eq!(upkr::unpack(&c, &config, data.len()), Some(data.clone()));
    assert_eq!(upkr::unpack(&c, &config, data.len() - 1), None);
    assert_eq!(upkr::unpack(&c[..c.len() / 2], &config, data.len()), None);
    let b = upkr::compress_upkr_6502_backward(&data);
    assert_eq!(upkr::decompress_upkr_6502_backward(&b, data.len()), Some(data));
}

#[test]
fn subsizer_marker_stream_ends_in_its_address() {
    let data = b"marker marker marker marker".to_vec();
    let c = subsizer::compress_subsizer_marker_at(&data, 0x1234);
    assert_eq!(c[c.len() - 3], 0x34);
    assert_eq!(c[c.len() - 2], 0x12);
    assert_eq!(subsizer::decompress_subsizer_marker(&c), data);
    let d = subsizer::compress_subsizer_marker(&data);
    assert_eq!(u16::from_le_bytes([d[d.len() - 3], d[d.len() - 2]]) as usize, data.len());
}

#[test]
fn tscrunch_in_place_stream_names_its_end() {
    let data = b"xyzxyzxyzxyzxyz 0123456789 xyzxyz".to_vec();
    let c = tscrunch::compress_tscrunch_backward_with_addr(&data, [0x00, 0x10]);
    assert_eq!(&c[2..4], &[0x00, 0x10]);
    let load = u16::from_le_bytes([c[0], c[1]]) as usize;
    assert_eq!(load, 0x1000 + data.len() - (c.len() - 2));
    assert_eq!(tscrunch::decompress_inplace(&c), data);
}

#[test]
fn gaps_of_short_streams_are_zero() {
    assert_eq!(subsizer::max_gap_forward(&[]), 0);
    assert_eq!(subsizer::max_gap_backward(&[]), 0);
    assert_eq!(zx02::max_gap_forward(&[]), 0);
    assert_eq!(zx02::max_gap_backward(&[]), 0);
}

#[test]
fn pucrunch_errors_in_words() {
    assert_eq!(PuError::Overrun.message(), "bitstream overrun");
    assert_eq!(PuError::EscBits { bits: 12 }.message(), "escBits 12 out of range");
    assert_eq!(
        PuError::RankBeyondTable { code: 7, len: 3 }.message(),
        "RLE rank 7 beyond table (3)"
    );
    assert_eq!(PuError::BadByteCode { byte_code: 32 }.message(), "invalid RLE byte code 32");
}
