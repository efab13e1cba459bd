//! Relations between two calls, on concrete inputs.
use lzan::matchfinder::find_matches_exact;
use lzan::parse::{parse, parse_zx, parse_zx2, CostModel};
use lzan::pucrunch::{compress_pucrunch_6502, compress_pucrunch_6502_backward};
use lzan::shrinkler;
use lzan::subsizer;
use lzan::tscrunch::{
    compress_tscrunch, compress_tscrunch_backward, compress_tscrunch_best, compress_tscrunch_rich,
    decompress_inplace,
};
use lzan::upkr;
use lzan::zx::{
    compress3_e, compress_backward, compress_min_eof_backward_e, compress_min_eof_e, decode,
    decode_backward, decode_min_eof, decode_min_eof_backward, encode_with3, predicted_payload_bits,
    rep0_cost_with_window, rep0_zx0exact_cost, stats,
};
use lzan::zx02;
use lzan::zx0compat;

fn sample() -> Vec<u8> {
    let mut v = Vec::new();
    for i in 0..40u32 {
        v.extend_from_slice(b"the lanes of the table ");
        v.push((i * 37 % 251) as u8);
        v.push((i * i % 13) as u8);
    }
    v
}

fn reversed(v: &[u8]) -> Vec<u8> {
    let mut r = v.to_vec();
    r.reverse();
    r
}

#[test]
fn upkr_levels_are_levels_of_the_search() {
    let v = sample();
    assert_eq!(upkr::compress(&v, 1, false), upkr::compress_native(&v, 1, false));
    assert_eq!(upkr::compress(&v, 2, false), upkr::compress_native(&v, 6, false));
    assert_eq!(upkr::compress(&v, 3, false), upkr::compress_native(&v, 9, false));
    assert_eq!(upkr::compress_upkr(&v), upkr::compress_native(&v, 200, false));
}

#[test]
fn upkr_backward_is_the_reversed_stream_of_the_reversed_input() {
    let v = sample();
    let back = upkr::compress_native(&v, 4, true);
    assert_eq!(reversed(&back), upkr::compress_native(&reversed(&v), 4, false));
    assert_eq!(upkr::decompress(&back, true), v);
}

#[test]
fn upkr_of_nothing_and_of_one_byte() {
    for v in [vec![], vec![0x55u8]] {
        for level in 0..=9 {
            let c = upkr::compress_native(&v, level, false);
            assert_eq!(upkr::decompress(&c, false), v);
        }
    }
}

#[test]
fn zx0_levels_give_one_stream() {
    let v = sample();
    for backward in [false, true] {
        let a = zx0compat::compress(&v, 1, backward);
        assert_eq!(a, zx0compat::compress(&v, 9, backward));
        assert_eq!(zx0compat::decompress(&a, backward), v);
    }
}

#[test]
fn zx02_levels_give_one_stream_and_backward_is_mirrored() {
    let v = sample();
    let a = zx02::compress(&v, 1, false);
    assert_eq!(a, zx02::compress(&v, 9, false));
    assert_eq!(reversed(&zx02::compress(&reversed(&v), 1, true)), a);
}

#[test]
fn flags_say_nothing_below_four_slots() {
    let v = sample();
    let ms = find_matches_exact(&v, 2, 65535, 65535);
    for slots in 1..4 {
        let cmds = parse_zx2(&v, &ms, slots, true);
        assert!(cmds.iter().all(|c| c.near_rep_ri == -1));
        let plain = encode_with3(&v, &cmds, slots, false, false);
        assert_eq!(encode_with3(&v, &cmds, slots, true, true), plain);
    }
}

#[test]
fn no_offset_limit_is_the_largest_offset() {
    let v = sample();
    assert_eq!(rep0_zx0exact_cost(&v, usize::MAX), rep0_zx0exact_cost(&v, 65535));
}

#[test]
fn empty_pucrunch_container() {
    let mut want = vec![0u8, 2, 6, 0];
    want.extend_from_slice(&[0u8; 15]);
    want.extend_from_slice(&[0x27, 0xff, 0xe0]);
    assert_eq!(compress_pucrunch_6502(&[]), want);
    let back = compress_pucrunch_6502_backward(&[]);
    assert_eq!(&back[..3], &[0xe0, 0xff, 0x27]);
    assert_eq!(&back[18..], &[0, 6, 2, 0]);
}

#[test]
fn empty_in_place_tscrunch_stream() {
    assert_eq!(decompress_inplace(&compress_tscrunch_backward(&[])), Vec::<u8>::new());
}

#[test]
fn shrinkler_levels_are_clamped_and_mirrored() {
    let v = sample();
    let one = shrinkler::compress(&v, 1, false);
    assert_eq!(shrinkler::compress(&v, 0, false), one);
    assert_eq!(reversed(&shrinkler::compress(&reversed(&v), 1, true)), one);
    assert_eq!(shrinkler::compress_native(&v, &shrinkler::params_no_parity(), false), one);
    assert!(shrinkler::compress_shrinkler(&v).len() <= one.len());
}

#[test]
fn shrinkler_without_parses_is_literals() {
    let mut p = shrinkler::params_no_parity();
    p.iterations = 0;
    let v = sample();
    let c = shrinkler::compress_native(&v, &p, false);
    assert_eq!(shrinkler::decompress(&c, false), v);
    p.iterations = 1;
    assert!(shrinkler::compress_native(&v, &p, false).len() < c.len());
}

#[test]
fn subsizer_levels_are_mirrored() {
    let v = sample();
    let a = subsizer::compress(&v, 1, false);
    assert_eq!(a, subsizer::compress(&v, 1, false));
    assert_eq!(subsizer::decompress(&a, false), v);
}

#[test]
fn a_literal_may_cost_almost_all_there_is() {
    let mut m = CostModel::static_model();
    m.lit[0x41] = 0x7000_0000;
    let ms = find_matches_exact(b"A", 2, 65535, 65535);
    let cmds = parse(b"A", &ms, &m, true);
    assert_eq!(cmds.len(), 1);
    assert_eq!(cmds[0].lit_len, 1);
}

#[test]
fn the_best_tscrunch_stream_is_the_shorter_one() {
    let v = sample();
    let (plain, rich) = (compress_tscrunch(&v), compress_tscrunch_rich(&v));
    let best = compress_tscrunch_best(&v);
    assert_eq!(best, if rich.len() < plain.len() { rich } else { plain });
}

#[test]
fn subsizer_follows_no_fewer_starts_at_higher_levels() {
    let v = sample();
    for backward in [false, true] {
        let one = subsizer::compress(&v, 1, backward);
        let two = subsizer::compress(&v, 2, backward);
        assert!(two.len() <= one.len());
        assert_eq!(subsizer::compress(&v, 9, backward), two);
        assert_eq!(subsizer::compress_native(&v, 9, backward), two);
        assert_eq!(subsizer::compress_native(&v, 200, backward), two);
        assert_eq!(subsizer::compress_native(&v, 0, backward), one);
        let mut last = one.len();
        for starts in 2..=9 {
            let len = subsizer::compress_native(&v, starts, backward).len();
            assert!(len <= last);
            last = len;
        }
    }
    assert_eq!(subsizer::compress_subsizer(&v), subsizer::compress(&v, 2, false));
    assert_eq!(
        subsizer::compress_subsizer_backward(&v),
        reversed(&subsizer::compress_subsizer(&reversed(&v)))
    );
}

#[test]
fn an_end_address_is_two_bytes_of_a_container() {
    let v = sample();
    let a = subsizer::compress_subsizer_marker_at(&v, 0x1234);
    let b = subsizer::compress_subsizer_marker_at(&v, 0xc000);
    assert_eq!(a.len(), b.len());
    let n = a.len();
    for k in 0..n {
        if k == n - 3 || k == n - 2 {
            assert!(a[k] != b[k]);
        } else {
            assert_eq!(a[k], b[k]);
        }
    }
    assert_eq!((a[n - 3], a[n - 2]), (0x34, 0x12));
}

#[test]
fn a_decoder_gives_the_first_bytes_when_asked_for_fewer() {
    let v = sample();
    let blob = compress3_e(&v, 4, true, true, 2);
    for k in [0, 1, 2, 23, 24, 100, v.len() - 1, v.len()] {
        assert_eq!(decode(&blob, k), v[..k].to_vec());
    }
}

#[test]
fn a_minimal_stream_knows_its_length() {
    let v = sample();
    for effort in 1..=3 {
        let blob = compress_min_eof_e(&v, effort);
        let back = compress_min_eof_backward_e(&v, effort);
        for n in [v.len(), v.len() + 1, 10 * v.len()] {
            assert_eq!(decode_min_eof(&blob[1..], n), v);
            assert_eq!(decode_min_eof_backward(&back[1..], n), v);
        }
    }
}

#[test]
fn backward_streams_mirror_forward_ones() {
    let v = sample();
    let back = compress_backward(&v, 4, true, false, 2);
    let fwd = compress3_e(&reversed(&v), 4, true, false, 2);
    assert_eq!(back[0], fwd[0]);
    assert_eq!(reversed(&back[1..]), fwd[1..].to_vec());
    assert_eq!(decode_backward(&back, v.len()), v);
}

#[test]
fn the_payload_has_the_predicted_bits() {
    let v = sample();
    let ms = find_matches_exact(&v, 2, 65535, 65535);
    for slots in 1..=4 {
        let cmds = parse_zx(&v, &ms, slots);
        let bits = predicted_payload_bits(&v, &cmds, slots, false, false);
        let blob = encode_with3(&v, &cmds, slots, false, false);
        assert_eq!(blob.len() as u64, 1 + (bits + 7) / 8);
        let st = stats(&v, &cmds, slots);
        assert_eq!(st.total_bits, bits);
        assert_eq!(st.lit_bytes, cmds.iter().map(|c| c.lit_len as u64).sum::<u64>());
        assert_eq!(st.n_lit_runs, cmds.iter().filter(|c| c.lit_len > 0).count() as u64);
        assert_eq!(
            st.n_newoff + st.rep_counts.iter().sum::<u64>(),
            cmds.iter().filter(|c| c.match_off != 0).count() as u64
        );
    }
}

#[test]
fn a_window_of_nothing_leaves_literals() {
    let (bits, bytes, same) = rep0_cost_with_window(b"abcabcabc", 0);
    // One run of nine bytes behind its code.
    assert_eq!(bits, 9 * 8 + 7);
    assert_eq!(bytes, 1 + 10);
    assert!(same);
}

#[test]
fn pucrunch_backward_container_mirrors_the_forward_one() {
    let v = sample();
    let back = compress_pucrunch_6502_backward(&v);
    let fwd = compress_pucrunch_6502(&reversed(&v));
    let n = back.len();
    assert_eq!(fwd.len(), n);
    assert_eq!(reversed(&back[n - 4..]), fwd[..4].to_vec());
    assert_eq!(back[n - 19..n - 4].to_vec(), fwd[4..19].to_vec());
    assert_eq!(reversed(&back[..n - 19]), fwd[19..].to_vec());
}
