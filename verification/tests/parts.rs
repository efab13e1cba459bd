//! The building blocks: bits, costs, tables and search structures.
use lzan::matchfinder::{find_matches, find_matches_exact, keep_longest};
use lzan::parse::{offset_slot, parse, parse_zx3, CostModel};
use lzan::puparse::run_lengths;
use lzan::shrcost::build_sizetable;
use lzan::shrmap::CuckooHash;
use lzan::shrmatch::MinHeap;
use lzan::suffix::suffix_array;
use lzan::testcorpus::{
    binary_ish, code_like, corpus, fibonacci, mixed, noise, periodic, phrases, power_on, runs,
    sparse, zeros,
};
use lzan::tscrunch::{
    compress_tscrunch, compress_tscrunch_rich, decompress_forward, find_optimal_zero,
};
use lzan::tsgraph::shortest_path;
use lzan::tsstream::TsTok;
use lzan::zx::{
    after_lit_prefix_bits, after_match_prefix_bits, compress, compress3_with_cmds,
    compress_min_eof, compress_min_eof_backward, compress_with_cmds, decode, decode_min_eof,
    decode_min_eof_backward, encode_with3, gamma_bits, hist, lit_run_bits, near_rep_delta_bits,
    offset_cost_bits, offset_cost_bits_hc, predicted_payload_bits, rep0_cost_with_window,
    rep_find, rep_index_bits, rep_insert, rep_mtf, stats, AfterLit, AfterMatch,
    BackwardBitReader, BitReader, BitWriter, ZxCommand,
};
use lzan::zxseed::{build_extra_candidates, zx_is_repetitive};

#[test]
fn bits_and_bytes_share_one_stream() {
    let mut w = BitWriter::new();
    w.write_bit(1);
    w.write_byte(0xab);
    w.write_gamma(5);
    w.write_byte(0xcd);
    w.write_bit(0);
    let out = w.finish();
    let mut r = BitReader::new(&out);
    assert_eq!(r.read_bit(), 1);
    assert_eq!(r.read_byte(), 0xab);
    assert_eq!(r.read_gamma(), 5);
    assert_eq!(r.read_byte(), 0xcd);
    assert_eq!(r.read_bit(), 0);
    let mut turned = out.clone();
    turned.reverse();
    let mut b = BackwardBitReader::new(&turned);
    assert_eq!(b.read_bit(), 1);
    assert_eq!(b.read_byte(), 0xab);
    assert_eq!(b.read_gamma(), 5);
}

#[test]
fn zx_code_lengths() {
    assert_eq!(gamma_bits(1), 1);
    assert_eq!(gamma_bits(255), 15);
    assert_eq!(gamma_bits(256), 17);
    assert_eq!(lit_run_bits(4), 5);
    assert_eq!(offset_cost_bits(1), 8);
    assert_eq!(offset_cost_bits(128), 8);
    assert_eq!(offset_cost_bits(129), 10);
    assert_eq!(offset_cost_bits_hc(129), 10);
    assert_eq!(offset_cost_bits_hc(65535), 26);
    assert_eq!(rep_index_bits(0), 1);
    assert_eq!(rep_index_bits(3), 3);
    assert_eq!(near_rep_delta_bits(1), 2);
    assert_eq!(near_rep_delta_bits(8), 8);
    assert_eq!(after_lit_prefix_bits(AfterLit::NewOffset), 1);
    assert_eq!(after_match_prefix_bits(AfterMatch::Literals), 1);
    assert_eq!(after_match_prefix_bits(AfterMatch::NewOffset), 2);
    assert_eq!(after_match_prefix_bits(AfterMatch::NearRep(0, 1)), 3);
}

#[test]
fn recent_offsets_move_to_the_front() {
    let mut reps = [1u32, 2, 3, 4];
    rep_insert(&mut reps, 9);
    assert_eq!(reps, [9, 1, 2, 3]);
    rep_mtf(&mut reps, 2);
    assert_eq!(reps, [2, 9, 1, 3]);
    assert_eq!(rep_find(&reps, 1, 4), Some(2));
    assert_eq!(rep_find(&reps, 1, 2), None);
}

#[test]
fn literals_alone_have_their_exact_size() {
    let data = b"abcdefg";
    let cmds = [ZxCommand {
        lit_len: 7,
        lit_start: 0,
        match_off: 0,
        match_len: 0,
        near_rep_ri: -1,
    }];
    let bits = predicted_payload_bits(data, &cmds, 4, true, true);
    assert_eq!(bits, 5 + 7 * 8);
    let blob = encode_with3(data, &cmds, 4, true, true);
    assert_eq!(blob.len(), 1 + 8);
    assert_eq!(decode(&blob, 7), data);
}

#[test]
fn tallies_add_up_to_the_payload() {
    let data = b"to be or not to be, that is the question: to be or not to be";
    let (blob, cmds) = compress_with_cmds(data, 4);
    let st = stats(data, &cmds, 4);
    assert_eq!(st.total_bits, predicted_payload_bits(data, &cmds, 4, false, false));
    assert_eq!(blob.len() as u64, 1 + (st.total_bits + 7) / 8);
    let mut h = hist(data, &cmds, 4);
    let runs_once: u64 = h.lit_run.iter().sum();
    assert_eq!(runs_once, st.n_lit_runs);
    let other = hist(data, &cmds, 4);
    h.merge(&other);
    assert_eq!(h.lit_run.iter().sum::<u64>(), 2 * st.n_lit_runs);
}

#[test]
fn commands_and_stream_agree() {
    let data: Vec<u8> = (0..600u32).map(|i| ((i * i / 7) % 23) as u8).collect();
    let (blob, cmds) = compress3_with_cmds(&data, 4, true, true);
    assert_eq!(encode_with3(&data, &cmds, 4, true, true), blob);
    assert_eq!(decode(&blob, data.len()), data);
    let total: u32 = cmds.iter().map(|c| c.lit_len + c.match_len).sum();
    assert_eq!(total as usize, data.len());
    let ms = find_matches_exact(&data, 2, data.len(), 65535);
    let other = parse_zx3(&data, &ms, 4, true, true);
    assert_eq!(decode(&encode_with3(&data, &other, 4, true, true), data.len()), data);
}

#[test]
fn streams_with_an_end_marker_need_no_length() {
    let data = b"end marker, end marker, end marker";
    let blob = compress_min_eof(data);
    assert_eq!(decode_min_eof(&blob[1..], data.len()), data);
    let back = compress_min_eof_backward(data);
    assert_eq!(decode_min_eof_backward(&back[1..], data.len()), data);
}

#[test]
fn rep0_cost_names_the_stream_size() {
    let data = b"aaaaaaaaaabbbbbbbbbbaaaaaaaaaabbbbbbbbbb";
    let (bits, bytes, same) = rep0_cost_with_window(data, data.len());
    assert!(same);
    assert_eq!(bytes as u64, 1 + (bits + 7) / 8);
    assert!(bytes < data.len());
    assert_eq!(decode(&compress(data, 1), data.len()), data);
}

#[test]
fn static_costs() {
    let m = CostModel::static_model();
    assert_eq!(offset_slot(1), 0);
    assert_eq!(offset_slot(2), 1);
    assert_eq!(offset_slot(257), 9);
    // Token, slot, and the bits below the leading one twice: in the table of
    // slots and in the offset.
    assert_eq!(m.match_cost(1, 4), 128 + 48);
    assert_eq!(m.match_cost(257, 4), 128 + 48 + 8 * 16 + 8 * 16);
    assert_eq!(m.match_cost_rep(9), 256);
    assert_eq!(m.match_cost_rep(263), 256);
    assert_eq!(m.match_cost_rep(264), 128 + 5 * 128);
}

#[test]
fn commands_of_the_table_parse_cover_the_input() {
    let data = b"abcabcabcabcabcabcabcabc-abcabc";
    let ms = find_matches(data, 2, 65535, 65535, 4096);
    let m = CostModel::static_model();
    for use_rep in [false, true] {
        let cmds = parse(data, &ms, &m, use_rep);
        let mut out: Vec<u8> = Vec::new();
        for c in &cmds {
            let start = out.len();
            out.extend_from_slice(&data[start..start + c.lit_len as usize]);
            for _ in 0..c.match_len {
                let b = out[out.len() - c.match_off as usize];
                out.push(b);
            }
        }
        assert_eq!(out, data);
    }
}

#[test]
fn suffixes_in_order() {
    assert_eq!(suffix_array(b"banana"), vec![5, 3, 1, 0, 4, 2]);
    assert_eq!(suffix_array(b"aaaa"), vec![3, 2, 1, 0]);
    assert_eq!(suffix_array(b""), Vec::<u32>::new());
}

#[test]
fn heap_gives_the_least_first() {
    let mut h = MinHeap::new();
    for v in [5usize, 1, 4, 1, 9] {
        h.push(v);
    }
    let mut out = Vec::new();
    while h.len() > 0 {
        assert_eq!(h.top(), *[1usize, 1, 4, 5, 9].get(out.len()).unwrap());
        out.push(h.pop());
    }
    assert_eq!(out, vec![1, 1, 4, 5, 9]);
}

#[test]
fn map_keeps_what_was_put() {
    let mut m = CuckooHash::new();
    for k in 0..500u32 {
        assert!(m.put(k * 7, k));
    }
    assert!(m.put(7, 77));
    assert_eq!(m.size(), 500);
    assert_eq!(m.get(7), Some(77));
    assert_eq!(m.get(14), Some(2));
    assert_eq!(m.get(15), None);
    m.erase(14);
    assert_eq!(m.get(14), None);
    assert_eq!(m.size(), 499);
    assert_eq!(m.iter_entries().len(), 499);
}

#[test]
fn sizes_fall_with_the_probability() {
    let t = build_sizetable();
    assert!(t.windows(2).all(|w| w[0] >= w[1]));
}

#[test]
fn run_lengths_to_the_next_change() {
    assert_eq!(run_lengths(b"aabbb"), vec![2, 1, 3, 2, 1]);
}

#[test]
fn best_zero_run_of_some_inputs() {
    assert_eq!(find_optimal_zero(&[0u8; 10]), 10);
    assert_eq!(find_optimal_zero(b"no zeros"), 64);
}

#[test]
fn corpus_strings_are_what_they_say() {
    assert_eq!(zeros(3), vec![0, 0, 0]);
    assert_eq!(noise(6), vec![117, 205, 37, 75, 132, 226]);
    assert_eq!(periodic(15)[12..], [12, 0, 1]);
    let p = power_on(130);
    assert_eq!((p[63], p[64], p[127], p[128]), (0, 255, 255, 0));
    assert!(binary_ish(100).iter().all(|&b| b == 0 || b == 255));
    for f in [code_like, phrases, runs, mixed, sparse, fibonacci] {
        assert_eq!(f(777).len(), 777);
    }
    let list = corpus(&[1, 300]);
    assert_eq!(list[0].0, "zeros/1");
    assert!(list.iter().all(|(name, data)| name.ends_with(&format!("/{}", data.len()))));
}

#[test]
fn cheapest_tokens_of_a_small_graph() {
    // Eight equal bytes behind one other: a literal, and one run for the rest.
    let src = [1u8, 7, 7, 7, 7, 7, 7, 7, 7];
    let plain = shortest_path(&src, 64, false);
    let rich = shortest_path(&src, 64, true);
    assert_eq!(plain.len(), 2);
    assert!(matches!(plain[0], TsTok::Literal { size: 1 }));
    assert!(matches!(plain[1], TsTok::Rle { size: 8 }));
    assert_eq!(rich.len(), 2);
}

#[test]
fn a_richer_choice_of_matches_is_no_longer() {
    let mut src = Vec::new();
    for i in 0..400u32 {
        src.extend_from_slice(b"abcdefgh");
        src.push((i * i % 7) as u8);
        src.extend_from_slice(&b"abcdefghijklmnop"[..(3 + i as usize % 9)]);
    }
    let plain = compress_tscrunch(&src);
    let rich = compress_tscrunch_rich(&src);
    assert!(rich.len() <= plain.len());
    assert_eq!(decompress_forward(&rich), src);
}

#[test]
fn the_exact_front_misses_no_match() {
    let data = b"abcabcabdabcabcabdxxxxabcxx";
    let ms = find_matches_exact(data, 2, 12, 6);
    for p in 0..data.len() {
        let list = ms.matches_for(p);
        for pair in list.windows(2) {
            assert!(pair[0].offset < pair[1].offset);
            assert!(pair[0].length < pair[1].length);
        }
        for off in 1..=p.min(12) {
            let mut run = 0;
            while p + run < data.len() && run < 6 && data[p + run] == data[p + run - off] {
                run += 1;
            }
            if run >= 2 {
                assert!(list
                    .iter()
                    .any(|m| m.offset as usize <= off && m.length as usize >= run));
            }
        }
    }
    let at = ms.matches_for(9);
    assert_eq!((at[0].offset, at[0].length), (3, 2));
    assert_eq!((at[1].offset, at[1].length), (6, 5));
    assert_eq!((at[2].offset, at[2].length), (9, 6));
}

#[test]
fn long_matches_make_an_input_repetitive() {
    let flat = vec![7u8; 4000];
    let ms = find_matches_exact(&flat, 2, 65535, 65535);
    assert!(zx_is_repetitive(&ms, flat.len()));
    let mixed_up = noise(4000);
    let ms = find_matches_exact(&mixed_up, 2, 65535, 65535);
    assert!(!zx_is_repetitive(&ms, mixed_up.len()));
}

#[test]
fn the_longest_pairs_stay() {
    let mut list = vec![];
    for pair in [(1u32, 4u32), (2, 9), (3, 4), (4, 6)] {
        keep_longest(&mut list, pair, 3);
    }
    assert_eq!(list, vec![(2, 9), (4, 6), (1, 4)]);
    let used = vec![1u32, 3, 6];
    let extra = build_extra_candidates(b"abcabcabc", &used, 8, 100);
    assert!(extra[2].is_empty());
    assert_eq!(extra[3], vec![(3, 6)]);
    assert_eq!(extra[6], vec![(3, 3), (6, 3)]);
}
