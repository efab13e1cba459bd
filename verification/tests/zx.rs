use lzan::zx::{
    compress, compress2, compress3, compress3_e, compress_backward, compress_backward_best_of,
    decode, decode_backward, encode_with, gamma_bits, rep_insert, rep_mtf, BitReader, BitWriter,
    ZxCommand, MAX_OFFSET,
};

/// A greedy parse: some list of commands that can be coded.
fn greedy_cmds(input: &[u8], rep_slots: usize) -> Vec<ZxCommand> {
    let n = input.len();
    let mut cmds = Vec::new();
    let mut i = 0usize;
    let mut lit_start = 0usize;
    let mut lit_len = 0u32;
    let mut reps = [1u32, 1, 1, 1];
    let mut prev_was_match = false;
    // first unit must be literals; force at least position 0 to be a literal
    while i < n {
        // try to find a match (naive O(n^2)-ish but capped) at i, distance <= MAX_OFFSET
        let mut best_len = 0u32;
        let mut best_off = 0u32;
        let max_back = i.min(MAX_OFFSET as usize);
        // rep candidates first (only if we'll have a preceding literal OR prev_was_match)
        for d in 1..=max_back {
            let off = d as u32;
            let src = i - d;
            let mut l = 0usize;
            while i + l < n && input[src + l] == input[i + l] && l < 4000 {
                l += 1;
            }
            if (l as u32) > best_len {
                best_len = l as u32;
                best_off = off;
            }
        }
        // Decide: a match needs min length 1; but for the grammar we need the first unit to
        // be literals. We require: a match must be preceded by a literal run unless the
        // previous unit was a match. Also reps only legal after literals.
        let can_match = best_len >= 1 && (i > 0);
        // require a leading literal for the very first command
        if can_match && (lit_len > 0 || prev_was_match) && best_len >= 2 {
            // flush as a command [lit_len][match]
            // update reps
            let off = best_off;
            // check rep legality handled by encoder; just push command
            cmds.push(ZxCommand {
                lit_len,
                lit_start,
                match_off: off,
                match_len: best_len,
                near_rep_ri: -1,
            });
            // update reps for next decision (mirror encoder, approximately)
            let mut hit = None;
            if lit_len > 0 {
                for r in 0..rep_slots {
                    if reps[r] == off {
                        hit = Some(r);
                        break;
                    }
                }
            }
            match hit {
                Some(ri) => rep_mtf(&mut reps, ri),
                None => rep_insert(&mut reps, off),
            }
            i += best_len as usize;
            lit_start = i;
            lit_len = 0;
            prev_was_match = true;
        } else {
            // literal
            if lit_len == 0 {
                lit_start = i;
            }
            lit_len += 1;
            i += 1;
            prev_was_match = false;
        }
    }
    // trailing literals -> final literal-only command
    if lit_len > 0 {
        cmds.push(ZxCommand {
            lit_len,
            lit_start,
            match_off: 0,
            match_len: 0,
            near_rep_ri: -1,
        });
    } else if cmds.is_empty() {
        // empty input
    } else {
        // last command ended on a match; orig_len-driven termination handles it.
    }
    cmds
}

fn rt(input: &[u8], rep_slots: usize) {
    let cmds = greedy_cmds(input, rep_slots);
    let blob = encode_with(input, &cmds, rep_slots);
    let out = decode(&blob, input.len());
    assert_eq!(
        out,
        input,
        "roundtrip mismatch len {} rep_slots {}",
        input.len(),
        rep_slots
    );
}

#[test]
fn gamma_bits_matches_writer() {
    for v in 1..2000u32 {
        let mut w = BitWriter::new();
        // Encode just this gamma, then re-read it.
        w.write_gamma(v);
        let blob = w.finish();
        let mut r = BitReader::new(&blob);
        assert_eq!(r.read_gamma(), v, "gamma roundtrip {}", v);
    }
}

#[test]
fn gamma_bit_count() {
    // value -> expected bits
    let cases = [
        (1u32, 1u32),
        (2, 3),
        (3, 3),
        (4, 5),
        (7, 5),
        (8, 7),
        (15, 7),
        (16, 9),
    ];
    for (v, b) in cases {
        assert_eq!(gamma_bits(v), b, "gamma_bits({})", v);
    }
}

#[test]
fn roundtrip_empty_and_tiny() {
    for slots in [1usize, 2, 3, 4] {
        for n in 0..40usize {
            let v: Vec<u8> = (0..n).map(|i| (i * 37 % 101) as u8).collect();
            rt(&v, slots);
        }
    }
}

#[test]
fn zx_roundtrip_repetitive() {
    for slots in [1usize, 4] {
        let v: Vec<u8> = (0..5000).map(|i| (i % 7) as u8).collect();
        rt(&v, slots);
    }
}

#[test]
fn roundtrip_single_byte() {
    for slots in [1usize, 4] {
        rt(&[0xABu8; 3000], slots);
    }
}

#[test]
fn roundtrip_text() {
    let base = b"the quick brown fox jumps over the lazy dog. ";
    let mut data = Vec::new();
    for _ in 0..300 {
        data.extend_from_slice(base);
    }
    for slots in [1usize, 4] {
        rt(&data, slots);
    }
}

#[test]
fn roundtrip_random() {
    let mut state = 7u32;
    let data: Vec<u8> = (0..20000)
        .map(|_| {
            state = state.wrapping_mul(1664525).wrapping_add(1013904223);
            (state >> 24) as u8
        })
        .collect();
    for slots in [1usize, 4] {
        rt(&data, slots);
    }
}

/// Roundtrip the real pipeline (match-find + parse_zx + encode + decode) on diverse and
/// adversarial inputs, for both rep0-only and rep0-3. Exercises length-1 reps, the rep-index
/// code, slot-0/offset edges, and overlap copies.
#[test]
fn roundtrip_real_pipeline() {
    let mut state: u64 = 0xDEADBEEF12345678;
    let mut rng = move || {
        state ^= state << 13;
        state ^= state >> 7;
        state ^= state << 17;
        state
    };
    // deterministic corner cases
    let mut cases: Vec<Vec<u8>> = Vec::new();
    for n in 0..16usize {
        cases.push((0..n).map(|i| i as u8).collect());
        cases.push(vec![(n & 0xff) as u8; n]);
    }
    for &period in &[1usize, 128, 257] {
        cases.push((0..128).map(|i| (i % period) as u8).collect());
    }
    for &off in &[1usize, 127, 128, 129, 256] {
        let mut v: Vec<u8> = (0..off).map(|i| (i * 131 % 251) as u8).collect();
        let pre = v.clone();
        for k in 0..128 {
            v.push(pre[k % pre.len().max(1)]);
        }
        cases.push(v);
    }
    // random structured
    for _ in 0..4 {
        let n = (rng() % 128) as usize + 1;
        let mode = rng() % 4;
        let mut v = Vec::with_capacity(n);
        match mode {
            0 => {
                let alpha = (rng() % 6) as u8 + 1;
                for _ in 0..n {
                    v.push((rng() % alpha as u64) as u8);
                }
            }
            1 => {
                for _ in 0..n {
                    v.push((rng() >> 24) as u8);
                }
            }
            2 => {
                while v.len() < n {
                    if v.is_empty() || rng() % 2 == 0 {
                        let run = (rng() % 40) as usize + 1;
                        let b = (rng() >> 16) as u8;
                        for _ in 0..run {
                            v.push(b);
                        }
                    } else {
                        let back = 1 + (rng() as usize % v.len());
                        let len = (rng() % 30) as usize + 1;
                        let src = v.len() - back;
                        for k in 0..len {
                            v.push(v[src + (k % back)]);
                        }
                    }
                }
                v.truncate(n);
            }
            _ => {
                let words: [&[u8]; 3] = [b"the ", b"quick ", b"fox "];
                while v.len() < n {
                    v.extend_from_slice(words[(rng() % 3) as usize]);
                }
                v.truncate(n);
            }
        }
        cases.push(v);
    }
    for data in &cases {
        for slots in [1usize, 4] {
            let blob = compress(data, slots);
            let out = decode(&blob, data.len());
            assert_eq!(
                &out,
                data,
                "real-pipeline roundtrip len {} slots {}",
                data.len(),
                slots
            );
        }
        // Near-rep path (rep0-3 + offset-delta coding) must also roundtrip exactly.
        let blob_nr = compress2(data, 4, true);
        let out_nr = decode(&blob_nr, data.len());
        assert_eq!(&out_nr, data, "near-rep roundtrip len {}", data.len());
        // After-match near-rep, both am-only and am + after-lit near-rep.
        for &(nr, am) in &[(false, true), (true, true)] {
            let blob_am = compress3(data, 4, nr, am);
            let out_am = decode(&blob_am, data.len());
            assert_eq!(
                &out_am,
                data,
                "am-near-rep roundtrip len {} nr={} am={}",
                data.len(),
                nr,
                am
            );
        }
    }
}

#[test]
fn roundtrip_structured() {
    let mut data = Vec::new();
    for blk in 0..200u32 {
        for i in 0..80u32 {
            data.push(((blk.wrapping_mul(7) + i) & 0xff) as u8);
        }
        data.extend_from_slice(&[0u8; 40]);
    }
    for slots in [1usize, 4] {
        rt(&data, slots);
    }
}

/// Backward roundtrip on the same diverse + adversarial inputs as `roundtrip_real_pipeline`,
/// across all grammar variants. `decode_backward(compress_backward(x)) == x`.
#[test]
fn roundtrip_backward_pipeline() {
    let mut state: u64 = 0x0BADC0DE_F00DBABE;
    let mut rng = move || {
        state ^= state << 13;
        state ^= state >> 7;
        state ^= state << 17;
        state
    };
    let mut cases: Vec<Vec<u8>> = Vec::new();
    // edge cases
    cases.push(Vec::new()); // empty
    cases.push(vec![0x42]); // 1 byte
    for n in 0..16usize {
        cases.push((0..n).map(|i| i as u8).collect());
        cases.push(vec![(n & 0xff) as u8; n]); // repetitive
    }
    for &period in &[1usize, 128, 257] {
        cases.push((0..128).map(|i| (i % period) as u8).collect());
    }
    for &off in &[1usize, 127, 128, 129, 256] {
        let mut v: Vec<u8> = (0..off).map(|i| (i * 131 % 251) as u8).collect();
        let pre = v.clone();
        for k in 0..128 {
            v.push(pre[k % pre.len().max(1)]);
        }
        cases.push(v);
    }
    // incompressible
    for _ in 0..4 {
        let n = (rng() % 128) as usize + 1;
        cases.push((0..n).map(|_| (rng() >> 24) as u8).collect());
    }
    // structured random
    for _ in 0..4 {
        let n = (rng() % 128) as usize + 1;
        let mut v = Vec::with_capacity(n);
        while v.len() < n {
            if v.is_empty() || rng() % 3 == 0 {
                let run = (rng() % 40) as usize + 1;
                let b = (rng() >> 16) as u8;
                for _ in 0..run {
                    v.push(b);
                }
            } else {
                let back = 1 + (rng() as usize % v.len());
                let len = (rng() % 30) as usize + 1;
                let src = v.len() - back;
                for k in 0..len {
                    v.push(v[src + (k % back)]);
                }
            }
        }
        v.truncate(n);
        cases.push(v);
    }

    let variants: [(usize, bool, bool); 5] = [
        (1, false, false),
        (4, false, false),
        (4, true, false),
        (4, false, true),
        (4, true, true),
    ];
    for data in &cases {
        for &(slots, nr, am) in &variants {
            let blob = compress_backward(data, slots, nr, am, 3);
            let out = decode_backward(&blob, data.len());
            assert_eq!(
                &out,
                data,
                "backward roundtrip len {} slots {} nr {} am {}",
                data.len(),
                slots,
                nr,
                am
            );
        }
        // best-of backward
        let bob = compress_backward_best_of(data, 3);
        assert_eq!(
            &decode_backward(&bob, data.len()),
            data,
            "backward best-of roundtrip len {}",
            data.len()
        );
    }
}

/// The backward blob must be the same size as the forward blob on the reversed input (same
/// grammar and parse, only input/byte order differs). Compared against `compress3_e` on the
/// reversed input for each variant.
#[test]
fn backward_size_equals_forward_on_reversed() {
    let mut data = Vec::new();
    let base = b"the quick brown fox jumps over the lazy dog. abracadabra. ";
    for _ in 0..200 {
        data.extend_from_slice(base);
    }
    let mut rev = data.clone();
    rev.reverse();
    for &(slots, nr, am) in &[(1usize, false, false), (4, false, false), (4, true, true)] {
        let bwd = compress_backward(&data, slots, nr, am, 3);
        let fwd_on_rev = compress3_e(&rev, slots, nr, am, 3);
        assert_eq!(
            bwd.len(),
            fwd_on_rev.len(),
            "backward size must equal forward-on-reversed size (slots {} nr {} am {})",
            slots,
            nr,
            am
        );
    }
}
