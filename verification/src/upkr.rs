//! upkr: adaptive bits, entropy coded, around literal bytes and matches. A
//! backward stream is a forward stream of the reversed input, turned round.
use crate::lz::reversed;
use crate::suffix::MAX_TEXT;
use crate::uparse::{parse, ParseConfig};
use crate::upkrenc::{encode_ops, Op};
pub use crate::upkrstream::Config;
use crate::upkrstream::unpack_peak;
use crate::lz;
use crate::uparse;
use crate::upkrenc;
use crate::upkrstream;
use vstd::prelude::*;

verus! {

/// Levels of `compress`.
pub const MAX_LEVEL: u8 = 3;

/// Levels of the search.
pub const MAX_NATIVE_LEVEL: u8 = 9;

/// Longest input.
pub const MAX_INPUT: usize = MAX_TEXT;

/// The variant that the decoder for 8-bit machines reads.
pub open spec fn small_config() -> Config {
    Config {
        use_bitstream: true,
        bitstream_is_big_endian: true,
        new_offset_bit: false,
        continue_value_bit: false,
        simplified_prob_update: true,
        ..upkrstream::default_config()
    }
}

/// The stream decodes to the input wherever there is room for it.
pub open spec fn upkr_packed(input: Seq<u8>, c: Config, out: Seq<u8>) -> bool {
    forall|max: int|
        max >= input.len() ==> #[trigger] upkrstream::unpacked(out, c, max) == Some(input)
}

/// The bytes of the tokens that the search finds at a level of the search.
pub open spec fn upkr_bytes(input: Seq<u8>, level: u8, c: Config, out: Seq<u8>) -> bool {
    exists|ops: Seq<Op>| #[trigger]
        uparse::found_ops(input, uparse::config_of(level), c, ops) && out == upkrenc::ops_bytes(
            c,
            ops,
        )
}

/// `out` is the stream of the input: it decodes to it, and holds the tokens that
/// the search finds.
pub open spec fn upkr_stream(input: Seq<u8>, level: u8, c: Config, out: Seq<u8>) -> bool {
    &&& upkr_packed(input, c, out)
    &&& upkr_bytes(input, level, c, out)
}

/// A level of the search, at most 9.
pub open spec fn top_level(level: u8) -> u8 {
    if level > MAX_NATIVE_LEVEL {
        MAX_NATIVE_LEVEL
    } else {
        level
    }
}

pub open spec fn upkr_order(s: Seq<u8>, backward: bool) -> Seq<u8> {
    if backward {
        s.reverse()
    } else {
        s
    }
}

/// The search level of a level: 1, 6 or 9.
pub open spec fn native_of(level: u8) -> u8 {
    if level <= 1 {
        1
    } else if level == 2 {
        6
    } else {
        9
    }
}

/// A compressed input decodes to itself.
pub proof fn lemma_upkr_roundtrip(input: Seq<u8>, c: Config, out: Seq<u8>, backward: bool)
    requires
        input.len() <= usize::MAX,
        upkr_packed(upkr_order(input, backward), c, upkr_order(out, backward)),
    ensures
        upkrstream::unpacked(upkr_order(out, backward), c, usize::MAX as int) matches Some(o)
            && upkr_order(o, backward) == input,
{
    lz::lemma_reverse_twice(input);
    assert(upkr_order(input, backward).len() == input.len());
}

/// A level gives one stream of an input: what is compressed again, at the same level
/// of the search, is the same.
pub proof fn lemma_one_stream(input: Seq<u8>, level: u8, c: Config, a: Seq<u8>, b: Seq<u8>)
    requires
        upkr_bytes(input, level, c, a),
        upkr_bytes(input, level, c, b),
    ensures
        a == b,
{
    let x = choose|ops: Seq<Op>| #[trigger]
        uparse::found_ops(input, uparse::config_of(level), c, ops) && a == upkrenc::ops_bytes(
            c,
            ops,
        );
    let y = choose|ops: Seq<Op>| #[trigger]
        uparse::found_ops(input, uparse::config_of(level), c, ops) && b == upkrenc::ops_bytes(
            c,
            ops,
        );
    uparse::lemma_found_is_one(input, uparse::config_of(level), c, x, y);
}

/// A level gives what its level of the search gives.
pub proof fn lemma_levels_are_native(input: Seq<u8>, level: u8, c: Config, a: Seq<u8>, b: Seq<u8>)
    requires
        upkr_stream(input, native_of(level), c, a),
        upkr_stream(input, top_level(native_of(level)), c, b),
    ensures
        a == b,
{
    lemma_one_stream(input, native_of(level), c, a, b);
}

/// The backward stream is the forward stream of the reversed input, turned round.
pub proof fn lemma_backward_is_mirrored(
    input: Seq<u8>,
    level: u8,
    c: Config,
    back: Seq<u8>,
    fwd: Seq<u8>,
)
    requires
        upkr_stream(upkr_order(input, true), level, c, upkr_order(back, true)),
        upkr_stream(input.reverse(), level, c, fwd),
    ensures
        back == fwd.reverse(),
{
    lemma_one_stream(input.reverse(), level, c, back.reverse(), fwd);
    lz::lemma_reverse_twice(back);
}

/// Decodes a stream, to at most `max_size` bytes.
pub fn unpack(packed_data: &[u8], config: &Config, max_size: usize) -> (out: Option<Vec<u8>>)
    requires
        upkrstream::config_wf(*config),
    ensures
        match out {
            None => upkrstream::unpacked(packed_data@, *config, max_size as int) is None,
            Some(o) => upkrstream::unpacked(packed_data@, *config, max_size as int) == Some(o@),
        },
{
    match unpack_peak(packed_data, config, max_size) {
        None => None,
        Some((o, _)) => Some(o),
    }
}

/// The variant that the decoder for 8-bit machines reads.
pub fn config_6502() -> (c: Config)
    ensures
        c == small_config(),
        upkrstream::config_wf(c),
{
    let mut c: Config = Config::default();
    c.use_bitstream = true;
    c.bitstream_is_big_endian = true;
    c.new_offset_bit = false;
    c.continue_value_bit = false;
    c.simplified_prob_update = true;
    c
}

/// In-place gap of a forward stream for 8-bit machines: how far the output may
/// run ahead of the bytes taken, against where both end. Nothing for a broken
/// stream.
pub fn max_gap_forward(stream: &[u8]) -> (gap: usize)
    ensures
        gap == upkrstream::unpack_gap(stream@, small_config(), usize::MAX as int),
        gap <= stream@.len(),
{
    let n: usize = stream.len();
    let c: Config = config_6502();
    match unpack_peak(stream, &c, usize::MAX) {
        None => 0,
        Some((o, peak)) => {
            let end: i128 = o.len() as i128 - n as i128;
            if peak > end {
                (peak - end) as usize
            } else {
                0
            }
        },
    }
}

/// In-place gap of a backward stream for 8-bit machines.
pub fn max_gap_backward(stream: &[u8]) -> (gap: usize)
    ensures
        gap == upkrstream::unpack_gap(stream@.reverse(), small_config(), usize::MAX as int),
        gap <= stream@.len(),
{
    let rev: Vec<u8> = reversed(stream);
    max_gap_forward(rev.as_slice())
}

/// The stream of the input at a level of the search.
fn pack(input: &[u8], level: u8, c: &Config) -> (out: Vec<u8>)
    requires
        input@.len() <= MAX_INPUT,
        upkrstream::config_wf(*c),
        upkrstream::min_len(*c) <= c.max_length,
    ensures
        upkr_stream(input@, level, *c, out@),
{
    let pc: ParseConfig = ParseConfig::from_level(level);
    let ops: Vec<Op> = parse(input, &pc, c);
    assert(uparse::found_ops(input@, uparse::config_of(level), *c, ops@));
    encode_ops(&ops, input, c)
}

fn pack_order(input: &[u8], level: u8, c: &Config, backward: bool) -> (out: Vec<u8>)
    requires
        input@.len() <= MAX_INPUT,
        upkrstream::config_wf(*c),
        upkrstream::min_len(*c) <= c.max_length,
    ensures
        upkr_stream(upkr_order(input@, backward), level, *c, upkr_order(out@, backward)),
{
    if !backward {
        return pack(input, level, c);
    }
    let rev: Vec<u8> = reversed(input);
    let out: Vec<u8> = pack(rev.as_slice(), level, c);
    let r: Vec<u8> = reversed(out.as_slice());
    proof {
        lz::lemma_reverse_twice(out@);
    }
    r
}

/// Compresses at the search level, at most 9.
pub fn compress_native(input: &[u8], native_level: u8, backward: bool) -> (out: Vec<u8>)
    requires
        input@.len() <= MAX_INPUT,
    ensures
        upkr_stream(
            upkr_order(input@, backward),
            top_level(native_level),
            upkrstream::default_config(),
            upkr_order(out@, backward),
        ),
        upkr_stream(
            upkr_order(input@, backward),
            if native_level < 9 {
                native_level
            } else {
                9
            },
            upkrstream::default_config(),
            upkr_order(out@, backward),
        ),
{
    let level: u8 = if native_level > MAX_NATIVE_LEVEL {
        MAX_NATIVE_LEVEL
    } else {
        native_level
    };
    let c: Config = Config::default();
    pack_order(input, level, &c, backward)
}

fn native_for_level(level: u8) -> (n: u8)
    ensures
        n == native_of(level),
{
    if level <= 1 {
        1
    } else if level == 2 {
        6
    } else {
        9
    }
}

/// Compresses at a level from 1 to 3.
pub fn compress(input: &[u8], level: u8, backward: bool) -> (out: Vec<u8>)
    requires
        input@.len() <= MAX_INPUT,
    ensures
        upkr_stream(
            upkr_order(input@, backward),
            native_of(level),
            upkrstream::default_config(),
            upkr_order(out@, backward),
        ),
        upkr_stream(
            upkr_order(input@, backward),
            if level <= 1 {
                1
            } else if level == 2 {
                6
            } else {
                9
            },
            upkrstream::default_config(),
            upkr_order(out@, backward),
        ),
{
    compress_native(input, native_for_level(level), backward)
}

/// Compresses to a forward stream as well as the search can.
pub fn compress_upkr(input: &[u8]) -> (out: Vec<u8>)
    requires
        input@.len() <= MAX_INPUT,
    ensures
        upkr_stream(input@, MAX_NATIVE_LEVEL, upkrstream::default_config(), out@),
{
    compress_native(input, MAX_NATIVE_LEVEL, false)
}

/// Compresses to a backward stream as well as the search can.
pub fn compress_upkr_reverse(input: &[u8]) -> (out: Vec<u8>)
    requires
        input@.len() <= MAX_INPUT,
    ensures
        upkr_stream(input@.reverse(), MAX_NATIVE_LEVEL, upkrstream::default_config(), out@.reverse()),
{
    compress_native(input, MAX_NATIVE_LEVEL, true)
}

/// Compresses to a forward stream for 8-bit machines.
pub fn compress_upkr_6502(input: &[u8]) -> (out: Vec<u8>)
    requires
        input@.len() <= MAX_INPUT,
    ensures
        upkr_stream(input@, MAX_NATIVE_LEVEL, small_config(), out@),
{
    let c: Config = config_6502();
    pack_order(input, MAX_NATIVE_LEVEL, &c, false)
}

/// Compresses to a backward stream for 8-bit machines.
pub fn compress_upkr_6502_backward(input: &[u8]) -> (out: Vec<u8>)
    requires
        input@.len() <= MAX_INPUT,
    ensures
        upkr_stream(input@.reverse(), MAX_NATIVE_LEVEL, small_config(), out@.reverse()),
{
    let c: Config = config_6502();
    pack_order(input, MAX_NATIVE_LEVEL, &c, true)
}

/// Decodes a backward stream for 8-bit machines, to at most `max_size` bytes.
pub fn decompress_upkr_6502_backward(input: &[u8], max_size: usize) -> (out: Option<Vec<u8>>)
    ensures
        match out {
            None => upkrstream::unpacked(
                input@.reverse(),
                small_config(),
                max_size as int,
            ) is None,
            Some(o) => upkrstream::unpacked(
                input@.reverse(),
                small_config(),
                max_size as int,
            ) matches Some(r) && o@ == r.reverse(),
        },
{
    let rev: Vec<u8> = reversed(input);
    let c: Config = config_6502();
    match unpack(rev.as_slice(), &c, max_size) {
        None => None,
        Some(o) => Some(reversed(o.as_slice())),
    }
}

/// Decompresses a forward or backward stream.
pub fn decompress(input: &[u8], backward: bool) -> (out: Vec<u8>)
    requires
        upkrstream::unpacked(
            upkr_order(input@, backward),
            upkrstream::default_config(),
            usize::MAX as int,
        ) is Some,
    ensures
        upkrstream::unpacked(
            upkr_order(input@, backward),
            upkrstream::default_config(),
            usize::MAX as int,
        ) matches Some(o) && out@ == upkr_order(o, backward),
{
    let c: Config = Config::default();
    if backward {
        let rev: Vec<u8> = reversed(input);
        match unpack(rev.as_slice(), &c, usize::MAX) {
            None => Vec::new(),
            Some(o) => reversed(o.as_slice()),
        }
    } else {
        match unpack(input, &c, usize::MAX) {
            None => Vec::new(),
            Some(o) => o,
        }
    }
}

} // verus!
