//! The ZX0 stream, forward and backward: literal runs, matches that repeat the
//! last offset and matches with a new one, closed by an end marker. A backward
//! stream is read from its end; its control bits have the other polarity and
//! its offsets are not complemented.
use crate::bitio::BitReader;
use crate::lz;
use crate::lz::reversed;
use crate::zx;
use crate::zx::{encode_payload, run, ZxCommand, ZxMode, ZxStyle};
use crate::zx0opt;
use crate::zx0opt::ZX0_MAX_OFFSET;
use crate::zxbest::{build_zx_commands_from_best, built};
use crate::zxblocks::{lemma_stock_is_one, optimize_blocks, stock_table};
use vstd::prelude::*;

verus! {

/// There is one algorithm, which every level runs.
pub const MAX_LEVEL: u8 = 1;

/// How a stream is coded.
pub open spec fn zx0_mode(backward: bool) -> ZxMode {
    ZxMode {
        slots: 1,
        near: false,
        am: false,
        eof: true,
        style: if backward {
            ZxStyle::Zx0Backward
        } else {
            ZxStyle::Zx0
        },
    }
}

/// The bytes of a stream in the order in which they are read, and what a
/// decoder gives back, in order.
pub open spec fn turned(s: Seq<u8>, backward: bool) -> Seq<u8> {
    if backward {
        s.reverse()
    } else {
        s
    }
}

/// Output in the order of decoding, and the largest lead of the output over the
/// bytes taken; `None` where the stream is broken.
pub open spec fn zx0_run(stream: Seq<u8>, backward: bool) -> Option<(Seq<u8>, int)> {
    if stream.len() == 0 {
        Some((Seq::empty(), 0))
    } else {
        zx::zx_run(turned(stream, backward), zx0_mode(backward), 0, zx::zx_start())
    }
}

/// What a stream decodes to.
pub open spec fn zx0_decoded(stream: Seq<u8>, backward: bool) -> Option<Seq<u8>> {
    match zx0_run(stream, backward) {
        Some((o, _)) => Some(turned(o, backward)),
        None => None,
    }
}

/// In-place gap of a stream: how far the output may run ahead of the bytes
/// taken, against where both end.
pub open spec fn zx0_gap(stream: Seq<u8>, backward: bool) -> int {
    match zx0_run(stream, backward) {
        Some((o, peak)) => zx::max_of(peak - (o.len() - stream.len()), 0),
        None => 0,
    }
}

proof fn lemma_any_len_for(data: Seq<u8>, m: ZxMode, a: int, b: int, d: zx::DState, fuel: nat)
    requires
        m.eof,
    ensures
        zx::zx_run_for(data, m, a, d, fuel) == zx::zx_run_for(data, m, b, d, fuel),
    decreases fuel,
{
    if fuel > 0 {
        assert(zx::zx_step(data, m, a, d) == zx::zx_step(data, m, b, d));
        match zx::zx_step(data, m, a, d) {
            zx::DStep::Next(e) => {
                lemma_any_len_for(data, m, a, b, e, (fuel - 1) as nat);
            },
            _ => {},
        }
    }
}

/// A stream with an end marker says itself how long the output is.
pub proof fn lemma_any_len(data: Seq<u8>, m: ZxMode, a: int, b: int, d: zx::DState)
    requires
        m.eof,
    ensures
        zx::zx_run(data, m, a, d) == zx::zx_run(data, m, b, d),
{
    if zx::zx_ends(data, m, a, d) {
        let f = choose|f: nat| zx::zx_run_for(data, m, a, d, f) is Some;
        lemma_any_len_for(data, m, a, b, d, f);
        zx::lemma_zx_run(data, m, a, d, f);
        zx::lemma_zx_run(data, m, b, d, f);
    } else if zx::zx_ends(data, m, b, d) {
        let f = choose|f: nat| zx::zx_run_for(data, m, b, d, f) is Some;
        lemma_any_len_for(data, m, a, b, d, f);
        assert(zx::zx_run_for(data, m, a, d, f) is Some);
    }
}

/// The commands of a table, with no slots but the last offset.
pub open spec fn rep0_cmds(best: Seq<(u32, u32)>) -> Seq<ZxCommand> {
    built(
        best,
        Seq::new(best.len(), |p: int| -1i8),
        zx0opt::rep0_mode(),
        ZX0_MAX_OFFSET as int,
    )
}

/// `cmds` are the commands of the stock parse of `order`.
pub open spec fn stock_cmds(order: Seq<u8>, cmds: Seq<ZxCommand>) -> bool {
    exists|best: Seq<(u32, u32)>| #[trigger]
        stock_table(order, ZX0_MAX_OFFSET as int, false, best) && cmds == rep0_cmds(best)
}

/// The stock parse of an input is one list of commands.
pub proof fn lemma_stock_cmds_is_one(order: Seq<u8>, a: Seq<ZxCommand>, b: Seq<ZxCommand>)
    requires
        stock_cmds(order, a),
        stock_cmds(order, b),
    ensures
        a == b,
{
    let s = choose|best: Seq<(u32, u32)>| #[trigger]
        stock_table(order, ZX0_MAX_OFFSET as int, false, best) && a == rep0_cmds(best);
    let t = choose|best: Seq<(u32, u32)>| #[trigger]
        stock_table(order, ZX0_MAX_OFFSET as int, false, best) && b == rep0_cmds(best);
    lemma_stock_is_one(order, ZX0_MAX_OFFSET as int, false, s, t);
}

/// Two streams of one input, of whatever level, are the same.
pub proof fn lemma_one_stream(input: Seq<u8>, backward: bool, a: Seq<u8>, b: Seq<u8>)
    requires
        zx0_packed(input, backward, a),
        zx0_packed(input, backward, b),
    ensures
        a == b,
{
    if input.len() == 0 {
        assert(a =~= b);
    } else {
        let c = choose|cmds: Seq<ZxCommand>| #[trigger] zx0_encoded(input, cmds, backward, a);
        let d = choose|cmds: Seq<ZxCommand>| #[trigger] zx0_encoded(input, cmds, backward, b);
        lemma_stock_cmds_is_one(turned(input, backward), c, d);
        lz::lemma_reverse_twice(a);
        lz::lemma_reverse_twice(b);
    }
}

/// `stream` is the ZX0 stream of the commands of the stock parse: it is as long as
/// the bits of the commands and of the end marker, and gives the input back.
pub open spec fn zx0_encoded(
    input: Seq<u8>,
    cmds: Seq<ZxCommand>,
    backward: bool,
    stream: Seq<u8>,
) -> bool {
    &&& stock_cmds(turned(input, backward), cmds)
    &&& zx::zx_legal(turned(input, backward), cmds, zx0_mode(backward))
    &&& stream.len() == (zx::zx_bits(cmds, zx0_mode(backward), cmds.len() as int) + 25) / 8
    &&& zx0_decoded(stream, backward) == Some(input)
    &&& turned(stream, backward) == zx::payload_bytes(
        turned(input, backward),
        cmds,
        zx0_mode(backward),
    )
    &&& zx::ends_in_marker(
        turned(stream, backward),
        zx0_mode(backward),
        turned(input, backward),
    )
}

/// A stream from which the input comes back: the stock parse, coded.
pub open spec fn zx0_packed(input: Seq<u8>, backward: bool, stream: Seq<u8>) -> bool {
    if input.len() == 0 {
        stream.len() == 0
    } else {
        &&& zx0_decoded(stream, backward) == Some(input)
        &&& exists|cmds: Seq<ZxCommand>| #[trigger] zx0_encoded(input, cmds, backward, stream)
    }
}

/// Compresses forward or backward. Every level gives the same.
pub fn compress(input: &[u8], level: u8, backward: bool) -> (stream: Vec<u8>)
    requires
        input@.len() <= 0x3fff_ffff,
    ensures
        zx0_packed(input@, backward, stream@),
{
    if backward {
        compress_zx0_compatible_backward(input)
    } else {
        compress_zx0_compatible(input)
    }
}

/// Decompresses a forward or backward stream.
pub fn decompress(input: &[u8], backward: bool) -> (out: Vec<u8>)
    requires
        zx0_decoded(input@, backward) is Some,
    ensures
        zx0_decoded(input@, backward) == Some(out@),
{
    if backward {
        dzx0_decode_backward(input)
    } else {
        dzx0_decode(input)
    }
}

/// Bytes of the stock parse of `order`, which is the input in the order of
/// the stream.
fn emit_zx0_v2(order: &[u8], style: ZxStyle, Ghost(backward): Ghost<bool>) -> (out: Vec<u8>)
    requires
        0 < order@.len() <= 0x3fff_ffff,
        style == zx0_mode(backward).style,
    ensures
        ({
            let m = zx0_mode(backward);
            &&& out@.len() > 0
            &&& zx::ends_in_marker(out@, m, order@)
            &&& zx::zx_run(out@, m, 0, zx::zx_start()) matches Some((o, _)) && o == order@
            &&& exists|cmds: Seq<ZxCommand>|
                #![trigger zx::zx_legal(order@, cmds, m)]
                zx::zx_legal(order@, cmds, m) && stock_cmds(order@, cmds) && out@ == zx::payload_bytes(
                    order@,
                    cmds,
                    m,
                ) && out@.len() == (zx::zx_bits(cmds, m, cmds.len() as int) + 25) / 8
        }),
{
    let best: Vec<(u32, u32)> = optimize_blocks(order, ZX0_MAX_OFFSET, false);
    let ri: Vec<i8> = vec![-1; order.len()];
    let cmds: Vec<ZxCommand> = build_zx_commands_from_best(
        order,
        &best,
        &ri,
        1,
        false,
        false,
        ZX0_MAX_OFFSET as u32,
    );
    let ghost m = zx0_mode(backward);
    let ghost plain = zx0opt::rep0_mode();
    assert(zx::zx_mode(1, false, false) == plain);
    proof {
        assert(ri@ =~= Seq::new(best@.len(), |p: int| -1i8));
        assert(stock_cmds(order@, cmds@));
        assert(zx0opt::cmds_within(cmds@, ZX0_MAX_OFFSET as int));
        zx::lemma_legal_with_end(order@, cmds@, plain, m);
        zx::lemma_same_grammar(cmds@, plain, m, cmds@.len() as int);
    }
    let out: Vec<u8> = encode_payload(order, cmds.as_slice(), 1, false, false, true, style);
    proof {
        lemma_any_len(out@, m, order@.len() as int, 0, zx::zx_start());
    }
    out
}

/// Forward stream.
pub fn compress_zx0_compatible(input: &[u8]) -> (stream: Vec<u8>)
    requires
        input@.len() <= 0x3fff_ffff,
    ensures
        zx0_packed(input@, false, stream@),
{
    if input.len() == 0 {
        return Vec::new();
    }
    let out: Vec<u8> = emit_zx0_v2(input, ZxStyle::Zx0, Ghost(false));
    proof {
        let m = zx0_mode(false);
        let cmds = choose|cmds: Seq<ZxCommand>|
            #![trigger zx::zx_legal(input@, cmds, m)]
            zx::zx_legal(input@, cmds, m) && stock_cmds(input@, cmds) && out@ == zx::payload_bytes(
                input@,
                cmds,
                m,
            ) && out@.len() == (
            zx::zx_bits(cmds, m, cmds.len() as int) + 25) / 8;
        assert(zx0_encoded(input@, cmds, false, out@));
    }
    out
}

/// Backward stream: that of the reversed input with the other conventions,
/// turned round.
pub fn compress_zx0_compatible_backward(input: &[u8]) -> (stream: Vec<u8>)
    requires
        input@.len() <= 0x3fff_ffff,
    ensures
        zx0_packed(input@, true, stream@),
{
    if input.len() == 0 {
        return Vec::new();
    }
    let rev: Vec<u8> = reversed(input);
    let out: Vec<u8> = emit_zx0_v2(rev.as_slice(), ZxStyle::Zx0Backward, Ghost(true));
    let stream: Vec<u8> = reversed(out.as_slice());
    proof {
        let m = zx0_mode(true);
        lz::lemma_reverse_twice(out@);
        lz::lemma_reverse_twice(input@);
        let cmds = choose|cmds: Seq<ZxCommand>|
            #![trigger zx::zx_legal(rev@, cmds, m)]
            zx::zx_legal(rev@, cmds, m) && stock_cmds(rev@, cmds) && out@ == zx::payload_bytes(
                rev@,
                cmds,
                m,
            ) && out@.len() == (
            zx::zx_bits(cmds, m, cmds.len() as int) + 25) / 8;
        assert(zx0_encoded(input@, cmds, true, stream@));
    }
    stream
}

/// Decodes and measures the in-place gap.
fn dzx0_decode_with_gap(data: &[u8]) -> (r: (Vec<u8>, i128))
    requires
        zx0_decoded(data@, false) is Some,
    ensures
        zx0_decoded(data@, false) == Some(r.0@),
        r.1 == zx0_gap(data@, false),
        r.1 <= data@.len(),
{
    if data.len() == 0 {
        let out: Vec<u8> = Vec::new();
        assert(out@ =~= Seq::<u8>::empty());
        return (out, 0);
    }
    let mut r: BitReader = BitReader::new(data);
    let (out, peak) = run(&mut r, 1, false, false, true, ZxStyle::Zx0, 0);
    let end: i128 = out.len() as i128 - data.len() as i128;
    let gap: i128 = if peak > end {
        peak - end
    } else {
        0
    };
    (out, gap)
}

/// Decodes a backward stream and measures the in-place gap.
fn dzx0_decode_backward_with_gap(stream: &[u8]) -> (r: (Vec<u8>, i128))
    requires
        zx0_decoded(stream@, true) is Some,
    ensures
        zx0_decoded(stream@, true) == Some(r.0@),
        r.1 == zx0_gap(stream@, true),
        r.1 <= stream@.len(),
{
    if stream.len() == 0 {
        let out: Vec<u8> = Vec::new();
        assert(out@ =~= Seq::<u8>::empty().reverse());
        return (out, 0);
    }
    let mut r: BitReader = BitReader::from_end(stream);
    let (out, peak) = run(&mut r, 1, false, false, true, ZxStyle::Zx0Backward, 0);
    let end: i128 = out.len() as i128 - stream.len() as i128;
    let gap: i128 = if peak > end {
        peak - end
    } else {
        0
    };
    (reversed(out.as_slice()), gap)
}

/// Decodes a forward stream.
pub fn dzx0_decode(data: &[u8]) -> (out: Vec<u8>)
    requires
        zx0_decoded(data@, false) is Some,
    ensures
        zx0_decoded(data@, false) == Some(out@),
{
    dzx0_decode_with_gap(data).0
}

/// Decodes a backward stream.
pub fn dzx0_decode_backward(stream: &[u8]) -> (out: Vec<u8>)
    requires
        zx0_decoded(stream@, true) is Some,
    ensures
        zx0_decoded(stream@, true) == Some(out@),
{
    dzx0_decode_backward_with_gap(stream).0
}

/// In-place gap of a forward stream.
pub fn max_gap_forward(stream: &[u8]) -> (gap: usize)
    requires
        zx0_decoded(stream@, false) is Some,
    ensures
        gap == zx0_gap(stream@, false),
        gap <= stream@.len(),
{
    let n: usize = stream.len();
    let (_, gap) = dzx0_decode_with_gap(stream);
    assert(gap <= n);
    gap as usize
}

/// In-place gap of a backward stream.
pub fn max_gap_backward(stream: &[u8]) -> (gap: usize)
    requires
        zx0_decoded(stream@, true) is Some,
    ensures
        gap == zx0_gap(stream@, true),
        gap <= stream@.len(),
{
    let n: usize = stream.len();
    let (_, gap) = dzx0_decode_backward_with_gap(stream);
    assert(gap <= n);
    gap as usize
}

} // verus!
