//! The ZX stream: interlaced Elias gamma codes, up to four recent offsets kept
//! in a move-to-front queue, and offsets coded as a small distance from a
//! recent one.
//!
//! A stream alternates literal runs and matches. It starts with a literal run;
//! after a run comes a match, which may reuse a recent offset; after a match
//! comes a run or a match with a new offset. A mode byte in front says how many
//! recent offsets are in use and which near-offset codes are on. The length of
//! the output is kept outside the stream, except in the minimal mode, where a
//! marker ends it.
pub use crate::bitio::{gamma_bits, BackwardBitReader, BitReader, BitWriter};
pub use crate::zxpack::{
    compress, compress2, compress3, compress3_e, compress3_tuned, compress3_with_cmds,
    compress_backward, compress_backward_best_of, compress_complete, compress_e, compress_min_eof,
    compress_min_eof_backward, compress_min_eof_backward_e, compress_min_eof_e,
    compress_with_cmds, rep0_cost_with_window, rep0_zx0exact_cost,
};
pub use crate::zxstats::{hist, stats, ZxHist, ZxStats};
use crate::bitio::BitPos;
use crate::lz::{copy_match, reversed};
use crate::lz;
use crate::bitio;
use vstd::prelude::*;

verus! {

/// Largest offset: the whole 64 KB window.
pub const MAX_OFFSET: u32 = 0xFFFF;

/// Largest input that is parsed exactly in the one-offset mode.
pub const ZX0OPT_MAX_INPUT: usize = 33792;

/// Offset limit of that exact parse.
pub const ZX0OPT_OFFSET_LIMIT: usize = 0xFFFF;

/// Recent offsets in use by default.
pub const REP_SLOTS_DEFAULT: usize = 4;

/// Offset high part that marks the end of a minimal stream.
pub const EOF_MSB: u32 = 256;

/// Largest offset of a minimal stream; its high part stays below the marker.
pub const EOF_MAX_OFFSET: u32 = 32640;

/// Mode byte of a minimal stream.
pub const MODE_MIN_EOF: u8 = 0x41;

/// Encoder effort of the entry points that do not name one.
pub const DEFAULT_EFFORT: u8 = 3;

/// An optional literal run and the match after it. `match_off == 0` marks the
/// last command, which has no match. `near_rep_ri >= 0` asks for the offset to
/// be coded by its distance from that recent offset.
#[derive(Clone, Copy, Debug)]
pub struct ZxCommand {
    pub lit_len: u32,
    pub lit_start: usize,
    pub match_off: u32,
    pub match_len: u32,
    pub near_rep_ri: i8,
}

/// What may follow a literal run when near offsets are on.
#[derive(Clone, Copy, PartialEq, Debug)]
pub enum AfterLit {
    NewOffset,
    ExactRep(usize),
    NearRep(usize, u32),
}

/// What may follow a match when near offsets after a match are on.
#[derive(Clone, Copy, PartialEq, Debug)]
pub enum AfterMatch {
    Literals,
    NewOffset,
    NearRep(usize, u32),
}

// ---------------------------------------------------------------------------
// Code lengths
// ---------------------------------------------------------------------------
pub fn lit_run_bits(run: u32) -> (bits: u32)
    requires
        run >= 1,
    ensures
        bits == bitio::gamma_len(run as nat),
        1 <= bits <= 63,
{
    gamma_bits(run)
}

pub fn newoff_len_bits(len_minus_1: u32) -> (bits: u32)
    requires
        len_minus_1 >= 1,
    ensures
        bits == bitio::gamma_len(len_minus_1 as nat),
        1 <= bits <= 63,
{
    gamma_bits(len_minus_1)
}

pub fn rep_len_bits(len: u32) -> (bits: u32)
    requires
        len >= 1,
    ensures
        bits == bitio::gamma_len(len as nat),
        1 <= bits <= 63,
{
    gamma_bits(len)
}

pub fn off_msb_bits(msb: u32) -> (bits: u32)
    requires
        msb >= 1,
    ensures
        bits == bitio::gamma_len(msb as nat),
        1 <= bits <= 63,
{
    gamma_bits(msb)
}

/// High part of an offset.
pub open spec fn off_msb(off: int) -> int {
    (off - 1) / 128 + 1
}

/// Bits of a new offset: the gamma code of its high part and seven low bits.
pub open spec fn off_len(off: int) -> nat {
    bitio::gamma_len(off_msb(off) as nat) + 7
}

proof fn lemma_shift7(x: u32)
    by (bit_vector)
    ensures
        x >> 7u32 == x / 128,
        x & 0x7fu32 == x % 128,
{
}

pub fn offset_cost_bits_hc(off: u32) -> (bits: u32)
    requires
        off >= 1,
    ensures
        bits == off_len(off as int),
        8 <= bits <= 70,
{
    proof {
        lemma_shift7((off - 1) as u32);
    }
    let msb: u32 = ((off - 1) >> 7u32) + 1;
    gamma_bits(msb) + 7
}

pub fn offset_cost_bits(off: u32) -> (bits: u32)
    requires
        off >= 1,
    ensures
        bits == off_len(off as int),
{
    if off <= 128 {
        8
    } else {
        proof {
            lemma_shift7((off - 1) as u32);
        }
        7 + gamma_bits(((off - 1) >> 7u32) + 1)
    }
}

pub open spec fn rep_index_len(idx: int) -> nat {
    if idx == 0 {
        1
    } else if idx == 1 {
        2
    } else {
        3
    }
}

/// Bits of the index of a recent offset: `1`, `01`, `001`, `000`.
pub fn rep_index_bits(idx: usize) -> (bits: u32)
    ensures
        bits == rep_index_len(idx as int),
{
    match idx {
        0 => 1,
        1 => 2,
        2 => 3,
        _ => 3,
    }
}

pub open spec fn after_lit_len(sym: AfterLit) -> nat {
    match sym {
        AfterLit::NewOffset => 1,
        AfterLit::ExactRep(i) => if i == 0 {
            2
        } else if i == 1 {
            3
        } else if i == 2 {
            6
        } else {
            5
        },
        AfterLit::NearRep(i, _) => if i == 0 {
            4
        } else {
            6
        },
    }
}

/// Bits of the symbol after a literal run when near offsets are on.
pub fn after_lit_prefix_bits(sym: AfterLit) -> (bits: u32)
    ensures
        bits == after_lit_len(sym),
        1 <= bits <= 6,
{
    match sym {
        AfterLit::NewOffset => 1,
        AfterLit::ExactRep(i) => if i == 0 {
            2
        } else if i == 1 {
            3
        } else if i == 2 {
            6
        } else {
            5
        },
        AfterLit::NearRep(i, _) => if i == 0 {
            4
        } else {
            6
        },
    }
}

/// Bits of a distance from a recent offset: a sign and a gamma code.
pub fn near_rep_delta_bits(delta: u32) -> (bits: u32)
    requires
        delta >= 1,
    ensures
        bits == 1 + bitio::gamma_len(delta as nat),
        2 <= bits <= 64,
{
    1 + gamma_bits(delta)
}

pub open spec fn after_match_len(sym: AfterMatch) -> nat {
    match sym {
        AfterMatch::Literals => 1,
        AfterMatch::NewOffset => 2,
        AfterMatch::NearRep(_, _) => 3,
    }
}

/// Bits of the symbol after a match when near offsets after a match are on.
pub fn after_match_prefix_bits(sym: AfterMatch) -> (bits: u32)
    ensures
        bits == after_match_len(sym),
{
    match sym {
        AfterMatch::Literals => 1,
        AfterMatch::NewOffset => 2,
        AfterMatch::NearRep(_, _) => 3,
    }
}

// ---------------------------------------------------------------------------
// Recent offsets
// ---------------------------------------------------------------------------
/// The queue before the first match.
pub open spec fn reps_start() -> Seq<u32> {
    seq![1u32, 1u32, 1u32, 1u32]
}

/// `off` in front, the last entry dropped.
pub open spec fn reps_insert(reps: Seq<u32>, off: u32) -> Seq<u32> {
    seq![off, reps[0], reps[1], reps[2]]
}

/// Entry `idx` moved to the front.
pub open spec fn reps_mtf(reps: Seq<u32>, idx: int) -> Seq<u32> {
    if idx == 0 {
        seq![reps[0], reps[1], reps[2], reps[3]]
    } else if idx == 1 {
        seq![reps[1], reps[0], reps[2], reps[3]]
    } else if idx == 2 {
        seq![reps[2], reps[0], reps[1], reps[3]]
    } else {
        seq![reps[3], reps[0], reps[1], reps[2]]
    }
}

/// First of the `slots` front entries that holds `off`.
pub open spec fn reps_find(reps: Seq<u32>, off: u32, slots: int) -> Option<usize> {
    if slots > 0 && reps[0] == off {
        Some(0)
    } else if slots > 1 && reps[1] == off {
        Some(1)
    } else if slots > 2 && reps[2] == off {
        Some(2)
    } else if slots > 3 && reps[3] == off {
        Some(3)
    } else {
        None
    }
}

pub fn rep_insert(reps: &mut [u32; 4], off: u32)
    ensures
        final(reps)@ == reps_insert(old(reps)@, off),
{
    let ghost r0 = reps@;
    reps[3] = reps[2];
    reps[2] = reps[1];
    reps[1] = reps[0];
    reps[0] = off;
    assert(reps@ =~= reps_insert(r0, off));
}

pub fn rep_mtf(reps: &mut [u32; 4], idx: usize)
    requires
        idx < 4,
    ensures
        final(reps)@ == reps_mtf(old(reps)@, idx as int),
{
    let ghost r0 = reps@;
    let v: u32 = reps[idx];
    if idx >= 3 {
        reps[3] = reps[2];
    }
    if idx >= 2 {
        reps[2] = reps[1];
    }
    if idx >= 1 {
        reps[1] = reps[0];
    }
    reps[0] = v;
    assert(reps@ =~= reps_mtf(r0, idx as int));
}

/// First of the `slots` front entries that holds `off`.
pub fn rep_find(reps: &[u32; 4], off: u32, slots: usize) -> (found: Option<usize>)
    ensures
        found == reps_find(reps@, off, slots as int),
{
    if slots > 0 && reps[0] == off {
        Some(0)
    } else if slots > 1 && reps[1] == off {
        Some(1)
    } else if slots > 2 && reps[2] == off {
        Some(2)
    } else if slots > 3 && reps[3] == off {
        Some(3)
    } else {
        None
    }
}

// ---------------------------------------------------------------------------
// The stream as mathematics
// ---------------------------------------------------------------------------
/// How a stream is coded: recent offsets in use, near offsets after a literal
/// run, near offsets after a match, end marker, and the bit conventions.
pub struct ZxMode {
    pub slots: int,
    pub near: bool,
    pub am: bool,
    pub eof: bool,
    pub style: ZxStyle,
}

/// Bit conventions: those of the ZX stream, or those of a ZX0 stream that is
/// read forward or backward.
#[derive(Clone, Copy, PartialEq, Eq, Structural, Debug)]
pub enum ZxStyle {
    Zx,
    Zx0,
    Zx0Backward,
}

impl ZxStyle {
    /// The control bit that goes on.
    pub open spec fn cont_of(self) -> bool {
        self == ZxStyle::Zx0Backward
    }

    /// The high part of an offset is inverted, and its low part complemented.
    pub open spec fn inv_of(self) -> bool {
        self == ZxStyle::Zx0
    }

    pub fn cont(self) -> (r: bool)
        ensures
            r == self.cont_of(),
    {
        self == ZxStyle::Zx0Backward
    }

    pub fn inv(self) -> (r: bool)
        ensures
            r == self.inv_of(),
    {
        self == ZxStyle::Zx0
    }
}

/// A ZX0 decoder does not read past the end.
pub open spec fn within(data: Seq<u8>, s: BitPos, m: ZxMode) -> bool {
    m.style != ZxStyle::Zx ==> s.pos <= data.len()
}

/// What a decoder does next.
pub enum St {
    Literals,
    AfterLitMatch,
    Rep(usize),
    NearRep(usize),
    NewOffset,
    AfterMatchNearRep(usize),
    AfterMatch,
}

pub open spec fn get_rep_index(data: Seq<u8>, s: BitPos) -> (usize, BitPos) {
    let (b0, s0) = bitio::get_bit(data, s);
    if b0 {
        (0, s0)
    } else {
        let (b1, s1) = bitio::get_bit(data, s0);
        if b1 {
            (1, s1)
        } else {
            let (b2, s2) = bitio::get_bit(data, s1);
            if b2 {
                (2, s2)
            } else {
                (3, s2)
            }
        }
    }
}

pub open spec fn get_after_lit(data: Seq<u8>, s: BitPos) -> (AfterLit, BitPos) {
    let (b0, s0) = bitio::get_bit(data, s);
    if b0 {
        (AfterLit::NewOffset, s0)
    } else {
        let (b1, s1) = bitio::get_bit(data, s0);
        if b1 {
            (AfterLit::ExactRep(0), s1)
        } else {
            let (b2, s2) = bitio::get_bit(data, s1);
            if b2 {
                (AfterLit::ExactRep(1), s2)
            } else {
                let (b3, s3) = bitio::get_bit(data, s2);
                if b3 {
                    (AfterLit::NearRep(0, 0), s3)
                } else {
                    let (b4, s4) = bitio::get_bit(data, s3);
                    if b4 {
                        (AfterLit::ExactRep(3), s4)
                    } else {
                        let (b5, s5) = bitio::get_bit(data, s4);
                        if b5 {
                            (AfterLit::ExactRep(2), s5)
                        } else {
                            (AfterLit::NearRep(1, 0), s5)
                        }
                    }
                }
            }
        }
    }
}

/// The symbol after a literal run.
pub open spec fn get_sel_lit(data: Seq<u8>, s: BitPos, m: ZxMode) -> (St, BitPos) {
    if m.near {
        let (a, s1) = get_after_lit(data, s);
        (
            match a {
                AfterLit::NewOffset => St::NewOffset,
                AfterLit::ExactRep(i) => St::Rep(i),
                AfterLit::NearRep(i, _) => St::NearRep(i),
            },
            s1,
        )
    } else {
        let (b, s1) = bitio::get_bit(data, s);
        if b {
            (St::NewOffset, s1)
        } else if m.slots > 1 {
            let (i, s2) = get_rep_index(data, s1);
            (St::Rep(i), s2)
        } else {
            (St::Rep(0), s1)
        }
    }
}

/// The symbol after a match.
pub open spec fn get_sel_match(data: Seq<u8>, s: BitPos, m: ZxMode) -> (St, BitPos) {
    let (b, s1) = bitio::get_bit(data, s);
    if !b {
        (St::Literals, s1)
    } else if !m.am {
        (St::NewOffset, s1)
    } else {
        let (c, s2) = bitio::get_bit(data, s1);
        if !c {
            (St::NewOffset, s2)
        } else {
            let (r, s3) = bitio::get_bit(data, s2);
            (
                St::AfterMatchNearRep(
                    if r {
                        1
                    } else {
                        0
                    },
                ),
                s3,
            )
        }
    }
}

/// An offset coded by its distance from `base`.
pub open spec fn get_near_off(data: Seq<u8>, s: BitPos, base: u32) -> Option<(u32, BitPos)> {
    let (sign, s1) = bitio::get_bit(data, s);
    match bitio::get_gamma(data, s1) {
        None => None,
        Some((delta, s2)) => if !sign && base + delta <= u32::MAX {
            Some(((base + delta) as u32, s2))
        } else if sign && base >= delta {
            Some(((base - delta) as u32, s2))
        } else {
            None
        },
    }
}

/// What a match code says.
pub enum ZxBody {
    Bad,
    End,
    Copy(u32, u32, BitPos),
}

pub open spec fn get_body(data: Seq<u8>, s: BitPos, ph: St, reps: Seq<u32>, m: ZxMode) -> ZxBody {
    match ph {
        St::Rep(ri) => if ri >= 4 {
            ZxBody::Bad
        } else {
            match bitio::get_gamma_as(data, s, m.style.cont_of(), false) {
                None => ZxBody::Bad,
                Some((len, s1)) => ZxBody::Copy(reps[ri as int], len, s1),
            }
        },
        St::NearRep(ri) => get_near_body(data, s, ri, reps),
        St::AfterMatchNearRep(ri) => get_near_body(data, s, ri, reps),
        St::NewOffset => get_new_body(data, s, m),
        _ => ZxBody::Bad,
    }
}

pub open spec fn get_near_body(data: Seq<u8>, s: BitPos, ri: usize, reps: Seq<u32>) -> ZxBody {
    if ri >= 4 {
        ZxBody::Bad
    } else {
        match get_near_off(data, s, reps[ri as int]) {
            None => ZxBody::Bad,
            Some((off, s1)) => match bitio::get_gamma(data, s1) {
                None => ZxBody::Bad,
                Some((len, s2)) => if len == u32::MAX {
                    ZxBody::Bad
                } else {
                    ZxBody::Copy(off, (len + 1) as u32, s2)
                },
            },
        }
    }
}

/// The offset with high part `msb` and low byte `b`, whose lowest bit belongs
/// to the length.
pub open spec fn new_off(msb: u32, b: u8, style: ZxStyle) -> int {
    match style {
        ZxStyle::Zx => ((((msb - 1) as u32) << 7u32) | ((b >> 1u8) as u32)) + 1,
        ZxStyle::Zx0 => msb * 128 - (b >> 1u8),
        ZxStyle::Zx0Backward => (msb - 1) * 128 + (b >> 1u8) + 1,
    }
}

/// The high part marks the end.
pub open spec fn is_end(msb: u32, m: ZxMode) -> bool {
    m.eof && if m.style == ZxStyle::Zx {
        msb >= EOF_MSB
    } else {
        msb == EOF_MSB
    }
}

/// A new offset: gamma code of the high part, a byte with the low part, and a
/// length whose first bit is the byte's lowest.
pub open spec fn get_new_body(data: Seq<u8>, s: BitPos, m: ZxMode) -> ZxBody {
    match bitio::get_gamma_as(data, s, m.style.cont_of(), m.style.inv_of()) {
        None => ZxBody::Bad,
        Some((msb, s1)) => if is_end(msb, m) {
            if within(data, s1, m) {
                ZxBody::End
            } else {
                ZxBody::Bad
            }
        } else if msb == 0 {
            ZxBody::Bad
        } else {
            let (b, s2) = bitio::get_byte(data, s1);
            let off = new_off(msb, b, m.style);
            if off > if m.style == ZxStyle::Zx {
                u32::MAX as int
            } else {
                i32::MAX as int
            } {
                ZxBody::Bad
            } else {
                match bitio::get_gamma_as(
                    data,
                    BitPos { bt: true, ..s2 },
                    m.style.cont_of(),
                    false,
                ) {
                    None => ZxBody::Bad,
                    Some((len, s3)) => if len == u32::MAX {
                        ZxBody::Bad
                    } else {
                        ZxBody::Copy(off as u32, (len + 1) as u32, s3)
                    },
                }
            }
        },
    }
}

/// `k` raw bytes appended to `out`.
pub open spec fn copy_lits(data: Seq<u8>, s: BitPos, out: Seq<u8>, k: nat) -> (Seq<u8>, BitPos)
    decreases k,
{
    if k == 0 {
        (out, s)
    } else {
        let (o, s1) = copy_lits(data, s, out, (k - 1) as nat);
        let (b, s2) = bitio::get_byte(data, s1);
        (o.push(b), s2)
    }
}

/// The state of a decoder: place, recent offsets, output, what comes next, and
/// the largest lead of the output over the bytes taken, measured after every
/// run and every match.
pub struct DState {
    pub s: BitPos,
    pub reps: Seq<u32>,
    pub out: Seq<u8>,
    pub ph: St,
    pub gap: int,
}

pub enum DStep {
    Fail,
    Done(Seq<u8>, int),
    Next(DState),
}

pub open spec fn min_of(a: int, b: int) -> int {
    if a < b {
        a
    } else {
        b
    }
}

pub open spec fn max_of(a: int, b: int) -> int {
    if a >= b {
        a
    } else {
        b
    }
}

/// How many of `len` bytes still go into an output of `n`.
pub open spec fn clip(m: ZxMode, n: int, out: Seq<u8>, len: u32) -> int {
    if !m.eof && len > n - out.len() {
        n - out.len()
    } else {
        len as int
    }
}

pub open spec fn zx_step(data: Seq<u8>, m: ZxMode, n: int, d: DState) -> DStep {
    match d.ph {
        St::Literals => match bitio::get_gamma_as(data, d.s, m.style.cont_of(), false) {
            None => DStep::Fail,
            Some((len, s1)) => {
                let k = clip(m, n, d.out, len);
                if k < 0 || d.out.len() + k > usize::MAX {
                    DStep::Fail
                } else {
                    let (o, s2) = copy_lits(data, s1, d.out, k as nat);
                    let g = max_of(d.gap, o.len() - s2.pos);
                    if !within(data, s2, m) {
                        DStep::Fail
                    } else if !m.eof && o.len() == n {
                        DStep::Done(o, g)
                    } else {
                        DStep::Next(DState { s: s2, out: o, ph: St::AfterLitMatch, gap: g, ..d })
                    }
                }
            },
        },
        St::AfterLitMatch => {
            let (ph, s) = get_sel_lit(data, d.s, m);
            if within(data, s, m) {
                DStep::Next(DState { s, ph, ..d })
            } else {
                DStep::Fail
            }
        },
        St::AfterMatch => {
            let (ph, s) = get_sel_match(data, d.s, m);
            if within(data, s, m) {
                DStep::Next(DState { s, ph, ..d })
            } else {
                DStep::Fail
            }
        },
        _ => match get_body(data, d.s, d.ph, d.reps, m) {
            ZxBody::Bad => DStep::Fail,
            ZxBody::End => DStep::Done(d.out, d.gap),
            ZxBody::Copy(off, len, s) => {
                let k = clip(m, n, d.out, len);
                if k < 0 || d.out.len() + k > usize::MAX || (k > 0 && !(1 <= off <= d.out.len()))
                    || !within(data, s, m) {
                    DStep::Fail
                } else {
                    let o = lz::lz_copy(d.out, off as int, k as nat);
                    let g = max_of(d.gap, o.len() - s.pos);
                    if !m.eof && o.len() == n {
                        DStep::Done(o, g)
                    } else {
                        let reps = match d.ph {
                            St::Rep(ri) => reps_mtf(d.reps, ri as int),
                            _ => reps_insert(d.reps, off),
                        };
                        DStep::Next(DState { s, reps, out: o, ph: St::AfterMatch, gap: g })
                    }
                }
            },
        },
    }
}

pub open spec fn zx_run_for(data: Seq<u8>, m: ZxMode, n: int, d: DState, fuel: nat) -> Option<
    (Seq<u8>, int),
>
    decreases fuel,
{
    if fuel == 0 {
        None
    } else {
        match zx_step(data, m, n, d) {
            DStep::Fail => None,
            DStep::Done(o, g) => Some((o, g)),
            DStep::Next(e) => zx_run_for(data, m, n, e, (fuel - 1) as nat),
        }
    }
}

/// Some number of steps ends the run.
pub open spec fn zx_ends(data: Seq<u8>, m: ZxMode, n: int, d: DState) -> bool {
    exists|f: nat| zx_run_for(data, m, n, d, f) is Some
}

/// The output and the gap of a run; `None` when it fails or never ends.
pub open spec fn zx_run(data: Seq<u8>, m: ZxMode, n: int, d: DState) -> Option<(Seq<u8>, int)> {
    if zx_ends(data, m, n, d) {
        let f = choose|f: nat| zx_run_for(data, m, n, d, f) is Some;
        zx_run_for(data, m, n, d, f)
    } else {
        None
    }
}

pub open spec fn zx_start() -> DState {
    DState {
        s: bitio::bit_start(),
        reps: reps_start(),
        out: Seq::empty(),
        ph: St::Literals,
        gap: 0,
    }
}

pub proof fn lemma_zx_fuel(data: Seq<u8>, m: ZxMode, n: int, d: DState, f: nat, g: nat)
    requires
        zx_run_for(data, m, n, d, f) is Some,
        f <= g,
    ensures
        zx_run_for(data, m, n, d, g) == zx_run_for(data, m, n, d, f),
    decreases f,
{
    match zx_step(data, m, n, d) {
        DStep::Next(e) => lemma_zx_fuel(data, m, n, e, (f - 1) as nat, (g - 1) as nat),
        _ => {},
    }
}

/// The run does not depend on how many steps are allowed.
pub proof fn lemma_zx_run(data: Seq<u8>, m: ZxMode, n: int, d: DState, f: nat)
    requires
        zx_run_for(data, m, n, d, f) is Some,
    ensures
        zx_ends(data, m, n, d),
        zx_run(data, m, n, d) == zx_run_for(data, m, n, d, f),
{
    let g = choose|g: nat| zx_run_for(data, m, n, d, g) is Some;
    if f <= g {
        lemma_zx_fuel(data, m, n, d, f, g);
    } else {
        lemma_zx_fuel(data, m, n, d, g, f);
    }
}

/// One step does not change where a run ends.
pub proof fn lemma_zx_run_step(data: Seq<u8>, m: ZxMode, n: int, d: DState)
    ensures
        match zx_step(data, m, n, d) {
            DStep::Fail => zx_run(data, m, n, d) is None,
            DStep::Done(o, g) => zx_run(data, m, n, d) == Some((o, g)),
            DStep::Next(e) => zx_run(data, m, n, d) == zx_run(data, m, n, e),
        },
{
    match zx_step(data, m, n, d) {
        DStep::Fail => {
            assert forall|f: nat| zx_run_for(data, m, n, d, f) is None by {}
        },
        DStep::Done(o, g) => {
            assert(zx_run_for(data, m, n, d, 1) == Some((o, g)));
            lemma_zx_run(data, m, n, d, 1);
        },
        DStep::Next(e) => {
            if zx_ends(data, m, n, d) {
                let f = choose|f: nat| zx_run_for(data, m, n, d, f) is Some;
                assert(zx_run_for(data, m, n, e, (f - 1) as nat) is Some);
                lemma_zx_run(data, m, n, e, (f - 1) as nat);
            }
            if zx_ends(data, m, n, e) {
                let f = choose|f: nat| zx_run_for(data, m, n, e, f) is Some;
                assert(zx_run_for(data, m, n, d, (f + 1) as nat) == zx_run_for(data, m, n, e, f));
                lemma_zx_run(data, m, n, d, (f + 1) as nat);
            }
        },
    }
}

/// The mode that a mode byte names.
pub open spec fn zx_mode_of(b: u8) -> ZxMode {
    ZxMode {
        slots: (b & 0x0fu8) as int,
        near: b & 0x10u8 != 0,
        am: b & 0x20u8 != 0,
        eof: false,
        style: ZxStyle::Zx,
    }
}

pub open spec fn min_mode() -> ZxMode {
    ZxMode { slots: 1, near: false, am: false, eof: true, style: ZxStyle::Zx }
}

/// What a minimal stream, without its mode byte, decodes to, cut to `n` bytes.
pub open spec fn min_eof_decoded(body: Seq<u8>, n: int) -> Option<Seq<u8>> {
    if n == 0 {
        Some(Seq::empty())
    } else {
        match zx_run(body, min_mode(), n, zx_start()) {
            None => None,
            Some((o, _)) => Some(
                if o.len() > n {
                    o.take(n)
                } else {
                    o
                },
            ),
        }
    }
}

/// In-place gap of a minimal stream: how far the output may run ahead of the
/// bytes taken, against where both end.
pub open spec fn min_eof_gap(body: Seq<u8>, n: int) -> int {
    match (zx_run(body, min_mode(), n, zx_start()), min_eof_decoded(body, n)) {
        (Some((_, g)), Some(o)) => max_of(g - (o.len() - body.len()), 0),
        _ => 0,
    }
}

/// What a stream decodes to when `n` bytes are asked for.
pub open spec fn zx_decoded(blob: Seq<u8>, n: int) -> Option<Seq<u8>> {
    if n == 0 {
        Some(Seq::empty())
    } else if blob.len() == 0 {
        None
    } else if blob[0] == MODE_MIN_EOF {
        min_eof_decoded(blob.skip(1), n)
    } else {
        match zx_run(blob.skip(1), zx_mode_of(blob[0]), n, zx_start()) {
            None => None,
            Some((o, _)) => Some(o),
        }
    }
}

/// A stream whose bytes behind the mode byte are in reverse order.
pub open spec fn zx_flipped(blob: Seq<u8>) -> Seq<u8> {
    if blob.len() == 0 {
        blob
    } else {
        seq![blob[0]] + blob.skip(1).reverse()
    }
}

/// What a backward stream decodes to: the payload is read from its end, and
/// the output is written from its end.
pub open spec fn zx_decoded_backward(blob: Seq<u8>, n: int) -> Option<Seq<u8>> {
    if n == 0 {
        Some(Seq::empty())
    } else if blob.len() == 0 {
        None
    } else {
        match zx_run(blob.skip(1).reverse(), zx_mode_of(blob[0]), n, zx_start()) {
            None => None,
            Some((o, _)) => Some(o.reverse()),
        }
    }
}

// ---------------------------------------------------------------------------
// Decoder
// ---------------------------------------------------------------------------
fn read_rep_index(r: &mut BitReader) -> (idx: usize)
    requires
        old(r).wf(),
    ensures
        (idx, final(r).st()) == get_rep_index(old(r).source(), old(r).st()),
        final(r).source() == old(r).source(),
        final(r).wf(),
{
    if r.read_bit() == 1 {
        0
    } else if r.read_bit() == 1 {
        1
    } else if r.read_bit() == 1 {
        2
    } else {
        3
    }
}

fn read_after_lit_prefix(r: &mut BitReader) -> (sym: AfterLit)
    requires
        old(r).wf(),
    ensures
        (sym, final(r).st()) == get_after_lit(old(r).source(), old(r).st()),
        final(r).source() == old(r).source(),
        final(r).wf(),
{
    if r.read_bit() == 1 {
        return AfterLit::NewOffset;
    }
    if r.read_bit() == 1 {
        return AfterLit::ExactRep(0);
    }
    if r.read_bit() == 1 {
        return AfterLit::ExactRep(1);
    }
    if r.read_bit() == 1 {
        return AfterLit::NearRep(0, 0);
    }
    if r.read_bit() == 1 {
        return AfterLit::ExactRep(3);
    }
    if r.read_bit() == 1 {
        AfterLit::ExactRep(2)
    } else {
        AfterLit::NearRep(1, 0)
    }
}

fn read_near_rep_off(r: &mut BitReader, base: u32) -> (off: u32)
    requires
        old(r).wf(),
        get_near_off(old(r).source(), old(r).st(), base) is Some,
    ensures
        get_near_off(old(r).source(), old(r).st(), base) == Some((off, final(r).st())),
        final(r).source() == old(r).source(),
        final(r).wf(),
{
    let sign: u32 = r.read_bit();
    let delta: u32 = r.read_gamma();
    if sign == 0 {
        base + delta
    } else {
        base - delta
    }
}

fn read_after_lit_state(r: &mut BitReader, rep_slots: usize, near_rep: bool, Ghost(m): Ghost<ZxMode>) -> (st: St)
    requires
        old(r).wf(),
        m.slots == rep_slots,
        m.near == near_rep,
    ensures
        (st, final(r).st()) == get_sel_lit(old(r).source(), old(r).st(), m),
        final(r).source() == old(r).source(),
        final(r).wf(),
{
    if near_rep {
        match read_after_lit_prefix(r) {
            AfterLit::NewOffset => St::NewOffset,
            AfterLit::ExactRep(ri) => St::Rep(ri),
            AfterLit::NearRep(ri, _) => St::NearRep(ri),
        }
    } else if r.read_bit() == 1 {
        St::NewOffset
    } else if rep_slots > 1 {
        let ridx: usize = read_rep_index(r);
        St::Rep(ridx)
    } else {
        St::Rep(0)
    }
}

fn read_after_match_state(r: &mut BitReader, am_near_rep: bool, Ghost(m): Ghost<ZxMode>) -> (st: St)
    requires
        old(r).wf(),
        m.am == am_near_rep,
    ensures
        (st, final(r).st()) == get_sel_match(old(r).source(), old(r).st(), m),
        final(r).source() == old(r).source(),
        final(r).wf(),
{
    if r.read_bit() == 0 {
        return St::Literals;
    }
    if !am_near_rep {
        return St::NewOffset;
    }
    if r.read_bit() == 0 {
        St::NewOffset
    } else if r.read_bit() == 1 {
        St::AfterMatchNearRep(1)
    } else {
        St::AfterMatchNearRep(0)
    }
}

/// A match code: offset and length, or `None` at the end marker.
fn read_body(r: &mut BitReader, ph: &St, reps: &[u32; 4], eof: bool, style: ZxStyle, Ghost(m): Ghost<ZxMode>) -> (body: Option<(u32, u32)>)
    requires
        old(r).wf(),
        m.eof == eof,
        m.style == style,
        !(get_body(old(r).source(), old(r).st(), *ph, reps@, m) is Bad),
    ensures
        match body {
            None => get_body(old(r).source(), old(r).st(), *ph, reps@, m) is End,
            Some((off, len)) => get_body(old(r).source(), old(r).st(), *ph, reps@, m)
                == ZxBody::Copy(off, len, final(r).st()),
        },
        final(r).source() == old(r).source(),
        final(r).wf(),
{
    match ph {
        St::Rep(ri) => {
            let len: u32 = r.read_gamma_as(style.cont(), false);
            Some((reps[*ri], len))
        },
        St::NearRep(ri) | St::AfterMatchNearRep(ri) => {
            let off: u32 = read_near_rep_off(r, reps[*ri]);
            let len: u32 = r.read_gamma() + 1;
            Some((off, len))
        },
        _ => {
            let msb: u32 = r.read_gamma_as(style.cont(), style.inv());
            if eof && (if style == ZxStyle::Zx {
                msb >= EOF_MSB
            } else {
                msb == EOF_MSB
            }) {
                return None;
            }
            let b: u8 = r.read_byte();
            let lsb: u32 = (b >> 1u8) as u32;
            assert(b >> 1u8 <= 127) by (bit_vector);
            let off: u32 = match style {
                ZxStyle::Zx => (((msb - 1) << 7u32) | lsb) + 1,
                ZxStyle::Zx0 => (msb as u64 * 128 - lsb as u64) as u32,
                ZxStyle::Zx0Backward => ((msb - 1) as u64 * 128 + lsb as u64 + 1) as u32,
            };
            r.set_backtrack();
            let len: u32 = r.read_gamma_as(style.cont(), false) + 1;
            Some((off, len))
        },
    }
}

/// The decoder: runs the state machine from its start to its end. The second
/// result is the largest lead of the output over the bytes taken.
pub fn run(r: &mut BitReader, rep_slots: usize, near_rep: bool, am_near_rep: bool, eof: bool, style: ZxStyle, orig_len: usize) -> (res: (Vec<u8>, i128))
    requires
        old(r).wf(),
        old(r).st() == bitio::bit_start(),
        zx_run(
            old(r).source(),
            (ZxMode { slots: rep_slots as int, near: near_rep, am: am_near_rep, eof, style }),
            orig_len as int,
            zx_start(),
        ) is Some,
    ensures
        zx_run(
            old(r).source(),
            (ZxMode { slots: rep_slots as int, near: near_rep, am: am_near_rep, eof, style }),
            orig_len as int,
            zx_start(),
        ) == Some((res.0@, res.1 as int)),
        0 <= res.1 <= res.0@.len(),
{
    let ghost m = ZxMode { slots: rep_slots as int, near: near_rep, am: am_near_rep, eof, style };
    let ghost data = r.source();
    let ghost n = orig_len as int;
    let mut out: Vec<u8> = Vec::new();
    let mut reps: [u32; 4] = [1, 1, 1, 1];
    let mut gap: i128 = 0;
    let mut state: St = St::Literals;
    let ghost target = zx_run(data, m, n, zx_start());
    let ghost mut d = zx_start();
    let ghost mut fuel = choose|f: nat| zx_run_for(data, m, n, zx_start(), f) is Some;
    assert(reps@ =~= reps_start());
    assert(out@ =~= Seq::<u8>::empty());
    loop
        invariant
            r.wf(),
            r.source() == data,
            m == (ZxMode { slots: rep_slots as int, near: near_rep, am: am_near_rep, eof, style }),
            n == orig_len,
            d == (DState { s: r.st(), reps: reps@, out: out@, ph: state, gap: gap as int }),
            zx_run_for(data, m, n, d, fuel) == target,
            target is Some,
            data == old(r).source(),
            target == zx_run(data, m, n, zx_start()),
            0 <= gap <= out@.len(),
            out@.len() <= usize::MAX,
        decreases fuel,
    {
        let ghost d0 = d;
        let ghost nxt = zx_step(data, m, n, d);
        match state {
            St::Literals => {
                let len: u32 = r.read_gamma_as(style.cont(), false);
                let mut k: usize = len as usize;
                if !eof && out.len() <= orig_len && k > orig_len - out.len() {
                    k = orig_len - out.len();
                }
                let ghost s1 = r.st();
                let ghost o1 = out@;
                let mut j: usize = 0;
                while j < k
                    invariant
                        r.wf(),
                        r.source() == data,
                        j <= k,
                        o1.len() + k <= usize::MAX,
                        out@.len() == o1.len() + j,
                        (out@, r.st()) == copy_lits(data, s1, o1, j as nat),
                    decreases k - j,
                {
                    let b: u8 = r.read_byte();
                    out.push(b);
                    j += 1;
                }
                let g: i128 = out.len() as i128 - r.position() as i128;
                if g > gap {
                    gap = g;
                }
                if !eof && out.len() == orig_len {
                    return (out, gap);
                }
                state = St::AfterLitMatch;
            },
            St::AfterLitMatch => {
                state = read_after_lit_state(r, rep_slots, near_rep, Ghost(m));
            },
            St::AfterMatch => {
                state = read_after_match_state(r, am_near_rep, Ghost(m));
            },
            _ => {
                match read_body(r, &state, &reps, eof, style, Ghost(m)) {
                    None => {
                        return (out, gap);
                    },
                    Some((off, len)) => {
                        let mut k: usize = len as usize;
                        if !eof && out.len() <= orig_len && k > orig_len - out.len() {
                            k = orig_len - out.len();
                        }
                        if k > 0 {
                            copy_match(&mut out, off as usize, k);
                        }
                        match state {
                            St::Rep(ri) => rep_mtf(&mut reps, ri),
                            _ => rep_insert(&mut reps, off),
                        }
                        let g: i128 = out.len() as i128 - r.position() as i128;
                        if g > gap {
                            gap = g;
                        }
                        if !eof && out.len() == orig_len {
                            return (out, gap);
                        }
                        state = St::AfterMatch;
                    },
                }
            },
        }
        proof {
            d = DState { s: r.st(), reps: reps@, out: out@, ph: state, gap: gap as int };
            assert(nxt == DStep::Next(d));
            fuel = (fuel - 1) as nat;
        }
    }
}

// ---------------------------------------------------------------------------
// Commands
// ---------------------------------------------------------------------------
/// How the match of a command is coded.
pub open spec fn zx_sel(c: ZxCommand, reps: Seq<u32>, m: ZxMode) -> St {
    if c.lit_len > 0 {
        if m.near && c.near_rep_ri >= 0 {
            St::NearRep(c.near_rep_ri as usize)
        } else {
            match reps_find(reps, c.match_off, m.slots) {
                Some(i) => St::Rep(i),
                None => St::NewOffset,
            }
        }
    } else if m.am && c.near_rep_ri >= 0 {
        St::AfterMatchNearRep(c.near_rep_ri as usize)
    } else {
        St::NewOffset
    }
}

/// The recent offsets after a match.
pub open spec fn reps_next(ph: St, reps: Seq<u32>, off: u32) -> Seq<u32> {
    match ph {
        St::Rep(ri) => reps_mtf(reps, ri as int),
        _ => reps_insert(reps, off),
    }
}

/// The recent offsets before command `k`.
pub open spec fn zx_reps(cmds: Seq<ZxCommand>, m: ZxMode, k: int) -> Seq<u32>
    decreases k,
{
    if k <= 0 {
        reps_start()
    } else {
        let r = zx_reps(cmds, m, k - 1);
        let c = cmds[k - 1];
        if c.match_off == 0 {
            r
        } else {
            reps_next(zx_sel(c, r, m), r, c.match_off)
        }
    }
}

/// Bytes that a command stands for.
pub open spec fn zx_cmd_len(c: ZxCommand) -> int {
    c.lit_len + if c.match_off == 0 {
        0
    } else {
        c.match_len as int
    }
}

/// Where command `k` starts.
pub open spec fn zx_pos(cmds: Seq<ZxCommand>, k: int) -> int
    decreases k,
{
    if k <= 0 {
        0
    } else {
        zx_pos(cmds, k - 1) + zx_cmd_len(cmds[k - 1])
    }
}

/// A match of this offset and length has a code of this kind.
pub open spec fn zx_codable(ph: St, reps: Seq<u32>, off: u32, len: u32, m: ZxMode) -> bool {
    match ph {
        St::Rep(_) => len >= 1,
        St::NearRep(i) => i < 2 && reps[i as int] != off && len >= 2,
        St::AfterMatchNearRep(i) => i < 2 && reps[i as int] != off && len >= 2,
        _ => len >= 2 && 1 <= off <= MAX_OFFSET && (m.eof ==> off <= EOF_MAX_OFFSET),
    }
}

/// Command `k` can be written: the first command has literals, only the last
/// may lack a match, and its match has a code.
pub open spec fn zx_codable_at(cmds: Seq<ZxCommand>, m: ZxMode, k: int) -> bool {
    let c = cmds[k];
    let reps = zx_reps(cmds, m, k);
    &&& k == 0 ==> c.lit_len > 0
    &&& c.match_off == 0 ==> k == cmds.len() - 1
    &&& c.match_off != 0 ==> zx_codable(zx_sel(c, reps, m), reps, c.match_off, c.match_len, m)
}

pub open spec fn zx_all_codable(cmds: Seq<ZxCommand>, m: ZxMode) -> bool {
    forall|k: int| 0 <= k < cmds.len() ==> #[trigger] zx_codable_at(cmds, m, k)
}

/// Command `k` stands for the bytes of `input` at its place.
pub open spec fn zx_tiles_at(input: Seq<u8>, cmds: Seq<ZxCommand>, k: int) -> bool {
    let c = cmds[k];
    let p = zx_pos(cmds, k);
    &&& c.lit_len > 0 ==> c.lit_start == p
    &&& p + c.lit_len <= input.len()
    &&& c.match_off != 0 ==> lz::is_match(
        input,
        p + c.lit_len,
        c.match_off as int,
        c.match_len as int,
    )
}

/// The commands stand for `input`, and each can be written.
pub open spec fn zx_legal(input: Seq<u8>, cmds: Seq<ZxCommand>, m: ZxMode) -> bool {
    &&& zx_all_codable(cmds, m)
    &&& forall|k: int| 0 <= k < cmds.len() ==> #[trigger] zx_tiles_at(input, cmds, k)
    &&& zx_pos(cmds, cmds.len() as int) == input.len()
}

/// Bits of the symbol in front of a match.
pub open spec fn zx_sel_bits(ph: St, after_lit: bool, m: ZxMode) -> nat {
    if after_lit {
        if m.near {
            after_lit_len(
                match ph {
                    St::Rep(i) => AfterLit::ExactRep(i),
                    St::NearRep(i) => AfterLit::NearRep(i, 0),
                    _ => AfterLit::NewOffset,
                },
            )
        } else {
            match ph {
                St::Rep(i) => if m.slots > 1 {
                    1 + rep_index_len(i as int)
                } else {
                    1
                },
                _ => 1,
            }
        }
    } else if m.am {
        match ph {
            St::AfterMatchNearRep(_) => 3,
            _ => 2,
        }
    } else {
        1
    }
}

pub open spec fn abs_diff(a: int, b: int) -> nat {
    if a >= b {
        (a - b) as nat
    } else {
        (b - a) as nat
    }
}

/// Bits of a match code.
pub open spec fn zx_body_bits(ph: St, reps: Seq<u32>, off: u32, len: u32) -> nat {
    match ph {
        St::Rep(_) => bitio::gamma_len(len as nat),
        St::NearRep(i) => 1 + bitio::gamma_len(abs_diff(off as int, reps[i as int] as int)) + bitio::gamma_len(
            (len - 1) as nat,
        ),
        St::AfterMatchNearRep(i) => 1 + bitio::gamma_len(abs_diff(off as int, reps[i as int] as int))
            + bitio::gamma_len((len - 1) as nat),
        _ => off_len(off as int) + bitio::gamma_len((len - 1) as nat),
    }
}

/// Bits of a literal run; behind a match one more for the symbol.
pub open spec fn zx_lit_bits(lit_len: u32, first: bool) -> nat {
    if lit_len == 0 {
        0
    } else {
        bitio::gamma_len(lit_len as nat) + (8 * lit_len) as nat + if first {
            0nat
        } else {
            1nat
        }
    }
}

/// Bits of command `k`.
pub open spec fn zx_cmd_bits(cmds: Seq<ZxCommand>, m: ZxMode, k: int) -> nat {
    let c = cmds[k];
    let reps = zx_reps(cmds, m, k);
    let ph = zx_sel(c, reps, m);
    zx_lit_bits(c.lit_len, k == 0) + if c.match_off == 0 {
        0
    } else {
        zx_sel_bits(ph, c.lit_len > 0, m) + zx_body_bits(ph, reps, c.match_off, c.match_len)
    }
}

/// Bits of the first `k` commands.
pub open spec fn zx_bits(cmds: Seq<ZxCommand>, m: ZxMode, k: int) -> nat
    decreases k,
{
    if k <= 0 {
        0
    } else {
        zx_bits(cmds, m, k - 1) + zx_cmd_bits(cmds, m, k - 1)
    }
}

pub proof fn lemma_zx_bits_monotone(cmds: Seq<ZxCommand>, m: ZxMode, j: int, k: int)
    requires
        j <= k,
    ensures
        zx_bits(cmds, m, j) <= zx_bits(cmds, m, k),
    decreases k - j,
{
    if j < k {
        lemma_zx_bits_monotone(cmds, m, j, k - 1);
    }
}

pub proof fn lemma_zx_pos_monotone(cmds: Seq<ZxCommand>, j: int, k: int)
    requires
        j <= k,
    ensures
        zx_pos(cmds, j) <= zx_pos(cmds, k),
    decreases k - j,
{
    if j < k {
        lemma_zx_pos_monotone(cmds, j, k - 1);
    }
}

pub proof fn lemma_zx_reps_len(cmds: Seq<ZxCommand>, m: ZxMode, k: int)
    ensures
        zx_reps(cmds, m, k).len() == 4,
    decreases k,
{
    if k > 0 {
        lemma_zx_reps_len(cmds, m, k - 1);
    }
}

// ---------------------------------------------------------------------------
// What is written
// ---------------------------------------------------------------------------
/// The number of a slot.
pub open spec fn put_index(w: bitio::BitOut, idx: int) -> bitio::BitOut {
    let a = bitio::put_bit(w, idx == 0);
    if idx == 0 {
        a
    } else {
        let b = bitio::put_bit(a, idx == 1);
        if idx == 1 {
            b
        } else {
            bitio::put_bit(b, idx == 2)
        }
    }
}

/// `k` zero bits and a one, or without `last` one more zero.
pub open spec fn put_unary(w: bitio::BitOut, k: int, last: bool) -> bitio::BitOut
    decreases k,
{
    if k <= 0 {
        bitio::put_bit(w, last)
    } else {
        put_unary(bitio::put_bit(w, false), k - 1, last)
    }
}

/// The symbol after a literal run.
pub open spec fn put_after_lit(w: bitio::BitOut, sym: AfterLit) -> bitio::BitOut {
    match sym {
        AfterLit::NewOffset => put_unary(w, 0, true),
        AfterLit::ExactRep(i) => if i == 0 {
            put_unary(w, 1, true)
        } else if i == 1 {
            put_unary(w, 2, true)
        } else if i == 3 {
            put_unary(w, 4, true)
        } else {
            put_unary(w, 5, true)
        },
        AfterLit::NearRep(i, _) => if i == 0 {
            put_unary(w, 3, true)
        } else {
            put_unary(w, 5, false)
        },
    }
}

/// How far a near offset is from its slot.
pub open spec fn put_near(w: bitio::BitOut, base: u32, off: u32) -> bitio::BitOut {
    bitio::put_gamma(
        bitio::put_bit(w, off < base),
        if off >= base {
            (off - base) as u32
        } else {
            (base - off) as u32
        },
        false,
        false,
    )
}

/// The symbol after a match.
pub open spec fn put_after_match(w: bitio::BitOut, sym: AfterMatch) -> bitio::BitOut {
    match sym {
        AfterMatch::Literals => bitio::put_bit(w, false),
        AfterMatch::NewOffset => bitio::put_bit(bitio::put_bit(w, true), false),
        AfterMatch::NearRep(i, _) => bitio::put_bit(
            bitio::put_bit(bitio::put_bit(w, true), true),
            i != 0,
        ),
    }
}

/// A new offset and the length: the low seven bits of the offset stand in a byte
/// whose lowest bit is the first of the length.
pub open spec fn put_new_offset(w: bitio::BitOut, off: u32, len: u32, style: ZxStyle) -> bitio::BitOut {
    let x = (off - 1) as u32;
    let low = (x % 128) as u8;
    let lsb = if style.inv_of() {
        (127 - low) as u8
    } else {
        low
    };
    let head = bitio::put_gamma(w, (x / 128 + 1) as u32, style.cont_of(), style.inv_of());
    bitio::put_gamma(
        bitio::put_byte_bt(head, lsb << 1u8),
        (len - 1) as u32,
        style.cont_of(),
        false,
    )
}

/// The symbol in front of a match.
pub open spec fn put_selector(w: bitio::BitOut, ph: St, after_lit: bool, m: ZxMode) -> bitio::BitOut {
    if after_lit {
        if m.near {
            put_after_lit(
                w,
                match ph {
                    St::Rep(i) => AfterLit::ExactRep(i),
                    St::NearRep(i) => AfterLit::NearRep(i, 0),
                    _ => AfterLit::NewOffset,
                },
            )
        } else {
            match ph {
                St::Rep(i) => if m.slots > 1 {
                    put_index(bitio::put_bit(w, false), i as int)
                } else {
                    bitio::put_bit(w, false)
                },
                _ => bitio::put_bit(w, true),
            }
        }
    } else if m.am {
        put_after_match(
            w,
            match ph {
                St::AfterMatchNearRep(i) => AfterMatch::NearRep(i, 0),
                _ => AfterMatch::NewOffset,
            },
        )
    } else {
        bitio::put_bit(w, true)
    }
}

/// The code of a match behind its symbol.
pub open spec fn put_body(w: bitio::BitOut, ph: St, reps: Seq<u32>, off: u32, len: u32, m: ZxMode) -> bitio::BitOut {
    match ph {
        St::Rep(_) => bitio::put_gamma(w, len, m.style.cont_of(), false),
        St::NearRep(i) => bitio::put_gamma(
            put_near(w, reps[i as int], off),
            (len - 1) as u32,
            false,
            false,
        ),
        St::AfterMatchNearRep(i) => bitio::put_gamma(
            put_near(w, reps[i as int], off),
            (len - 1) as u32,
            false,
            false,
        ),
        _ => put_new_offset(w, off, len, m.style),
    }
}

/// `len` bytes of the input from `start` on.
pub open spec fn put_literals(w: bitio::BitOut, input: Seq<u8>, start: int, len: int) -> bitio::BitOut
    decreases len,
{
    if len <= 0 {
        w
    } else {
        bitio::put_byte(put_literals(w, input, start, len - 1), input[start + len - 1])
    }
}

/// A literal run.
pub open spec fn put_run(w: bitio::BitOut, input: Seq<u8>, c: ZxCommand, first: bool, m: ZxMode) -> bitio::BitOut {
    let a = if first {
        w
    } else {
        bitio::put_bit(w, false)
    };
    put_literals(
        bitio::put_gamma(a, c.lit_len, m.style.cont_of(), false),
        input,
        c.lit_start as int,
        c.lit_len as int,
    )
}

/// The match of a command.
pub open spec fn put_match(w: bitio::BitOut, c: ZxCommand, reps: Seq<u32>, m: ZxMode) -> bitio::BitOut {
    let ph = zx_sel(c, reps, m);
    put_body(put_selector(w, ph, c.lit_len > 0, m), ph, reps, c.match_off, c.match_len, m)
}

/// The first `k` commands.
pub open spec fn put_cmds(input: Seq<u8>, cmds: Seq<ZxCommand>, m: ZxMode, k: int) -> bitio::BitOut
    decreases k,
{
    if k <= 0 {
        bitio::BitOut { bytes: Seq::<u8>::empty(), bpos: 0, left: 0, bt: false }
    } else {
        let c = cmds[k - 1];
        let w = put_cmds(input, cmds, m, k - 1);
        let a = if c.lit_len > 0 {
            put_run(w, input, c, k == 1, m)
        } else {
            w
        };
        if c.match_off != 0 {
            put_match(a, c, zx_reps(cmds, m, k - 1), m)
        } else {
            a
        }
    }
}

/// The bytes of the commands, with the end marker where the mode has one.
pub open spec fn payload_bytes(input: Seq<u8>, cmds: Seq<ZxCommand>, m: ZxMode) -> Seq<u8> {
    let w = put_cmds(input, cmds, m, cmds.len() as int);
    if m.eof {
        let a = if cmds.len() > 0 {
            bitio::put_bit(w, true)
        } else {
            w
        };
        let b = bitio::put_gamma(a, EOF_MSB, m.style.cont_of(), m.style.inv_of());
        if m.style == ZxStyle::Zx {
            b.bytes.push(0u8)
        } else {
            b.bytes
        }
    } else {
        w.bytes
    }
}

// ---------------------------------------------------------------------------
// Encoder
// ---------------------------------------------------------------------------
fn write_rep_index(w: &mut BitWriter, idx: usize)
    requires
        old(w)@.wf(),
        idx < 4,
    ensures
        final(w)@.wf(),
        !final(w)@.bt,
        final(w)@ == put_index(old(w)@, idx as int),
        final(w)@.nbits() == old(w)@.nbits() + rep_index_len(idx as int),
        forall|data: Seq<u8>| #[trigger]
            bitio::agrees(final(w)@, data) ==> bitio::agrees(old(w)@, data) && get_rep_index(data, old(w)@.st())
                == (idx, final(w)@.st()),
{
    if idx == 0 {
        w.write_bit(1);
    } else if idx == 1 {
        w.write_bit(0);
        w.write_bit(1);
    } else if idx == 2 {
        w.write_bit(0);
        w.write_bit(0);
        w.write_bit(1);
    } else {
        w.write_bit(0);
        w.write_bit(0);
        w.write_bit(0);
    }
}

/// The symbol as a reader gives it back: a near symbol without its offset.
pub open spec fn after_lit_read(sym: AfterLit) -> AfterLit {
    match sym {
        AfterLit::NearRep(i, _) => AfterLit::NearRep(i, 0),
        _ => sym,
    }
}

/// `1` new, `01` first, `001` second, `0001` near the first, `00001` fourth,
/// `000001` third, `000000` near the second.
fn write_after_lit_prefix(w: &mut BitWriter, sym: AfterLit)
    requires
        old(w)@.wf(),
        match sym {
            AfterLit::NewOffset => true,
            AfterLit::ExactRep(i) => i < 4,
            AfterLit::NearRep(i, _) => i < 2,
        },
    ensures
        final(w)@.wf(),
        !final(w)@.bt,
        final(w)@ == put_after_lit(old(w)@, sym),
        final(w)@.nbits() == old(w)@.nbits() + after_lit_len(sym),
        forall|data: Seq<u8>| #[trigger]
            bitio::agrees(final(w)@, data) ==> bitio::agrees(old(w)@, data) && get_after_lit(data, old(w)@.st())
                == (after_lit_read(sym), final(w)@.st()),
{
    proof {
        reveal_with_fuel(put_unary, 7);
    }
    match sym {
        AfterLit::NewOffset => {
            w.write_bit(1);
        },
        AfterLit::ExactRep(i) => {
            w.write_bit(0);
            if i == 0 {
                w.write_bit(1);
            } else if i == 1 {
                w.write_bit(0);
                w.write_bit(1);
            } else if i == 3 {
                w.write_bit(0);
                w.write_bit(0);
                w.write_bit(0);
                w.write_bit(1);
            } else {
                w.write_bit(0);
                w.write_bit(0);
                w.write_bit(0);
                w.write_bit(0);
                w.write_bit(1);
            }
        },
        AfterLit::NearRep(i, _) => {
            w.write_bit(0);
            w.write_bit(0);
            w.write_bit(0);
            if i == 0 {
                w.write_bit(1);
            } else {
                w.write_bit(0);
                w.write_bit(0);
                w.write_bit(0);
            }
        },
    }
}

/// Sign and gamma code of the distance of `off` from `base`.
fn write_near_rep_delta(w: &mut BitWriter, base: u32, off: u32)
    requires
        old(w)@.wf(),
        off != base,
    ensures
        final(w)@.wf(),
        !final(w)@.bt,
        final(w)@ == put_near(old(w)@, base, off),
        final(w)@.nbits() == old(w)@.nbits() + 1 + bitio::gamma_len(abs_diff(off as int, base as int)),
        forall|data: Seq<u8>| #[trigger]
            bitio::agrees(final(w)@, data) ==> bitio::agrees(old(w)@, data) && get_near_off(
                data,
                old(w)@.st(),
                base,
            ) == Some((off, final(w)@.st())),
{
    if off >= base {
        w.write_bit(0);
        w.write_gamma(off - base);
    } else {
        w.write_bit(1);
        w.write_gamma(base - off);
    }
}

/// `0` literals, `10` new offset, `11` and the index bit a near offset.
fn write_after_match_prefix(w: &mut BitWriter, sym: AfterMatch)
    requires
        old(w)@.wf(),
        sym matches AfterMatch::NearRep(i, _) ==> i < 2,
    ensures
        final(w)@.wf(),
        !final(w)@.bt,
        final(w)@ == put_after_match(old(w)@, sym),
        final(w)@.nbits() == old(w)@.nbits() + after_match_len(sym),
        forall|data: Seq<u8>, m: ZxMode|
            #![trigger bitio::agrees(final(w)@, data), get_sel_match(data, old(w)@.st(), m)]
            bitio::agrees(final(w)@, data) && m.am ==> get_sel_match(data, old(w)@.st(), m) == (
                match sym {
                    AfterMatch::Literals => St::Literals,
                    AfterMatch::NewOffset => St::NewOffset,
                    AfterMatch::NearRep(i, _) => St::AfterMatchNearRep(i),
                },
                final(w)@.st(),
            ),
        forall|data: Seq<u8>| #[trigger] bitio::agrees(final(w)@, data) ==> bitio::agrees(old(w)@, data),
{
    match sym {
        AfterMatch::Literals => {
            w.write_bit(0);
        },
        AfterMatch::NewOffset => {
            w.write_bit(1);
            w.write_bit(0);
        },
        AfterMatch::NearRep(ri, _) => {
            w.write_bit(1);
            w.write_bit(1);
            w.write_bit(ri as u32);
        },
    }
}

proof fn lemma_offset_split(x: u32, l: u8, b: u8)
    by (bit_vector)
    requires
        x < 0x10000,
        l < 128,
        b >> 1u8 == (l << 1u8) >> 1u8,
    ensures
        b >> 1u8 == l,
        (l << 1u8) & 1u8 == 0u8,
        l == x % 128 ==> ((x / 128) << 7u32) | (l as u32) == x,
{
}

/// A new offset and its length.
fn emit_new_offset(w: &mut BitWriter, off: u32, len: u32, style: ZxStyle, Ghost(m): Ghost<ZxMode>)
    requires
        old(w)@.wf(),
        !old(w)@.bt,
        m.style == style,
        1 <= off <= MAX_OFFSET,
        m.eof ==> off <= EOF_MAX_OFFSET,
        len >= 2,
    ensures
        final(w)@.wf(),
        !final(w)@.bt,
        final(w)@ == put_new_offset(old(w)@, off, len, style),
        final(w)@.nbits() == old(w)@.nbits() + off_len(off as int) + bitio::gamma_len(
            (len - 1) as nat,
        ),
        forall|data: Seq<u8>| #[trigger]
            bitio::agrees(final(w)@, data) ==> bitio::agrees(old(w)@, data) && get_new_body(
                data,
                old(w)@.st(),
                m,
            ) == ZxBody::Copy(off, len, final(w)@.st()),
{
    let x: u32 = off - 1;
    let msb: u32 = x / 128 + 1;
    w.write_gamma_as(msb, style.cont(), style.inv());
    let ghost w1 = w@;
    let low: u8 = (x % 128) as u8;
    let lsb: u8 = if style.inv() {
        127 - low
    } else {
        low
    };
    proof {
        lemma_offset_split(x, lsb, lsb << 1u8);
    }
    w.write_byte(lsb << 1u8);
    w.set_backtrack();
    let ghost w3 = w@;
    assert(w3 == bitio::put_byte_bt(w1, lsb << 1u8));
    proof {
        bitio::lemma_put_byte_bt(w1, lsb << 1u8);
    }
    w.write_gamma_as(len - 1, style.cont(), false);
    assert forall|data: Seq<u8>| #[trigger] bitio::agrees(w@, data) implies bitio::agrees(
        old(w)@,
        data,
    ) && get_new_body(data, old(w)@.st(), m) == ZxBody::Copy(off, len, w@.st()) by {
        assert(bitio::agrees(w3, data));
        assert(bitio::agrees(w1, data));
        let b = bitio::get_byte(data, w1.st()).0;
        lemma_offset_split(x, lsb, b);
        assert(new_off(msb, b, style) == off);
    }
}

/// The symbol in front of a match.
fn write_selector(
    w: &mut BitWriter,
    ph: &St,
    after_lit: bool,
    rep_slots: usize,
    near_rep: bool,
    am_near_rep: bool,
    Ghost(m): Ghost<ZxMode>,
)
    requires
        old(w)@.wf(),
        m.slots == rep_slots,
        m.near == near_rep,
        m.am == am_near_rep,
        match *ph {
            St::Rep(i) => after_lit && i < m.slots <= 4,
            St::NearRep(i) => after_lit && near_rep && i < 2,
            St::AfterMatchNearRep(i) => !after_lit && am_near_rep && i < 2,
            St::NewOffset => true,
            _ => false,
        },
    ensures
        final(w)@.wf(),
        !final(w)@.bt,
        final(w)@ == put_selector(old(w)@, *ph, after_lit, m),
        final(w)@.nbits() == old(w)@.nbits() + zx_sel_bits(*ph, after_lit, m),
        forall|data: Seq<u8>| #[trigger]
            bitio::agrees(final(w)@, data) ==> {
                &&& bitio::agrees(old(w)@, data)
                &&& after_lit ==> get_sel_lit(data, old(w)@.st(), m) == (*ph, final(w)@.st())
                &&& !after_lit ==> get_sel_match(data, old(w)@.st(), m) == (*ph, final(w)@.st())
            },
{
    if after_lit {
        if near_rep {
            match ph {
                St::Rep(i) => write_after_lit_prefix(w, AfterLit::ExactRep(*i)),
                St::NearRep(i) => write_after_lit_prefix(w, AfterLit::NearRep(*i, 0)),
                _ => write_after_lit_prefix(w, AfterLit::NewOffset),
            }
        } else {
            match ph {
                St::Rep(i) => {
                    w.write_bit(0);
                    if rep_slots > 1 {
                        write_rep_index(w, *i);
                    }
                },
                _ => {
                    w.write_bit(1);
                },
            }
        }
    } else if am_near_rep {
        match ph {
            St::AfterMatchNearRep(i) => write_after_match_prefix(w, AfterMatch::NearRep(*i, 0)),
            _ => write_after_match_prefix(w, AfterMatch::NewOffset),
        }
        assert forall|data: Seq<u8>| #[trigger] bitio::agrees(w@, data) implies get_sel_match(
            data,
            old(w)@.st(),
            m,
        ) == (*ph, w@.st()) by {}
    } else {
        w.write_bit(1);
    }
}

/// A match code.
fn write_body(w: &mut BitWriter, ph: &St, reps: &[u32; 4], off: u32, len: u32, style: ZxStyle, Ghost(m): Ghost<ZxMode>)
    requires
        old(w)@.wf(),
        !old(w)@.bt,
        zx_codable(*ph, reps@, off, len, m),
        m.style == style,
        match *ph {
            St::Rep(i) => i < 4 && reps@[i as int] == off,
            St::NearRep(_) => true,
            St::AfterMatchNearRep(_) => true,
            St::NewOffset => true,
            _ => false,
        },
    ensures
        final(w)@.wf(),
        !final(w)@.bt,
        final(w)@ == put_body(old(w)@, *ph, reps@, off, len, m),
        final(w)@.nbits() == old(w)@.nbits() + zx_body_bits(*ph, reps@, off, len),
        forall|data: Seq<u8>| #[trigger]
            bitio::agrees(final(w)@, data) ==> bitio::agrees(old(w)@, data) && get_body(
                data,
                old(w)@.st(),
                *ph,
                reps@,
                m,
            ) == ZxBody::Copy(off, len, final(w)@.st()),
{
    match ph {
        St::Rep(_) => {
            w.write_gamma_as(len, style.cont(), false);
        },
        St::NearRep(i) | St::AfterMatchNearRep(i) => {
            write_near_rep_delta(w, reps[*i], off);
            w.write_gamma(len - 1);
        },
        _ => {
            emit_new_offset(w, off, len, style, Ghost(m));
        },
    }
}

/// Raw bytes.
fn write_literals(w: &mut BitWriter, input: &[u8], start: usize, len: usize)
    requires
        old(w)@.wf(),
        !old(w)@.bt,
        start + len <= input@.len(),
    ensures
        final(w)@.wf(),
        !final(w)@.bt,
        final(w)@ == put_literals(old(w)@, input@, start as int, len as int),
        final(w)@.nbits() == old(w)@.nbits() + 8 * len,
        forall|data: Seq<u8>| #[trigger] bitio::agrees(final(w)@, data) ==> bitio::agrees(old(w)@, data),
        forall|data: Seq<u8>, out: Seq<u8>|
            #![trigger bitio::agrees(final(w)@, data), copy_lits(data, old(w)@.st(), out, len as nat)]
            bitio::agrees(final(w)@, data) ==> copy_lits(data, old(w)@.st(), out, len as nat) == (
                out + input@.subrange(start as int, start + len),
                final(w)@.st(),
            ),
{
    let n: usize = input.len();
    let ghost w0 = w@;
    let mut j: usize = 0;
    assert forall|data: Seq<u8>, out: Seq<u8>|
        #![trigger bitio::agrees(w@, data), copy_lits(data, w0.st(), out, j as nat)]
        bitio::agrees(w@, data) implies copy_lits(data, w0.st(), out, j as nat) == (
        out + input@.subrange(start as int, start + j),
        w@.st(),
    ) by {
        assert(out + input@.subrange(start as int, start + j) =~= out);
    }
    while j < len
        invariant
            n == input@.len(),
            start + len <= n,
            j <= len,
            w@.wf(),
            !w@.bt,
            w@.nbits() == w0.nbits() + 8 * j,
            w@ == put_literals(w0, input@, start as int, j as int),
            forall|data: Seq<u8>| #[trigger] bitio::agrees(w@, data) ==> bitio::agrees(w0, data),
            forall|data: Seq<u8>, out: Seq<u8>|
                #![trigger bitio::agrees(w@, data), copy_lits(data, w0.st(), out, j as nat)]
                bitio::agrees(w@, data) ==> copy_lits(data, w0.st(), out, j as nat) == (
                    out + input@.subrange(start as int, start + j),
                    w@.st(),
                ),
        decreases len - j,
    {
        let ghost wa = w@;
        w.write_byte(input[start + j]);
        j += 1;
        assert forall|data: Seq<u8>, out: Seq<u8>|
            #![trigger bitio::agrees(w@, data), copy_lits(data, w0.st(), out, j as nat)]
            bitio::agrees(w@, data) implies copy_lits(data, w0.st(), out, j as nat) == (
            out + input@.subrange(start as int, start + j),
            w@.st(),
        ) by {
            assert(bitio::agrees(wa, data));
            let i = (j - 1) as usize;
            assert(copy_lits(data, w0.st(), out, i as nat) == (
                out + input@.subrange(start as int, start + i),
                wa.st(),
            ));
            assert((out + input@.subrange(start as int, start + i)).push(input@[start + i]) =~= out
                + input@.subrange(start as int, start + j));
        }
    }
}

/// The mode byte.
pub open spec fn mode_byte(rep_slots: usize, near_rep: bool, am_near_rep: bool) -> u8 {
    (rep_slots as u8) | (if near_rep {
        0x10u8
    } else {
        0u8
    }) | (if am_near_rep {
        0x20u8
    } else {
        0u8
    })
}

/// A mode byte names the mode that it was made from.
pub proof fn lemma_mode_byte(rep_slots: usize, near_rep: bool, am_near_rep: bool)
    requires
        1 <= rep_slots <= 4,
    ensures
        mode_byte(rep_slots, near_rep, am_near_rep) != MODE_MIN_EOF,
        zx_mode_of(mode_byte(rep_slots, near_rep, am_near_rep)) == (ZxMode {
            slots: rep_slots as int,
            near: near_rep,
            am: am_near_rep,
            eof: false,
            style: ZxStyle::Zx,
        }),
{
    let a = rep_slots as u8;
    let b = if near_rep {
        0x10u8
    } else {
        0u8
    };
    let c = if am_near_rep {
        0x20u8
    } else {
        0u8
    };
    assert((a | b | c) & 0x0fu8 == a && (a | b | c) & 0x10u8 == b && (a | b | c) & 0x20u8 == c && a | b
        | c != 0x41u8) by (bit_vector)
        requires
            1 <= a <= 4,
            b == 0 || b == 0x10,
            c == 0 || c == 0x20,
    ;
}

/// A literal run carries the decoder from one prefix of `input` to a longer
/// one.
proof fn lemma_run_lits(
    data: Seq<u8>,
    input: Seq<u8>,
    m: ZxMode,
    d: DState,
    s1: BitPos,
    s2: BitPos,
    p: int,
    len: u32,
)
    requires
        d.ph is Literals,
        d.out == input.take(p),
        0 <= p,
        len >= 1,
        p + len <= input.len() <= usize::MAX,
        bitio::get_gamma_as(data, d.s, m.style.cont_of(), false) == Some((len, s1)),
        s2.pos <= data.len(),
        copy_lits(data, s1, d.out, len as nat) == (d.out + input.subrange(p, p + len), s2),
    ensures
        ({
            let g = max_of(d.gap, p + len - s2.pos);
            zx_run(data, m, input.len() as int, d) == if !m.eof && p + len == input.len() {
                Some((input, g))
            } else {
                zx_run(
                    data,
                    m,
                    input.len() as int,
                    DState {
                        s: s2,
                        out: input.take(p + len),
                        ph: St::AfterLitMatch,
                        gap: g,
                        reps: d.reps,
                    },
                )
            }
        }),
{
    lemma_zx_run_step(data, m, input.len() as int, d);
    assert(d.out + input.subrange(p, p + len) =~= input.take(p + len));
    assert(input.take(input.len() as int) =~= input);
}

/// A match carries the decoder from one prefix of `input` to a longer one.
proof fn lemma_run_match(
    data: Seq<u8>,
    input: Seq<u8>,
    m: ZxMode,
    d: DState,
    ph: St,
    s1: BitPos,
    s2: BitPos,
    p: int,
    off: u32,
    len: u32,
)
    requires
        d.ph is AfterLitMatch ==> get_sel_lit(data, d.s, m) == (ph, s1),
        d.ph is AfterMatch ==> get_sel_match(data, d.s, m) == (ph, s1),
        d.ph is AfterLitMatch || d.ph is AfterMatch,
        get_body(data, s1, ph, d.reps, m) == ZxBody::Copy(off, len, s2),
        s1.pos <= data.len(),
        s2.pos <= data.len(),
        !(ph is Literals) && !(ph is AfterLitMatch) && !(ph is AfterMatch),
        d.out == input.take(p),
        lz::is_match(input, p, off as int, len as int),
        input.len() <= usize::MAX,
    ensures
        ({
            let g = max_of(d.gap, p + len - s2.pos);
            zx_run(data, m, input.len() as int, d) == if !m.eof && p + len == input.len() {
                Some((input, g))
            } else {
                zx_run(
                    data,
                    m,
                    input.len() as int,
                    DState {
                        s: s2,
                        out: input.take(p + len),
                        ph: St::AfterMatch,
                        gap: g,
                        reps: reps_next(ph, d.reps, off),
                    },
                )
            }
        }),
{
    let n = input.len() as int;
    let db = DState { s: s1, ph, ..d };
    lemma_zx_run_step(data, m, n, d);
    assert(zx_step(data, m, n, d) == DStep::Next(db));
    lemma_zx_run_step(data, m, n, db);
    lz::lemma_lz_copy_match(input, p, off as int, len as int);
    assert(input.take(n) =~= input);
}

/// Where the decoder stands when it has given `input` up to `p`: at the end,
/// or in state `d`.
pub open spec fn zx_goal(data: Seq<u8>, input: Seq<u8>, m: ZxMode, d: DState, p: int) -> Option<
    (Seq<u8>, int),
> {
    if !m.eof && p == input.len() {
        Some((input, d.gap))
    } else {
        zx_run(data, m, input.len() as int, d)
    }
}

/// The state after a literal run.
pub open spec fn after_run(input: Seq<u8>, d: DState, s: BitPos, p: int) -> DState {
    DState {
        s,
        reps: d.reps,
        out: input.take(p),
        ph: St::AfterLitMatch,
        gap: max_of(d.gap, p - s.pos),
    }
}

/// The state after a match.
pub open spec fn after_match(input: Seq<u8>, d: DState, reps: Seq<u32>, s: BitPos, p: int) -> DState {
    DState {
        s,
        reps,
        out: input.take(p),
        ph: St::AfterMatch,
        gap: max_of(d.gap, p - s.pos),
    }
}

/// Writes the literal run of a command.
fn emit_run(
    w: &mut BitWriter,
    input: &[u8],
    c: &ZxCommand,
    first: bool,
    style: ZxStyle,
    Ghost(m): Ghost<ZxMode>,
    Ghost(d): Ghost<DState>,
    Ghost(p): Ghost<int>,
)
    requires
        old(w)@.wf(),
        !old(w)@.bt,
        m.style == style,
        c.lit_len > 0,
        c.lit_start == p,
        p + c.lit_len <= input@.len(),
        d.s == old(w)@.st(),
        d.out == input@.take(p),
        first ==> d.ph is Literals,
        !first ==> d.ph is AfterMatch,
    ensures
        final(w)@.wf(),
        !final(w)@.bt,
        final(w)@ == put_run(old(w)@, input@, *c, first, m),
        final(w)@.nbits() == old(w)@.nbits() + zx_lit_bits(c.lit_len, first),
        forall|data: Seq<u8>| #[trigger]
            bitio::agrees(final(w)@, data) ==> bitio::agrees(old(w)@, data) && zx_run(
                data,
                m,
                input@.len() as int,
                d,
            ) == zx_goal(
                data,
                input@,
                m,
                after_run(input@, d, final(w)@.st(), p + c.lit_len),
                p + c.lit_len,
            ),
{
    let nn: usize = input.len();
    let ghost n = nn as int;
    let ghost wa = w@;
    if !first {
        w.write_bit(0);
    }
    let ghost wb = w@;
    let ghost db = DState { s: wb.st(), ph: St::Literals, ..d };
    w.write_gamma_as(c.lit_len, style.cont(), false);
    let ghost wc = w@;
    write_literals(w, input, c.lit_start, c.lit_len as usize);
    assert forall|data: Seq<u8>| #[trigger] bitio::agrees(w@, data) implies bitio::agrees(wa, data) && zx_run(
        data,
        m,
        n,
        d,
    ) == zx_goal(data, input@, m, after_run(input@, d, w@.st(), p + c.lit_len), p + c.lit_len) by {
        assert(bitio::agrees(wc, data));
        assert(bitio::agrees(wb, data));
        if !first {
            lemma_zx_run_step(data, m, n, d);
            assert(zx_step(data, m, n, d) == DStep::Next(db));
        }
        assert(copy_lits(data, wc.st(), d.out, c.lit_len as nat) == (
            d.out + input@.subrange(p, p + c.lit_len),
            w@.st(),
        ));
        lemma_run_lits(data, input@, m, db, wc.st(), w@.st(), p, c.lit_len);
    }
}

/// How a match is coded.
pub fn select(c: &ZxCommand, reps: &[u32; 4], rep_slots: usize, near_rep: bool, am_near_rep: bool, Ghost(m): Ghost<ZxMode>) -> (ph: St)
    requires
        m.slots == rep_slots,
        m.near == near_rep,
        m.am == am_near_rep,
    ensures
        ph == zx_sel(*c, reps@, m),
{
    if c.lit_len > 0 {
        if near_rep && c.near_rep_ri >= 0 {
            St::NearRep(c.near_rep_ri as usize)
        } else {
            match rep_find(reps, c.match_off, rep_slots) {
                Some(i) => St::Rep(i),
                None => St::NewOffset,
            }
        }
    } else if am_near_rep && c.near_rep_ri >= 0 {
        St::AfterMatchNearRep(c.near_rep_ri as usize)
    } else {
        St::NewOffset
    }
}

/// Writes the match of a command.
fn emit_match(
    w: &mut BitWriter,
    reps: &mut [u32; 4],
    c: &ZxCommand,
    rep_slots: usize,
    near_rep: bool,
    am_near_rep: bool,
    style: ZxStyle,
    Ghost(input): Ghost<Seq<u8>>,
    Ghost(m): Ghost<ZxMode>,
    Ghost(d): Ghost<DState>,
    Ghost(p): Ghost<int>,
)
    requires
        old(w)@.wf(),
        !old(w)@.bt,
        1 <= rep_slots <= 4,
        m.slots == rep_slots,
        m.near == near_rep,
        m.am == am_near_rep,
        m.style == style,
        zx_codable(zx_sel(*c, old(reps)@, m), old(reps)@, c.match_off, c.match_len, m),
        c.match_off != 0,
        lz::is_match(input, p, c.match_off as int, c.match_len as int),
        input.len() <= usize::MAX,
        d.s == old(w)@.st(),
        d.out == input.take(p),
        d.reps == old(reps)@,
        c.lit_len > 0 ==> d.ph is AfterLitMatch,
        c.lit_len == 0 ==> d.ph is AfterMatch,
    ensures
        final(w)@.wf(),
        !final(w)@.bt,
        final(w)@ == put_match(old(w)@, *c, old(reps)@, m),
        final(reps)@ == reps_next(zx_sel(*c, old(reps)@, m), old(reps)@, c.match_off),
        final(w)@.nbits() == old(w)@.nbits() + zx_sel_bits(
            zx_sel(*c, old(reps)@, m),
            c.lit_len > 0,
            m,
        ) + zx_body_bits(zx_sel(*c, old(reps)@, m), old(reps)@, c.match_off, c.match_len),
        forall|data: Seq<u8>| #[trigger]
            bitio::agrees(final(w)@, data) ==> bitio::agrees(old(w)@, data) && zx_run(
                data,
                m,
                input.len() as int,
                d,
            ) == zx_goal(
                data,
                input,
                m,
                after_match(input, d, final(reps)@, final(w)@.st(), p + c.match_len),
                p + c.match_len,
            ),
{
    let off: u32 = c.match_off;
    let len: u32 = c.match_len;
    let ph: St = select(c, reps, rep_slots, near_rep, am_near_rep, Ghost(m));
    let ghost wa = w@;
    let ghost r0 = reps@;
    write_selector(w, &ph, c.lit_len > 0, rep_slots, near_rep, am_near_rep, Ghost(m));
    let ghost wb = w@;
    write_body(w, &ph, reps, off, len, style, Ghost(m));
    match ph {
        St::Rep(ri) => rep_mtf(reps, ri),
        _ => rep_insert(reps, off),
    }
    assert forall|data: Seq<u8>| #[trigger] bitio::agrees(w@, data) implies bitio::agrees(wa, data) && zx_run(
        data,
        m,
        input.len() as int,
        d,
    ) == zx_goal(
        data,
        input,
        m,
        after_match(input, d, reps@, w@.st(), p + len),
        p + len,
    ) by {
        assert(bitio::agrees(wb, data));
        lemma_run_match(data, input, m, d, ph, wb.st(), w@.st(), p, off, len);
    }
}

/// Bits of the end marker: its symbol, the gamma code, and in the ZX style one
/// byte.
pub open spec fn end_bits(m: ZxMode, n: int) -> int {
    if m.eof {
        17 + (if n == 0 {
            0int
        } else {
            1int
        }) + if m.style == ZxStyle::Zx {
            8int
        } else {
            0int
        }
    } else {
        0
    }
}

/// In the state `d` of the decoder the input is complete, and the end marker is
/// what comes next. Behind it, in the ZX style with a byte more, the stream ends,
/// and the bits of its last flag byte that nothing was written to are zero.
pub open spec fn marker_at(data: Seq<u8>, m: ZxMode, input: Seq<u8>, d: DState, w: bitio::BitOut) -> bool {
    let n = input.len() as int;
    &&& d.ph is NewOffset
    &&& d.out == input
    &&& zx_run(data, m, n, zx_start()) == zx_run(data, m, n, d)
    &&& bitio::get_gamma_as(data, d.s, m.style.cont_of(), m.style.inv_of()) == Some(
        (EOF_MSB, w.st()),
    )
    &&& w.wf()
    &&& !w.bt
    &&& data == if m.style == ZxStyle::Zx {
        w.bytes.push(0u8)
    } else {
        w.bytes
    }
}

/// The stream ends in an end marker, with nothing behind it.
pub open spec fn ends_in_marker(data: Seq<u8>, m: ZxMode, input: Seq<u8>) -> bool {
    exists|d: DState, w: bitio::BitOut| #[trigger] marker_at(data, m, input, d, w)
}

/// The payload of a stream, without its mode byte.
#[verifier::rlimit(40)]
pub fn encode_payload(
    input: &[u8],
    cmds: &[ZxCommand],
    rep_slots: usize,
    near_rep: bool,
    am_near_rep: bool,
    eof: bool,
    style: ZxStyle,
) -> (out: Vec<u8>)
    requires
        1 <= rep_slots <= 4,
        eof ==> rep_slots == 1 && !near_rep && !am_near_rep,
        style != ZxStyle::Zx ==> eof,
        zx_legal(
            input@,
            cmds@,
            (ZxMode { slots: rep_slots as int, near: near_rep, am: am_near_rep, eof, style }),
        ),
    ensures
        ({
            let m = ZxMode { slots: rep_slots as int, near: near_rep, am: am_near_rep, eof, style };
            let bits = zx_bits(cmds@, m, cmds@.len() as int) + end_bits(m, input@.len() as int);
            &&& 8 * out@.len() >= bits
            &&& 8 * out@.len() <= bits + 7
            &&& input@.len() > 0 ==> (exists|g: int|
                zx_run(out@, m, input@.len() as int, zx_start()) == Some((input@, g)))
            &&& eof && input@.len() > 0 ==> ends_in_marker(out@, m, input@)
            &&& out@ == payload_bytes(input@, cmds@, m)
        }),
{
    let ghost m = ZxMode { slots: rep_slots as int, near: near_rep, am: am_near_rep, eof, style };
    let nn: usize = input.len();
    let ghost n = nn as int;
    let ncmds: usize = cmds.len();
    let mut w: BitWriter = BitWriter::new();
    let mut reps: [u32; 4] = [1, 1, 1, 1];
    let ghost mut p: int = 0;
    let ghost mut cur = zx_start();
    let mut k: usize = 0;
    assert(reps@ =~= reps_start());
    assert(input@.take(0) =~= Seq::<u8>::empty());
    while k < ncmds
        invariant
            m == (ZxMode { slots: rep_slots as int, near: near_rep, am: am_near_rep, eof, style }),
            1 <= rep_slots <= 4,
            n == input@.len(),
            n == nn,
            ncmds == cmds@.len(),
            k <= ncmds,
            zx_legal(input@, cmds@, m),
            w@.wf(),
            !w@.bt,
            p == zx_pos(cmds@, k as int),
            0 <= p <= n,
            k > 0 ==> p > 0,
            reps@ == zx_reps(cmds@, m, k as int),
            w@.nbits() == zx_bits(cmds@, m, k as int),
            w@ == put_cmds(input@, cmds@, m, k as int),
            cur.s == w@.st(),
            cur.reps == reps@,
            cur.out == input@.take(p),
            k == 0 ==> cur.ph is Literals,
            k > 0 ==> cur.ph is AfterMatch || cur.ph is AfterLitMatch,
            0 < k < ncmds ==> cur.ph is AfterMatch,
            k == 0 ==> cur == zx_start(),
            k > 0 ==> forall|data: Seq<u8>| #[trigger]
                bitio::agrees(w@, data) ==> zx_run(data, m, n, zx_start()) == zx_goal(
                    data,
                    input@,
                    m,
                    cur,
                    p,
                ),
        decreases ncmds - k,
    {
        let c: ZxCommand = cmds[k];
        proof {
            assert(zx_codable_at(cmds@, m, k as int));
            assert(zx_tiles_at(input@, cmds@, k as int));
            lemma_zx_pos_monotone(cmds@, k as int + 1, ncmds as int);
        }
        let ghost wa = w@;
        let ghost da = cur;
        let ghost p0 = p;
        if c.lit_len > 0 {
            emit_run(&mut w, input, &c, k == 0, style, Ghost(m), Ghost(da), Ghost(p0));
            proof {
                p = p0 + c.lit_len;
                cur = after_run(input@, da, w@.st(), p);
            }
            assert forall|data: Seq<u8>| #[trigger] bitio::agrees(w@, data) implies zx_run(
                data,
                m,
                n,
                zx_start(),
            ) == zx_goal(data, input@, m, cur, p) by {
                assert(bitio::agrees(wa, data));
            }
        }
        let ghost wb = w@;
        let ghost db = cur;
        let ghost p1 = p;
        if c.match_off != 0 {
            emit_match(
                &mut w,
                &mut reps,
                &c,
                rep_slots,
                near_rep,
                am_near_rep,
                style,
                Ghost(input@),
                Ghost(m),
                Ghost(db),
                Ghost(p1),
            );
            proof {
                p = p1 + c.match_len;
                cur = after_match(input@, db, reps@, w@.st(), p);
            }
            assert forall|data: Seq<u8>| #[trigger] bitio::agrees(w@, data) implies zx_run(
                data,
                m,
                n,
                zx_start(),
            ) == zx_goal(data, input@, m, cur, p) by {
                assert(bitio::agrees(wb, data));
            }
        }
        k += 1;
    }
    let ghost we = w@;
    let ghost mut db = cur;
    let ghost mut wm = w@;
    if eof {
        if ncmds > 0 {
            w.write_bit(1);
        }
        let ghost wb = w@;
        w.write_gamma_as(EOF_MSB, style.cont(), style.inv());
        proof {
            db = DState { s: wb.st(), ph: St::NewOffset, ..cur };
            assert(bitio::floor_log2(256) == 8) by {
                reveal_with_fuel(bitio::floor_log2, 10);
            }
        }
        let ghost wc = w@;
        proof {
            wm = wc;
        }
        if style == ZxStyle::Zx {
            w.write_byte(0);
        }
        assert forall|data: Seq<u8>| #[trigger] bitio::agrees(w@, data) && n > 0 implies zx_run(
            data,
            m,
            n,
            zx_start(),
        ) == Some((input@, cur.gap)) by {
            assert(bitio::agrees(wc, data));
            assert(bitio::agrees(wb, data));
            assert(bitio::agrees(we, data));
            lemma_zx_run_step(data, m, n, cur);
            assert(zx_step(data, m, n, cur) == DStep::Next(db));
            lemma_zx_run_step(data, m, n, db);
            assert(input@.take(n) =~= input@);
        }
        assert forall|data: Seq<u8>| #[trigger] bitio::agrees(w@, data) && n > 0 implies zx_run(
            data,
            m,
            n,
            zx_start(),
        ) == zx_run(data, m, n, db) && bitio::get_gamma_as(
            data,
            db.s,
            style.cont_of(),
            style.inv_of(),
        ) == Some((EOF_MSB, wm.st())) by {
            assert(bitio::agrees(wc, data));
            assert(bitio::agrees(wb, data));
            assert(bitio::agrees(we, data));
            lemma_zx_run_step(data, m, n, cur);
        }
    }
    let ghost wl = w@;
    let out: Vec<u8> = w.finish();
    proof {
        if eof && n > 0 {
            assert(input@.take(n) =~= input@);
            assert(marker_at(out@, m, input@, db, wm));
        }
    }
    out
}

// ---------------------------------------------------------------------------
// Sizes
// ---------------------------------------------------------------------------
/// A match of this offset and length has a code of this kind.
pub fn codable(ph: &St, reps: &[u32; 4], off: u32, len: u32, eof: bool, Ghost(m): Ghost<ZxMode>) -> (r: bool)
    requires
        m.eof == eof,
    ensures
        r == zx_codable(*ph, reps@, off, len, m),
{
    match ph {
        St::Rep(_) => len >= 1,
        St::NearRep(i) | St::AfterMatchNearRep(i) => *i < 2 && reps[*i] != off && len >= 2,
        _ => len >= 2 && 1 <= off && off <= MAX_OFFSET && (!eof || off <= EOF_MAX_OFFSET),
    }
}

/// Bits of the symbol in front of a match.
fn sel_bits(ph: &St, after_lit: bool, rep_slots: usize, near_rep: bool, am_near_rep: bool, Ghost(m): Ghost<ZxMode>) -> (bits: u32)
    requires
        m.slots == rep_slots,
        m.near == near_rep,
        m.am == am_near_rep,
    ensures
        bits == zx_sel_bits(*ph, after_lit, m),
        bits <= 6,
{
    if after_lit {
        if near_rep {
            match ph {
                St::Rep(i) => after_lit_prefix_bits(AfterLit::ExactRep(*i)),
                St::NearRep(i) => after_lit_prefix_bits(AfterLit::NearRep(*i, 0)),
                _ => after_lit_prefix_bits(AfterLit::NewOffset),
            }
        } else {
            match ph {
                St::Rep(i) => if rep_slots > 1 {
                    1 + rep_index_bits(*i)
                } else {
                    1
                },
                _ => 1,
            }
        }
    } else if am_near_rep {
        match ph {
            St::AfterMatchNearRep(i) => after_match_prefix_bits(AfterMatch::NearRep(*i, 0)),
            _ => after_match_prefix_bits(AfterMatch::NewOffset),
        }
    } else {
        1
    }
}

/// Bits of a match code.
fn body_bits(ph: &St, reps: &[u32; 4], off: u32, len: u32, Ghost(m): Ghost<ZxMode>) -> (bits: u32)
    requires
        zx_codable(*ph, reps@, off, len, m),
    ensures
        bits == zx_body_bits(*ph, reps@, off, len),
        bits <= 140,
{
    match ph {
        St::Rep(_) => rep_len_bits(len),
        St::NearRep(i) | St::AfterMatchNearRep(i) => {
            let base: u32 = reps[*i];
            let delta: u32 = if off > base {
                off - base
            } else {
                base - off
            };
            near_rep_delta_bits(delta) + newoff_len_bits(len - 1)
        },
        _ => offset_cost_bits_hc(off) + newoff_len_bits(len - 1),
    }
}

/// What a match that has no code is taken to cost.
pub const NO_CODE: u64 = 0x100_0000_0000;

/// Bits of a command; the recent offsets move on. A match that has no code
/// costs `NO_CODE`.
pub fn command_bits(
    c: &ZxCommand,
    first: bool,
    reps: &mut [u32; 4],
    rep_slots: usize,
    near_rep: bool,
    am_near_rep: bool,
    Ghost(m): Ghost<ZxMode>,
) -> (bits: u64)
    requires
        m.slots == rep_slots,
        m.near == near_rep,
        m.am == am_near_rep,
        !m.eof,
    ensures
        ({
            let ph = zx_sel(*c, old(reps)@, m);
            &&& final(reps)@ == if c.match_off == 0 {
                old(reps)@
            } else {
                reps_next(ph, old(reps)@, c.match_off)
            }
            &&& bits == zx_lit_bits(c.lit_len, first) + if c.match_off == 0 {
                0int
            } else if zx_codable(ph, old(reps)@, c.match_off, c.match_len, m) {
                (zx_sel_bits(ph, c.lit_len > 0, m) + zx_body_bits(
                    ph,
                    old(reps)@,
                    c.match_off,
                    c.match_len,
                )) as int
            } else {
                NO_CODE as int
            }
            &&& bits <= 8 * c.lit_len + 0x100_0000_0100
            &&& c.match_off == 0 || zx_codable(ph, old(reps)@, c.match_off, c.match_len, m) ==> bits
                <= 8 * c.lit_len + 400
        }),
{
    let mut bits: u64 = 0;
    if c.lit_len > 0 {
        bits = lit_run_bits(c.lit_len) as u64 + 8 * (c.lit_len as u64);
        if !first {
            bits = bits + 1;
        }
    }
    if c.match_off != 0 {
        let ph: St = select(c, reps, rep_slots, near_rep, am_near_rep, Ghost(m));
        if codable(&ph, reps, c.match_off, c.match_len, false, Ghost(m)) {
            let s: u32 = sel_bits(&ph, c.lit_len > 0, rep_slots, near_rep, am_near_rep, Ghost(m));
            let b: u32 = body_bits(&ph, reps, c.match_off, c.match_len, Ghost(m));
            bits = bits + (s as u64) + (b as u64);
        } else {
            bits = bits + NO_CODE;
        }
        match ph {
            St::Rep(ri) => rep_mtf(reps, ri),
            _ => rep_insert(reps, c.match_off),
        }
    }
    bits
}

/// What was said of the first `k` commands does not depend on the others.
pub proof fn lemma_zx_prefix(a: Seq<ZxCommand>, b: Seq<ZxCommand>, m: ZxMode, k: int)
    requires
        0 <= k <= a.len(),
        k <= b.len(),
        forall|j: int| 0 <= j < k ==> a[j] == b[j],
    ensures
        zx_reps(a, m, k) == zx_reps(b, m, k),
        zx_bits(a, m, k) == zx_bits(b, m, k),
        zx_pos(a, k) == zx_pos(b, k),
    decreases k,
{
    if k > 0 {
        lemma_zx_prefix(a, b, m, k - 1);
    }
}

proof fn lemma_gamma_cap(v: nat)
    requires
        v <= u32::MAX,
    ensures
        bitio::gamma_len(v) <= 63,
{
    if v >= 1 {
        bitio::lemma_floor_log2_lz(v as u32);
    }
}

/// No command takes more than 300 bits for each byte that it stands for.
pub proof fn lemma_zx_bits_bound(input: Seq<u8>, cmds: Seq<ZxCommand>, m: ZxMode, k: int)
    requires
        zx_legal(input, cmds, m),
        0 <= k <= cmds.len(),
    ensures
        zx_bits(cmds, m, k) <= 300 * zx_pos(cmds, k),
    decreases k,
{
    if k > 0 {
        lemma_zx_bits_bound(input, cmds, m, k - 1);
        let c = cmds[k - 1];
        let reps = zx_reps(cmds, m, k - 1);
        let ph = zx_sel(c, reps, m);
        assert(zx_codable_at(cmds, m, k - 1));
        assert(zx_tiles_at(input, cmds, k - 1));
        lemma_gamma_cap(c.lit_len as nat);
        if c.match_off != 0 {
            lemma_gamma_cap(c.match_len as nat);
            lemma_gamma_cap((c.match_len - 1) as nat);
            lemma_gamma_cap(abs_diff(c.match_off as int, reps[0] as int));
            lemma_gamma_cap(abs_diff(c.match_off as int, reps[1] as int));
            lemma_gamma_cap(off_msb(c.match_off as int) as nat);
            assert(zx_body_bits(ph, reps, c.match_off, c.match_len) <= 140);
            assert(zx_sel_bits(ph, c.lit_len > 0, m) <= 6);
        }
    }
}

/// The mode of the public entry points: near offsets need all four slots.
pub open spec fn zx_mode(rep_slots: usize, near_rep: bool, am_near_rep: bool) -> ZxMode {
    ZxMode {
        slots: rep_slots as int,
        near: near_rep && rep_slots == 4,
        am: am_near_rep && rep_slots == 4,
        eof: false,
        style: ZxStyle::Zx,
    }
}

/// Payload size in bits of the commands, without the mode byte.
pub fn predicted_payload_bits(
    input: &[u8],
    cmds: &[ZxCommand],
    rep_slots: usize,
    near_rep: bool,
    am_near_rep: bool,
) -> (bits: u64)
    requires
        zx_all_codable(cmds@, zx_mode(rep_slots, near_rep, am_near_rep)),
        zx_bits(cmds@, zx_mode(rep_slots, near_rep, am_near_rep), cmds@.len() as int) <= u64::MAX,
    ensures
        bits == zx_bits(
            cmds@,
            zx_mode(rep_slots, near_rep, am_near_rep),
            cmds@.len() as int,
        ),
{
    let ghost m = zx_mode(rep_slots, near_rep, am_near_rep);
    let near: bool = near_rep && rep_slots == 4;
    let am: bool = am_near_rep && rep_slots == 4;
    let mut reps: [u32; 4] = [1, 1, 1, 1];
    let mut bits: u64 = 0;
    let ncmds: usize = cmds.len();
    let mut k: usize = 0;
    assert(reps@ =~= reps_start());
    while k < ncmds
        invariant
            m == zx_mode(rep_slots, near_rep, am_near_rep),
            near == m.near,
            am == m.am,
            ncmds == cmds@.len(),
            k <= ncmds,
            zx_all_codable(cmds@, m),
            zx_bits(cmds@, m, cmds@.len() as int) <= u64::MAX,
            reps@ == zx_reps(cmds@, m, k as int),
            bits == zx_bits(cmds@, m, k as int),
        decreases ncmds - k,
    {
        let c: ZxCommand = cmds[k];
        proof {
            assert(zx_codable_at(cmds@, m, k as int));
            lemma_zx_bits_monotone(cmds@, m, k + 1, ncmds as int);
        }
        bits = bits + command_bits(&c, k == 0, &mut reps, rep_slots, near, am, Ghost(m));
        k += 1;
    }
    bits
}

// ---------------------------------------------------------------------------
// Streams
// ---------------------------------------------------------------------------
/// Whole bytes that hold this many bits.
pub open spec fn bytes_for(bits: int) -> int {
    (bits + 7) / 8
}

/// The bytes of the stream of these commands: the mode byte and the payload.
pub open spec fn zx_bytes(
    input: Seq<u8>,
    cmds: Seq<ZxCommand>,
    rep_slots: usize,
    near_rep: bool,
    am_near_rep: bool,
) -> Seq<u8> {
    seq![
        mode_byte(rep_slots, near_rep && rep_slots == 4, am_near_rep && rep_slots == 4),
    ] + payload_bytes(input, cmds, zx_mode(rep_slots, near_rep, am_near_rep))
}

/// With fewer than four recent offsets the flags for near offsets change nothing:
/// the streams of the same commands are the same.
pub proof fn lemma_flags_below_four(
    input: Seq<u8>,
    cmds: Seq<ZxCommand>,
    rep_slots: usize,
    near_rep: bool,
    am_near_rep: bool,
    a: Seq<u8>,
    b: Seq<u8>,
)
    requires
        rep_slots < 4,
        zx_encoded(input, cmds, rep_slots, near_rep, am_near_rep, a),
        zx_encoded(input, cmds, rep_slots, false, false, b),
    ensures
        a == b,
{
}

/// `blob` is the stream of these commands: the mode byte and a payload of
/// their size, from which the input comes back.
pub open spec fn zx_encoded(
    input: Seq<u8>,
    cmds: Seq<ZxCommand>,
    rep_slots: usize,
    near_rep: bool,
    am_near_rep: bool,
    blob: Seq<u8>,
) -> bool {
    let m = zx_mode(rep_slots, near_rep, am_near_rep);
    &&& blob == zx_bytes(input, cmds, rep_slots, near_rep, am_near_rep)
    &&& blob.len() == 1 + bytes_for(zx_bits(cmds, m, cmds.len() as int) as int)
    &&& blob[0] == mode_byte(
        rep_slots,
        near_rep && rep_slots == 4,
        am_near_rep && rep_slots == 4,
    )
    &&& zx_decoded(blob, input.len() as int) == Some(input)
}

/// The byte `b` and then `payload`.
fn with_mode(b: u8, payload: &Vec<u8>) -> (blob: Vec<u8>)
    ensures
        blob@ == seq![b] + payload@,
        blob@.skip(1) == payload@,
{
    let mut blob: Vec<u8> = Vec::with_capacity(payload.len());
    blob.push(b);
    blob.extend_from_slice(payload.as_slice());
    assert(blob@ =~= seq![b] + payload@);
    assert(blob@.skip(1) =~= payload@);
    blob
}

/// Stream of the commands with `rep_slots` recent offsets.
pub fn encode_with(input: &[u8], cmds: &[ZxCommand], rep_slots: usize) -> (blob: Vec<u8>)
    requires
        1 <= rep_slots <= 4,
        zx_legal(input@, cmds@, zx_mode(rep_slots, false, false)),
    ensures
        zx_encoded(input@, cmds@, rep_slots, false, false, blob@),
{
    encode_with3(input, cmds, rep_slots, false, false)
}

/// The same, with near offsets after a literal run.
pub fn encode_with2(input: &[u8], cmds: &[ZxCommand], rep_slots: usize, near_rep: bool) -> (blob:
    Vec<u8>)
    requires
        1 <= rep_slots <= 4,
        zx_legal(input@, cmds@, zx_mode(rep_slots, near_rep, false)),
    ensures
        zx_encoded(input@, cmds@, rep_slots, near_rep, false, blob@),
{
    encode_with3(input, cmds, rep_slots, near_rep, false)
}

/// The same, with near offsets after a match too. Near offsets need all four
/// slots.
pub fn encode_with3(
    input: &[u8],
    cmds: &[ZxCommand],
    rep_slots: usize,
    near_rep: bool,
    am_near_rep: bool,
) -> (blob: Vec<u8>)
    requires
        1 <= rep_slots <= 4,
        zx_legal(input@, cmds@, zx_mode(rep_slots, near_rep, am_near_rep)),
    ensures
        zx_encoded(input@, cmds@, rep_slots, near_rep, am_near_rep, blob@),
{
    let near: bool = near_rep && rep_slots == 4;
    let am: bool = am_near_rep && rep_slots == 4;
    let payload: Vec<u8> = encode_payload(
        input,
        cmds,
        rep_slots,
        near,
        am,
        false,
        ZxStyle::Zx,
    );
    let b: u8 = (rep_slots as u8) | (if near {
        0x10u8
    } else {
        0u8
    }) | (if am {
        0x20u8
    } else {
        0u8
    });
    proof {
        lemma_mode_byte(rep_slots, near, am);
        assert(input@.len() == 0 ==> input@ =~= Seq::<u8>::empty());
    }
    with_mode(b, &payload)
}

/// Stream of the commands with all four recent offsets.
pub fn encode(input: &[u8], cmds: &[ZxCommand]) -> (blob: Vec<u8>)
    requires
        zx_legal(input@, cmds@, zx_mode(REP_SLOTS_DEFAULT, false, false)),
    ensures
        zx_encoded(input@, cmds@, REP_SLOTS_DEFAULT, false, false, blob@),
{
    encode_with(input, cmds, REP_SLOTS_DEFAULT)
}

/// Two modes that differ in the end marker or the bit conventions alone give
/// the same recent offsets and sizes.
pub proof fn lemma_same_grammar(cmds: Seq<ZxCommand>, a: ZxMode, b: ZxMode, k: int)
    requires
        a.slots == b.slots,
        a.near == b.near,
        a.am == b.am,
    ensures
        zx_reps(cmds, a, k) == zx_reps(cmds, b, k),
        zx_bits(cmds, a, k) == zx_bits(cmds, b, k),
    decreases k,
{
    if k > 0 {
        lemma_same_grammar(cmds, a, b, k - 1);
    }
}

/// Commands with one recent offset whose offsets are small enough can be
/// written with an end marker, in any style.
pub proof fn lemma_legal_with_end(input: Seq<u8>, cmds: Seq<ZxCommand>, a: ZxMode, b: ZxMode)
    requires
        a.slots == b.slots,
        a.near == b.near,
        a.am == b.am,
        zx_legal(input, cmds, a),
        forall|k: int| 0 <= k < cmds.len() ==> (#[trigger] cmds[k]).match_off <= EOF_MAX_OFFSET,
    ensures
        zx_legal(input, cmds, b),
{
    assert forall|k: int| 0 <= k < cmds.len() implies #[trigger] zx_codable_at(cmds, b, k) by {
        assert(zx_codable_at(cmds, a, k));
        lemma_same_grammar(cmds, a, b, k);
        assert(cmds[k].match_off <= EOF_MAX_OFFSET);
    }
}

/// `blob` is the minimal stream of these commands.
pub open spec fn min_eof_encoded(input: Seq<u8>, cmds: Seq<ZxCommand>, blob: Seq<u8>) -> bool {
    &&& blob == seq![MODE_MIN_EOF] + payload_bytes(input, cmds, min_mode())
    &&& blob.len() == 1 + bytes_for(
        zx_bits(cmds, min_mode(), cmds.len() as int) + end_bits(min_mode(), input.len() as int),
    )
    &&& blob[0] == MODE_MIN_EOF
    &&& min_eof_decoded(blob.skip(1), input.len() as int) == Some(input)
    &&& zx_decoded(blob, input.len() as int) == Some(input)
    &&& input.len() > 0 ==> (zx_run(
        blob.skip(1),
        min_mode(),
        input.len() as int,
        zx_start(),
    ) matches Some((o, _)) && o == input)
}

/// Minimal stream of the commands: one recent offset and an end marker.
pub fn encode_min_eof(input: &[u8], cmds: &[ZxCommand]) -> (blob: Vec<u8>)
    requires
        zx_legal(input@, cmds@, min_mode()),
    ensures
        min_eof_encoded(input@, cmds@, blob@),
{
    let payload: Vec<u8> = encode_payload(input, cmds, 1, false, false, true, ZxStyle::Zx);
    let blob: Vec<u8> = with_mode(MODE_MIN_EOF, &payload);
    assert(input@.len() == 0 ==> input@ =~= Seq::<u8>::empty());
    assert(input@.take(input@.len() as int) =~= input@);
    blob
}

/// Decodes a minimal stream without its mode byte, and gives the in-place gap.
fn decode_min_eof_with_gap(body: &[u8], orig_len: usize) -> (r: (Vec<u8>, i128))
    requires
        orig_len > 0,
        min_eof_decoded(body@, orig_len as int) is Some,
    ensures
        min_eof_decoded(body@, orig_len as int) == Some(r.0@),
        r.1 == min_eof_gap(body@, orig_len as int),
{
    let mut reader: BitReader = BitReader::new(body);
    let (mut out, peak) = run(&mut reader, 1, false, false, true, ZxStyle::Zx, orig_len);
    out.truncate(orig_len);
    let end: i128 = out.len() as i128 - body.len() as i128;
    let gap: i128 = if peak > end {
        peak - end
    } else {
        0
    };
    (out, gap)
}

/// Decodes a minimal stream without its mode byte, up to the end marker, and
/// cuts the output to `orig_len` bytes.
pub fn decode_min_eof(body: &[u8], orig_len: usize) -> (out: Vec<u8>)
    requires
        min_eof_decoded(body@, orig_len as int) is Some,
    ensures
        min_eof_decoded(body@, orig_len as int) == Some(out@),
{
    if orig_len == 0 {
        let out: Vec<u8> = Vec::new();
        assert(out@ =~= Seq::<u8>::empty());
        return out;
    }
    decode_min_eof_with_gap(body, orig_len).0
}

/// Decodes a backward minimal stream without its mode byte: the bytes in
/// reverse give the output in reverse.
pub fn decode_min_eof_backward(body: &[u8], orig_len: usize) -> (out: Vec<u8>)
    requires
        min_eof_decoded(body@.reverse(), orig_len as int) is Some,
    ensures
        min_eof_decoded(body@.reverse(), orig_len as int) == Some(out@.reverse()),
{
    let turned: Vec<u8> = reversed(body);
    let out: Vec<u8> = decode_min_eof(turned.as_slice(), orig_len);
    proof {
        lz::lemma_reverse_twice(out@);
    }
    reversed(out.as_slice())
}

/// Output length that the gap of a minimal stream is measured for.
pub const GAP_LEN: usize = 0x1_0000;

/// In-place gap of a minimal stream without its mode byte.
pub fn max_gap_min_forward(stream: &[u8]) -> (gap: usize)
    requires
        stream@.len() > 0 ==> min_eof_decoded(stream@, 0x1_0000) is Some,
        min_eof_gap(stream@, 0x1_0000) <= usize::MAX,
    ensures
        gap == if stream@.len() == 0 {
            0
        } else {
            min_eof_gap(stream@, 0x1_0000)
        },
{
    if stream.len() == 0 {
        return 0;
    }
    let (_, gap) = decode_min_eof_with_gap(stream, GAP_LEN);
    gap as usize
}

/// In-place gap of a backward minimal stream without its mode byte.
pub fn max_gap_min_backward(stream: &[u8]) -> (gap: usize)
    requires
        stream@.len() > 0 ==> min_eof_decoded(stream@.reverse(), 0x1_0000) is Some,
        min_eof_gap(stream@.reverse(), 0x1_0000) <= usize::MAX,
    ensures
        gap == if stream@.len() == 0 {
            0
        } else {
            min_eof_gap(stream@.reverse(), 0x1_0000)
        },
{
    let turned: Vec<u8> = reversed(stream);
    max_gap_min_forward(turned.as_slice())
}

/// Decodes a stream to `orig_len` bytes. The first byte names the mode.
pub fn decode(blob: &[u8], orig_len: usize) -> (out: Vec<u8>)
    requires
        zx_decoded(blob@, orig_len as int) is Some,
    ensures
        zx_decoded(blob@, orig_len as int) == Some(out@),
{
    if orig_len == 0 {
        let out: Vec<u8> = Vec::new();
        assert(out@ =~= Seq::<u8>::empty());
        return out;
    }
    let mode: u8 = blob[0];
    let body: &[u8] = vstd::slice::slice_subrange(blob, 1, blob.len());
    assert(body@ =~= blob@.skip(1));
    if mode == MODE_MIN_EOF {
        return decode_min_eof(body, orig_len);
    }
    let mut r: BitReader = BitReader::new(body);
    run(
        &mut r,
        (mode & 0x0fu8) as usize,
        mode & 0x10u8 != 0,
        mode & 0x20u8 != 0,
        false,
        ZxStyle::Zx,
        orig_len,
    ).0
}

/// Decodes a backward stream: the payload is read from its end and the output
/// filled from its end.
pub fn decode_backward(blob: &[u8], orig_len: usize) -> (out: Vec<u8>)
    requires
        zx_decoded_backward(blob@, orig_len as int) is Some,
    ensures
        zx_decoded_backward(blob@, orig_len as int) == Some(out@),
{
    if orig_len == 0 {
        let out: Vec<u8> = Vec::new();
        assert(out@ =~= Seq::<u8>::empty());
        return out;
    }
    let mode: u8 = blob[0];
    let body: &[u8] = vstd::slice::slice_subrange(blob, 1, blob.len());
    assert(body@ =~= blob@.skip(1));
    let mut r: BitReader = BitReader::from_end(body);
    let (out, _) = run(
        &mut r,
        (mode & 0x0fu8) as usize,
        mode & 0x10u8 != 0,
        mode & 0x20u8 != 0,
        false,
        ZxStyle::Zx,
        orig_len,
    );
    reversed(out.as_slice())
}

/// The stream with the bytes behind the mode byte in reverse order.
pub fn flip(blob: &Vec<u8>) -> (out: Vec<u8>)
    ensures
        out@ == zx_flipped(blob@),
        out@.len() == blob@.len(),
{
    let n: usize = blob.len();
    if n == 0 {
        let out: Vec<u8> = Vec::new();
        assert(out@ =~= blob@);
        return out;
    }
    let body: &[u8] = vstd::slice::slice_subrange(blob.as_slice(), 1, n);
    assert(body@ =~= blob@.skip(1));
    let turned: Vec<u8> = reversed(body);
    with_mode(blob[0], &turned)
}

/// Turning a stream round turns what it decodes to round: the backward stream
/// of the reversed input is as long as the forward one and gives the input.
pub proof fn lemma_flipped_decodes(blob: Seq<u8>, n: int)
    requires
        blob.len() > 0,
        blob[0] != MODE_MIN_EOF,
        n > 0,
    ensures
        zx_flipped(blob).len() == blob.len(),
        zx_decoded_backward(zx_flipped(blob), n) == (match zx_decoded(blob, n) {
            Some(o) => Some(o.reverse()),
            None => None,
        }),
{
    let f = zx_flipped(blob);
    assert(f.skip(1) =~= blob.skip(1).reverse());
    lz::lemma_reverse_twice(blob.skip(1));
}

/// `blob` is the backward stream of commands for the reversed input.
pub open spec fn zx_encoded_backward(
    input: Seq<u8>,
    cmds: Seq<ZxCommand>,
    rep_slots: usize,
    near_rep: bool,
    am_near_rep: bool,
    blob: Seq<u8>,
) -> bool {
    &&& blob.len() > 0
    &&& zx_encoded(
        input.reverse(),
        cmds,
        rep_slots,
        near_rep,
        am_near_rep,
        zx_flipped(blob),
    )
    &&& zx_decoded_backward(blob, input.len() as int) == Some(input)
}

/// Backward stream of commands for the reversed input: the forward stream with
/// its payload turned round.
pub fn encode_with3_backward(
    rev_input: &[u8],
    rev_cmds: &[ZxCommand],
    rep_slots: usize,
    near_rep: bool,
    am_near_rep: bool,
) -> (blob: Vec<u8>)
    requires
        1 <= rep_slots <= 4,
        zx_legal(rev_input@, rev_cmds@, zx_mode(rep_slots, near_rep, am_near_rep)),
    ensures
        zx_encoded_backward(
            rev_input@.reverse(),
            rev_cmds@,
            rep_slots,
            near_rep,
            am_near_rep,
            blob@,
        ),
{
    let fwd: Vec<u8> = encode_with3(rev_input, rev_cmds, rep_slots, near_rep, am_near_rep);
    let blob: Vec<u8> = flip(&fwd);
    proof {
        let n = rev_input@.len() as int;
        lemma_mode_byte(rep_slots, near_rep && rep_slots == 4, am_near_rep && rep_slots == 4);
        if n > 0 {
            lemma_flipped_decodes(fwd@, n);
        } else {
            assert(rev_input@.reverse() =~= Seq::<u8>::empty());
        }
        lz::lemma_reverse_twice(rev_input@);
        lemma_flip_twice(fwd@);
    }
    blob
}

/// Turning a stream round twice gives it back.
pub proof fn lemma_flip_twice(blob: Seq<u8>)
    ensures
        zx_flipped(zx_flipped(blob)) == blob,
        zx_flipped(blob).len() == blob.len(),
{
    if blob.len() > 0 {
        let f = zx_flipped(blob);
        assert(f.skip(1) =~= blob.skip(1).reverse());
        lz::lemma_reverse_twice(blob.skip(1));
        assert(zx_flipped(f) =~= blob);
    }
}

/// Below four recent offsets the flags for near offsets change nothing.
pub proof fn lemma_near_needs_four_slots(
    input: Seq<u8>,
    cmds: Seq<ZxCommand>,
    rep_slots: usize,
    near_rep: bool,
    am_near_rep: bool,
    blob: Seq<u8>,
)
    requires
        rep_slots < 4,
    ensures
        zx_mode(rep_slots, near_rep, am_near_rep) == zx_mode(rep_slots, false, false),
        zx_encoded(input, cmds, rep_slots, near_rep, am_near_rep, blob) == zx_encoded(
            input,
            cmds,
            rep_slots,
            false,
            false,
            blob,
        ),
{
}

} // verus!
