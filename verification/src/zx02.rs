//! The ZX02 stream, made for an 8-bit decoder: no code goes beyond 256, matches
//! may be one byte long, and the low bit of an offset byte is the next bit of
//! the stream. The end marker is an offset whose high part is 256. A backward
//! stream is a forward stream of the reversed input, turned round.
use crate::bitio;
use crate::bitio::{BitPos, BitReader, BitWriter};
use crate::lz;
use crate::lz::{copy_match, reversed};
use crate::zx;
use crate::zxblocks::{lemma_stock_is_one, optimize_blocks, stock_table};
use crate::zxreach;
use crate::zxbest;
use vstd::prelude::*;

verus! {

/// Largest offset.
pub const MAX_OFFSET_ZX02: usize = 32640;

/// There is one algorithm, which every level runs.
pub const MAX_LEVEL: u8 = 1;

// ---------------------------------------------------------------------------
// What a stream decodes to
// ---------------------------------------------------------------------------
/// The next bit, where there is one.
pub open spec fn z_bit(data: Seq<u8>, s: BitPos) -> Option<(bool, BitPos)> {
    if !s.bt && s.left == 0 && s.pos >= data.len() {
        None
    } else {
        Some(bitio::get_bit(data, s))
    }
}

/// An interlaced Elias gamma code with `acc` and `round` data bits read so far:
/// control bit 1 goes on, 0 stops. No value above 256 is accepted.
pub open spec fn z_gamma_from(data: Seq<u8>, s: BitPos, acc: u32, round: nat) -> Option<
    (u32, BitPos),
>
    decreases 9 - round,
{
    if round >= 9 {
        None
    } else {
        match z_bit(data, s) {
            None => None,
            Some((go, s1)) => if !go {
                Some((acc, s1))
            } else {
                match z_bit(data, s1) {
                    None => None,
                    Some((d, s2)) => {
                        let v = (acc << 1u32) | bitio::bit_u32(d);
                        if v > 256 {
                            None
                        } else {
                            z_gamma_from(data, s2, v, round + 1)
                        }
                    },
                }
            },
        }
    }
}

pub open spec fn z_gamma(data: Seq<u8>, s: BitPos) -> Option<(u32, BitPos)> {
    z_gamma_from(data, s, 1, 0)
}

/// What comes next: a literal run, a match with the last offset, one with a new
/// offset, or the bit that says which, after a run or after a match.
pub enum ZPhase {
    Lit,
    Rep,
    New,
    AfterLit,
    AfterMatch,
}

/// The state of a decoder. `off` is the last offset less one.
pub struct ZState {
    pub s: BitPos,
    pub off: int,
    pub out: Seq<u8>,
    pub ph: ZPhase,
    pub gap: int,
}

pub enum ZStep {
    Stop(Seq<u8>, int),
    Next(ZState),
}

/// Bytes of a match with a new offset: the code stands for one less, and 257
/// for a single byte.
pub open spec fn z_wrap(len: int) -> int {
    if len > 256 {
        len % 256
    } else {
        len
    }
}

/// A match of `len` bytes onto the output, then the bit after it.
pub open spec fn z_match(s: BitPos, off: int, len: int, d: ZState, gap: int) -> ZStep {
    if d.out.len() < off + 1 || d.out.len() + len > usize::MAX {
        ZStep::Stop(d.out, gap)
    } else {
        ZStep::Next(
            ZState {
                s,
                off,
                out: lz::lz_copy(d.out, off + 1, len as nat),
                ph: ZPhase::AfterMatch,
                gap,
            },
        )
    }
}

/// One step. A stream that breaks off or cannot be read stops with what there
/// is.
pub open spec fn z_step(data: Seq<u8>, d: ZState) -> ZStep {
    let gap = zx::max_of(d.gap, d.out.len() - d.s.pos);
    match d.ph {
        ZPhase::Lit => match z_gamma(data, d.s) {
            None => ZStep::Stop(d.out, gap),
            Some((len, s1)) => {
                let there = data.len() - s1.pos;
                let k = if len <= there {
                    len as int
                } else {
                    there
                };
                let o = d.out + data.subrange(s1.pos, s1.pos + k);
                if d.out.len() + len > usize::MAX {
                    ZStep::Stop(d.out, gap)
                } else if k < len {
                    ZStep::Stop(o, gap)
                } else {
                    ZStep::Next(
                        ZState {
                            s: BitPos { pos: s1.pos + k, ..s1 },
                            out: o,
                            ph: ZPhase::AfterLit,
                            gap,
                            ..d
                        },
                    )
                }
            },
        },
        ZPhase::Rep => match z_gamma(data, d.s) {
            None => ZStep::Stop(d.out, gap),
            Some((len, s1)) => z_match(s1, d.off, len as int, d, gap),
        },
        ZPhase::New => match z_gamma(data, d.s) {
            None => ZStep::Stop(d.out, gap),
            Some((msb, s1)) => if msb % 256 == 0 || s1.pos >= data.len() {
                ZStep::Stop(d.out, gap)
            } else {
                let b = data[s1.pos];
                let off = (msb - 1) * 128 + (b >> 1u8);
                match z_gamma(data, BitPos { pos: s1.pos + 1, bt: true, ..s1 }) {
                    None => ZStep::Stop(d.out, gap),
                    Some((len, s2)) => z_match(s2, off, z_wrap(len + 1), d, gap),
                }
            },
        },
        ZPhase::AfterLit => match z_bit(data, d.s) {
            None => ZStep::Stop(d.out, gap),
            Some((b, s1)) => ZStep::Next(
                ZState {
                    s: s1,
                    ph: if b {
                        ZPhase::New
                    } else {
                        ZPhase::Rep
                    },
                    ..d
                },
            ),
        },
        ZPhase::AfterMatch => match z_bit(data, d.s) {
            None => ZStep::Stop(d.out, gap),
            Some((b, s1)) => ZStep::Next(
                ZState {
                    s: s1,
                    ph: if b {
                        ZPhase::New
                    } else {
                        ZPhase::Lit
                    },
                    ..d
                },
            ),
        },
    }
}

pub open spec fn z_run(data: Seq<u8>, d: ZState, fuel: nat) -> (Seq<u8>, int)
    decreases fuel,
{
    if fuel == 0 {
        (d.out, d.gap)
    } else {
        match z_step(data, d) {
            ZStep::Stop(o, g) => (o, g),
            ZStep::Next(e) => z_run(data, e, (fuel - 1) as nat),
        }
    }
}

pub open spec fn z_start() -> ZState {
    ZState { s: bitio::bit_start(), off: 0, out: Seq::empty(), ph: ZPhase::Lit, gap: 0 }
}

/// More steps than the stream has bits.
pub open spec fn z_fuel(data: Seq<u8>) -> nat {
    8 * data.len() + 1
}

/// What a forward stream decodes to. Every stream decodes to something.
pub open spec fn zx02_decoded(data: Seq<u8>) -> Seq<u8> {
    z_run(data, z_start(), z_fuel(data)).0
}

/// In-place gap of a forward stream.
pub open spec fn zx02_gap(data: Seq<u8>) -> int {
    let (o, peak) = z_run(data, z_start(), z_fuel(data));
    if data.len() == 0 {
        0
    } else {
        zx::max_of(peak - (o.len() - data.len()), 0)
    }
}

/// Bits that have not been read.
pub open spec fn bits_left(data: Seq<u8>, s: BitPos) -> int {
    8 * (data.len() - s.pos) + s.left + if s.bt {
        1int
    } else {
        0int
    }
}

pub open spec fn z_wf(data: Seq<u8>, s: BitPos) -> bool {
    &&& 0 <= s.pos <= data.len()
    &&& 0 <= s.left <= 7
    &&& s.bt ==> s.pos > 0
}

pub proof fn lemma_z_bit(data: Seq<u8>, s: BitPos)
    requires
        z_wf(data, s),
        data.len() <= usize::MAX,
    ensures
        z_bit(data, s) matches Some((_, s1)) ==> z_wf(data, s1) && bits_left(data, s1) == bits_left(
            data,
            s,
        ) - 1 && !s1.bt && s1.pos >= s.pos,
{
}

proof fn lemma_z_gamma(data: Seq<u8>, s: BitPos, acc: u32, round: nat)
    requires
        z_wf(data, s),
        data.len() <= usize::MAX,
    ensures
        z_gamma_from(data, s, acc, round) matches Some((v, s1)) ==> z_wf(data, s1) && bits_left(
            data,
            s1,
        ) < bits_left(data, s) && !s1.bt && s1.pos >= s.pos,
    decreases 9 - round,
{
    if round < 9 {
        lemma_z_bit(data, s);
        if let Some((go, s1)) = z_bit(data, s) {
            lemma_z_bit(data, s1);
            if let Some((d, s2)) = z_bit(data, s1) {
                lemma_z_gamma(data, s2, (acc << 1u32) | bitio::bit_u32(d), round + 1);
            }
        }
    }
}

/// Every step that goes on has read at least one bit.
proof fn lemma_z_step(data: Seq<u8>, d: ZState)
    requires
        z_wf(data, d.s),
        data.len() <= usize::MAX,
    ensures
        z_step(data, d) matches ZStep::Next(e) ==> z_wf(data, e.s) && bits_left(data, e.s) < bits_left(
            data,
            d.s,
        ) && !e.s.bt,
{
    lemma_z_bit(data, d.s);
    lemma_z_gamma(data, d.s, 1, 0);
    if let Some((msb, s1)) = z_gamma(data, d.s) {
        if s1.pos < data.len() {
            lemma_z_gamma(data, BitPos { pos: s1.pos + 1, bt: true, ..s1 }, 1, 0);
        }
    }
}

// ---------------------------------------------------------------------------
// Decoder
// ---------------------------------------------------------------------------
struct Decoder<'a> {
    r: BitReader<'a>,
    len: usize,
    /// Bits left in the byte that bits come from.
    left: u8,
    extra: bool,
    offset: u32,
    output: Vec<u8>,
}

impl<'a> Decoder<'a> {
    spec fn data(&self) -> Seq<u8> {
        self.r.source()
    }

    spec fn wf(&self) -> bool {
        &&& self.r.wf()
        &&& self.len == self.r.source().len()
        &&& z_wf(self.data(), self.r.st())
        &&& self.left == self.r.st().left
        &&& self.extra == self.r.st().bt
        &&& self.offset < 0x8000
    }

    spec fn same(&self, o: &Self) -> bool {
        &&& self.data() == o.data()
        &&& self.offset == o.offset
        &&& self.output@ == o.output@
    }

    /// The next bit, unless the stream has ended.
    fn get_bit(&mut self) -> (bit: Option<bool>)
        requires
            old(self).wf(),
        ensures
            final(self).wf(),
            final(self).same(old(self)),
            match bit {
                None => z_bit(old(self).data(), old(self).r.st()) is None && final(self).r.st() == old(
                    self,
                ).r.st(),
                Some(b) => z_bit(old(self).data(), old(self).r.st()) == Some((b, final(self).r.st())),
            },
    {
        proof {
            lemma_z_bit(self.data(), self.r.st());
        }
        if !self.extra && self.left == 0 && self.r.position() >= self.len {
            return None;
        }
        let b: u32 = self.r.read_bit();
        if self.extra {
            self.extra = false;
        } else if self.left == 0 {
            self.left = 7;
        } else {
            self.left = self.left - 1;
        }
        Some(b == 1)
    }

    /// A gamma code, unless it is broken.
    fn get_elias(&mut self) -> (value: Option<u32>)
        requires
            old(self).wf(),
        ensures
            final(self).wf(),
            final(self).same(old(self)),
            match value {
                None => z_gamma(old(self).data(), old(self).r.st()) is None,
                Some(v) => z_gamma(old(self).data(), old(self).r.st()) == Some(
                    (v, final(self).r.st()),
                ) && 1 <= v <= 256,
            },
    {
        let ghost goal = z_gamma(self.data(), self.r.st());
        let ghost data = self.data();
        let mut ret: u32 = 1;
        let mut round: usize = 0;
        while round < 9
            invariant
                round <= 9,
                1 <= ret <= 256,
                self.wf(),
                self.same(old(self)),
                data == self.data(),
                goal == z_gamma(data, old(self).r.st()),
                goal == z_gamma_from(data, self.r.st(), ret, round as nat),
            decreases 9 - round,
        {
            let go: bool = match self.get_bit() {
                None => {
                    return None;
                },
                Some(b) => b,
            };
            if !go {
                return Some(ret);
            }
            let bit: u32 = match self.get_bit() {
                None => {
                    return None;
                },
                Some(b) => if b {
                    1
                } else {
                    0
                },
            };
            proof {
                lemma_shift_in(ret, bit);
            }
            let v: u32 = (ret << 1u32) | bit;
            if v > 256 {
                return None;
            }
            ret = v;
            round += 1;
        }
        None
    }

    /// Literal bytes up to the end of the stream; `false` when there are too
    /// few.
    fn get_literals(&mut self, len: u32) -> (ok: bool)
        requires
            old(self).wf(),
            !old(self).extra,
            old(self).output@.len() + len <= usize::MAX,
        ensures
            final(self).wf(),
            final(self).data() == old(self).data(),
            final(self).offset == old(self).offset,
            ({
                let data = old(self).data();
                let p = old(self).r.st().pos;
                let there = data.len() - p;
                let k = if len <= there {
                    len as int
                } else {
                    there
                };
                &&& final(self).output@ == old(self).output@ + data.subrange(p, p + k)
                &&& final(self).r.st() == (BitPos { pos: p + k, ..old(self).r.st() })
                &&& ok == (k == len)
            }),
    {
        let ghost data = self.data();
        let ghost p = self.r.st().pos;
        let ghost s0 = self.r.st();
        let ghost o0 = self.output@;
        let mut i: u32 = 0;
        assert(data.subrange(p, p) =~= Seq::<u8>::empty());
        assert(o0 + data.subrange(p, p) =~= o0);
        while i < len
            invariant
                i <= len,
                p + i <= data.len(),
                0 <= p,
                self.wf(),
                self.data() == data,
                self.offset == old(self).offset,
                self.r.st() == (BitPos { pos: p + i, ..s0 }),
                !s0.bt,
                o0.len() + len <= usize::MAX,
                self.output@ == o0 + data.subrange(p, p + i),
                s0 == old(self).r.st(),
                p == s0.pos,
                o0 == old(self).output@,
                data == old(self).data(),
            decreases len - i,
        {
            if self.r.position() >= self.len {
                return false;
            }
            let b: u8 = self.r.read_byte();
            self.output.push(b);
            i += 1;
            assert(data.subrange(p, p + i) =~= data.subrange(p, p + i - 1).push(data[p + i - 1]));
            assert(self.output@ =~= o0 + data.subrange(p, p + i));
        }
        true
    }
}

proof fn lemma_shift_in(r: u32, b: u32)
    by (bit_vector)
    requires
        1 <= r <= 256,
        b <= 1,
    ensures
        (r << 1u32) | b >= 1,
        (r << 1u32) | b <= 513,
        (r << 1u32) | b == 2 * r + b,
{
}

proof fn lemma_offset_byte(b: u8)
    by (bit_vector)
    ensures
        b >> 1u8 <= 127,
        b >> 1u8 == b / 2,
{
}

/// Decodes a stream: the output, and the largest lead of the output over the
/// bytes taken.
#[verifier::rlimit(60)]
fn decode_loop(input: &[u8]) -> (r: (Vec<u8>, i128))
    ensures
        z_run(input@, z_start(), z_fuel(input@)) == (r.0@, r.1 as int),
        0 <= r.1 <= r.0@.len(),
{
    let n: usize = input.len();
    let mut d: Decoder = Decoder {
        r: BitReader::new(input),
        len: n,
        left: 0,
        extra: false,
        offset: 0,
        output: Vec::new(),
    };
    let ghost data = input@;
    let ghost mut z = z_start();
    let ghost goal = z_run(data, z, z_fuel(data));
    let ghost mut fuel = z_fuel(data);
    let mut ph: ZPhase = ZPhase::Lit;
    let mut gap: i128 = 0;
    assert(d.output@ =~= Seq::<u8>::empty());
    loop
        invariant
            n == input@.len(),
            data == input@,
            d.wf(),
            d.data() == data,
            goal == z_run(data, z_start(), z_fuel(data)),
            goal == z_run(data, z, fuel),
            z == (ZState {
                s: d.r.st(),
                off: d.offset as int,
                out: d.output@,
                ph,
                gap: gap as int,
            }),
            bits_left(data, z.s) < fuel,
            0 <= gap <= d.output@.len(),
            d.output@.len() <= usize::MAX,
            !d.extra,
        decreases fuel,
    {
        let ghost z0 = z;
        let ghost nxt = z_step(data, z);
        proof {
            lemma_z_step(data, z);
            lemma_z_gamma(data, z.s, 1, 0);
        }
        let mut top: i128 = gap;
        let lead: i128 = d.output.len() as i128 - d.r.position() as i128;
        if lead > top {
            top = lead;
        }
        match ph {
            ZPhase::Lit => {
                match d.get_elias() {
                    None => {
                        return (d.output, top);
                    },
                    Some(len) => {
                        if d.output.len() > usize::MAX - len as usize {
                            return (d.output, top);
                        }
                        let ok: bool = d.get_literals(len);
                        if !ok {
                            return (d.output, top);
                        }
                    },
                }
                gap = top;
                ph = ZPhase::AfterLit;
            },
            ZPhase::Rep => {
                match d.get_elias() {
                    None => {
                        return (d.output, top);
                    },
                    Some(len) => {
                        let count: usize = d.output.len();
                        if count < d.offset as usize + 1 || count > usize::MAX - len as usize {
                            return (d.output, top);
                        }
                        copy_match(&mut d.output, d.offset as usize + 1, len as usize);
                    },
                }
                gap = top;
                ph = ZPhase::AfterMatch;
            },
            ZPhase::New => {
                let msb: u32 = match d.get_elias() {
                    None => {
                        return (d.output, top);
                    },
                    Some(v) => v,
                };
                if msb % 256 == 0 || d.r.position() >= n {
                    return (d.output, top);
                }
                let b: u8 = d.r.read_byte();
                proof {
                    lemma_offset_byte(b);
                    assert(b == data[d.r.st().pos - 1]);
                }
                d.r.set_backtrack();
                d.extra = true;
                let off: u32 = (msb - 1) * 128 + (b >> 1u8) as u32;
                match d.get_elias() {
                    None => {
                        return (d.output, top);
                    },
                    Some(code) => {
                        let len: usize = if code == 256 {
                            1
                        } else {
                            code as usize + 1
                        };
                        let count: usize = d.output.len();
                        if count < off as usize + 1 || count > usize::MAX - len {
                            return (d.output, top);
                        }
                        d.offset = off;
                        copy_match(&mut d.output, off as usize + 1, len);
                    },
                }
                gap = top;
                ph = ZPhase::AfterMatch;
            },
            ZPhase::AfterLit => {
                match d.get_bit() {
                    None => {
                        return (d.output, top);
                    },
                    Some(b) => {
                        ph = if b {
                            ZPhase::New
                        } else {
                            ZPhase::Rep
                        };
                    },
                }
            },
            ZPhase::AfterMatch => {
                match d.get_bit() {
                    None => {
                        return (d.output, top);
                    },
                    Some(b) => {
                        ph = if b {
                            ZPhase::New
                        } else {
                            ZPhase::Lit
                        };
                    },
                }
            },
        }
        proof {
            z = ZState {
                s: d.r.st(),
                off: d.offset as int,
                out: d.output@,
                ph,
                gap: gap as int,
            };
            assert(nxt == ZStep::Next(z));
            fuel = (fuel - 1) as nat;
        }
    }
}

/// A stream that is turned round where it is backward.
pub open spec fn z_order(s: Seq<u8>, backward: bool) -> Seq<u8> {
    if backward {
        s.reverse()
    } else {
        s
    }
}

/// Decompresses a forward stream. One that breaks off gives what it held.
pub fn decompress_zx02(input: &[u8]) -> (out: Vec<u8>)
    ensures
        out@ == zx02_decoded(input@),
{
    decode_loop(input).0
}

/// Decompresses a backward stream: its bytes in reverse give the output in
/// reverse.
pub fn decompress_zx02_backward(input: &[u8]) -> (out: Vec<u8>)
    ensures
        out@ == zx02_decoded(input@.reverse()).reverse(),
{
    let rev: Vec<u8> = reversed(input);
    let out: Vec<u8> = decompress_zx02(rev.as_slice());
    reversed(out.as_slice())
}

/// Decompresses a forward or backward stream.
pub fn decompress(input: &[u8], backward: bool) -> (out: Vec<u8>)
    ensures
        out@ == z_order(zx02_decoded(z_order(input@, backward)), backward),
{
    if backward {
        decompress_zx02_backward(input)
    } else {
        decompress_zx02(input)
    }
}

/// In-place gap of a forward stream: how far the output may run ahead of the
/// bytes taken, against where both end.
pub fn max_gap_forward(stream: &[u8]) -> (gap: usize)
    ensures
        gap == zx02_gap(stream@),
        gap <= stream@.len(),
{
    let n: usize = stream.len();
    if n == 0 {
        return 0;
    }
    let (out, peak) = decode_loop(stream);
    let end: i128 = out.len() as i128 - n as i128;
    if peak > end {
        (peak - end) as usize
    } else {
        0
    }
}

/// In-place gap of a backward stream.
pub fn max_gap_backward(stream: &[u8]) -> (gap: usize)
    ensures
        gap == zx02_gap(stream@.reverse()),
        gap <= stream@.len(),
{
    let rev: Vec<u8> = reversed(stream);
    max_gap_forward(rev.as_slice())
}

// ---------------------------------------------------------------------------
// Tokens
// ---------------------------------------------------------------------------
/// A literal run (`off == 0`) or a match.
#[derive(Clone, Copy)]
pub struct ZTok {
    pub off: u32,
    pub len: u32,
}

/// Where token `k` starts.
pub open spec fn z_pos(toks: Seq<ZTok>, k: int) -> int
    decreases k,
{
    if k <= 0 {
        0
    } else {
        z_pos(toks, k - 1) + toks[k - 1].len
    }
}

/// Token `k` stands for the bytes of the input at its place, no two literal
/// runs meet, and the first token is one.
pub open spec fn z_tok_ok(input: Seq<u8>, toks: Seq<ZTok>, k: int) -> bool {
    let t = toks[k];
    let p = z_pos(toks, k);
    &&& 1 <= t.len <= 256
    &&& t.off <= MAX_OFFSET_ZX02
    &&& k == 0 ==> t.off == 0
    &&& t.off == 0 ==> p + t.len <= input.len() && (k > 0 ==> toks[k - 1].off != 0)
    &&& t.off != 0 ==> lz::is_match(input, p, t.off as int, t.len as int)
}

pub open spec fn z_toks_ok(input: Seq<u8>, toks: Seq<ZTok>) -> bool {
    &&& forall|k: int| 0 <= k < toks.len() ==> #[trigger] z_tok_ok(input, toks, k)
    &&& toks.len() > 0
    &&& z_pos(toks, toks.len() as int) <= input.len()
}

proof fn lemma_z_pos(a: Seq<ZTok>, b: Seq<ZTok>, k: int)
    requires
        0 <= k <= a.len(),
        k <= b.len(),
        forall|j: int| 0 <= j < k ==> a[j] == b[j],
    ensures
        z_pos(a, k) == z_pos(b, k),
    decreases k,
{
    if k > 0 {
        lemma_z_pos(a, b, k - 1);
    }
}

/// The tokens so far reach up to `p`, and a literal run may follow where
/// `open` says so.
spec fn z_built(input: Seq<u8>, toks: Seq<ZTok>, p: int, open: bool) -> bool {
    &&& forall|k: int| 0 <= k < toks.len() ==> #[trigger] z_tok_ok(input, toks, k)
    &&& z_pos(toks, toks.len() as int) == p
    &&& p <= input.len()
    &&& open ==> toks.len() == 0 || toks.last().off != 0
}

/// The last place from `lo` on and before `k` at which `b` stands, or -1.
pub open spec fn last_same(input: Seq<u8>, lo: int, k: int, b: u8) -> int
    decreases k,
{
    if k <= lo || k <= 0 {
        -1
    } else if input[k - 1] == b {
        k - 1
    } else {
        last_same(input, lo, k - 1, b)
    }
}

proof fn lemma_last_same(input: Seq<u8>, lo: int, k: int, b: u8, v: int)
    requires
        0 <= lo <= k <= input.len(),
        v == -1 || lo <= v < k && input[v] == b,
        forall|j: int| lo <= j < k && v < j ==> #[trigger] input[j] != b,
    ensures
        last_same(input, lo, k, b) == v,
    decreases k,
{
    if k > lo && v != k - 1 {
        lemma_last_same(input, lo, k - 1, b, v);
    }
}

/// The tokens of a literal run of more than 256 bytes: `rs` is where the run that
/// is open began, and the bytes before `q` are done. Whenever a byte occurs a
/// second time in the open run, it is a match of one byte and a new run begins.
pub open spec fn long_run(input: Seq<u8>, rs: int, q: int, end: int, acc: Seq<ZTok>) -> Seq<ZTok>
    decreases end - q,
{
    if q >= end {
        if rs < end {
            acc.push(ZTok { off: 0, len: (end - rs) as u32 })
        } else {
            acc
        }
    } else {
        let v = last_same(input, rs, q, input[q]);
        if v >= 0 {
            long_run(
                input,
                q + 1,
                q + 1,
                end,
                acc.push(ZTok { off: 0, len: (q - rs) as u32 }).push(
                    ZTok { off: (q - v) as u32, len: 1 },
                ),
            )
        } else {
            long_run(input, rs, q + 1, end, acc)
        }
    }
}

/// The tokens of a match, of 256 bytes at most each.
pub open spec fn cut_match(off: u32, len: int, acc: Seq<ZTok>) -> Seq<ZTok>
    decreases len,
{
    if len <= 0 {
        acc
    } else if len > 256 {
        cut_match(off, len - 256, acc.push(ZTok { off, len: 256 }))
    } else {
        acc.push(ZTok { off, len: len as u32 })
    }
}

/// Where the literals at `e - 1` end: at the next match or the end.
pub open spec fn run_end(best: Seq<(u32, u32)>, e: int) -> int
    decreases best.len() - e,
{
    if e < best.len() && best[e].0 == 0 {
        run_end(best, e + 1)
    } else {
        e
    }
}

/// The tokens of a table from `p` on, behind `acc`. Runs and matches that are too
/// long for one code are cut.
pub open spec fn z_tokens(input: Seq<u8>, best: Seq<(u32, u32)>, p: int, acc: Seq<ZTok>) -> Seq<ZTok>
    decreases (if p < best.len() {
        best.len() - p
    } else {
        0
    }),
    via z_tokens_ends
{
    if p < 0 || p >= best.len() {
        acc
    } else if best[p].0 > 0 {
        z_tokens(input, best, p + best[p].0, cut_match(best[p].1, best[p].0 as int, acc))
    } else {
        let e = run_end(best, p + 1);
        z_tokens(
            input,
            best,
            e,
            if e - p <= 256 {
                acc.push(ZTok { off: 0, len: (e - p) as u32 })
            } else {
                long_run(input, p, p, e, acc)
            },
        )
    }
}

#[via_fn]
proof fn z_tokens_ends(input: Seq<u8>, best: Seq<(u32, u32)>, p: int, acc: Seq<ZTok>) {
    if 0 <= p < best.len() {
        lemma_run_end(best, p + 1);
    }
}

proof fn lemma_run_end(best: Seq<(u32, u32)>, e: int)
    ensures
        run_end(best, e) >= e,
    decreases best.len() - e,
{
    if e < best.len() && best[e].0 == 0 {
        lemma_run_end(best, e + 1);
    }
}

/// The tokens of the stock parse of `input`.
pub open spec fn stock_toks(input: Seq<u8>, toks: Seq<ZTok>) -> bool {
    exists|best: Seq<(u32, u32)>| #[trigger]
        stock_table(input, MAX_OFFSET_ZX02 as int, true, best) && toks == z_tokens(
            input,
            best,
            0,
            Seq::empty(),
        )
}

/// The stock parse of an input is one list of tokens.
pub proof fn lemma_stock_toks_is_one(input: Seq<u8>, a: Seq<ZTok>, b: Seq<ZTok>)
    requires
        stock_toks(input, a),
        stock_toks(input, b),
    ensures
        a == b,
{
    let s = choose|best: Seq<(u32, u32)>| #[trigger]
        stock_table(input, MAX_OFFSET_ZX02 as int, true, best) && a == z_tokens(
            input,
            best,
            0,
            Seq::empty(),
        );
    let t = choose|best: Seq<(u32, u32)>| #[trigger]
        stock_table(input, MAX_OFFSET_ZX02 as int, true, best) && b == z_tokens(
            input,
            best,
            0,
            Seq::empty(),
        );
    lemma_stock_is_one(input, MAX_OFFSET_ZX02 as int, true, s, t);
}

fn push_tok(toks: &mut Vec<ZTok>, t: ZTok, Ghost(input): Ghost<Seq<u8>>, Ghost(p): Ghost<int>, Ghost(
    open,
): Ghost<bool>)
    requires
        z_built(input, old(toks)@, p, open),
        1 <= t.len <= 256,
        t.off <= MAX_OFFSET_ZX02,
        t.off == 0 ==> open && p + t.len <= input.len(),
        t.off != 0 ==> old(toks)@.len() > 0 && lz::is_match(input, p, t.off as int, t.len as int),
    ensures
        z_built(input, final(toks)@, p + t.len, t.off != 0),
        final(toks)@ == old(toks)@.push(t),
{
    let ghost t0 = toks@;
    toks.push(t);
    proof {
        let t1 = toks@;
        lemma_z_pos(t0, t1, t0.len() as int);
        assert forall|k: int| 0 <= k < t1.len() implies #[trigger] z_tok_ok(input, t1, k) by {
            lemma_z_pos(t0, t1, if k < t0.len() {
                k
            } else {
                t0.len() as int
            });
            if k < t0.len() {
                assert(z_tok_ok(input, t0, k));
                assert(t1[k] == t0[k]);
                if k > 0 {
                    assert(t1[k - 1] == t0[k - 1]);
                }
            }
        }
    }
}

/// A literal run of more than 256 bytes. Whenever a byte occurs a second time
/// in the run, it is a match of one byte and a new run begins; so the bytes of
/// each run differ, and there are at most 256.
#[verifier::rlimit(40)]
fn push_long_run(input: &[u8], toks: &mut Vec<ZTok>, start: usize, end: usize)
    requires
        start < end <= input@.len(),
        z_built(input@, old(toks)@, start as int, true),
    ensures
        z_built(input@, final(toks)@, end as int, false),
        final(toks)@.len() > 0,
        final(toks)@ == long_run(input@, start as int, start as int, end as int, old(toks)@),
{
    let ghost goal = long_run(input@, start as int, start as int, end as int, toks@);
    let n: usize = input.len();
    let mut last: Vec<usize> = vec![0; 256];
    let mut rs: usize = start;
    let mut q: usize = start;
    let ghost mut seen = Set::<int>::empty();
    while q < end
        invariant
            n == input@.len(),
            start <= rs <= q <= end <= n,
            z_built(input@, toks@, rs as int, true),
            start < q ==> toks@.len() > 0 || rs < q,
            last@.len() == 256,
            forall|b: int| 0 <= b < 256 ==> #[trigger] last@[b] <= q,
            forall|b: int|
                0 <= b < 256 && #[trigger] last@[b] > rs ==> input@[last@[b] - 1] == b,
            forall|b: int| 0 <= b < 256 ==> (seen.contains(b) <==> #[trigger] last@[b] > rs),
            forall|b: int| seen.contains(b) ==> 0 <= b < 256,
            seen.finite(),
            seen.len() == q - rs,
            forall|j: int| rs <= j < q ==> last@[(#[trigger] input@[j]) as int] > j,
            goal == long_run(input@, rs as int, q as int, end as int, toks@),
        decreases end - q,
    {
        let b: usize = input[q] as usize;
        if last[b] > rs {
            let before: usize = last[b] - 1;
            proof {
                lemma_last_same(input@, rs as int, q as int, input@[q as int], before as int);
                lemma_few_bytes(seen);
            }
            push_tok(
                toks,
                ZTok { off: 0, len: (q - rs) as u32 },
                Ghost(input@),
                Ghost(rs as int),
                Ghost(true),
            );
            assert(lz::is_match(input@, q as int, q - before, 1));
            push_tok(
                toks,
                ZTok { off: (q - before) as u32, len: 1 },
                Ghost(input@),
                Ghost(q as int),
                Ghost(false),
            );
            q += 1;
            rs = q;
            proof {
                seen = Set::empty();
            }
        } else {
            let ghost s0 = seen;
            proof {
                lemma_last_same(input@, rs as int, q as int, input@[q as int], -1);
            }
            q += 1;
            last.set(b, q);
            proof {
                seen = seen.insert(b as int);
            }
        }
    }
    if rs < end {
        proof {
            lemma_few_bytes(seen);
        }
        push_tok(
            toks,
            ZTok { off: 0, len: (end - rs) as u32 },
            Ghost(input@),
            Ghost(rs as int),
            Ghost(true),
        );
    }
}

proof fn lemma_few_bytes(s: Set<int>)
    requires
        s.finite(),
        forall|b: int| s.contains(b) ==> 0 <= b < 256,
    ensures
        s.len() <= 256,
{
    let all = vstd::set_lib::set_int_range(0, 256);
    vstd::set_lib::lemma_int_range(0, 256);
    assert(s.subset_of(all));
    vstd::set_lib::lemma_len_subset(s, all);
}

/// The tokens of a table. Runs and matches that are too long for one code are
/// cut.
fn tokens_from(input: &[u8], best: &Vec<(u32, u32)>) -> (toks: Vec<ZTok>)
    requires
        input@.len() > 0,
        zxbest::best_ok(input@, best@),
        zxreach::offsets_within(best@, MAX_OFFSET_ZX02 as int),
    ensures
        z_toks_ok(input@, toks@),
        z_pos(toks@, toks@.len() as int) == input@.len(),
        toks@ == z_tokens(input@, best@, 0, Seq::empty()),
{
    let n: usize = input.len();
    let mut toks: Vec<ZTok> = Vec::new();
    let ghost goal = z_tokens(input@, best@, 0, Seq::empty());
    assert(toks@ =~= Seq::<ZTok>::empty());
    let mut p: usize = 0;
    let ghost mut open = true;
    while p < n
        invariant
            n == input@.len(),
            p <= n,
            zxbest::best_ok(input@, best@),
            zxreach::offsets_within(best@, MAX_OFFSET_ZX02 as int),
            z_built(input@, toks@, p as int, open),
            p > 0 ==> toks@.len() > 0,
            !open && p < n ==> best@[p as int].0 > 0,
            goal == z_tokens(input@, best@, p as int, toks@),
        decreases n - p,
    {
        let (len, off) = best[p];
        let ghost acc = toks@;
        if len > 0 {
            assert(lz::is_match(input@, p as int, off as int, len as int));
            let mut rest: u32 = len;
            let ghost begin = p as int;
            while rest > 0
                invariant
                    n == input@.len(),
                    rest <= len,
                    p == begin + (len - rest),
                    lz::is_match(input@, begin, off as int, len as int),
                    p + rest <= n,
                    1 <= off <= MAX_OFFSET_ZX02,
                    z_built(input@, toks@, p as int, open),
                    toks@.len() > 0,
                    rest < len ==> open,
                    cut_match(off, len as int, acc) == cut_match(off, rest as int, toks@),
                decreases rest,
            {
                let k: u32 = if rest > 256 {
                    256
                } else {
                    rest
                };
                assert forall|j: int| 0 <= j < k implies #[trigger] input@[p + j] == input@[p + j
                    - off] by {
                    assert(input@[begin + ((len - rest) + j)] == input@[begin + ((len - rest) + j)
                        - off]);
                }
                push_tok(
                    &mut toks,
                    ZTok { off, len: k },
                    Ghost(input@),
                    Ghost(p as int),
                    Ghost(open),
                );
                p += k as usize;
                rest = rest - k;
                proof {
                    open = true;
                }
            }
        } else {
            let mut e: usize = p + 1;
            while e < n && best[e].0 == 0
                invariant
                    n == input@.len(),
                    n == best@.len(),
                    p < e <= n,
                    run_end(best@, p + 1) == run_end(best@, e as int),
                decreases n - e,
            {
                e += 1;
            }
            assert(e == run_end(best@, p + 1));
            if e - p <= 256 {
                push_tok(
                    &mut toks,
                    ZTok { off: 0, len: (e - p) as u32 },
                    Ghost(input@),
                    Ghost(p as int),
                    Ghost(true),
                );
            } else {
                push_long_run(input, &mut toks, p, e);
            }
            p = e;
            proof {
                open = false;
            }
        }
    }
    toks
}

// ---------------------------------------------------------------------------
// Encoder
// ---------------------------------------------------------------------------
/// `k` steps lead from `a` to `b`.
pub open spec fn z_steps(data: Seq<u8>, a: ZState, b: ZState, k: nat) -> bool
    decreases k,
{
    if k == 0 {
        a == b
    } else {
        match z_step(data, a) {
            ZStep::Stop(_, _) => false,
            ZStep::Next(c) => z_steps(data, c, b, (k - 1) as nat),
        }
    }
}

proof fn lemma_z_steps_then(data: Seq<u8>, a: ZState, b: ZState, c: ZState, j: nat, k: nat)
    requires
        z_steps(data, a, b, j),
        z_steps(data, b, c, k),
    ensures
        z_steps(data, a, c, j + k),
    decreases j,
{
    if j > 0 {
        if let ZStep::Next(d) = z_step(data, a) {
            lemma_z_steps_then(data, d, b, c, (j - 1) as nat, k);
        }
    }
}

/// Steps use up bits, so that the fuel lasts.
proof fn lemma_z_steps_run(data: Seq<u8>, a: ZState, b: ZState, k: nat, fuel: nat)
    requires
        z_steps(data, a, b, k),
        z_wf(data, a.s),
        data.len() <= usize::MAX,
        bits_left(data, a.s) < fuel,
    ensures
        z_wf(data, b.s),
        bits_left(data, b.s) + k <= bits_left(data, a.s),
        k < fuel,
        z_run(data, a, fuel) == z_run(data, b, (fuel - k) as nat),
    decreases k,
{
    if k > 0 {
        if let ZStep::Next(c) = z_step(data, a) {
            lemma_z_step(data, a);
            lemma_z_steps_run(data, c, b, (k - 1) as nat, (fuel - 1) as nat);
        }
    }
}

fn write_z_bit(w: &mut BitWriter, v: bool)
    requires
        old(w)@.wf(),
    ensures
        final(w)@.wf(),
        final(w)@.nbits() == old(w)@.nbits() + 1,
        !final(w)@.bt,
        final(w)@ == bitio::put_bit(old(w)@, v),
        forall|data: Seq<u8>| #[trigger]
            bitio::agrees(final(w)@, data) ==> bitio::agrees(old(w)@, data) && z_bit(
                data,
                old(w)@.st(),
            ) == Some((v, final(w)@.st())),
{
    w.write_bit(
        if v {
            1
        } else {
            0
        },
    );
}

fn write_z_gamma(w: &mut BitWriter, value: u32)
    requires
        old(w)@.wf(),
        1 <= value <= 256,
    ensures
        final(w)@.wf(),
        !final(w)@.bt,
        final(w)@ == bitio::put_gamma(old(w)@, value, true, false),
        final(w)@.nbits() == old(w)@.nbits() + bitio::gamma_len(value as nat),
        forall|data: Seq<u8>| #[trigger]
            bitio::agrees(final(w)@, data) ==> bitio::agrees(old(w)@, data) && z_gamma(
                data,
                old(w)@.st(),
            ) == Some((value, final(w)@.st())),
{
    let ghost w0 = w@;
    let k: u32 = 31 - value.leading_zeros();
    let mut i: u32 = k;
    proof {
        bitio::lemma_floor_log2_lz(value);
        lemma_nine_bits(value, k);
    }
    while i > 0
        invariant
            i <= k <= 8,
            1 <= value <= 256,
            w@.wf(),
            k == bitio::floor_log2(value as nat),
            value >> k == 1,
            i < k ==> !w@.bt,
            i == k ==> w@ == w0,
            w@.nbits() == w0.nbits() + 2 * (k - i),
            bitio::put_gamma(w0, value, true, false) == bitio::put_gamma_from(
                w@,
                value,
                i as int,
                true,
                false,
            ),
            forall|data: Seq<u8>| #[trigger]
                bitio::agrees(w@, data) ==> bitio::agrees(w0, data) && z_gamma(data, w0.st())
                    == z_gamma_from(data, w@.st(), value >> i, (k - i) as nat),
        decreases i,
    {
        let ghost wa = w@;
        let ghost i0 = i;
        i = i - 1;
        proof {
            lemma_z_shift(value, i);
        }
        write_z_bit(w, true);
        let ghost wb = w@;
        let bit: bool = (value >> i) & 1 == 1;
        write_z_bit(w, bit);
        assert forall|data: Seq<u8>| #[trigger] bitio::agrees(w@, data) implies bitio::agrees(
            w0,
            data,
        ) && z_gamma(data, w0.st()) == z_gamma_from(data, w@.st(), value >> i, (k - i) as nat) by {
            assert(bitio::agrees(wb, data));
            assert(bitio::agrees(wa, data));
            assert(z_gamma_from(data, wa.st(), value >> i0, (k - i0) as nat) == z_gamma_from(
                data,
                w@.st(),
                value >> i,
                (k - i) as nat,
            ));
        }
    }
    let ghost wa = w@;
    assert(value >> 0u32 == value) by (bit_vector);
    write_z_bit(w, false);
    assert forall|data: Seq<u8>| #[trigger] bitio::agrees(w@, data) implies bitio::agrees(w0, data)
        && z_gamma(data, w0.st()) == Some((value, w@.st())) by {
        assert(bitio::agrees(wa, data));
    }
}

proof fn lemma_nine_bits(v: u32, k: u32)
    by (bit_vector)
    requires
        v <= 256,
        k <= 31,
        v >> k == 1u32,
    ensures
        k <= 8,
{
}

proof fn lemma_z_shift(v: u32, i: u32)
    by (bit_vector)
    requires
        i < 31,
        v <= 256,
    ensures
        ((v >> ((i + 1) as u32)) << 1u32) | ((v >> i) & 1u32) == v >> i,
        ((v >> i) & 1u32) == 0u32 || ((v >> i) & 1u32) == 1u32,
        v >> i <= 256,
{
}

/// Last offset before token `k`.
pub open spec fn z_last(toks: Seq<ZTok>, k: int) -> int
    decreases k,
{
    if k <= 0 {
        1
    } else if toks[k - 1].off == 0 {
        z_last(toks, k - 1)
    } else {
        toks[k - 1].off as int
    }
}

/// Token `k` repeats the last offset.
pub open spec fn z_is_rep(toks: Seq<ZTok>, k: int) -> bool {
    k > 0 && toks[k - 1].off == 0 && toks[k].off == z_last(toks, k)
}

/// Bits of token `k`.
pub open spec fn z_tok_bits(toks: Seq<ZTok>, k: int) -> int {
    let t = toks[k];
    let sel = if k > 0 {
        1int
    } else {
        0int
    };
    if t.off == 0 {
        sel + bitio::gamma_len(t.len as nat) + 8 * t.len
    } else if z_is_rep(toks, k) {
        sel + bitio::gamma_len(t.len as nat)
    } else {
        sel + bitio::gamma_len(((t.off - 1) / 128 + 1) as nat) + 7 + bitio::gamma_len(
            if t.len == 1 {
                256
            } else {
                (t.len - 1) as nat
            },
        )
    }
}

pub open spec fn z_bits(toks: Seq<ZTok>, k: int) -> int
    decreases k,
{
    if k <= 0 {
        0
    } else {
        z_bits(toks, k - 1) + z_tok_bits(toks, k - 1)
    }
}

/// What comes before token `k`.
pub open spec fn z_phase_at(toks: Seq<ZTok>, k: int) -> ZPhase {
    if k <= 0 {
        ZPhase::Lit
    } else if toks[k - 1].off == 0 {
        ZPhase::AfterLit
    } else {
        ZPhase::AfterMatch
    }
}

/// The decoder before token `k`.
pub open spec fn z_at(input: Seq<u8>, toks: Seq<ZTok>, k: int, s: BitPos, gap: int) -> ZState {
    ZState {
        s,
        off: z_last(toks, k) - 1,
        out: input.take(z_pos(toks, k)),
        ph: z_phase_at(toks, k),
        gap,
    }
}

/// What is written for token `k`: a bit for its kind, where that is open, and its
/// code. A match of one byte has the length code 256.
pub open spec fn put_tok(w: bitio::BitOut, input: Seq<u8>, toks: Seq<ZTok>, k: int) -> bitio::BitOut {
    let t = toks[k];
    if t.off == 0 {
        let a = if k > 0 {
            bitio::put_bit(w, false)
        } else {
            w
        };
        zx::put_literals(
            bitio::put_gamma(a, t.len, true, false),
            input,
            z_pos(toks, k),
            t.len as int,
        )
    } else if toks[k - 1].off == 0 && t.off == z_last(toks, k) {
        bitio::put_gamma(bitio::put_bit(w, false), t.len, true, false)
    } else {
        let x = (t.off - 1) as u32;
        let head = bitio::put_gamma(
            bitio::put_bit(w, true),
            (x / 128 + 1) as u32,
            true,
            false,
        );
        bitio::put_gamma(
            bitio::put_byte_bt(head, ((x % 128) as u8) << 1u8),
            if t.len == 1 {
                256
            } else {
                (t.len - 1) as u32
            },
            true,
            false,
        )
    }
}

/// The first `k` tokens.
pub open spec fn put_toks(input: Seq<u8>, toks: Seq<ZTok>, k: int) -> bitio::BitOut
    decreases k,
{
    if k <= 0 {
        bitio::BitOut { bytes: Seq::<u8>::empty(), bpos: 0, left: 0, bt: false }
    } else {
        put_tok(put_toks(input, toks, k - 1), input, toks, k - 1)
    }
}

/// The bytes of the tokens and the end marker.
pub open spec fn toks_bytes(input: Seq<u8>, toks: Seq<ZTok>) -> Seq<u8> {
    bitio::put_gamma(
        bitio::put_bit(put_toks(input, toks, toks.len() as int), true),
        256,
        true,
        false,
    ).bytes
}

/// Writes token `k` and says where the decoder is then.
#[verifier::rlimit(60)]
fn emit_tok(w: &mut BitWriter, input: &[u8], toks: &Vec<ZTok>, k: usize, pos: usize, last: u32, Ghost(
    gap,
): Ghost<int>) -> (r: Ghost<(int, nat)>)
    requires
        old(w)@.wf(),
        !old(w)@.bt,
        z_toks_ok(input@, toks@),
        k < toks@.len(),
        pos == z_pos(toks@, k as int),
        last == z_last(toks@, k as int),
        input@.len() <= usize::MAX,
    ensures
        final(w)@.wf(),
        !final(w)@.bt,
        final(w)@ == put_tok(old(w)@, input@, toks@, k as int),
        final(w)@.nbits() == old(w)@.nbits() + z_tok_bits(toks@, k as int),
        forall|data: Seq<u8>| #[trigger]
            bitio::agrees(final(w)@, data) && data.len() <= usize::MAX ==> bitio::agrees(
                old(w)@,
                data,
            ) && z_steps(
                data,
                z_at(input@, toks@, k as int, old(w)@.st(), gap),
                z_at(input@, toks@, k + 1, final(w)@.st(), r@.0),
                r@.1,
            ),
{
    let t: ZTok = toks[k];
    let ghost w0 = w@;
    let ghost gap1 = zx::max_of(gap, pos - w0.st().pos);
    let ghost a = z_at(input@, toks@, k as int, w0.st(), gap);
    proof {
        assert(z_tok_ok(input@, toks@, k as int));
        reveal_with_fuel(z_steps, 3);
    }
    if t.off == 0 {
        if k > 0 {
            write_z_bit(w, false);
        }
        let ghost w1 = w@;
        let ghost g = zx::max_of(gap, pos - w1.st().pos);
        let ghost a1 = ZState { s: w1.st(), ph: ZPhase::Lit, ..a };
        write_z_gamma(w, t.len);
        let ghost w2 = w@;
        write_bytes(w, input, pos, t.len as usize);
        let ghost b = z_at(input@, toks@, k + 1, w@.st(), g);
        assert forall|data: Seq<u8>| #[trigger] bitio::agrees(w@, data) && data.len() <= usize::MAX
            implies bitio::agrees(w0, data) && z_steps(
            data,
            a,
            b,
            if k > 0 {
                2
            } else {
                1
            },
        ) by {
            assert(bitio::agrees(w2, data));
            assert(bitio::agrees(w1, data));
            if k > 0 {
                assert(z_step(data, a) == ZStep::Next(a1));
            } else {
                assert(a == a1);
            }
            assert(input@.take(pos as int) + data.subrange(w2.st().pos, w2.st().pos + t.len)
                =~= input@.take(pos + t.len));
            assert(z_step(data, a1) == ZStep::Next(b));
        }
        Ghost((g, if k > 0 {
            2
        } else {
            1
        }))
    } else {
        let after_lit: bool = toks[k - 1].off == 0;
        proof {
            lz::lemma_lz_copy_match(input@, pos as int, t.off as int, t.len as int);
        }
        if after_lit && t.off == last {
            write_z_bit(w, false);
            let ghost w1 = w@;
            let ghost g = zx::max_of(gap, pos - w1.st().pos);
            let ghost a1 = ZState { s: w1.st(), ph: ZPhase::Rep, ..a };
            write_z_gamma(w, t.len);
            let ghost b = z_at(input@, toks@, k + 1, w@.st(), g);
            assert forall|data: Seq<u8>| #[trigger]
                bitio::agrees(w@, data) && data.len() <= usize::MAX implies bitio::agrees(w0, data)
                && z_steps(data, a, b, 2) by {
                assert(bitio::agrees(w1, data));
                assert(z_step(data, a) == ZStep::Next(a1));
                assert(z_step(data, a1) == ZStep::Next(b));
            }
            Ghost((g, 2))
        } else {
            write_z_bit(w, true);
            let ghost w1 = w@;
            let ghost g = zx::max_of(gap, pos - w1.st().pos);
            let ghost a1 = ZState { s: w1.st(), ph: ZPhase::New, ..a };
            let x: u32 = t.off - 1;
            let msb: u32 = x / 128 + 1;
            write_z_gamma(w, msb);
            let ghost w2 = w@;
            let low: u8 = (x % 128) as u8;
            proof {
                lemma_low_part(low, low << 1u8);
            }
            w.write_byte(low << 1u8);
            w.set_backtrack();
            let ghost w3 = w@;
            assert(w3 == bitio::put_byte_bt(w2, low << 1u8));
            proof {
                bitio::lemma_put_byte_bt(w2, low << 1u8);
            }
            let code: u32 = if t.len == 1 {
                256
            } else {
                t.len - 1
            };
            write_z_gamma(w, code);
            let ghost b = z_at(input@, toks@, k + 1, w@.st(), g);
            assert forall|data: Seq<u8>| #[trigger]
                bitio::agrees(w@, data) && data.len() <= usize::MAX implies bitio::agrees(w0, data)
                && z_steps(data, a, b, 2) by {
                assert(bitio::agrees(w3, data));
                assert(bitio::agrees(w2, data));
                assert(bitio::agrees(w1, data));
                let s1 = w2.st();
                let byte = bitio::get_byte(data, s1).0;
                lemma_low_part(low, byte);
                assert(byte == data[s1.pos]);
                assert(w3.st() == (BitPos { pos: s1.pos + 1, bt: true, ..s1 }));
                assert(z_step(data, a) == ZStep::Next(a1));
                assert((msb - 1) * 128 + (byte >> 1u8) == t.off - 1);
                assert(z_wrap(code + 1) == t.len);
                assert(z_step(data, a1) == ZStep::Next(b));
            }
            Ghost((g, 2))
        }
    }
}

proof fn lemma_low_part(l: u8, b: u8)
    by (bit_vector)
    requires
        l < 128,
    ensures
        (l << 1u8) & 1u8 == 0u8,
        b >> 1u8 == (l << 1u8) >> 1u8 ==> b >> 1u8 == l,
{
}

/// Copies `len` bytes of the input to the stream.
fn write_bytes(w: &mut BitWriter, input: &[u8], start: usize, len: usize)
    requires
        old(w)@.wf(),
        !old(w)@.bt,
        start + len <= input@.len(),
    ensures
        final(w)@.wf(),
        !final(w)@.bt,
        final(w)@ == zx::put_literals(old(w)@, input@, start as int, len as int),
        final(w)@.nbits() == old(w)@.nbits() + 8 * len,
        final(w)@.st() == (BitPos { pos: old(w)@.st().pos + len, ..old(w)@.st() }),
        forall|data: Seq<u8>| #[trigger]
            bitio::agrees(final(w)@, data) ==> bitio::agrees(old(w)@, data) && old(w)@.st().pos + len
                <= data.len() && data.subrange(old(w)@.st().pos, old(w)@.st().pos + len)
                == input@.subrange(start as int, start + len),
{
    let n: usize = input.len();
    let ghost w0 = w@;
    let ghost p = w0.st().pos;
    let mut i: usize = 0;
    while i < len
        invariant
            n == input@.len(),
            i <= len,
            start + len <= n,
            w@.wf(),
            !w@.bt,
            w@.nbits() == w0.nbits() + 8 * i,
            w@ == zx::put_literals(w0, input@, start as int, i as int),
            p == w0.st().pos,
            w@.st() == (BitPos { pos: p + i, ..w0.st() }),
            forall|data: Seq<u8>| #[trigger]
                bitio::agrees(w@, data) ==> bitio::agrees(w0, data) && p + i <= data.len()
                    && (forall|j: int|
                    p <= j < p + i ==> #[trigger] data[j] == input@[start + (j - p)]),
        decreases len - i,
    {
        let ghost w1 = w@;
        w.write_byte(input[start + i]);
        assert forall|data: Seq<u8>| #[trigger] bitio::agrees(w@, data) implies bitio::agrees(
            w0,
            data,
        ) && p + i + 1 <= data.len() && (forall|j: int|
            p <= j < p + i + 1 ==> #[trigger] data[j] == input@[start + (j - p)]) by {
            assert(bitio::agrees(w1, data));
            assert(bitio::get_byte(data, w1.st()).0 == input@[start + i]);
        }
        i += 1;
    }
    assert forall|data: Seq<u8>| #[trigger] bitio::agrees(w@, data) implies data.subrange(p, p + len)
        == input@.subrange(start as int, start + len) by {
        assert(data.subrange(p, p + len) =~= input@.subrange(start as int, start + len));
    }
}

/// `stream` is the forward stream of the tokens of the stock parse: as long as
/// their bits and those of the end marker, and the input comes back.
pub open spec fn zx02_encoded(input: Seq<u8>, toks: Seq<ZTok>, stream: Seq<u8>) -> bool {
    &&& stock_toks(input, toks)
    &&& stream == toks_bytes(input, toks)
    &&& z_toks_ok(input, toks)
    &&& z_pos(toks, toks.len() as int) == input.len()
    &&& stream.len() == zx::bytes_for(z_bits(toks, toks.len() as int) + 18)
    &&& zx02_decoded(stream) == input
    &&& exists|s: bitio::BitPos, gap: int, steps: nat, w: bitio::BitOut| #[trigger]
        z_marker_at(input, toks, stream, s, gap, steps, w)
}

/// At `s` the tokens are behind the decoder, and the end marker comes next. Behind
/// it the stream ends, and the bits of its last flag byte that nothing was written
/// to are zero.
pub open spec fn z_marker_at(
    input: Seq<u8>,
    toks: Seq<ZTok>,
    stream: Seq<u8>,
    s: bitio::BitPos,
    gap: int,
    steps: nat,
    w: bitio::BitOut,
) -> bool {
    &&& z_steps(stream, z_start(), z_at(input, toks, toks.len() as int, s, gap), steps)
    &&& z_bit(stream, s) matches Some((b, s1)) && b && z_gamma(stream, s1) == Some((256u32, w.st()))
    &&& w.wf()
    &&& !w.bt
    &&& w.bytes == stream
}

/// Stream of tokens.
fn emit(input: &[u8], toks: &Vec<ZTok>) -> (stream: Vec<u8>)
    requires
        stock_toks(input@, toks@),
        z_toks_ok(input@, toks@),
        z_pos(toks@, toks@.len() as int) == input@.len(),
    ensures
        zx02_encoded(input@, toks@, stream@),
{
    let n: usize = input.len();
    let count: usize = toks.len();
    let mut w: BitWriter = BitWriter::new();
    let mut k: usize = 0;
    let mut pos: usize = 0;
    let mut last: u32 = 1;
    let ghost mut gap = 0int;
    let ghost mut steps = 0nat;
    assert(input@.take(0) =~= Seq::<u8>::empty());
    while k < count
        invariant
            n == input@.len(),
            count == toks@.len(),
            k <= count,
            stock_toks(input@, toks@),
            z_toks_ok(input@, toks@),
            z_pos(toks@, count as int) == n,
            pos == z_pos(toks@, k as int),
            last == z_last(toks@, k as int),
            w@.wf(),
            !w@.bt,
            w@.nbits() == z_bits(toks@, k as int),
            w@ == put_toks(input@, toks@, k as int),
            forall|data: Seq<u8>| #[trigger]
                bitio::agrees(w@, data) && data.len() <= usize::MAX ==> z_steps(
                    data,
                    z_start(),
                    z_at(input@, toks@, k as int, w@.st(), gap),
                    steps,
                ),
        decreases count - k,
    {
        let ghost w0 = w@;
        let t: ZTok = toks[k];
        proof {
            assert(z_tok_ok(input@, toks@, k as int));
        }
        let r = emit_tok(&mut w, input, toks, k, pos, last, Ghost(gap));
        let ghost g0 = gap;
        let ghost s0 = steps;
        proof {
            gap = r@.0;
            steps = steps + r@.1;
        }
        assert forall|data: Seq<u8>| #[trigger] bitio::agrees(w@, data) && data.len() <= usize::MAX
            implies z_steps(
            data,
            z_start(),
            z_at(input@, toks@, k + 1, w@.st(), gap),
            steps,
        ) by {
            assert(bitio::agrees(w0, data));
            lemma_z_steps_then(
                data,
                z_start(),
                z_at(input@, toks@, k as int, w0.st(), g0),
                z_at(input@, toks@, k + 1, w@.st(), gap),
                s0,
                r@.1,
            );
        }
        if t.off != 0 {
            last = t.off;
        }
        pos += t.len as usize;
        k += 1;
    }
    let ghost w0 = w@;
    write_z_bit(&mut w, true);
    let ghost w1 = w@;
    write_z_gamma(&mut w, 256);
    let ghost w2 = w@;
    let stream: Vec<u8> = w.finish();
    proof {
        let data = stream@;
        assert(bitio::agrees(w2, data));
        assert(bitio::agrees(w1, data));
        assert(bitio::agrees(w0, data));
        let a = z_at(input@, toks@, count as int, w0.st(), gap);
        let b = ZState { s: w1.st(), ph: ZPhase::New, ..a };
        lemma_z_steps_run(data, z_start(), a, steps, z_fuel(data));
        assert(z_step(data, a) == ZStep::Next(b));
        lemma_z_step(data, a);
        assert(z_step(data, b) is Stop);
        assert(input@.take(n as int) =~= input@);
        let f = (z_fuel(data) - steps) as nat;
        assert(bits_left(data, b.s) >= 0);
        assert(f >= 2);
        assert(z_run(data, a, f) == z_run(data, b, (f - 1) as nat));
        assert(z_run(data, b, (f - 1) as nat).0 == input@);
        assert(bitio::floor_log2(256) == 8) by {
            reveal_with_fuel(bitio::floor_log2, 10);
        }
        assert(z_marker_at(input@, toks@, data, w0.st(), gap, steps, w2));
    }
    stream
}

/// A stream of the input.
pub open spec fn zx02_packed(input: Seq<u8>, stream: Seq<u8>) -> bool {
    if input.len() == 0 {
        stream.len() == 0
    } else {
        exists|toks: Seq<ZTok>| #[trigger] zx02_encoded(input, toks, stream)
    }
}

/// What is packed comes back.
pub proof fn lemma_zx02_roundtrip(input: Seq<u8>, stream: Seq<u8>)
    requires
        zx02_packed(input, stream),
    ensures
        zx02_decoded(stream) == input,
{
    if input.len() == 0 {
        assert(z_gamma(stream, bitio::bit_start()) is None);
        assert(z_step(stream, z_start()) is Stop);
        assert(zx02_decoded(stream) =~= input);
    }
}

/// Two streams of one input, of whatever level, are the same.
pub proof fn lemma_one_stream(input: Seq<u8>, a: Seq<u8>, b: Seq<u8>)
    requires
        zx02_packed(input, a),
        zx02_packed(input, b),
    ensures
        a == b,
{
    if input.len() == 0 {
        assert(a =~= b);
    } else {
        let c = choose|toks: Seq<ZTok>| #[trigger] zx02_encoded(input, toks, a);
        let d = choose|toks: Seq<ZTok>| #[trigger] zx02_encoded(input, toks, b);
        lemma_stock_toks_is_one(input, c, d);
    }
}

/// The backward stream is the forward stream of the reversed input, turned round.
pub proof fn lemma_backward_is_mirrored(input: Seq<u8>, back: Seq<u8>, fwd: Seq<u8>)
    requires
        zx02_packed(z_order(input, true), z_order(back, true)),
        zx02_packed(input.reverse(), fwd),
    ensures
        back == fwd.reverse(),
{
    lemma_one_stream(input.reverse(), back.reverse(), fwd);
    lz::lemma_reverse_twice(back);
}

/// Forward stream.
pub fn compress_zx02(input: &[u8]) -> (stream: Vec<u8>)
    requires
        input@.len() <= 0x3fff_ffff,
    ensures
        zx02_packed(input@, stream@),
        zx02_decoded(stream@) == input@,
{
    if input.len() == 0 {
        let stream: Vec<u8> = Vec::new();
        proof {
            lemma_zx02_roundtrip(input@, stream@);
        }
        return stream;
    }
    let best: Vec<(u32, u32)> = optimize_blocks(input, MAX_OFFSET_ZX02, true);
    let toks: Vec<ZTok> = tokens_from(input, &best);
    assert(stock_toks(input@, toks@));
    emit(input, &toks)
}

/// Backward stream: the forward stream of the reversed input, turned round.
pub fn compress_zx02_backward(input: &[u8]) -> (stream: Vec<u8>)
    requires
        input@.len() <= 0x3fff_ffff,
    ensures
        zx02_packed(input@.reverse(), stream@.reverse()),
        zx02_decoded(stream@.reverse()).reverse() == input@,
{
    let rev: Vec<u8> = reversed(input);
    let out: Vec<u8> = compress_zx02(rev.as_slice());
    proof {
        lz::lemma_reverse_twice(input@);
        lz::lemma_reverse_twice(out@);
    }
    reversed(out.as_slice())
}

/// Compresses forward or backward. Every level gives the same.
pub fn compress(input: &[u8], level: u8, backward: bool) -> (stream: Vec<u8>)
    requires
        input@.len() <= 0x3fff_ffff,
    ensures
        zx02_packed(z_order(input@, backward), z_order(stream@, backward)),
        z_order(zx02_decoded(z_order(stream@, backward)), backward) == input@,
{
    if backward {
        compress_zx02_backward(input)
    } else {
        compress_zx02(input)
    }
}

} // verus!
