//! Tokens of a PuCrunch stream as bits. A token starts with the escape value,
//! or else is a literal byte whose top bits differ from it. Numbers are in a
//! bounded Elias gamma code, most significant bit first.
use crate::bitio;
use crate::bitio::BitPos;
use crate::lz;
use crate::lz::copy_match;
use crate::zx;
use crate::zx02;
use vstd::arithmetic::power2::{lemma2_to64, lemma_pow2_unfold, pow2};
use crate::text;
use crate::text::push_decimal;
use vstd::prelude::*;

verus! {

/// Gamma codes that are written have at most this many leading ones.
pub const MAX_GAMMA: u32 = 7;

/// Largest value of a gamma code.
pub const VALUE_MAX: u32 = 255;

/// The gamma value in the place of a high offset that marks the end.
pub const SENTINEL: u32 = 255;

/// Longest match.
pub const MAX_LZ_LEN: usize = 256;

/// Runs of up to this many bytes have the short code.
pub const SHORT_RLE_LIMIT: usize = 128;

/// Longest run of one token.
pub const MAX_RLE_LEN: usize = 32256;

/// What can be wrong with a stream or with its container.
#[derive(Clone, Copy, PartialEq, Eq, Structural, Debug)]
pub enum PuError {
    /// The bits end before the end marker.
    Overrun,
    /// A match of two bytes reaches back before the output.
    ShortMatchUnderrun,
    /// A match reaches back before the output.
    MatchUnderrun,
    /// The code of a run's byte is beyond the table.
    RankBeyondTable { code: u32, len: usize },
    /// The code of a run's byte is above 31.
    BadByteCode { byte_code: u32 },
    /// A match with a difference, which is not in use.
    DeltaMatch,
    /// The output would not fit.
    TooLong,
    ShortHeader,
    BadMagic,
    ZeroMaxGamma,
    EscBits { bits: u32 },
    MaxGamma { max: u32 },
    ShortRleLimit,
    ExtraBits { extra: u32 },
    RleUsed { used: usize },
    ShortTable,
    ShortContainer,
    LitBits,
}

/// Text around a number.
fn around(before: &str, v: usize, after: &str) -> (s: String)
    ensures
        s@ == before@ + text::decimal(v as int) + after@,
{
    let mut s: String = before.to_owned();
    push_decimal(&mut s, v);
    s.append(after);
    s
}

impl PuError {
    /// The error in words.
    pub open spec fn words(self) -> Seq<char> {
        match self {
            PuError::Overrun => "bitstream overrun"@,
            PuError::ShortMatchUnderrun => "LZ2 distance underrun"@,
            PuError::MatchUnderrun => "LZ distance underrun"@,
            PuError::DeltaMatch => "delta-LZ token (unsupported by this decoder)"@,
            PuError::TooLong => "output too long"@,
            PuError::ShortHeader => "file too short for a pucrunch header"@,
            PuError::BadMagic => "bad magic (not a pucrunch file)"@,
            PuError::ZeroMaxGamma => "maxGammaPlusOne 0 out of range"@,
            PuError::ShortRleLimit => "shortRleLimit does not match maxGamma"@,
            PuError::ShortTable => "file too short for the RLE table"@,
            PuError::ShortContainer => "container too short"@,
            PuError::LitBits => "litBits field does not match escBits"@,
            PuError::BadByteCode { byte_code } => "invalid RLE byte code "@ + text::decimal(byte_code as int) + ""@,
            PuError::EscBits { bits } => "escBits "@ + text::decimal(bits as int) + " out of range"@,
            PuError::MaxGamma { max } => "maxGamma "@ + text::decimal(max as int) + " out of range"@,
            PuError::ExtraBits { extra } => "extraLZPosBits "@ + text::decimal(extra as int) + " out of range"@,
            PuError::RleUsed { used } => "rleUsed "@ + text::decimal(used as int) + " out of range"@,
            PuError::RankBeyondTable { code, len } => "RLE rank "@ + text::decimal(code as int)
                + " beyond table ("@ + text::decimal(len as int) + ")"@,
        }
    }

    pub fn message(&self) -> (s: String)
        ensures
            s@ == self.words(),
    {
        match self {
            PuError::Overrun => "bitstream overrun".to_owned(),
            PuError::ShortMatchUnderrun => "LZ2 distance underrun".to_owned(),
            PuError::MatchUnderrun => "LZ distance underrun".to_owned(),
            PuError::DeltaMatch => "delta-LZ token (unsupported by this decoder)".to_owned(),
            PuError::TooLong => "output too long".to_owned(),
            PuError::ShortHeader => "file too short for a pucrunch header".to_owned(),
            PuError::BadMagic => "bad magic (not a pucrunch file)".to_owned(),
            PuError::ZeroMaxGamma => "maxGammaPlusOne 0 out of range".to_owned(),
            PuError::ShortRleLimit => "shortRleLimit does not match maxGamma".to_owned(),
            PuError::ShortTable => "file too short for the RLE table".to_owned(),
            PuError::ShortContainer => "container too short".to_owned(),
            PuError::LitBits => "litBits field does not match escBits".to_owned(),
            PuError::BadByteCode { byte_code } => around("invalid RLE byte code ", *byte_code as usize, ""),
            PuError::EscBits { bits } => around("escBits ", *bits as usize, " out of range"),
            PuError::MaxGamma { max } => around("maxGamma ", *max as usize, " out of range"),
            PuError::ExtraBits { extra } => around("extraLZPosBits ", *extra as usize, " out of range"),
            PuError::RleUsed { used } => around("rleUsed ", *used, " out of range"),
            PuError::RankBeyondTable { code, len } => {
                let mut s: String = around("RLE rank ", *code as usize, " beyond table (");
                push_decimal(&mut s, *len);
                s.append(")");
                s
            },
        }
    }
}

// ---------------------------------------------------------------------------
// Bits
// ---------------------------------------------------------------------------
/// Bits read before a place.
pub open spec fn bit_offset(s: BitPos) -> int {
    8 * s.pos - s.left
}

/// `count` bits as a number, `acc` being those before them.
pub open spec fn pu_bits_from(data: Seq<u8>, s: BitPos, acc: nat, count: nat) -> Option<(nat, BitPos)>
    decreases count,
{
    if count == 0 {
        Some((acc, s))
    } else {
        match zx02::z_bit(data, s) {
            None => None,
            Some((b, s1)) => pu_bits_from(
                data,
                s1,
                2 * acc + if b {
                    1nat
                } else {
                    0nat
                },
                (count - 1) as nat,
            ),
        }
    }
}

pub open spec fn pu_bits(data: Seq<u8>, s: BitPos, count: nat) -> Option<(nat, BitPos)> {
    pu_bits_from(data, s, 0, count)
}

/// Ones up to a zero, or up to `max` of them; `n` before them.
pub open spec fn pu_ones(data: Seq<u8>, s: BitPos, n: nat, max: nat) -> Option<(nat, BitPos)>
    decreases max - n,
{
    if n >= max {
        Some((n, s))
    } else {
        match zx02::z_bit(data, s) {
            None => None,
            Some((b, s1)) => if b {
                pu_ones(data, s1, n + 1, max)
            } else {
                Some((n, s1))
            },
        }
    }
}

/// A gamma code: ones for the number of bits behind the leading one, and those
/// bits.
pub open spec fn pu_gamma(data: Seq<u8>, s: BitPos, max: nat) -> Option<(nat, BitPos)> {
    match pu_ones(data, s, 0, max) {
        None => None,
        Some((n, s1)) => pu_bits_from(data, s1, 1, n),
    }
}

/// Bits of the gamma code of `v`.
pub open spec fn pu_gamma_len(v: nat) -> nat {
    let n = bitio::floor_log2(v);
    if n < 7 {
        2 * n + 1
    } else {
        2 * n
    }
}

/// Bits of the gamma code of a value.
pub fn gamma_cost(v: u32) -> (bits: u32)
    requires
        1 <= v <= VALUE_MAX,
    ensures
        bits == pu_gamma_len(v as nat),
        bits <= 14,
{
    proof {
        bitio::lemma_floor_log2_lz(v);
        lemma_eight_bits(v, bitio::floor_log2(v as nat) as u32);
    }
    let n: u32 = 31 - v.leading_zeros();
    if n < MAX_GAMMA {
        2 * n + 1
    } else {
        2 * n
    }
}

proof fn lemma_eight_bits(v: u32, k: u32)
    by (bit_vector)
    requires
        v <= 255,
        k <= 31,
        v >> k == 1u32,
    ensures
        k <= 7,
        v & (1u32 << k) != 0u32,
        (v & !(1u32 << k)) >> k == 0u32,
        v == (1u32 << k) + (v & !(1u32 << k)),
{
}

proof fn lemma_halve(v: u32, i: u32)
    by (bit_vector)
    requires
        i < 31,
    ensures
        v >> i == 2 * (v >> ((i + 1) as u32)) + ((v >> i) & 1u32),
        (v >> i) & 1u32 == 0u32 || (v >> i) & 1u32 == 1u32,
        v >> 0u32 == v,
{
}

/// The lowest `i` bits of `value`, the highest first.
pub open spec fn put_bits(w: bitio::BitOut, value: u32, i: int) -> bitio::BitOut
    decreases i,
{
    if i <= 0 {
        w
    } else {
        put_bits(bitio::put_bit(w, (value >> ((i - 1) as u32)) & 1 != 0), value, i - 1)
    }
}

/// `n` ones.
pub open spec fn put_ones(w: bitio::BitOut, n: int) -> bitio::BitOut
    decreases n,
{
    if n <= 0 {
        w
    } else {
        bitio::put_bit(put_ones(w, n - 1), true)
    }
}

/// A gamma code.
pub open spec fn put_gamma(w: bitio::BitOut, v: u32) -> bitio::BitOut {
    let n = bitio::floor_log2(v as nat) as int;
    let a = put_ones(w, n);
    put_bits(
        if n < MAX_GAMMA {
            bitio::put_bit(a, false)
        } else {
            a
        },
        v,
        n,
    )
}

/// Bit writer.
pub struct BitWriter {
    w: bitio::BitWriter,
}

impl View for BitWriter {
    type V = bitio::BitOut;

    closed spec fn view(&self) -> bitio::BitOut {
        self.w@
    }
}

impl BitWriter {
    /// Only whole bits, no bytes of their own, have been written.
    pub open spec fn ok(&self) -> bool {
        &&& self@.wf()
        &&& !self@.bt
        &&& self@.nbits() == bit_offset(self@.st())
    }

    pub fn new() -> (w: Self)
        ensures
            w.ok(),
            w@.nbits() == 0,
            w@.st() == bitio::bit_start(),
            w@ == (bitio::BitOut { bytes: Seq::<u8>::empty(), bpos: 0, left: 0, bt: false }),
    {
        BitWriter { w: bitio::BitWriter::new() }
    }

    /// Writes one bit.
    pub fn bit(&mut self, b: u32)
        requires
            old(self).ok(),
        ensures
            final(self).ok(),
            final(self)@.nbits() == old(self)@.nbits() + 1,
            final(self)@ == bitio::put_bit(old(self)@, b != 0),
            forall|data: Seq<u8>| #[trigger]
                bitio::agrees(final(self)@, data) ==> bitio::agrees(old(self)@, data) && zx02::z_bit(
                    data,
                    old(self)@.st(),
                ) == Some((b != 0, final(self)@.st())),
    {
        self.w.write_bit(b);
    }

    /// Writes `value` in `count` bits.
    pub fn bits(&mut self, value: u32, count: u32)
        requires
            old(self).ok(),
            count <= 16,
            value < pow2(count as nat),
        ensures
            final(self).ok(),
            final(self)@.nbits() == old(self)@.nbits() + count,
            final(self)@ == put_bits(old(self)@, value, count as int),
            forall|data: Seq<u8>| #[trigger]
                bitio::agrees(final(self)@, data) ==> bitio::agrees(old(self)@, data) && pu_bits(
                    data,
                    old(self)@.st(),
                    count as nat,
                ) == Some((value as nat, final(self)@.st())),
    {
        proof {
            vstd::bits::lemma_u32_shr_is_div(value, count);
            vstd::arithmetic::div_mod::lemma_basic_div(value as int, pow2(count as nat) as int);
        }
        self.bits_behind(value, count, Ghost(0));
    }

    /// Writes the lowest `count` bits of a number whose other bits are `acc`.
    fn bits_behind(&mut self, value: u32, count: u32, Ghost(acc): Ghost<nat>)
        requires
            old(self).ok(),
            count <= 16,
            value >> count == acc,
        ensures
            final(self).ok(),
            final(self)@.nbits() == old(self)@.nbits() + count,
            final(self)@ == put_bits(old(self)@, value, count as int),
            forall|data: Seq<u8>| #[trigger]
                bitio::agrees(final(self)@, data) ==> bitio::agrees(old(self)@, data)
                    && pu_bits_from(data, old(self)@.st(), acc, count as nat) == Some(
                    (value as nat, final(self)@.st()),
                ),
    {
        let ghost w0 = self@;
        let mut i: u32 = count;
        while i > 0
            invariant
                i <= count <= 16,
                self.ok(),
                self@.nbits() == w0.nbits() + (count - i),
                put_bits(w0, value, count as int) == put_bits(self@, value, i as int),
                w0 == old(self)@,
                value >> count == acc,
                forall|data: Seq<u8>| #[trigger]
                    bitio::agrees(self@, data) ==> bitio::agrees(w0, data) && pu_bits_from(
                        data,
                        w0.st(),
                        acc,
                        count as nat,
                    ) == pu_bits_from(data, self@.st(), (value >> i) as nat, i as nat),
            decreases i,
        {
            let ghost wa = self@;
            let ghost i0 = i;
            i = i - 1;
            proof {
                lemma_halve(value, i);
            }
            self.bit((value >> i) & 1);
            assert forall|data: Seq<u8>| #[trigger] bitio::agrees(self@, data) implies bitio::agrees(
                w0,
                data,
            ) && pu_bits_from(data, w0.st(), acc, count as nat) == pu_bits_from(
                data,
                self@.st(),
                (value >> i) as nat,
                i as nat,
            ) by {
                assert(bitio::agrees(wa, data));
                assert(pu_bits_from(data, wa.st(), (value >> i0) as nat, i0 as nat) == pu_bits_from(
                    data,
                    self@.st(),
                    (value >> i) as nat,
                    i as nat,
                ));
            }
        }
        proof {
            lemma_halve(value, 0);
        }
    }

    /// Writes the gamma code of `v`.
    pub fn gamma(&mut self, v: u32)
        requires
            old(self).ok(),
            1 <= v <= VALUE_MAX,
        ensures
            final(self).ok(),
            final(self)@.nbits() == old(self)@.nbits() + pu_gamma_len(v as nat),
            final(self)@ == put_gamma(old(self)@, v),
            forall|data: Seq<u8>| #[trigger]
                bitio::agrees(final(self)@, data) ==> bitio::agrees(old(self)@, data) && pu_gamma(
                    data,
                    old(self)@.st(),
                    7,
                ) == Some((v as nat, final(self)@.st())),
    {
        let ghost w0 = self@;
        let n: u32 = 31 - v.leading_zeros();
        proof {
            bitio::lemma_floor_log2_lz(v);
            lemma_eight_bits(v, n);
        }
        let mut i: u32 = 0;
        while i < n
            invariant
                i <= n <= 7,
                self.ok(),
                self@.nbits() == w0.nbits() + i,
                self@ == put_ones(w0, i as int),
                forall|data: Seq<u8>| #[trigger]
                    bitio::agrees(self@, data) ==> bitio::agrees(w0, data) && pu_ones(
                        data,
                        w0.st(),
                        0,
                        7,
                    ) == pu_ones(data, self@.st(), i as nat, 7),
            decreases n - i,
        {
            let ghost wa = self@;
            self.bit(1);
            i += 1;
            assert forall|data: Seq<u8>| #[trigger] bitio::agrees(self@, data) implies bitio::agrees(
                w0,
                data,
            ) && pu_ones(data, w0.st(), 0, 7) == pu_ones(data, self@.st(), i as nat, 7) by {
                assert(bitio::agrees(wa, data));
            }
        }
        let ghost wa = self@;
        if n < MAX_GAMMA {
            self.bit(0);
        }
        let ghost wb = self@;
        self.bits_behind(v, n, Ghost(1));
        assert forall|data: Seq<u8>| #[trigger] bitio::agrees(self@, data) implies bitio::agrees(
            w0,
            data,
        ) && pu_gamma(data, w0.st(), 7) == Some((v as nat, self@.st())) by {
            assert(bitio::agrees(wb, data));
            assert(bitio::agrees(wa, data));
            assert(pu_ones(data, wa.st(), n as nat, 7) == Some((n as nat, wb.st())));
        }
    }

    /// Bits written.
    pub fn bit_len(&self) -> (n: usize)
        requires
            self.ok(),
            self@.nbits() <= usize::MAX,
        ensures
            n == self@.nbits(),
    {
        let whole: usize = self.w.len_bytes();
        let open: u8 = self.w.bits_open();
        if whole == 0 {
            return 0;
        }
        (whole - 1) * 8 + (8 - open as usize)
    }

    /// Bytes that are full.
    pub fn byte_offset(&self) -> (n: usize)
        requires
            self.ok(),
        ensures
            n == self@.nbits() / 8,
    {
        let whole: usize = self.w.len_bytes();
        let open: u8 = self.w.bits_open();
        if open > 0 {
            whole - 1
        } else {
            whole
        }
    }

    /// The bytes; the bits that are left of the last one are zero.
    pub fn finish(self) -> (out: Vec<u8>)
        requires
            self.ok(),
        ensures
            bitio::agrees(self@, out@),
            out@ == self@.bytes,
            out@.len() == zx::bytes_for(self@.nbits()),
    {
        self.w.finish()
    }
}

/// Bit reader.
pub struct BitReader<'a> {
    r: bitio::BitReader<'a>,
    len: usize,
    left: u8,
}

impl<'a> BitReader<'a> {
    pub closed spec fn source(&self) -> Seq<u8> {
        self.r.source()
    }

    pub closed spec fn st(&self) -> BitPos {
        self.r.st()
    }

    pub closed spec fn wf(&self) -> bool {
        &&& self.r.wf()
        &&& self.len == self.r.source().len()
        &&& zx02::z_wf(self.r.source(), self.r.st())
        &&& self.left == self.r.st().left
        &&& self.left > 0 ==> self.r.st().pos > 0
        &&& !self.r.st().bt
    }

    pub fn new(bytes: &'a [u8]) -> (r: Self)
        ensures
            r.wf(),
            r.source() == bytes@,
            r.st() == bitio::bit_start(),
    {
        BitReader { r: bitio::BitReader::new(bytes), len: bytes.len(), left: 0 }
    }

    /// Bytes that have been read whole.
    pub fn byte_offset(&self) -> (n: usize)
        requires
            self.wf(),
        ensures
            n == bit_offset(self.st()) / 8,
            n <= self.source().len(),
    {
        let p: usize = self.r.position();
        if self.left > 0 {
            p - 1
        } else {
            p
        }
    }

    pub proof fn lemma_place(&self)
        requires
            self.wf(),
        ensures
            zx02::z_wf(self.source(), self.st()),
            !self.st().bt,
            self.source().len() <= usize::MAX,
    {
    }

    /// The next bit.
    pub fn bit(&mut self) -> (b: Result<u32, PuError>)
        requires
            old(self).wf(),
        ensures
            final(self).wf(),
            final(self).source() == old(self).source(),
            match b {
                Ok(v) => v <= 1 && zx02::z_bit(old(self).source(), old(self).st()) == Some(
                    (v == 1, final(self).st()),
                ),
                Err(e) => e == PuError::Overrun && zx02::z_bit(old(self).source(), old(self).st()) is None,
            },
    {
        if self.left == 0 && self.r.position() >= self.len {
            return Err(PuError::Overrun);
        }
        let b: u32 = self.r.read_bit();
        if self.left == 0 {
            self.left = 7;
        } else {
            self.left = self.left - 1;
        }
        Ok(b)
    }

    /// `count` bits as a number.
    pub fn bits(&mut self, count: u32) -> (v: Result<u32, PuError>)
        requires
            old(self).wf(),
            count <= 16,
        ensures
            final(self).wf(),
            final(self).source() == old(self).source(),
            match v {
                Ok(n) => pu_bits(old(self).source(), old(self).st(), count as nat) == Some(
                    (n as nat, final(self).st()),
                ) && n < pow2(count as nat),
                Err(e) => e == PuError::Overrun && pu_bits(
                    old(self).source(),
                    old(self).st(),
                    count as nat,
                ) is None,
            },
    {
        proof {
            lemma2_to64();
        }
        self.bits_after(0, count, Ghost(0))
    }

    /// The number `acc` with `count` more bits; it has `have` bits.
    fn bits_after(&mut self, acc: u32, count: u32, Ghost(have): Ghost<nat>) -> (v: Result<
        u32,
        PuError,
    >)
        requires
            old(self).wf(),
            have + count <= 16,
            acc < pow2(have),
        ensures
            final(self).wf(),
            final(self).source() == old(self).source(),
            match v {
                Ok(n) => pu_bits_from(old(self).source(), old(self).st(), acc as nat, count as nat)
                    == Some((n as nat, final(self).st())) && n < pow2((have + count) as nat) && (acc
                    >= 1 ==> n >= 1),
                Err(e) => e == PuError::Overrun && pu_bits_from(
                    old(self).source(),
                    old(self).st(),
                    acc as nat,
                    count as nat,
                ) is None,
            },
    {
        let ghost data = self.source();
        let ghost goal = pu_bits_from(data, self.st(), acc as nat, count as nat);
        let mut v: u32 = acc;
        let mut i: u32 = 0;
        proof {
            lemma_p2_small(have);
        }
        while i < count
            invariant
                i <= count,
                have + count <= 16,
                self.wf(),
                self.source() == data,
                data == old(self).source(),
                goal == pu_bits_from(data, old(self).st(), acc as nat, count as nat),
                v < pow2((have + i) as nat),
                acc >= 1 ==> v >= 1,
                goal == pu_bits_from(data, self.st(), v as nat, (count - i) as nat),
            decreases count - i,
        {
            proof {
                lemma_p2_small((have + i) as nat);
                lemma_pow2_unfold((have + i + 1) as nat);
            }
            let b: u32 = match self.bit() {
                Ok(b) => b,
                Err(e) => {
                    return Err(e);
                },
            };
            v = 2 * v + b;
            i += 1;
        }
        Ok(v)
    }

    /// A gamma code with at most `max_gamma` leading ones.
    pub fn gamma(&mut self, max_gamma: u32) -> (v: Result<u32, PuError>)
        requires
            old(self).wf(),
            max_gamma <= 7,
        ensures
            final(self).wf(),
            final(self).source() == old(self).source(),
            match v {
                Ok(n) => pu_gamma(old(self).source(), old(self).st(), max_gamma as nat) == Some(
                    (n as nat, final(self).st()),
                ) && 1 <= n < pow2((max_gamma + 1) as nat),
                Err(e) => e == PuError::Overrun && pu_gamma(
                    old(self).source(),
                    old(self).st(),
                    max_gamma as nat,
                ) is None,
            },
    {
        let ghost data = self.source();
        let ghost goal = pu_ones(data, self.st(), 0, max_gamma as nat);
        let mut n: u32 = 0;
        let mut more: bool = true;
        while n < max_gamma && more
            invariant
                n <= max_gamma <= 7,
                self.wf(),
                self.source() == data,
                data == old(self).source(),
                goal == pu_ones(data, old(self).st(), 0, max_gamma as nat),
                more ==> goal == pu_ones(data, self.st(), n as nat, max_gamma as nat),
                !more ==> goal == Some((n as nat, self.st())),
            decreases (max_gamma - n) + if more {
                1int
            } else {
                0int
            },
        {
            let b: u32 = match self.bit() {
                Ok(b) => b,
                Err(e) => {
                    return Err(e);
                },
            };
            if b == 1 {
                n += 1;
            } else {
                more = false;
            }
        }
        proof {
            lemma2_to64();
            vstd::arithmetic::power2::lemma_pow2_strictly_increases(0, 1);
            if n < max_gamma {
                vstd::arithmetic::power2::lemma_pow2_strictly_increases(
                    (n + 1) as nat,
                    (max_gamma + 1) as nat,
                );
            }
        }
        self.bits_after(1, n, Ghost(1))
    }
}

proof fn lemma_p2_small(k: nat)
    requires
        k <= 16,
    ensures
        1 <= pow2(k) <= 65536,
    decreases k,
{
    lemma2_to64();
    if k > 0 {
        lemma_p2_small((k - 1) as nat);
        lemma_pow2_unfold(k);
    }
    if k < 16 {
        vstd::arithmetic::power2::lemma_pow2_strictly_increases(k, 16);
    }
}

/// Two to the power `k`.
pub fn two_to(k: u32) -> (p: u32)
    requires
        k <= 16,
    ensures
        p == pow2(k as nat),
        1 <= p <= 65536,
{
    let mut p: u32 = 1;
    let mut i: u32 = 0;
    proof {
        lemma2_to64();
    }
    while i < k
        invariant
            i <= k <= 16,
            p == pow2(i as nat),
        decreases k - i,
    {
        proof {
            lemma_p2_small(i as nat);
            lemma_pow2_unfold((i + 1) as nat);
        }
        p = 2 * p;
        i += 1;
    }
    proof {
        lemma_p2_small(k as nat);
    }
    p
}

// ---------------------------------------------------------------------------
// Tokens
// ---------------------------------------------------------------------------
/// How a stream is coded.
pub struct PuMode {
    pub esc_bits: nat,
    pub max_gamma: nat,
    pub extra: nat,
    pub table: Seq<u8>,
}

impl PuMode {
    pub open spec fn wf(self) -> bool {
        self.esc_bits <= 8 && 5 <= self.max_gamma <= 7 && self.extra <= 4
    }
}

/// The state of a decoder. `gap` is the largest distance of the last byte of a
/// token from the byte of the stream that the token starts in.
pub struct PuState {
    pub s: BitPos,
    pub esc: nat,
    pub out: Seq<u8>,
    pub gap: int,
}

pub enum PuStep {
    Fail(PuError),
    Done,
    Next(PuState),
}

/// Longest output.
pub const MAX_OUTPUT: usize = usize::MAX / 2;

/// The state after a token that made the output `out`.
pub open spec fn pu_put(d: PuState, s: BitPos, esc: nat, out: Seq<u8>) -> PuStep {
    if out.len() > MAX_OUTPUT {
        PuStep::Fail(PuError::TooLong)
    } else {
        PuStep::Next(
            PuState {
                s,
                esc,
                out,
                gap: zx::max_of(d.gap, out.len() - 1 - bit_offset(d.s) / 8),
            },
        )
    }
}

pub open spec fn pu_copy(d: PuState, s: BitPos, dist: int, len: nat, e: PuError) -> PuStep {
    if dist > d.out.len() {
        PuStep::Fail(e)
    } else if d.out.len() + len > MAX_OUTPUT {
        PuStep::Fail(PuError::TooLong)
    } else {
        pu_put(d, s, d.esc, lz::lz_copy(d.out, dist, len))
    }
}

/// The byte with the top bits `top` and the low bits `rest`.
pub open spec fn pu_byte(top: nat, rest: nat, esc_bits: nat) -> u8 {
    ((top * pow2((8 - esc_bits) as nat) + rest) % 256) as u8
}

/// A literal whose top bits are known.
pub open spec fn pu_literal(data: Seq<u8>, m: PuMode, d: PuState, s: BitPos, top: nat, esc: nat) -> PuStep {
    match pu_bits(data, s, (8 - m.esc_bits) as nat) {
        None => PuStep::Fail(PuError::Overrun),
        Some((rest, s1)) => pu_put(d, s1, esc, d.out.push(pu_byte(top, rest, m.esc_bits))),
    }
}

/// Length of a run less one, the first code being `first`.
pub open spec fn pu_run_len(data: Seq<u8>, m: PuMode, s: BitPos, first: nat) -> Option<(nat, BitPos)> {
    let half = pow2(m.max_gamma);
    if first < half {
        Some((first, s))
    } else {
        match pu_bits(data, s, (8 - m.max_gamma) as nat) {
            None => None,
            Some((b, s1)) => match pu_gamma(data, s1, m.max_gamma) {
                None => None,
                Some((h, s2)) => Some(
                    (
                        ((h - 1) * 256 + (first - half) * pow2((8 - m.max_gamma) as nat) + b) as nat,
                        s2,
                    ),
                ),
            },
        }
    }
}

/// `k` times the byte.
pub open spec fn pu_fill(out: Seq<u8>, byte: u8, k: nat) -> Seq<u8> {
    out + Seq::new(k, |i: int| byte)
}

pub open spec fn pu_run_bytes(d: PuState, s: BitPos, byte: u8, n: nat) -> PuStep {
    if d.out.len() + n + 1 > MAX_OUTPUT {
        PuStep::Fail(PuError::TooLong)
    } else {
        pu_put(d, s, d.esc, pu_fill(d.out, byte, (n + 1) as nat))
    }
}

/// Length of a run less one.
pub open spec fn pu_read_run(data: Seq<u8>, m: PuMode, s: BitPos) -> Option<(nat, BitPos)> {
    match pu_gamma(data, s, m.max_gamma) {
        None => None,
        Some((first, s1)) => pu_run_len(data, m, s1, first),
    }
}

/// The byte of a run: its rank in the table, or 16 and its high half, and the
/// low half.
pub open spec fn pu_read_byte(data: Seq<u8>, m: PuMode, s: BitPos) -> Result<(u8, BitPos), PuError> {
    match pu_gamma(data, s, m.max_gamma) {
        None => Err(PuError::Overrun),
        Some((code, s1)) => if code < 16 {
            if code > m.table.len() {
                Err(
                    PuError::RankBeyondTable { code: code as u32, len: m.table.len() as usize },
                )
            } else {
                Ok((m.table[code - 1], s1))
            }
        } else if code > 31 {
            Err(PuError::BadByteCode { byte_code: code as u32 })
        } else {
            match pu_bits(data, s1, 4) {
                None => Err(PuError::Overrun),
                Some((low, s2)) => Ok((((code - 16) * 16 + low) as u8, s2)),
            }
        },
    }
}

pub open spec fn pu_rle(data: Seq<u8>, m: PuMode, d: PuState, s: BitPos) -> PuStep {
    match pu_read_run(data, m, s) {
        None => PuStep::Fail(PuError::Overrun),
        Some((n, s1)) => match pu_read_byte(data, m, s1) {
            Err(e) => PuStep::Fail(e),
            Ok((byte, s2)) => pu_run_bytes(d, s2, byte, n),
        },
    }
}

/// What follows the gamma code 1: a match of two bytes, a literal with a new
/// escape value, or a run.
pub open spec fn pu_special(data: Seq<u8>, m: PuMode, d: PuState, s: BitPos) -> PuStep {
    match zx02::z_bit(data, s) {
        None => PuStep::Fail(PuError::Overrun),
        Some((b, s1)) => if !b {
            match pu_bits(data, s1, 8) {
                None => PuStep::Fail(PuError::Overrun),
                Some((low, s2)) => pu_copy(d, s2, 256 - low, 2, PuError::ShortMatchUnderrun),
            }
        } else {
            match zx02::z_bit(data, s1) {
                None => PuStep::Fail(PuError::Overrun),
                Some((c, s2)) => if c {
                    pu_rle(data, m, d, s2)
                } else {
                    match pu_bits(data, s2, m.esc_bits) {
                        None => PuStep::Fail(PuError::Overrun),
                        Some((esc, s3)) => pu_literal(data, m, d, s3, d.esc, esc),
                    }
                },
            }
        },
    }
}

/// A match of `a + 1` bytes, or the end.
pub open spec fn pu_lz(data: Seq<u8>, m: PuMode, d: PuState, s: BitPos, a: nat) -> PuStep {
    match pu_gamma(data, s, m.max_gamma) {
        None => PuStep::Fail(PuError::Overrun),
        Some((b, s1)) => if b == pow2((m.max_gamma + 1) as nat) - 1 {
            if a == 2 {
                PuStep::Done
            } else {
                PuStep::Fail(PuError::DeltaMatch)
            }
        } else {
            match pu_bits(data, s1, m.extra) {
                None => PuStep::Fail(PuError::Overrun),
                Some((mid, s2)) => match pu_bits(data, s2, 8) {
                    None => PuStep::Fail(PuError::Overrun),
                    Some((low, s3)) => pu_copy(
                        d,
                        s3,
                        ((b - 1) * pow2(m.extra) + mid) * 256 + (255 - low) + 1,
                        (a + 1) as nat,
                        PuError::MatchUnderrun,
                    ),
                },
            }
        },
    }
}

/// One token.
pub open spec fn pu_step(data: Seq<u8>, m: PuMode, d: PuState) -> PuStep {
    match pu_bits(data, d.s, m.esc_bits) {
        None => PuStep::Fail(PuError::Overrun),
        Some((sel, s1)) => if m.esc_bits > 0 && sel != d.esc {
            pu_literal(data, m, d, s1, sel, d.esc)
        } else {
            match pu_gamma(data, s1, m.max_gamma) {
                None => PuStep::Fail(PuError::Overrun),
                Some((a, s2)) => if a == 1 {
                    pu_special(data, m, d, s2)
                } else {
                    pu_lz(data, m, d, s2, a)
                },
            }
        },
    }
}

pub open spec fn pu_run(data: Seq<u8>, m: PuMode, d: PuState, fuel: nat) -> Result<
    (Seq<u8>, int),
    PuError,
>
    decreases fuel,
{
    if fuel == 0 {
        Err(PuError::Overrun)
    } else {
        match pu_step(data, m, d) {
            PuStep::Fail(e) => Err(e),
            PuStep::Done => Ok((d.out, d.gap)),
            PuStep::Next(e) => pu_run(data, m, e, (fuel - 1) as nat),
        }
    }
}

/// The gap before the first byte.
pub const NO_GAP: i64 = i64::MIN;

pub open spec fn pu_start(esc: nat) -> PuState {
    PuState { s: bitio::bit_start(), esc, out: Seq::empty(), gap: NO_GAP as int }
}

/// Output and gap of a stream of bits.
pub open spec fn pu_stream(data: Seq<u8>, m: PuMode, start_esc: nat) -> Result<
    (Seq<u8>, int),
    PuError,
> {
    pu_run(data, m, pu_start(start_esc), zx02::z_fuel(data))
}

pub open spec fn pu_wf(data: Seq<u8>, s: BitPos) -> bool {
    zx02::z_wf(data, s) && !s.bt
}

proof fn lemma_bits_left(data: Seq<u8>, s: BitPos, acc: nat, count: nat)
    requires
        pu_wf(data, s),
        data.len() <= usize::MAX,
    ensures
        pu_bits_from(data, s, acc, count) matches Some((_, t)) ==> pu_wf(data, t) && zx02::bits_left(
            data,
            t,
        ) == zx02::bits_left(data, s) - count,
    decreases count,
{
    if count > 0 {
        zx02::lemma_z_bit(data, s);
        if let Some((b, s1)) = zx02::z_bit(data, s) {
            lemma_bits_left(
                data,
                s1,
                2 * acc + if b {
                    1nat
                } else {
                    0nat
                },
                (count - 1) as nat,
            );
        }
    }
}

proof fn lemma_ones_left(data: Seq<u8>, s: BitPos, n: nat, max: nat)
    requires
        pu_wf(data, s),
        data.len() <= usize::MAX,
    ensures
        pu_ones(data, s, n, max) matches Some((_, t)) ==> pu_wf(data, t) && zx02::bits_left(data, t)
            <= zx02::bits_left(data, s) && (n < max ==> zx02::bits_left(data, t) < zx02::bits_left(
            data,
            s,
        )),
    decreases max - n,
{
    if n < max {
        zx02::lemma_z_bit(data, s);
        if let Some((b, s1)) = zx02::z_bit(data, s) {
            lemma_ones_left(data, s1, n + 1, max);
        }
    }
}

proof fn lemma_gamma_left(data: Seq<u8>, s: BitPos, max: nat)
    requires
        pu_wf(data, s),
        data.len() <= usize::MAX,
        max > 0,
    ensures
        pu_gamma(data, s, max) matches Some((_, t)) ==> pu_wf(data, t) && zx02::bits_left(data, t)
            < zx02::bits_left(data, s),
{
    lemma_ones_left(data, s, 0, max);
    if let Some((n, s1)) = pu_ones(data, s, 0, max) {
        lemma_bits_left(data, s1, 1, n);
    }
}

proof fn lemma_rle_left(data: Seq<u8>, m: PuMode, d: PuState, s: BitPos)
    requires
        pu_wf(data, s),
        data.len() <= usize::MAX,
        m.wf(),
    ensures
        pu_rle(data, m, d, s) matches PuStep::Next(e) ==> pu_wf(data, e.s) && zx02::bits_left(
            data,
            e.s,
        ) < zx02::bits_left(data, s),
{
    let g = m.max_gamma;
    lemma_gamma_left(data, s, g);
    if let Some((first, s1)) = pu_gamma(data, s, g) {
        lemma_bits_left(data, s1, 0, (8 - g) as nat);
        if let Some((b, t1)) = pu_bits(data, s1, (8 - g) as nat) {
            lemma_gamma_left(data, t1, g);
        }
        if let Some((n, s2)) = pu_run_len(data, m, s1, first) {
            lemma_gamma_left(data, s2, g);
            if let Some((code, s3)) = pu_gamma(data, s2, g) {
                lemma_bits_left(data, s3, 0, 4);
            }
        }
    }
}

/// Every token has at least one bit.
pub proof fn lemma_pu_step_left(data: Seq<u8>, m: PuMode, d: PuState)
    requires
        pu_wf(data, d.s),
        data.len() <= usize::MAX,
        m.wf(),
    ensures
        pu_step(data, m, d) matches PuStep::Next(e) ==> pu_wf(data, e.s) && zx02::bits_left(
            data,
            e.s,
        ) < zx02::bits_left(data, d.s),
{
    let g = m.max_gamma;
    let rest = (8 - m.esc_bits) as nat;
    lemma_bits_left(data, d.s, 0, m.esc_bits);
    if let Some((sel, s1)) = pu_bits(data, d.s, m.esc_bits) {
        lemma_bits_left(data, s1, 0, rest);
        lemma_gamma_left(data, s1, g);
        if let Some((a, s2)) = pu_gamma(data, s1, g) {
            zx02::lemma_z_bit(data, s2);
            if let Some((b, s3)) = zx02::z_bit(data, s2) {
                lemma_bits_left(data, s3, 0, 8);
                zx02::lemma_z_bit(data, s3);
                if let Some((c, s4)) = zx02::z_bit(data, s3) {
                    lemma_rle_left(data, m, d, s4);
                    lemma_bits_left(data, s4, 0, m.esc_bits);
                    if let Some((esc, s5)) = pu_bits(data, s4, m.esc_bits) {
                        lemma_bits_left(data, s5, 0, rest);
                    }
                }
            }
            lemma_gamma_left(data, s2, g);
            if let Some((b, s3)) = pu_gamma(data, s2, g) {
                lemma_bits_left(data, s3, 0, m.extra);
                if let Some((mid, s4)) = pu_bits(data, s3, m.extra) {
                    lemma_bits_left(data, s4, 0, 8);
                }
            }
        }
    }
}

// ---------------------------------------------------------------------------
// Decoder
// ---------------------------------------------------------------------------
/// What the container says of a stream.
pub struct StreamParams {
    pub start_esc: u32,
    pub esc_bits: u32,
    pub max_gamma: u32,
    pub extra: u32,
    pub table: Vec<u8>,
}

impl StreamParams {
    pub open spec fn mode(&self) -> PuMode {
        PuMode {
            esc_bits: self.esc_bits as nat,
            max_gamma: self.max_gamma as nat,
            extra: self.extra as nat,
            table: self.table@,
        }
    }
}

/// Top and low bits make a byte.
proof fn lemma_split_byte(e: nat, top: nat, rest: nat)
    requires
        e <= 8,
        rest < pow2((8 - e) as nat),
    ensures
        top < pow2(e) ==> top * pow2((8 - e) as nat) + rest < 256,
        e == 0 ==> (top * pow2((8 - e) as nat) + rest) % 256 == rest,
{
    lemma2_to64();
    let p = pow2((8 - e) as nat);
    let q = pow2(e);
    vstd::arithmetic::power2::lemma_pow2_adds(e, (8 - e) as nat);
    assert(q * p == 256);
    if top < q {
        assert(top * p + rest < q * p) by (nonlinear_arith)
            requires
                top + 1 <= q,
                rest < p,
        ;
    }
    if e == 0 {
        assert(p == 256);
        vstd::arithmetic::div_mod::lemma_mod_multiples_vanish(top as int, rest as int, 256);
    }
}

struct Decoder<'a> {
    r: BitReader<'a>,
    esc: u32,
    out: Vec<u8>,
    gap: i64,
}

impl<'a> Decoder<'a> {
    spec fn state(&self) -> PuState {
        PuState { s: self.r.st(), esc: self.esc as nat, out: self.out@, gap: self.gap as int }
    }

    spec fn wf(&self, data: Seq<u8>) -> bool {
        &&& self.r.wf()
        &&& self.r.source() == data
        &&& self.out@.len() <= MAX_OUTPUT
        &&& self.gap >= NO_GAP
        &&& self.esc < 256
    }

    /// Notes the gap of a token that started in byte `from`.
    fn note(&mut self, from: usize)
        requires
            old(self).r.wf(),
            old(self).out@.len() <= MAX_OUTPUT,
            from <= MAX_OUTPUT,
            old(self).gap >= NO_GAP,
        ensures
            final(self).r == old(self).r,
            final(self).out@ == old(self).out@,
            final(self).esc == old(self).esc,
            final(self).gap == zx::max_of(old(self).gap as int, old(self).out@.len() - 1 - from),
            final(self).gap >= NO_GAP,
    {
        let g: i64 = self.out.len() as i64 - 1 - from as i64;
        if g > self.gap {
            self.gap = g;
        }
    }

    /// The low bits of a literal, and the literal.
    fn literal(&mut self, top: u32, esc: u32, prm: &StreamParams, from: usize, Ghost(d): Ghost<PuState>) -> (r: Result<(), PuError>)
        requires
            old(self).wf(old(self).r.source()),
            prm.mode().wf(),
            top < 256,
            top < pow2(prm.esc_bits as nat) || prm.esc_bits == 0,
            esc < 256,
            from <= MAX_OUTPUT,
            d.esc == old(self).esc,
            d.out == old(self).out@,
            d.gap == old(self).gap,
            from == bit_offset(d.s) / 8,
        ensures
            ({
                let data = old(self).r.source();
                let step = pu_literal(data, prm.mode(), d, old(self).r.st(), top as nat, esc as nat);
                match r {
                    Ok(_) => final(self).wf(data) && step == PuStep::Next(final(self).state()),
                    Err(e) => step == PuStep::Fail(e),
                }
            }),
    {
        let k: u32 = 8 - prm.esc_bits;
        let rest: u32 = match self.r.bits(k) {
            Ok(v) => v,
            Err(e) => {
                return Err(e);
            },
        };
        let p: u32 = two_to(k);
        proof {
            lemma_split_byte(prm.esc_bits as nat, top as nat, rest as nat);
            assert(top * p <= 255 * 65536) by (nonlinear_arith)
                requires
                    top <= 255,
                    p <= 65536,
            ;
        }
        let b: u8 = ((top * p + rest) % 256) as u8;
        if self.out.len() >= MAX_OUTPUT {
            return Err(PuError::TooLong);
        }
        self.out.push(b);
        self.esc = esc;
        self.note(from);
        Ok(())
    }

    fn copy(&mut self, dist: u32, len: u32, e: PuError, from: usize, Ghost(d): Ghost<PuState>) -> (r: Result<(), PuError>)
        requires
            old(self).wf(old(self).r.source()),
            from <= MAX_OUTPUT,
            dist >= 1,
            d.esc == old(self).esc,
            d.out == old(self).out@,
            d.gap == old(self).gap,
            from == bit_offset(d.s) / 8,
        ensures
            ({
                let data = old(self).r.source();
                let step = pu_copy(d, old(self).r.st(), dist as int, len as nat, e);
                match r {
                    Ok(_) => final(self).wf(data) && step == PuStep::Next(final(self).state()),
                    Err(x) => step == PuStep::Fail(x),
                }
            }),
    {
        let n: usize = self.out.len();
        if dist as usize > n {
            return Err(e);
        }
        if len as usize > MAX_OUTPUT || n > MAX_OUTPUT - len as usize {
            return Err(PuError::TooLong);
        }
        copy_match(&mut self.out, dist as usize, len as usize);
        self.note(from);
        Ok(())
    }

    fn run_bytes(&mut self, byte: u8, n: u32, from: usize, Ghost(d): Ghost<PuState>) -> (r: Result<(), PuError>)
        requires
            old(self).wf(old(self).r.source()),
            from <= MAX_OUTPUT,
            n <= 0x1_0000,
            d.esc == old(self).esc,
            d.out == old(self).out@,
            d.gap == old(self).gap,
            from == bit_offset(d.s) / 8,
        ensures
            ({
                let data = old(self).r.source();
                let step = pu_run_bytes(d, old(self).r.st(), byte, n as nat);
                match r {
                    Ok(_) => final(self).wf(data) && step == PuStep::Next(final(self).state()),
                    Err(x) => step == PuStep::Fail(x),
                }
            }),
    {
        let start: usize = self.out.len();
        let len: usize = n as usize + 1;
        if len > MAX_OUTPUT || start > MAX_OUTPUT - len {
            return Err(PuError::TooLong);
        }
        let ghost o = self.out@;
        let mut i: usize = 0;
        while i < len
            invariant
                i <= len,
                self.out@ == pu_fill(o, byte, i as nat),
                self.r == old(self).r,
                self.esc == old(self).esc,
                self.gap == old(self).gap,
            decreases len - i,
        {
            self.out.push(byte);
            i += 1;
            assert(self.out@ =~= pu_fill(o, byte, i as nat));
        }
        self.note(from);
        Ok(())
    }

    fn rle(&mut self, prm: &StreamParams, from: usize, Ghost(d): Ghost<PuState>) -> (r: Result<(), PuError>)
        requires
            old(self).wf(old(self).r.source()),
            prm.mode().wf(),
            from <= MAX_OUTPUT,
            d.esc == old(self).esc,
            d.out == old(self).out@,
            d.gap == old(self).gap,
            from == bit_offset(d.s) / 8,
        ensures
            ({
                let data = old(self).r.source();
                let step = pu_rle(data, prm.mode(), d, old(self).r.st());
                match r {
                    Ok(_) => final(self).wf(data) && step == PuStep::Next(final(self).state()),
                    Err(x) => step == PuStep::Fail(x),
                }
            }),
    {
        let g: u32 = prm.max_gamma;
        let half: u32 = two_to(g);
        proof {
            lemma_gamma_sizes(g as nat);
        }
        let first: u32 = match self.r.gamma(g) {
            Ok(v) => v,
            Err(e) => {
                return Err(e);
            },
        };
        let n: u32;
        if first < half {
            n = first;
        } else {
            let b: u32 = match self.r.bits(8 - g) {
                Ok(v) => v,
                Err(e) => {
                    return Err(e);
                },
            };
            let h: u32 = match self.r.gamma(g) {
                Ok(v) => v,
                Err(e) => {
                    return Err(e);
                },
            };
            let p: u32 = two_to(8 - g);
            proof {
                lemma_low_run((first - half) as nat, g as nat, b as nat);
            }
            n = (h - 1) * 256 + (first - half) * p + b;
        }
        let code: u32 = match self.r.gamma(g) {
            Ok(v) => v,
            Err(e) => {
                return Err(e);
            },
        };
        if code < 16 {
            if code as usize > prm.table.len() {
                return Err(PuError::RankBeyondTable { code, len: prm.table.len() });
            }
            return self.run_bytes(prm.table[code as usize - 1], n, from, Ghost(d));
        }
        if code > 31 {
            return Err(PuError::BadByteCode { byte_code: code });
        }
        let low: u32 = match self.r.bits(4) {
            Ok(v) => v,
            Err(e) => {
                return Err(e);
            },
        };
        proof {
            lemma2_to64();
        }
        let byte: u8 = ((code - 16) * 16 + low) as u8;
        self.run_bytes(byte, n, from, Ghost(d))
    }

    fn special(&mut self, prm: &StreamParams, from: usize, Ghost(d): Ghost<PuState>) -> (r: Result<(), PuError>)
        requires
            old(self).wf(old(self).r.source()),
            prm.mode().wf(),
            from <= MAX_OUTPUT,
            old(self).esc < pow2(prm.esc_bits as nat) || prm.esc_bits == 0,
            d.esc == old(self).esc,
            d.out == old(self).out@,
            d.gap == old(self).gap,
            from == bit_offset(d.s) / 8,
        ensures
            ({
                let data = old(self).r.source();
                let step = pu_special(data, prm.mode(), d, old(self).r.st());
                match r {
                    Ok(_) => final(self).wf(data) && step == PuStep::Next(final(self).state()),
                    Err(x) => step == PuStep::Fail(x),
                }
            }),
    {
        proof {
            lemma2_to64();
            lemma_esc_small(prm.esc_bits as nat);
        }
        let b: u32 = match self.r.bit() {
            Ok(v) => v,
            Err(e) => {
                return Err(e);
            },
        };
        if b == 0 {
            let low: u32 = match self.r.bits(8) {
                Ok(v) => v,
                Err(e) => {
                    return Err(e);
                },
            };
            return self.copy(256 - low, 2, PuError::ShortMatchUnderrun, from, Ghost(d));
        }
        let c: u32 = match self.r.bit() {
            Ok(v) => v,
            Err(e) => {
                return Err(e);
            },
        };
        if c == 1 {
            return self.rle(prm, from, Ghost(d));
        }
        let esc: u32 = match self.r.bits(prm.esc_bits) {
            Ok(v) => v,
            Err(e) => {
                return Err(e);
            },
        };
        let top: u32 = self.esc;
        self.literal(top, esc, prm, from, Ghost(d))
    }

    /// A match, or `None` at the end.
    fn lz(&mut self, prm: &StreamParams, a: u32, from: usize, Ghost(d): Ghost<PuState>) -> (r: Result<Option<()>, PuError>)
        requires
            old(self).wf(old(self).r.source()),
            prm.mode().wf(),
            from <= MAX_OUTPUT,
            1 <= a < 256,
            d.esc == old(self).esc,
            d.out == old(self).out@,
            d.gap == old(self).gap,
            from == bit_offset(d.s) / 8,
        ensures
            ({
                let data = old(self).r.source();
                let step = pu_lz(data, prm.mode(), d, old(self).r.st(), a as nat);
                match r {
                    Ok(Some(_)) => final(self).wf(data) && step == PuStep::Next(final(self).state()),
                    Ok(None) => step is Done && final(self).out@ == d.out && final(self).gap == d.gap,
                    Err(x) => step == PuStep::Fail(x),
                }
            }),
    {
        let g: u32 = prm.max_gamma;
        proof {
            lemma2_to64();
            lemma_gamma_sizes(g as nat);
        }
        let b: u32 = match self.r.gamma(g) {
            Ok(v) => v,
            Err(e) => {
                return Err(e);
            },
        };
        if b == two_to(g + 1) - 1 {
            if a == 2 {
                return Ok(None);
            }
            return Err(PuError::DeltaMatch);
        }
        let mid: u32 = match self.r.bits(prm.extra) {
            Ok(v) => v,
            Err(e) => {
                return Err(e);
            },
        };
        let low: u32 = match self.r.bits(8) {
            Ok(v) => v,
            Err(e) => {
                return Err(e);
            },
        };
        let p: u32 = two_to(prm.extra);
        proof {
            lemma_extra_small(prm.extra as nat);
            assert((b - 1) * p <= 255 * 16) by (nonlinear_arith)
                requires
                    1 <= b <= 255,
                    p <= 16,
            ;
            assert(0 <= (b - 1) * p) by (nonlinear_arith)
                requires
                    1 <= b,
            ;
        }
        let dist: u32 = ((b - 1) * p + mid) * 256 + (255 - low) + 1;
        match self.copy(dist, a + 1, PuError::MatchUnderrun, from, Ghost(d)) {
            Ok(_) => Ok(Some(())),
            Err(e) => Err(e),
        }
    }
}

proof fn lemma_esc_small(e: nat)
    requires
        e <= 8,
    ensures
        pow2(e) <= 256,
        pow2((8 - e) as nat) <= 256,
{
    lemma2_to64();
    if e < 8 {
        vstd::arithmetic::power2::lemma_pow2_strictly_increases(e, 8);
    }
    if e > 0 {
        vstd::arithmetic::power2::lemma_pow2_strictly_increases((8 - e) as nat, 8);
    }
}

proof fn lemma_extra_small(x: nat)
    requires
        x <= 4,
    ensures
        1 <= pow2(x) <= 16,
{
    lemma2_to64();
    if x < 4 {
        vstd::arithmetic::power2::lemma_pow2_strictly_increases(x, 4);
    }
    vstd::arithmetic::power2::lemma_pow2_pos(x);
}

proof fn lemma_gamma_sizes(g: nat)
    requires
        5 <= g <= 7,
    ensures
        pow2((g + 1) as nat) <= 256,
        pow2((g + 1) as nat) == 2 * pow2(g),
        pow2(g) * pow2((8 - g) as nat) == 256,
{
    lemma2_to64();
    lemma_pow2_unfold((g + 1) as nat);
    vstd::arithmetic::power2::lemma_pow2_adds(g, (8 - g) as nat);
    if g < 7 {
        vstd::arithmetic::power2::lemma_pow2_strictly_increases((g + 1) as nat, 8);
    }
}

proof fn lemma_low_run(x: nat, g: nat, b: nat)
    requires
        5 <= g <= 7,
        x < pow2(g),
        b < pow2((8 - g) as nat),
    ensures
        x * pow2((8 - g) as nat) + b < 256,
{
    lemma_gamma_sizes(g);
    let p = pow2((8 - g) as nat);
    let q = pow2(g);
    assert(x * p + b < q * p) by (nonlinear_arith)
        requires
            x + 1 <= q,
            b < p,
    ;
}

/// Decodes a stream of bits up to its end marker: the output, and the largest
/// distance of the last byte of a token from the byte of the stream that the
/// token starts in.
pub fn decode_stream_gap(bits: &[u8], prm: &StreamParams) -> (r: Result<(Vec<u8>, i64), PuError>)
    requires
        prm.mode().wf(),
        prm.start_esc < 256,
        bits@.len() <= MAX_OUTPUT,
    ensures
        match r {
            Ok((out, gap)) => pu_stream(bits@, prm.mode(), prm.start_esc as nat) == Ok::<
                (Seq<u8>, int),
                PuError,
            >((out@, gap as int)),
            Err(e) => pu_stream(bits@, prm.mode(), prm.start_esc as nat) == Err::<
                (Seq<u8>, int),
                PuError,
            >(e),
        },
{
    let n: usize = bits.len();
    let ghost data = bits@;
    let ghost m = prm.mode();
    let ghost goal = pu_stream(data, m, prm.start_esc as nat);
    let ghost mut fuel = zx02::z_fuel(data);
    let mut d: Decoder = Decoder {
        r: BitReader::new(bits),
        esc: prm.start_esc,
        out: Vec::new(),
        gap: NO_GAP,
    };
    assert(d.out@ =~= Seq::<u8>::empty());
    loop
        invariant
            n == bits@.len(),
            data == bits@,
            n <= MAX_OUTPUT,
            m == prm.mode(),
            m.wf(),
            goal == pu_stream(data, m, prm.start_esc as nat),
            d.wf(data),
            goal == pu_run(data, m, d.state(), fuel),
            zx02::bits_left(data, d.r.st()) < fuel,
        decreases fuel,
    {
        let ghost d0 = d.state();
        proof {
            d.r.lemma_place();
            lemma_pu_step_left(data, m, d0);
            lemma_esc_small(prm.esc_bits as nat);
            lemma_gamma_sizes(prm.max_gamma as nat);
            lemma2_to64();
        }
        let from: usize = d.r.byte_offset();
        let sel: u32 = match d.r.bits(prm.esc_bits) {
            Ok(v) => v,
            Err(e) => {
                return Err(e);
            },
        };
        if prm.esc_bits > 0 && sel != d.esc {
            let esc: u32 = d.esc;
            match d.literal(sel, esc, prm, from, Ghost(d0)) {
                Ok(_) => {},
                Err(e) => {
                    return Err(e);
                },
            }
        } else {
            let a: u32 = match d.r.gamma(prm.max_gamma) {
                Ok(v) => v,
                Err(e) => {
                    return Err(e);
                },
            };
            if a == 1 {
                match d.special(prm, from, Ghost(d0)) {
                    Ok(_) => {},
                    Err(e) => {
                        return Err(e);
                    },
                }
            } else {
                match d.lz(prm, a, from, Ghost(d0)) {
                    Ok(Some(_)) => {},
                    Ok(None) => {
                        return Ok((d.out, d.gap));
                    },
                    Err(e) => {
                        return Err(e);
                    },
                }
            }
        }
        proof {
            fuel = (fuel - 1) as nat;
        }
    }
}

/// With no escape bits the low bits are the whole byte.
pub proof fn lemma_whole_byte(e: nat, a: nat, b: nat, rest: nat)
    requires
        e <= 8,
        rest < pow2((8 - e) as nat),
        e == 0 || a == b,
    ensures
        pu_byte(a, rest, e) == pu_byte(b, rest, e),
{
    lemma_split_byte(e, a, rest);
    lemma_split_byte(e, b, rest);
}

/// Bounds of the powers that tokens are made of.
pub proof fn lemma_small_values(e: nat)
    requires
        e <= 8,
    ensures
        pow2(e) <= 256,
        pow2((8 - e) as nat) <= 256,
        pow2(0) == 1,
        pow2(1) == 2,
        pow2(4) == 16,
        pow2(7) == 128,
        pow2(8) == 256,
{
    lemma2_to64();
    lemma_esc_small(e);
}

proof fn lemma_bits_grow(data: Seq<u8>, s: BitPos, acc: nat, count: nat)
    requires
        acc >= 1,
    ensures
        pu_bits_from(data, s, acc, count) matches Some((v, _)) ==> v >= 1,
    decreases count,
{
    if count > 0 {
        if let Some((b, s1)) = zx02::z_bit(data, s) {
            lemma_bits_grow(
                data,
                s1,
                2 * acc + if b {
                    1nat
                } else {
                    0nat
                },
                (count - 1) as nat,
            );
        }
    }
}

/// A gamma code is never zero.
pub proof fn lemma_gamma_positive(data: Seq<u8>, s: BitPos, max: nat)
    ensures
        pu_gamma(data, s, max) matches Some((v, _)) ==> v >= 1,
{
    if let Some((n, s1)) = pu_ones(data, s, 0, max) {
        lemma_bits_grow(data, s1, 1, n);
    }
}

} // verus!
