//! The Shrinkler format: tokens written as bits in adaptive contexts, which the
//! range coder codes.
use crate::shrcoder::RcSt;
use crate::bitio;
use crate::lz;
use crate::lz::copy_match;
use vstd::arithmetic::power2::{lemma_pow2_pos, lemma_pow2_unfold, pow2};
use crate::shrcoder;
use vstd::prelude::*;

verus! {

/// The context that says whether an offset is repeated.
pub const REPEATED: usize = 0;

/// The context that tells a reference from a literal.
pub const KIND: usize = 1;

/// The contexts of the numbers that stand for offsets.
pub const OFFSETS: usize = 513;

/// The contexts of the numbers that stand for lengths.
pub const LENGTHS: usize = 769;

/// How many contexts there are.
pub const CONTEXTS: usize = 1025;

/// The longest input that is compressed: numbers of up to 30 bits are what there
/// are contexts for.
pub const MAX_INPUT: usize = 0x3fff_ffff;

// ---------------------------------------------------------------------------
// Reading
// ---------------------------------------------------------------------------
/// The decoder: the range coder and the probabilities.
pub struct DecSt {
    pub st: RcSt,
    pub ctx: Seq<u16>,
}

pub open spec fn s_code(data: Seq<u8>, m: DecSt, i: int) -> (bool, DecSt) {
    let (b, st) = shrcoder::rc_bit(data, m.st, m.ctx[i] as int);
    (b, DecSt { st, ctx: m.ctx.update(i, shrcoder::rc_adapt(m.ctx[i], b) as u16) })
}

/// A byte is read from its highest bit down, each bit in a context that holds
/// the bits before it; the result is 256 and the byte.
pub open spec fn s_lit(data: Seq<u8>, m: DecSt, node: int, k: nat) -> (int, DecSt)
    decreases k,
{
    if k == 0 {
        (node, m)
    } else {
        let (b, m1) = s_code(data, m, 1 + node);
        s_lit(data, m1, 2 * node + if b {
            1int
        } else {
            0
        }, (k - 1) as nat)
    }
}

/// The ones that say how many bits a number has.
pub open spec fn s_ones(data: Seq<u8>, m: DecSt, base: int, i: int) -> Option<(int, DecSt)>
    decreases 30 - i,
{
    if i >= 30 {
        None
    } else {
        let (b, m1) = s_code(data, m, base + 2 * i + 2);
        if b {
            s_ones(data, m1, base, i + 1)
        } else {
            Some((i, m1))
        }
    }
}

pub open spec fn s_bits(data: Seq<u8>, m: DecSt, base: int, k: nat, acc: int) -> (int, DecSt)
    decreases k,
{
    if k == 0 {
        (acc, m)
    } else {
        let (b, m1) = s_code(data, m, base + 2 * (k - 1) + 1);
        s_bits(data, m1, base, (k - 1) as nat, 2 * acc + if b {
            1int
        } else {
            0
        })
    }
}

/// A number from 2 up.
pub open spec fn s_number(data: Seq<u8>, m: DecSt, base: int) -> Option<(int, DecSt)> {
    match s_ones(data, m, base, 0) {
        None => None,
        Some((i, m1)) => Some(s_bits(data, m1, base, (i + 1) as nat, 1)),
    }
}

/// The decoder between tokens.
pub struct ShrSt {
    pub m: DecSt,
    pub out: Seq<u8>,
    pub last: int,
    pub after_ref: bool,
}

pub enum ShrStep {
    Next(ShrSt),
    End(Seq<u8>),
    Bad,
}

/// The rest of a reference, once its offset is known.
pub open spec fn s_copy(data: Seq<u8>, s: ShrSt, m: DecSt, offset: int) -> ShrStep {
    match s_number(data, m, LENGTHS as int) {
        None => ShrStep::Bad,
        Some((len, m1)) => if 1 <= offset <= s.out.len() && s.out.len() + len <= usize::MAX {
            ShrStep::Next(
                ShrSt {
                    m: m1,
                    out: lz::lz_copy(s.out, offset, len as nat),
                    last: offset,
                    after_ref: true,
                },
            )
        } else {
            ShrStep::Bad
        },
    }
}

pub open spec fn s_ref(data: Seq<u8>, s: ShrSt, m: DecSt) -> ShrStep {
    let (repeated, m1) = if s.after_ref {
        (false, m)
    } else {
        s_code(data, m, REPEATED as int)
    };
    if repeated {
        s_copy(data, s, m1, s.last)
    } else {
        match s_number(data, m1, OFFSETS as int) {
            None => ShrStep::Bad,
            Some((v, m2)) => if v == 2 {
                ShrStep::End(s.out)
            } else {
                s_copy(data, s, m2, v - 2)
            },
        }
    }
}

/// One token. The first is a literal, and no bit says so.
pub open spec fn s_step(data: Seq<u8>, s: ShrSt) -> ShrStep {
    let (is_ref, m1) = if s.out.len() == 0 {
        (false, s.m)
    } else {
        s_code(data, s.m, KIND as int)
    };
    if is_ref {
        s_ref(data, s, m1)
    } else if s.out.len() >= usize::MAX {
        ShrStep::Bad
    } else {
        let (v, m2) = s_lit(data, m1, 1, 8);
        ShrStep::Next(
            ShrSt { m: m2, out: s.out.push((v - 256) as u8), last: s.last, after_ref: false },
        )
    }
}

/// What at most `fuel` tokens give, if they reach the end.
pub open spec fn s_run(data: Seq<u8>, s: ShrSt, fuel: nat) -> Option<Seq<u8>>
    decreases fuel,
{
    if fuel == 0 {
        None
    } else {
        match s_step(data, s) {
            ShrStep::Next(t) => s_run(data, t, (fuel - 1) as nat),
            ShrStep::End(out) => Some(out),
            ShrStep::Bad => None,
        }
    }
}

pub open spec fn s_init(data: Seq<u8>) -> ShrSt {
    ShrSt {
        m: DecSt { st: shrcoder::rc_start(data), ctx: Seq::new(CONTEXTS as nat, |i: int| 0x8000u16) },
        out: Seq::empty(),
        last: 0,
        after_ref: false,
    }
}

/// The stream comes to its end, and `out` is what it gives.
pub open spec fn shr_gives(data: Seq<u8>, out: Seq<u8>) -> bool {
    exists|fuel: nat| #[trigger] s_run(data, s_init(data), fuel) == Some(out)
}

/// What the bytes stand for, where they come to an end. No bytes stand for none.
pub open spec fn shr_decoded(data: Seq<u8>) -> Option<Seq<u8>> {
    if data.len() == 0 {
        Some(Seq::empty())
    } else if exists|out: Seq<u8>| #[trigger] shr_gives(data, out) {
        Some(choose|out: Seq<u8>| #[trigger] shr_gives(data, out))
    } else {
        None
    }
}

proof fn lemma_more_fuel(data: Seq<u8>, s: ShrSt, f: nat, g: nat)
    requires
        s_run(data, s, f) is Some,
        f <= g,
    ensures
        s_run(data, s, g) == s_run(data, s, f),
    decreases f,
{
    if f > 0 {
        match s_step(data, s) {
            ShrStep::Next(t) => lemma_more_fuel(data, t, (f - 1) as nat, (g - 1) as nat),
            _ => {},
        }
    }
}

/// A stream gives one string at most.
pub proof fn lemma_shr_decoded(data: Seq<u8>, out: Seq<u8>)
    requires
        data.len() > 0,
        shr_gives(data, out),
    ensures
        shr_decoded(data) == Some(out),
{
    let o = choose|o: Seq<u8>| #[trigger] shr_gives(data, o);
    let f = choose|f: nat| #[trigger] s_run(data, s_init(data), f) == Some(out);
    let g = choose|g: nat| #[trigger] s_run(data, s_init(data), g) == Some(o);
    if f <= g {
        lemma_more_fuel(data, s_init(data), f, g);
    } else {
        lemma_more_fuel(data, s_init(data), g, f);
    }
}

// ---------------------------------------------------------------------------
// Decoder
// ---------------------------------------------------------------------------
/// Fresh probabilities.
pub fn fresh_contexts() -> (ctx: Vec<u16>)
    ensures
        ctx@ == Seq::new(CONTEXTS as nat, |i: int| 0x8000u16),
{
    let mut ctx: Vec<u16> = Vec::new();
    while ctx.len() < CONTEXTS
        invariant
            ctx@.len() <= CONTEXTS,
            forall|i: int| 0 <= i < ctx@.len() ==> ctx@[i] == 0x8000,
        decreases CONTEXTS - ctx.len(),
    {
        ctx.push(0x8000);
    }
    assert(ctx@ =~= Seq::new(CONTEXTS as nat, |i: int| 0x8000u16));
    ctx
}

/// The probability after a bit.
pub fn adapt(p: u16, bit: bool) -> (q: u16)
    requires
        p >= 2,
    ensures
        q == shrcoder::rc_adapt(p, bit),
        q >= 2,
{
    if bit {
        (p as u32 + 4095 - p as u32 / 16) as u16
    } else {
        p - p / 16
    }
}

pub open spec fn ctx_good(ctx: Seq<u16>) -> bool {
    &&& ctx.len() == CONTEXTS
    &&& forall|i: int| 0 <= i < ctx.len() ==> 2 <= #[trigger] ctx[i]
}

/// Reads bits in contexts.
pub struct RangeDecoder {
    ctx: Vec<u16>,
    byte: usize,
    bit: u32,
    size: u32,
    value: u32,
    taken: Ghost<int>,
}

impl View for RangeDecoder {
    type V = DecSt;

    closed spec fn view(&self) -> DecSt {
        DecSt {
            st: RcSt { size: self.size as int, value: self.value as int, pos: self.taken@ },
            ctx: self.ctx@,
        }
    }
}

impl RangeDecoder {
    spec fn at_bit(&self, data: Seq<u8>) -> bool {
        &&& self.byte <= data.len()
        &&& self.bit < 8
        &&& self.byte < data.len() ==> self.taken@ == 8 * self.byte + self.bit
        &&& self.byte == data.len() ==> self.taken@ >= 8 * data.len()
        &&& self.value < self.size
        &&& ctx_good(self.ctx@)
    }

    pub closed spec fn wf(&self, data: Seq<u8>) -> bool {
        &&& self.at_bit(data)
        &&& 0x8000 <= self.size < 0x10000
    }

    pub fn new(data: &[u8]) -> (r: RangeDecoder)
        ensures
            r.wf(data@),
            r@ == s_init(data@).m,
    {
        let mut r: RangeDecoder = RangeDecoder {
            ctx: fresh_contexts(),
            byte: 0,
            bit: 0,
            size: 1,
            value: 0,
            taken: Ghost(0),
        };
        r.fill(data);
        r
    }

    /// Takes bits until the interval is large enough.
    fn fill(&mut self, data: &[u8])
        requires
            old(self).at_bit(data@),
            1 <= old(self).size < 0x10000,
        ensures
            final(self).wf(data@),
            final(self)@.st == shrcoder::rc_fill(data@, old(self)@.st),
            final(self)@.ctx == old(self)@.ctx,
    {
        let n: usize = data.len();
        let ghost s0 = self@.st;
        let ghost c0 = self@.ctx;
        while self.size < 0x8000
            invariant
                n == data@.len(),
                self.at_bit(data@),
                1 <= self.size < 0x10000,
                shrcoder::rc_fill(data@, self@.st) == shrcoder::rc_fill(data@, s0),
                self@.ctx == c0,
            decreases 0x10000 - self.size,
        {
            let ghost s1 = self@.st;
            let mut b: u32 = 0;
            if self.byte < n {
                let shift: u32 = 7 - self.bit;
                let v: u8 = data[self.byte];
                if (v >> (shift as u8)) & 1 == 1 {
                    b = 1;
                }
                assert(b == shrcoder::s_bit(data@, self.taken@)) by {
                    assert(self.taken@ / 8 == self.byte && self.taken@ % 8 == self.bit);
                    assert(bitio::bit_of(v, 7 - self.bit) == ((v >> (shift as u8)) & 1u8 == 1u8));
                }
                if self.bit == 7 {
                    self.bit = 0;
                    self.byte = self.byte + 1;
                } else {
                    self.bit = self.bit + 1;
                }
            }
            self.size = 2 * self.size;
            self.value = 2 * self.value + b;
            self.taken = Ghost(self.taken@ + 1);
            assert(self@.st == (RcSt {
                size: 2 * s1.size,
                value: 2 * s1.value + shrcoder::s_bit(data@, s1.pos),
                pos: s1.pos + 1,
            }));
        }
    }

    /// The next bit in context `i`.
    pub fn decode(&mut self, data: &[u8], i: usize) -> (bit: bool)
        requires
            old(self).wf(data@),
            i < CONTEXTS,
        ensures
            final(self).wf(data@),
            (bit, final(self)@) == s_code(data@, old(self)@, i as int),
    {
        let ghost m = self@;
        let p: u16 = self.ctx[i];
        assert(self.ctx@[i as int] >= 2);
        proof {
            shrcoder::lemma_split(self.size as int, p as int);
            assert(self.size * p <= 0xffff * 0xffff) by (nonlinear_arith)
                requires
                    self.size <= 0xffff,
                    p <= 0xffff,
            ;
        }
        let t: u32 = (self.size * p as u32) / 65536;
        let bit: bool = self.value < t;
        if bit {
            self.size = t;
        } else {
            self.size = self.size - t;
            self.value = self.value - t;
        }
        let q: u16 = adapt(p, bit);
        let ghost c0 = self.ctx@;
        self.ctx.set(i, q);
        assert forall|k: int| 0 <= k < self.ctx@.len() implies 2 <= #[trigger] self.ctx@[k] by {
            if k != i {
                assert(self.ctx@[k] == c0[k]);
            }
        }
        self.fill(data);
        bit
    }

    /// The next number, if it has no more than 31 bits.
    pub fn decode_number(&mut self, data: &[u8], base: usize) -> (r: Option<usize>)
        requires
            old(self).wf(data@),
            base + 70 <= CONTEXTS,
        ensures
            final(self).wf(data@),
            match s_number(data@, old(self)@, base as int) {
                None => r is None,
                Some((v, m)) => r == Some(v as usize) && final(self)@ == m && 2 <= v
                    <= 0xffff_ffff,
            },
    {
        let ghost m0 = self@;
        let mut i: usize = 0;
        let mut more: bool = true;
        while more
            invariant
                self.wf(data@),
                base + 70 <= CONTEXTS,
                m0 == old(self)@,
                i <= 30,
                more ==> s_ones(data@, m0, base as int, 0) == s_ones(
                    data@,
                    self@,
                    base as int,
                    i as int,
                ),
                !more ==> s_ones(data@, m0, base as int, 0) == Some((i as int, self@)) && i < 30,
            decreases 30 - i, (more as int),
        {
            if i >= 30 {
                return None;
            }
            more = self.decode(data, base + 2 * i + 2);
            if more {
                i += 1;
            }
        }
        let ghost m1 = self@;
        let ghost top = i as nat;
        let mut k: usize = i + 1;
        let mut v: usize = 1;
        proof {
            vstd::arithmetic::power2::lemma2_to64();
        }
        while k > 0
            invariant
                self.wf(data@),
                base + 70 <= CONTEXTS,
                k <= top + 1,
                top < 30,
                pow2((top + 1 - k) as nat) <= v < pow2((top + 2 - k) as nat),
                s_bits(data@, m1, base as int, top + 1, 1) == s_bits(
                    data@,
                    self@,
                    base as int,
                    k as nat,
                    v as int,
                ),
            decreases k,
        {
            proof {
                lemma_pow2_unfold((top + 3 - k) as nat);
                lemma_pow2_unfold((top + 2 - k) as nat);
                lemma_small_pow((top + 2 - k) as nat);
            }
            k -= 1;
            let b: bool = self.decode(data, base + 2 * k + 1);
            v = 2 * v + if b {
                1
            } else {
                0
            };
        }
        proof {
            lemma_small_pow(top + 2);
            lemma_pow2_unfold(top + 1);
            lemma_pow2_pos(top);
        }
        Some(v)
    }
}

proof fn lemma_small_pow(k: nat)
    requires
        k <= 31,
    ensures
        1 <= pow2(k) <= 0x8000_0000,
{
    lemma_pow2_pos(k);
    assert(pow2(31) == 0x8000_0000) by {
        vstd::arithmetic::power2::lemma2_to64();
    }
    if k < 31 {
        vstd::arithmetic::power2::lemma_pow2_strictly_increases(k, 31);
    }
}

/// Decodes a stream that comes to its end.
pub fn lz_decode(data: &[u8]) -> (out: Vec<u8>)
    requires
        data@.len() > 0,
        shr_decoded(data@) is Some,
    ensures
        shr_decoded(data@) == Some(out@),
{
    let ghost want = choose|o: Seq<u8>| #[trigger] shr_gives(data@, o);
    let ghost fuel = choose|f: nat| #[trigger] s_run(data@, s_init(data@), f) == Some(want);
    let ghost mut left: nat = fuel;
    let mut d: RangeDecoder = RangeDecoder::new(data);
    let mut out: Vec<u8> = Vec::new();
    let mut last: usize = 0;
    let mut after_ref: bool = false;
    proof {
        assert(out@ =~= Seq::<u8>::empty());
    }
    loop
        invariant
            d.wf(data@),
            s_run(
                data@,
                ShrSt { m: d@, out: out@, last: last as int, after_ref },
                left,
            ) == Some(want),
            shr_decoded(data@) == Some(want),
        decreases left,
    {
        let ghost s = ShrSt { m: d@, out: out@, last: last as int, after_ref };
        let n: usize = out.len();
        let is_ref: bool = if n == 0 {
            false
        } else {
            d.decode(data, KIND)
        };
        let ghost m1 = d@;
        if is_ref {
            let repeated: bool = if after_ref {
                false
            } else {
                d.decode(data, REPEATED)
            };
            if !repeated {
                let v: usize = d.decode_number(data, OFFSETS).unwrap();
                if v == 2 {
                    return out;
                }
                last = v - 2;
            }
            let len: usize = d.decode_number(data, LENGTHS).unwrap();
            assert(1 <= last <= out@.len() && out@.len() + len <= usize::MAX);
            copy_match(&mut out, last, len);
            after_ref = true;
        } else {
            let b: u8 = read_literal(&mut d, data);
            out.push(b);
            after_ref = false;
        }
        proof {
            left = (left - 1) as nat;
        }
    }
}

/// The next literal byte.
fn read_literal(d: &mut RangeDecoder, data: &[u8]) -> (b: u8)
    requires
        old(d).wf(data@),
    ensures
        final(d).wf(data@),
        s_lit(data@, old(d)@, 1, 8) == (256 + b, final(d)@),
{
    let ghost m0 = d@;
    let mut node: usize = 1;
    let mut k: usize = 0;
    while k < 8
        invariant
            d.wf(data@),
            k <= 8,
            k == 0 ==> node == 1,
            k == 1 ==> 2 <= node < 4,
            k == 2 ==> 4 <= node < 8,
            k == 3 ==> 8 <= node < 16,
            k == 4 ==> 16 <= node < 32,
            k == 5 ==> 32 <= node < 64,
            k == 6 ==> 64 <= node < 128,
            k == 7 ==> 128 <= node < 256,
            k == 8 ==> 256 <= node < 512,
            s_lit(data@, m0, 1, 8) == s_lit(data@, d@, node as int, (8 - k) as nat),
        decreases 8 - k,
    {
        let bit: bool = d.decode(data, 1 + node);
        node = 2 * node + if bit {
            1
        } else {
            0
        };
        k += 1;
    }
    (node - 256) as u8
}

} // verus!
