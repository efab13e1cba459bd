//! The upkr stream: literal bytes, matches and lengths as bits, each coded with
//! a probability that adapts. A match that follows a literal byte may repeat
//! the last offset.
use crate::lz::copy_match;
use crate::urans::{RansDecoder, RansMode, RansSt};
use vstd::arithmetic::power2::{lemma_pow2_pos, lemma_pow2_unfold, pow2};
use crate::lz;
use crate::zx;
use crate::urans;
use vstd::prelude::*;

verus! {

// ---------------------------------------------------------------------------
// Variants of the format
// ---------------------------------------------------------------------------
/// A variant of the format.
#[derive(Debug, Clone, Copy)]
pub struct Config {
    /// Digits are bits and not bytes.
    pub use_bitstream: bool,
    /// Literal contexts by position.
    pub parity_contexts: usize,
    pub invert_bit_encoding: bool,
    /// The bit in front of a match.
    pub is_match_bit: bool,
    /// The bit in front of a new offset.
    pub new_offset_bit: bool,
    /// The bit that a length goes on with.
    pub continue_value_bit: bool,
    pub bitstream_is_big_endian: bool,
    pub simplified_prob_update: bool,
    pub no_repeated_offsets: bool,
    /// The end is a match of one byte and not an offset of nothing.
    pub eof_in_length: bool,
    pub max_offset: usize,
    pub max_length: usize,
}

pub open spec fn default_config() -> Config {
    Config {
        use_bitstream: false,
        parity_contexts: 1,
        invert_bit_encoding: false,
        is_match_bit: true,
        new_offset_bit: true,
        continue_value_bit: true,
        bitstream_is_big_endian: false,
        simplified_prob_update: false,
        no_repeated_offsets: false,
        eof_in_length: false,
        max_offset: usize::MAX,
        max_length: usize::MAX,
    }
}

impl Default for Config {
    fn default() -> (c: Config)
        ensures
            c == default_config(),
    {
        Config {
            use_bitstream: false,
            parity_contexts: 1,
            invert_bit_encoding: false,
            is_match_bit: true,
            new_offset_bit: true,
            continue_value_bit: true,
            bitstream_is_big_endian: false,
            simplified_prob_update: false,
            no_repeated_offsets: false,
            eof_in_length: false,
            max_offset: usize::MAX,
            max_length: usize::MAX,
        }
    }
}

pub open spec fn config_wf(c: Config) -> bool {
    c.parity_contexts >= 1 && 256 * c.parity_contexts + 129 <= usize::MAX
}

pub open spec fn rans_mode(c: Config) -> RansMode {
    RansMode { bits: c.use_bitstream, big: c.bitstream_is_big_endian }
}

/// Bytes of the shortest match.
pub open spec fn min_len(c: Config) -> int {
    if c.eof_in_length {
        2
    } else {
        1
    }
}

// ---------------------------------------------------------------------------
// Contexts
// ---------------------------------------------------------------------------
/// The probability after a coded bit.
pub open spec fn ctx_next(p: u8, b: bool, simple: bool) -> int {
    if simple {
        (if b {
            16int
        } else {
            0int
        }) + p - (p + 8) / 16
    } else if b {
        p + (264 - p) / 16
    } else {
        p - (p + 8) / 16
    }
}

pub open spec fn ctx_count(c: Config) -> nat {
    (256 * c.parity_contexts + 129) as nat
}

pub open spec fn ctx_start(c: Config) -> Seq<u8> {
    Seq::new(ctx_count(c), |k: int| 128u8)
}

/// A reader of bits with contexts.
pub struct URead {
    pub st: RansSt,
    pub ctx: Seq<u8>,
}

pub open spec fn ctx_ok(c: Config, ctx: Seq<u8>) -> bool {
    &&& ctx.len() == ctx_count(c)
    &&& forall|i: int| 0 <= i < ctx.len() ==> 1 <= #[trigger] ctx[i]
}

pub open spec fn ctx_update(c: Config, ctx: Seq<u8>, i: int, b: bool) -> Seq<u8> {
    ctx.update(i, ctx_next(ctx[i], b, c.simplified_prob_update) as u8)
}

/// A bit in context `i`.
pub open spec fn u_bit(data: Seq<u8>, c: Config, r: URead, i: int) -> Option<(bool, URead)> {
    match urans::rans_bit(data, rans_mode(c), r.st, r.ctx[i] as int) {
        None => None,
        Some((b, s)) => Some(
            (b != c.invert_bit_encoding, URead { st: s, ctx: ctx_update(c, r.ctx, i, b) }),
        ),
    }
}

/// A number with `k` bits read so far: each bit follows a bit that says that
/// the number goes on; lower bits come first, and the leading one is implied.
pub open spec fn u_len_from(
    data: Seq<u8>,
    c: Config,
    r: URead,
    i: int,
    k: nat,
    acc: int,
) -> Option<(int, URead)>
    decreases 32 - k,
{
    if k >= 32 {
        None
    } else {
        match u_bit(data, c, r, i + 2 * k) {
            None => None,
            Some((b, r1)) => if b != c.continue_value_bit {
                Some((acc + pow2(k), r1))
            } else {
                match u_bit(data, c, r1, i + 2 * k + 1) {
                    None => None,
                    Some((d, r2)) => u_len_from(
                        data,
                        c,
                        r2,
                        i,
                        k + 1,
                        acc + if d {
                            pow2(k) as int
                        } else {
                            0int
                        },
                    ),
                }
            },
        }
    }
}

pub open spec fn u_len(data: Seq<u8>, c: Config, r: URead, i: int) -> Option<(int, URead)> {
    u_len_from(data, c, r, i, 0, 0)
}

/// A literal byte from node `node` of the tree of contexts at `base`, with `k`
/// bits read.
pub open spec fn u_lit_from(
    data: Seq<u8>,
    c: Config,
    r: URead,
    base: int,
    node: int,
    k: nat,
) -> Option<(int, URead)>
    decreases 8 - k,
{
    if k >= 8 {
        Some((node - 256, r))
    } else {
        match u_bit(data, c, r, base + node) {
            None => None,
            Some((b, r1)) => u_lit_from(
                data,
                c,
                r1,
                base,
                2 * node + if b {
                    1int
                } else {
                    0int
                },
                k + 1,
            ),
        }
    }
}

pub open spec fn u_lit(data: Seq<u8>, c: Config, r: URead, base: int) -> Option<(int, URead)> {
    u_lit_from(data, c, r, base, 1, 0)
}

// ---------------------------------------------------------------------------
// What a stream decodes to
// ---------------------------------------------------------------------------
pub struct UState {
    pub r: URead,
    pub out: Seq<u8>,
    pub off: int,
    /// The last token was a match.
    pub prev: bool,
}

pub enum UStep {
    Stop(Seq<u8>),
    Bad,
    Next(UState),
}

pub open spec fn lit_base(c: Config, pos: int) -> int {
    (pos % (c.parity_contexts as int)) * 256
}

pub open spec fn flag_ctx(c: Config) -> int {
    256 * c.parity_contexts
}

/// The length of a match, then the match.
pub open spec fn u_match(data: Seq<u8>, c: Config, max: int, d: UState, r: URead, off: int) -> UStep {
    match u_len(data, c, r, flag_ctx(c) + 65) {
        None => UStep::Bad,
        Some((len, r1)) => if c.eof_in_length && len == 1 {
            UStep::Stop(d.out)
        } else if off > d.out.len() || d.out.len() + len > max {
            UStep::Bad
        } else {
            UStep::Next(
                UState { r: r1, out: lz::lz_copy(d.out, off, len as nat), off, prev: true },
            )
        },
    }
}

/// Whether a match has a new offset.
pub open spec fn u_fresh(data: Seq<u8>, c: Config, prev: bool, r: URead) -> Option<(bool, URead)> {
    if c.no_repeated_offsets || prev {
        Some((true, r))
    } else {
        match u_bit(data, c, r, flag_ctx(c)) {
            None => None,
            Some((b, r1)) => Some((b == c.new_offset_bit, r1)),
        }
    }
}

/// One token. Output beyond `max` bytes is an error.
pub open spec fn u_step(data: Seq<u8>, c: Config, max: int, d: UState) -> UStep {
    let base = lit_base(c, d.out.len() as int);
    match u_bit(data, c, d.r, base) {
        None => UStep::Bad,
        Some((b, r1)) => if b != c.is_match_bit {
            match u_lit(data, c, r1, base) {
                None => UStep::Bad,
                Some((v, r2)) => if d.out.len() + 1 > max {
                    UStep::Bad
                } else {
                    UStep::Next(
                        UState { r: r2, out: d.out.push(v as u8), off: d.off, prev: false },
                    )
                },
            }
        } else {
            match u_fresh(data, c, d.prev, r1) {
                None => UStep::Bad,
                Some((false, r2)) => u_match(data, c, max, d, r2, d.off),
                Some((true, r2)) => match u_len(data, c, r2, flag_ctx(c) + 1) {
                    None => UStep::Bad,
                    Some((v, r3)) => {
                        let off = if c.eof_in_length {
                            v
                        } else {
                            v - 1
                        };
                        if off == 0 {
                            UStep::Stop(d.out)
                        } else {
                            u_match(data, c, max, d, r3, off)
                        }
                    },
                },
            }
        },
    }
}

pub open spec fn u_run(data: Seq<u8>, c: Config, max: int, d: UState, fuel: nat) -> Option<Seq<u8>>
    decreases fuel,
{
    if fuel == 0 {
        None
    } else {
        match u_step(data, c, max, d) {
            UStep::Stop(o) => Some(o),
            UStep::Bad => None,
            UStep::Next(e) => u_run(data, c, max, e, (fuel - 1) as nat),
        }
    }
}

/// Bytes that the decoder has taken.
pub open spec fn bytes_taken(c: Config, s: RansSt) -> int {
    if c.use_bitstream {
        (s.pos + 7) / 8
    } else {
        s.pos
    }
}

/// The largest lead of the output over the bytes taken, before any token from
/// `d` on.
pub open spec fn u_peak(data: Seq<u8>, c: Config, max: int, d: UState, fuel: nat) -> int
    decreases fuel,
{
    if fuel == 0 {
        0
    } else {
        let lead = zx::max_of(d.out.len() - bytes_taken(c, d.r.st), 0);
        match u_step(data, c, max, d) {
            UStep::Next(e) => zx::max_of(lead, u_peak(data, c, max, e, (fuel - 1) as nat)),
            _ => lead,
        }
    }
}

pub open spec fn u_init(c: Config, s: RansSt) -> UState {
    UState {
        r: URead { st: s, ctx: ctx_start(c) },
        out: Seq::empty(),
        off: usize::MAX as int,
        prev: false,
    }
}

/// More tokens than any stream of this length has.
pub open spec fn u_fuel(data: Seq<u8>, c: Config) -> nat {
    ((urans::digit_count(data, rans_mode(c)) + 1) * urans::high_end(rans_mode(c)) + 1) as nat
}

/// What a stream decodes to; `None` where it breaks off, reaches back before
/// the output or holds more than `max` bytes.
pub open spec fn unpacked(data: Seq<u8>, c: Config, max: int) -> Option<Seq<u8>> {
    match urans::refill(data, rans_mode(c), RansSt { x: 0, pos: 0 }) {
        None => None,
        Some(s) => u_run(data, c, max, u_init(c, s), u_fuel(data, c)),
    }
}

/// In-place gap: how far the output may run ahead of the bytes taken, against
/// where both end; nothing for a broken stream.
pub open spec fn unpack_gap(data: Seq<u8>, c: Config, max: int) -> int {
    match urans::refill(data, rans_mode(c), RansSt { x: 0, pos: 0 }) {
        None => 0,
        Some(s) => match u_run(data, c, max, u_init(c, s), u_fuel(data, c)) {
            None => 0,
            Some(o) => zx::max_of(
                u_peak(data, c, max, u_init(c, s), u_fuel(data, c)) - (o.len() - data.len()),
                0,
            ),
        },
    }
}

// ---------------------------------------------------------------------------
// Every token takes something from the stream
// ---------------------------------------------------------------------------
pub open spec fn u_wf(data: Seq<u8>, c: Config, r: URead) -> bool {
    urans::rans_wf(data, rans_mode(c), r.st) && ctx_ok(c, r.ctx)
}

pub open spec fn u_left(data: Seq<u8>, c: Config, r: URead) -> int {
    urans::rans_left(data, rans_mode(c), r.st)
}

proof fn lemma_ctx(p: u8, b: bool, simple: bool)
    requires
        p >= 1,
    ensures
        1 <= ctx_next(p, b, simple) <= 255,
{
}

pub proof fn lemma_u_bit(data: Seq<u8>, c: Config, r: URead, i: int)
    requires
        u_wf(data, c, r),
        0 <= i < ctx_count(c),
    ensures
        u_bit(data, c, r, i) matches Some((_, r1)) ==> u_wf(data, c, r1) && u_left(data, c, r1)
            < u_left(data, c, r),
{
    urans::lemma_rans_bit(data, rans_mode(c), r.st, r.ctx[i] as int);
    if let Some((b, s)) = urans::rans_bit(data, rans_mode(c), r.st, r.ctx[i] as int) {
        lemma_ctx(r.ctx[i], b, c.simplified_prob_update);
        let n = ctx_update(c, r.ctx, i, b);
        assert forall|j: int| 0 <= j < n.len() implies 1 <= #[trigger] n[j] by {
            if j != i {
                assert(n[j] == r.ctx[j]);
            }
        }
    }
}

proof fn lemma_u_len(data: Seq<u8>, c: Config, r: URead, i: int, k: nat, acc: int)
    requires
        u_wf(data, c, r),
        0 <= i,
        i + 64 <= ctx_count(c),
        acc >= 0,
        k <= 32,
    ensures
        u_len_from(data, c, r, i, k, acc) matches Some((v, r1)) ==> u_wf(data, c, r1) && u_left(
            data,
            c,
            r1,
        ) < u_left(data, c, r) && v >= 1,
    decreases 32 - k,
{
    if k < 32 {
        lemma_pow2_pos(k);
        lemma_u_bit(data, c, r, i + 2 * k);
        if let Some((b, r1)) = u_bit(data, c, r, i + 2 * k) {
            lemma_u_bit(data, c, r1, i + 2 * k + 1);
            if let Some((d, r2)) = u_bit(data, c, r1, i + 2 * k + 1) {
                lemma_u_len(
                    data,
                    c,
                    r2,
                    i,
                    k + 1,
                    acc + if d {
                        pow2(k) as int
                    } else {
                        0int
                    },
                );
            }
        }
    }
}

proof fn lemma_u_lit(data: Seq<u8>, c: Config, r: URead, base: int, node: int, k: nat)
    requires
        u_wf(data, c, r),
        0 <= base,
        base + 256 <= ctx_count(c),
        k <= 8,
        pow2(k) <= node < pow2(k + 1),
    ensures
        u_lit_from(data, c, r, base, node, k) matches Some((v, r1)) ==> u_wf(data, c, r1) && u_left(
            data,
            c,
            r1,
        ) <= u_left(data, c, r) && 0 <= v < 256,
    decreases 8 - k,
{
    assert(pow2(8) == 256 && pow2(9) == 512) by {
        vstd::arithmetic::power2::lemma2_to64();
    }
    if k < 8 {
        if k + 1 < 8 {
            vstd::arithmetic::power2::lemma_pow2_strictly_increases(k + 1, 8);
        }
        lemma_pow2_unfold(k + 1);
        lemma_pow2_unfold(k + 2);
        lemma_u_bit(data, c, r, base + node);
        if let Some((b, r1)) = u_bit(data, c, r, base + node) {
            lemma_u_lit(
                data,
                c,
                r1,
                base,
                2 * node + if b {
                    1int
                } else {
                    0int
                },
                k + 1,
            );
        }
    }
}

pub proof fn lemma_lit_base(c: Config, pos: int)
    requires
        config_wf(c),
        pos >= 0,
    ensures
        0 <= lit_base(c, pos),
        lit_base(c, pos) + 256 <= flag_ctx(c),
{
    let p = c.parity_contexts as int;
    assert(0 <= pos % p < p) by (nonlinear_arith)
        requires
            p >= 1,
    ;
}

pub proof fn lemma_u_step(data: Seq<u8>, c: Config, max: int, d: UState)
    requires
        config_wf(c),
        u_wf(data, c, d.r),
    ensures
        u_step(data, c, max, d) matches UStep::Next(e) ==> u_wf(data, c, e.r) && u_left(
            data,
            c,
            e.r,
        ) < u_left(data, c, d.r),
{
    let base = lit_base(c, d.out.len() as int);
    lemma_lit_base(c, d.out.len() as int);
    lemma_u_bit(data, c, d.r, base);
    assert(pow2(0) == 1 && pow2(1) == 2) by {
        vstd::arithmetic::power2::lemma2_to64();
    }
    if let Some((b, r1)) = u_bit(data, c, d.r, base) {
        if b != c.is_match_bit {
            lemma_u_lit(data, c, r1, base, 1, 0);
        } else {
            lemma_u_bit(data, c, r1, flag_ctx(c));
            if let Some((fresh, r2)) = u_fresh(data, c, d.prev, r1) {
                lemma_u_len(data, c, r2, flag_ctx(c) + 65, 0, 0);
                lemma_u_len(data, c, r2, flag_ctx(c) + 1, 0, 0);
                if let Some((v, r3)) = u_len(data, c, r2, flag_ctx(c) + 1) {
                    lemma_u_len(data, c, r3, flag_ctx(c) + 65, 0, 0);
                }
            }
        }
    }
}

/// Once the fuel covers what is left, more makes no difference.
pub proof fn lemma_u_fuel(data: Seq<u8>, c: Config, max: int, d: UState, f: nat, g: nat)
    requires
        config_wf(c),
        u_wf(data, c, d.r),
        u_left(data, c, d.r) < f,
        u_left(data, c, d.r) < g,
    ensures
        u_run(data, c, max, d, f) == u_run(data, c, max, d, g),
    decreases f,
{
    lemma_left_positive(data, c, d.r);
    lemma_u_step(data, c, max, d);
    if let UStep::Next(e) = u_step(data, c, max, d) {
        lemma_u_fuel(data, c, max, e, (f - 1) as nat, (g - 1) as nat);
    }
}

proof fn lemma_left_positive(data: Seq<u8>, c: Config, r: URead)
    requires
        u_wf(data, c, r),
    ensures
        0 <= u_left(data, c, r),
{
    let m = rans_mode(c);
    let left = urans::digit_count(data, m) - r.st.pos;
    assert(left * urans::high_end(m) >= 0) by (nonlinear_arith)
        requires
            left >= 0,
            urans::high_end(m) >= 0,
    ;
}

/// The fuel covers a decoder that has only taken its first digits.
pub proof fn lemma_fuel_start(data: Seq<u8>, c: Config, s: RansSt)
    requires
        config_wf(c),
        urans::refill(data, rans_mode(c), RansSt { x: 0, pos: 0 }) == Some(s),
    ensures
        u_wf(data, c, u_init(c, s).r),
        u_left(data, c, u_init(c, s).r) < u_fuel(data, c),
{
    let m = rans_mode(c);
    let z = RansSt { x: 0, pos: 0 };
    urans::lemma_refill(data, m, z);
    let n = urans::digit_count(data, m);
    let h = urans::high_end(m);
    assert((n + 1) * h == n * h + h) by (nonlinear_arith);
    assert(n * h >= 0) by (nonlinear_arith)
        requires
            n >= 0,
            h >= 0,
    ;
}

// ---------------------------------------------------------------------------
// Decoder
// ---------------------------------------------------------------------------
/// The probability after a coded bit.
pub fn next_prob(p: u8, b: bool, simple: bool) -> (n: u8)
    requires
        p >= 1,
    ensures
        n == ctx_next(p, b, simple),
        n >= 1,
{
    let q: u16 = p as u16;
    let n: u16 = if simple {
        (if b {
            16u16
        } else {
            0u16
        }) + q - (q + 8) / 16
    } else if b {
        q + (264 - q) / 16
    } else {
        q - (q + 8) / 16
    };
    n as u8
}

/// Contexts before anything was coded.
pub fn new_contexts(c: &Config) -> (ctx: Vec<u8>)
    requires
        config_wf(*c),
    ensures
        ctx@ == ctx_start(*c),
        ctx_ok(*c, ctx@),
{
    let n: usize = 256 * c.parity_contexts + 129;
    let mut ctx: Vec<u8> = Vec::with_capacity(n);
    let mut i: usize = 0;
    while i < n
        invariant
            i <= n,
            ctx@.len() == i,
            forall|k: int| 0 <= k < i ==> #[trigger] ctx@[k] == 128,
        decreases n - i,
    {
        ctx.push(128);
        i += 1;
    }
    assert(ctx@ =~= ctx_start(*c));
    ctx
}

struct UDecoder<'a> {
    d: RansDecoder<'a>,
    ctx: Vec<u8>,
    c: Config,
}

impl<'a> UDecoder<'a> {
    spec fn data(&self) -> Seq<u8> {
        self.d.source()
    }

    spec fn r(&self) -> URead {
        URead { st: self.d.st(), ctx: self.ctx@ }
    }

    spec fn ok(&self) -> bool {
        &&& self.d.wf()
        &&& config_wf(self.c)
        &&& self.d.mode() == rans_mode(self.c)
        &&& u_wf(self.data(), self.c, self.r())
    }

    spec fn same(&self, o: &Self) -> bool {
        &&& self.d.same_stream(&o.d)
        &&& self.c == o.c
    }

    fn bit(&mut self, i: usize) -> (bit: Option<bool>)
        requires
            old(self).ok(),
            i < ctx_count(old(self).c),
        ensures
            final(self).same(old(self)),
            match bit {
                None => u_bit(old(self).data(), old(self).c, old(self).r(), i as int) is None,
                Some(b) => final(self).ok() && u_bit(
                    old(self).data(),
                    old(self).c,
                    old(self).r(),
                    i as int,
                ) == Some((b, final(self).r())),
            },
    {
        let p: u8 = self.ctx[i];
        proof {
            lemma_u_bit(self.data(), self.c, self.r(), i as int);
            assert(self.ctx@[i as int] >= 1);
        }
        match self.d.decode_bit(p) {
            None => None,
            Some(b) => {
                self.ctx.set(i, next_prob(p, b, self.c.simplified_prob_update));
                Some(b != self.c.invert_bit_encoding)
            },
        }
    }

    /// A number; it has at most 32 bits.
    fn decode_length(&mut self, i: usize) -> (v: Option<u64>)
        requires
            old(self).ok(),
            i + 64 <= ctx_count(old(self).c),
        ensures
            final(self).same(old(self)),
            match v {
                None => u_len(old(self).data(), old(self).c, old(self).r(), i as int) is None,
                Some(v) => final(self).ok() && u_len(
                    old(self).data(),
                    old(self).c,
                    old(self).r(),
                    i as int,
                ) == Some((v as int, final(self).r())) && 1 <= v <= 0xffff_ffff,
            },
    {
        let ghost goal = u_len(self.data(), self.c, self.r(), i as int);
        let ghost data = self.data();
        let ghost c = self.c;
        let mut k: usize = 0;
        let mut acc: u64 = 0;
        let mut unit: u64 = 1;
        proof {
            assert(pow2(0) == 1) by {
                vstd::arithmetic::power2::lemma2_to64();
            }
        }
        while k < 32
            invariant
                self.ok(),
                self.same(old(self)),
                data == self.data(),
                c == self.c,
                i + 64 <= ctx_count(c),
                k <= 32,
                unit == pow2(k as nat),
                unit <= 0x1_0000_0000,
                k < 32 ==> unit <= 0x8000_0000,
                acc < unit,
                goal == u_len(old(self).data(), old(self).c, old(self).r(), i as int),
                goal == u_len_from(data, c, self.r(), i as int, k as nat, acc as int),
            decreases 32 - k,
        {
            proof {
                lemma_pow2_unfold((k + 1) as nat);
                lemma_units(k as nat);
            }
            let go: bool = match self.bit(i + 2 * k) {
                None => {
                    return None;
                },
                Some(b) => b == self.c.continue_value_bit,
            };
            if !go {
                return Some(acc + unit);
            }
            match self.bit(i + 2 * k + 1) {
                None => {
                    return None;
                },
                Some(b) => {
                    if b {
                        acc = acc + unit;
                    }
                },
            }
            unit = 2 * unit;
            k += 1;
        }
        None
    }

    fn decode_literal(&mut self, base: usize) -> (v: Option<u8>)
        requires
            old(self).ok(),
            base + 256 <= ctx_count(old(self).c),
        ensures
            final(self).same(old(self)),
            match v {
                None => u_lit(old(self).data(), old(self).c, old(self).r(), base as int) is None,
                Some(v) => final(self).ok() && u_lit(
                    old(self).data(),
                    old(self).c,
                    old(self).r(),
                    base as int,
                ) == Some((v as int, final(self).r())),
            },
    {
        let ghost goal = u_lit(self.data(), self.c, self.r(), base as int);
        let ghost data = self.data();
        let ghost c = self.c;
        let mut k: usize = 0;
        let mut node: usize = 1;
        let mut size: usize = 1;
        while k < 8
            invariant
                self.ok(),
                self.same(old(self)),
                data == self.data(),
                c == self.c,
                base + 256 <= ctx_count(c),
                k <= 8,
                k == 0 ==> size == 1,
                k == 1 ==> size == 2,
                k == 2 ==> size == 4,
                k == 3 ==> size == 8,
                k == 4 ==> size == 16,
                k == 5 ==> size == 32,
                k == 6 ==> size == 64,
                k == 7 ==> size == 128,
                k == 8 ==> size == 256,
                size <= node < 2 * size,
                goal == u_lit(old(self).data(), old(self).c, old(self).r(), base as int),
                goal == u_lit_from(data, c, self.r(), base as int, node as int, k as nat),
            decreases 8 - k,
        {
            match self.bit(base + node) {
                None => {
                    return None;
                },
                Some(b) => {
                    node = 2 * node + if b {
                        1
                    } else {
                        0
                    };
                },
            }
            size = 2 * size;
            k += 1;
        }
        Some((node - 256) as u8)
    }

    /// Whether a match has a new offset.
    fn decode_fresh(&mut self, prev: bool) -> (f: Option<bool>)
        requires
            old(self).ok(),
        ensures
            final(self).same(old(self)),
            match f {
                None => u_fresh(old(self).data(), old(self).c, prev, old(self).r()) is None,
                Some(b) => final(self).ok() && u_fresh(
                    old(self).data(),
                    old(self).c,
                    prev,
                    old(self).r(),
                ) == Some((b, final(self).r())),
            },
    {
        if self.c.no_repeated_offsets || prev {
            return Some(true);
        }
        match self.bit(256 * self.c.parity_contexts) {
            None => None,
            Some(b) => Some(b == self.c.new_offset_bit),
        }
    }
}

proof fn lemma_units(k: nat)
    requires
        k < 32,
    ensures
        pow2(k) <= 0x8000_0000,
        k + 1 < 32 ==> pow2(k + 1) <= 0x8000_0000,
        pow2(k + 1) <= 0x1_0000_0000,
{
    assert(pow2(31) == 0x8000_0000 && pow2(32) == 0x1_0000_0000) by {
        vstd::arithmetic::power2::lemma2_to64();
    }
    if k < 31 {
        vstd::arithmetic::power2::lemma_pow2_strictly_increases(k, 31);
    }
    if k + 1 < 31 {
        vstd::arithmetic::power2::lemma_pow2_strictly_increases(k + 1, 31);
    }
}

/// One token of the decoder.
enum Token {
    End,
    Bad,
    Literal(u8),
    Match { off: u64, len: u64 },
}

/// Reads a token, without carrying it out.
#[verifier::rlimit(40)]
fn read_token(u: &mut UDecoder, pos: usize, off: u64, prev: bool, Ghost(d): Ghost<UState>, Ghost(max): Ghost<int>) -> (t: Token)
    requires
        old(u).ok(),
        d == (UState { r: old(u).r(), out: d.out, off: off as int, prev }),
        pos == d.out.len(),
        pos <= max,
        off >= 1,
    ensures
        final(u).same(old(u)),
        match t {
            Token::End => u_step(old(u).data(), old(u).c, max, d) == UStep::Stop(d.out),
            Token::Bad => u_step(old(u).data(), old(u).c, max, d) is Bad,
            Token::Literal(b) => final(u).ok() && u_step(old(u).data(), old(u).c, max, d) == if pos
                + 1 > max {
                UStep::Bad
            } else {
                UStep::Next(
                    UState { r: final(u).r(), out: d.out.push(b), off: off as int, prev: false },
                )
            },
            Token::Match { off: o, len } => final(u).ok() && 1 <= o && 1 <= len <= 0xffff_ffff
                && u_step(old(u).data(), old(u).c, max, d) == if o > pos || pos + len > max {
                UStep::Bad
            } else {
                UStep::Next(
                    UState {
                        r: final(u).r(),
                        out: lz::lz_copy(d.out, o as int, len as nat),
                        off: o as int,
                        prev: true,
                    },
                )
            },
        },
{
    let ghost data = u.data();
    let ghost c = u.c;
    let p: usize = u.c.parity_contexts;
    proof {
        lemma_lit_base(c, pos as int);
    }
    let base: usize = (pos % p) * 256;
    assert(base == lit_base(c, d.out.len() as int));
    let is_match: bool = match u.bit(base) {
        None => {
            return Token::Bad;
        },
        Some(b) => b == u.c.is_match_bit,
    };
    if !is_match {
        return match u.decode_literal(base) {
            None => Token::Bad,
            Some(b) => Token::Literal(b),
        };
    }
    let fresh: bool = match u.decode_fresh(prev) {
        None => {
            return Token::Bad;
        },
        Some(f) => f,
    };
    let mut o: u64 = off;
    if fresh {
        match u.decode_length(256 * p + 1) {
            None => {
                return Token::Bad;
            },
            Some(v) => {
                o = if u.c.eof_in_length {
                    v
                } else {
                    v - 1
                };
            },
        }
        if o == 0 {
            return Token::End;
        }
    }
    let ghost r2 = u.r();
    assert(u_step(data, c, max, d) == u_match(data, c, max, d, r2, o as int));
    match u.decode_length(256 * p + 65) {
        None => Token::Bad,
        Some(len) => if u.c.eof_in_length && len == 1 {
            Token::End
        } else {
            Token::Match { off: o, len }
        },
    }
}

/// Decodes a stream: the output, and the largest lead of the output over the
/// bytes taken.
#[verifier::rlimit(40)]
pub fn unpack_peak(packed: &[u8], c: &Config, max_size: usize) -> (r: Option<(Vec<u8>, i128)>)
    requires
        config_wf(*c),
    ensures
        match r {
            None => unpacked(packed@, *c, max_size as int) is None,
            Some((o, g)) => unpacked(packed@, *c, max_size as int) == Some(o@) && 0 <= g
                <= o@.len() && ({
                let s = urans::refill(packed@, rans_mode(*c), RansSt { x: 0, pos: 0 });
                s matches Some(s) && g == u_peak(
                    packed@,
                    *c,
                    max_size as int,
                    u_init(*c, s),
                    u_fuel(packed@, *c),
                )
            }),
        },
{
    let ghost data = packed@;
    let ghost max = max_size as int;
    let decoder: RansDecoder = match RansDecoder::new(
        packed,
        c.use_bitstream,
        c.bitstream_is_big_endian,
    ) {
        None => {
            return None;
        },
        Some(d) => d,
    };
    let ghost s = decoder.st();
    proof {
        lemma_fuel_start(data, *c, s);
    }
    let mut u: UDecoder = UDecoder { d: decoder, ctx: new_contexts(c), c: *c };
    let mut out: Vec<u8> = Vec::new();
    let mut off: u64 = usize::MAX as u64;
    let mut prev: bool = false;
    let mut gap: i128 = 0;
    let ghost mut fuel = u_fuel(data, *c);
    let ghost goal = u_run(data, *c, max, u_init(*c, s), fuel);
    let ghost peak = u_peak(data, *c, max, u_init(*c, s), fuel);
    let ghost mut d = u_init(*c, s);
    assert(out@ =~= d.out);
    loop
        invariant
            data == packed@,
            max == max_size,
            config_wf(*c),
            u.ok(),
            u.c == *c,
            u.data() == data,
            d == (UState { r: u.r(), out: out@, off: off as int, prev }),
            out@.len() <= max,
            off >= 1,
            0 <= gap <= out@.len(),
            u_left(data, *c, d.r) < fuel,
            urans::refill(data, rans_mode(*c), RansSt { x: 0, pos: 0 }) == Some(s),
            goal == u_run(data, *c, max, u_init(*c, s), u_fuel(data, *c)),
            peak == u_peak(data, *c, max, u_init(*c, s), u_fuel(data, *c)),
            goal == u_run(data, *c, max, d, fuel),
            peak == zx::max_of(gap as int, u_peak(data, *c, max, d, fuel)),
        decreases fuel,
    {
        proof {
            lemma_left_positive(data, *c, d.r);
            lemma_u_step(data, *c, max, d);
        }
        let ghost d0 = d;
        let lead: i128 = out.len() as i128 - u.d.position() as i128;
        assert(lead == d.out.len() - bytes_taken(*c, d.r.st));
        if lead > gap {
            gap = lead;
        }
        let t: Token = read_token(&mut u, out.len(), off, prev, Ghost(d), Ghost(max));
        match t {
            Token::End => {
                return Some((out, gap));
            },
            Token::Bad => {
                return None;
            },
            Token::Literal(b) => {
                if out.len() >= max_size {
                    return None;
                }
                out.push(b);
                prev = false;
            },
            Token::Match { off: o, len } => {
                let pos: usize = out.len();
                if o > pos as u64 || len > (max_size - pos) as u64 {
                    return None;
                }
                copy_match(&mut out, o as usize, len as usize);
                off = o;
                prev = true;
            },
        }
        proof {
            d = UState { r: u.r(), out: out@, off: off as int, prev };
            assert(u_step(data, *c, max, d0) == UStep::Next(d));
            fuel = (fuel - 1) as nat;
        }
    }
}

} // verus!
