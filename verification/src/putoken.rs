//! Tokens of a PuCrunch stream: what they stand for, what they cost, and how
//! they are written.
use crate::bitio;
use crate::lz;
use crate::pustream;
use crate::pustream::{
    gamma_cost, two_to, BitWriter, PuMode, PuState, PuStep, MAX_GAMMA, MAX_RLE_LEN, NO_GAP,
    SENTINEL, SHORT_RLE_LIMIT,
};
use crate::zx;
use crate::zx02;
use vstd::arithmetic::power2::{lemma2_to64, pow2};
use vstd::prelude::*;

verus! {

/// A literal, a match or a run.
#[derive(Clone, Copy)]
pub enum Tok {
    Lit,
    Lz { len: u32, dist: u32 },
    Rle { len: u32 },
}

/// Bytes that a token stands for.
pub open spec fn tok_len(t: Tok) -> int {
    match t {
        Tok::Lit => 1,
        Tok::Lz { len, .. } => len as int,
        Tok::Rle { len } => len as int,
    }
}

pub fn token_len(t: &Tok) -> (n: u32)
    ensures
        n == tok_len(*t),
{
    match t {
        Tok::Lit => 1,
        Tok::Lz { len, .. } => *len,
        Tok::Rle { len } => *len,
    }
}

/// High part of a distance with `extra` middle bits.
pub open spec fn dist_high(dist: int, extra: nat) -> int {
    ((dist - 1) / 256) / pow2(extra) as int
}

/// A match of this length and distance has a code.
pub open spec fn lz_codable(len: int, dist: int, extra: nat) -> bool {
    dist >= 1 && ((len == 2 && dist <= 256) || (3 <= len <= 256 && dist_high(dist, extra) <= 253))
}

/// The token stands for the bytes at `i` and has a code.
pub open spec fn tok_ok(data: Seq<u8>, i: int, t: Tok, extra: nat) -> bool {
    match t {
        Tok::Lit => 0 <= i < data.len(),
        Tok::Lz { len, dist } => lz_codable(len as int, dist as int, extra) && lz::is_match(
            data,
            i,
            dist as int,
            len as int,
        ),
        Tok::Rle { len } => {
            &&& 2 <= len <= MAX_RLE_LEN
            &&& 0 <= i
            &&& i + len <= data.len()
            &&& forall|j: int| i <= j < i + len ==> #[trigger] data[j] == data[i]
        },
    }
}

/// Where token `k` starts.
pub open spec fn tok_pos(toks: Seq<Tok>, k: int) -> int
    decreases k,
{
    if k <= 0 {
        0
    } else {
        tok_pos(toks, k - 1) + tok_len(toks[k - 1])
    }
}

/// Token `k` stands for the bytes at its place.
pub open spec fn tok_fits(data: Seq<u8>, toks: Seq<Tok>, extra: nat, k: int) -> bool {
    tok_ok(data, tok_pos(toks, k), toks[k], extra)
}

/// The tokens stand for the data.
pub open spec fn toks_ok(data: Seq<u8>, toks: Seq<Tok>, extra: nat) -> bool {
    &&& forall|k: int| 0 <= k < toks.len() ==> #[trigger] tok_fits(data, toks, extra, k)
    &&& tok_pos(toks, toks.len() as int) == data.len()
}

/// The table of frequent bytes and the rank of every byte in it, from 1; 0 is
/// not in it.
pub open spec fn rank_ok(table: Seq<u8>, rank_of: Seq<u8>) -> bool {
    &&& table.len() <= 15
    &&& rank_of.len() == 256
    &&& forall|b: int|
        0 <= b < 256 && #[trigger] rank_of[b] > 0 ==> rank_of[b] <= table.len() && table[rank_of[b]
            - 1] == b
}

// ---------------------------------------------------------------------------
// Costs
// ---------------------------------------------------------------------------
/// Bits of the byte of a run.
pub open spec fn rle_byte_bits(rank: u8) -> nat {
    if rank > 0 {
        pustream::pu_gamma_len(rank as nat)
    } else {
        13
    }
}

pub fn rle_byte_cost(rank_of: &Vec<u8>, byte: u8) -> (bits: u32)
    requires
        rank_of@.len() == 256,
        rank_of@[byte as int] <= 15,
    ensures
        bits == rle_byte_bits(rank_of@[byte as int]),
        bits <= 14,
{
    let r: u8 = rank_of[byte as usize];
    if r != 0 {
        gamma_cost(r as u32)
    } else {
        13
    }
}

/// Bits of a match.
pub open spec fn lz_bits(e: nat, x: nat, len: int, dist: int) -> int {
    if len == 2 {
        e as int + 10
    } else {
        e as int + 8 + x + pustream::pu_gamma_len((len - 1) as nat) + pustream::pu_gamma_len(
            (dist_high(dist, x) + 1) as nat,
        )
    }
}

pub fn lz_cost(esc_bits: u32, extra: u32, len: u32, dist: u32) -> (bits: u32)
    requires
        esc_bits <= 8,
        extra <= 4,
        lz_codable(len as int, dist as int, extra as nat),
    ensures
        bits == lz_bits(esc_bits as nat, extra as nat, len as int, dist as int),
        bits <= 60,
{
    if len == 2 {
        esc_bits + 10
    } else {
        let p: u32 = two_to(extra);
        esc_bits + 8 + extra + gamma_cost(len - 1) + gamma_cost((dist - 1) / 256 / p + 1)
    }
}

/// Bits of a run.
pub open spec fn rle_bits(e: nat, len: int, byte_bits: nat) -> int {
    if len - 1 < 128 {
        e as int + 3 + pustream::pu_gamma_len((len - 1) as nat) + byte_bits
    } else {
        e as int + 18 + pustream::pu_gamma_len(((len - 1) / 256 + 1) as nat) + byte_bits
    }
}

pub fn rle_cost(esc_bits: u32, len: u32, byte_cost: u32) -> (bits: u32)
    requires
        esc_bits <= 8,
        2 <= len <= MAX_RLE_LEN,
        byte_cost <= 14,
    ensures
        bits == rle_bits(esc_bits as nat, len as int, byte_cost as nat),
        bits <= 60,
{
    let n: u32 = len - 1;
    if (n as usize) < SHORT_RLE_LIMIT {
        esc_bits + 3 + gamma_cost(n) + byte_cost
    } else {
        esc_bits + 3 + MAX_GAMMA + 8 + gamma_cost(n / 256 + 1) + byte_cost
    }
}

/// Top bits of a byte, which tell it from the escape value.
pub open spec fn selector(byte: u8, e: nat) -> nat {
    (byte as int / pow2((8 - e) as nat) as int) as nat
}

/// A literal that needs the long form: its top bits are the escape value.
pub open spec fn collides(byte: u8, e: nat, esc: nat) -> bool {
    e == 0 || selector(byte, e) == esc
}

/// Bits of a token at `i` when the escape value is `esc`.
pub open spec fn tok_bits(
    data: Seq<u8>,
    i: int,
    t: Tok,
    e: nat,
    x: nat,
    rank_of: Seq<u8>,
    esc: nat,
) -> int {
    match t {
        Tok::Lit => if collides(data[i], e, esc) {
            11 + e as int
        } else {
            8
        },
        Tok::Lz { len, dist } => lz_bits(e, x, len as int, dist as int),
        Tok::Rle { len } => rle_bits(e, len as int, rle_byte_bits(rank_of[data[i] as int])),
    }
}

/// The escape value before token `k`.
pub open spec fn esc_at(data: Seq<u8>, toks: Seq<Tok>, newesc: Seq<u8>, start: nat, e: nat, k: int) -> nat
    decreases k,
{
    if k <= 0 {
        start
    } else {
        let esc = esc_at(data, toks, newesc, start, e, k - 1);
        if toks[k - 1] is Lit && collides(data[tok_pos(toks, k - 1)], e, esc) {
            newesc[k - 1] as nat
        } else {
            esc
        }
    }
}

/// Bits of the first `k` tokens.
pub open spec fn stream_bits(
    data: Seq<u8>,
    toks: Seq<Tok>,
    newesc: Seq<u8>,
    start: nat,
    e: nat,
    x: nat,
    rank_of: Seq<u8>,
    k: int,
) -> int
    decreases k,
{
    if k <= 0 {
        0
    } else {
        stream_bits(data, toks, newesc, start, e, x, rank_of, k - 1) + tok_bits(
            data,
            tok_pos(toks, k - 1),
            toks[k - 1],
            e,
            x,
            rank_of,
            esc_at(data, toks, newesc, start, e, k - 1),
        )
    }
}

/// Bits of the end marker.
pub open spec fn eof_bits_of(e: nat) -> int {
    e as int + 17
}

/// Bits of the end marker.
pub fn eof_bits(esc_bits: u32) -> (bits: u64)
    requires
        esc_bits <= 8,
    ensures
        bits == eof_bits_of(esc_bits as nat),
{
    proof {
        reveal_with_fuel(bitio::floor_log2, 9);
    }
    (esc_bits + gamma_cost(2) + gamma_cost(SENTINEL)) as u64
}

/// A way to write the data: tokens and escape values.
pub struct Plan {
    pub tokens: Vec<Tok>,
    /// For every token the escape value after it, where it is a literal in the
    /// long form.
    pub newesc: Vec<u8>,
    pub start_esc: u8,
    pub esc_bits: u32,
    pub extra: u32,
}

impl Plan {
    pub open spec fn ok(&self, data: Seq<u8>) -> bool {
        &&& self.esc_bits <= 8
        &&& self.extra <= 4
        &&& toks_ok(data, self.tokens@, self.extra as nat)
        &&& self.newesc@.len() == self.tokens@.len()
        &&& self.start_esc < pow2(self.esc_bits as nat)
        &&& forall|k: int|
            0 <= k < self.newesc@.len() ==> #[trigger] self.newesc@[k] < pow2(self.esc_bits as nat)
    }

    /// Bits of all tokens and the end marker.
    pub open spec fn bits_of(&self, data: Seq<u8>, rank_of: Seq<u8>) -> int {
        stream_bits(
            data,
            self.tokens@,
            self.newesc@,
            self.start_esc as nat,
            self.esc_bits as nat,
            self.extra as nat,
            rank_of,
            self.tokens@.len() as int,
        ) + eof_bits_of(self.esc_bits as nat)
    }
}

pub proof fn lemma_selector(byte: u8, e: nat)
    requires
        e <= 8,
    ensures
        selector(byte, e) < pow2(e),
        selector(byte, e) * pow2((8 - e) as nat) + byte as int % pow2((8 - e) as nat) as int == byte,
        0 <= byte as int % pow2((8 - e) as nat) as int,
        (byte as int % pow2((8 - e) as nat) as int) < pow2((8 - e) as nat),
{
    let p = pow2((8 - e) as nat) as int;
    let q = pow2(e) as int;
    vstd::arithmetic::power2::lemma_pow2_pos((8 - e) as nat);
    vstd::arithmetic::power2::lemma_pow2_adds(e, (8 - e) as nat);
    lemma2_to64();
    vstd::arithmetic::div_mod::lemma_fundamental_div_mod(byte as int, p);
    vstd::arithmetic::div_mod::lemma_mod_bound(byte as int, p);
    let s = byte as int / p;
    assert(0 <= s < q && s * p + byte as int % p == byte) by (nonlinear_arith)
        requires
            byte as int == p * s + byte as int % p,
            0 <= byte as int % p < p,
            0 <= byte < 256,
            q * p == 256,
            p > 0,
            s == byte as int / p,
    ;
}

/// Top bits of a byte.
pub fn byte_selector(byte: u8, esc_bits: u32) -> (sel: u8)
    requires
        esc_bits <= 8,
    ensures
        sel == selector(byte, esc_bits as nat),
        sel < pow2(esc_bits as nat),
{
    proof {
        lemma_selector(byte, esc_bits as nat);
    }
    let p: u32 = two_to(8 - esc_bits);
    (byte as u32 / p) as u8
}

/// Bits of a plan.
pub fn plan_bits(data: &[u8], plan: &Plan, rank_of: &Vec<u8>) -> (bits: u64)
    requires
        plan.ok(data@),
        data@.len() <= 0x3fff_ffff,
        rank_of@.len() == 256,
        forall|b: int| 0 <= b < 256 ==> #[trigger] rank_of@[b] <= 15,
    ensures
        bits == plan.bits_of(data@, rank_of@),
{
    let n: usize = data.len();
    let ntoks: usize = plan.tokens.len();
    let e: u32 = plan.esc_bits;
    let mut esc: u8 = plan.start_esc;
    let mut i: usize = 0;
    let mut bits: u64 = 0;
    let mut k: usize = 0;
    while k < ntoks
        invariant
            n == data@.len(),
            n <= 0x3fff_ffff,
            ntoks == plan.tokens@.len(),
            k <= ntoks,
            e == plan.esc_bits,
            plan.ok(data@),
            rank_of@.len() == 256,
            forall|b: int| 0 <= b < 256 ==> #[trigger] rank_of@[b] <= 15,
            i == tok_pos(plan.tokens@, k as int),
            i <= n,
            esc == esc_at(
                data@,
                plan.tokens@,
                plan.newesc@,
                plan.start_esc as nat,
                e as nat,
                k as int,
            ),
            bits == stream_bits(
                data@,
                plan.tokens@,
                plan.newesc@,
                plan.start_esc as nat,
                e as nat,
                plan.extra as nat,
                rank_of@,
                k as int,
            ),
            bits <= 60 * i,
        decreases ntoks - k,
    {
        let t: Tok = plan.tokens[k];
        proof {
            assert(tok_fits(data@, plan.tokens@, plan.extra as nat, k as int));
        }
        match t {
            Tok::Lit => {
                if e == 0 || byte_selector(data[i], e) == esc {
                    bits = bits + (11 + e) as u64;
                    esc = plan.newesc[k];
                } else {
                    bits = bits + 8;
                }
                i += 1;
            },
            Tok::Lz { len, dist } => {
                bits = bits + lz_cost(e, plan.extra, len, dist) as u64;
                i += len as usize;
            },
            Tok::Rle { len } => {
                let c: u32 = rle_byte_cost(rank_of, data[i]);
                bits = bits + rle_cost(e, len, c) as u64;
                i += len as usize;
            },
        }
        k += 1;
    }
    bits + eof_bits(e)
}

// ---------------------------------------------------------------------------
// Writing
// ---------------------------------------------------------------------------
/// The mode of the streams that are written.
pub open spec fn out_mode(e: nat, x: nat, table: Seq<u8>) -> PuMode {
    PuMode { esc_bits: e, max_gamma: 7, extra: x, table }
}

/// The decoder after `i` bytes.
pub open spec fn pu_at(data: Seq<u8>, i: int, s: bitio::BitPos, esc: nat, gap: int) -> PuState {
    PuState { s, esc, out: data.take(i), gap }
}

/// Gap after a token that ends before `end` and starts after `bits` bits.
pub open spec fn gap_after(gap: int, end: int, bits: int) -> int {
    zx::max_of(gap, end - 1 - bits / 8)
}

/// A literal: its selector and the rest, or where that is the escape value, the
/// long form with the next escape value.
pub open spec fn put_literal(w: bitio::BitOut, byte: u8, e: nat, esc: u32, new_esc: u32) -> bitio::BitOut {
    let p = pow2((8 - e) as nat) as int;
    let rest = (byte as int % p) as u32;
    if collides(byte, e, esc as nat) {
        let a = pustream::put_gamma(pustream::put_bits(w, esc, e as int), 1);
        let b = bitio::put_bit(bitio::put_bit(a, true), false);
        pustream::put_bits(pustream::put_bits(b, new_esc, e as int), rest, 8 - e)
    } else {
        pustream::put_bits(
            pustream::put_bits(w, (byte as int / p) as u32, e as int),
            rest,
            8 - e,
        )
    }
}

/// A match: the escape value, its length and its distance.
pub open spec fn put_lz(w: bitio::BitOut, len: u32, dist: u32, e: nat, x: nat, esc: u32) -> bitio::BitOut {
    let a = pustream::put_bits(w, esc, e as int);
    if len == 2 {
        pustream::put_bits(
            bitio::put_bit(pustream::put_gamma(a, 1), false),
            (256 - dist) as u32,
            8,
        )
    } else {
        let p = pow2(x) as int;
        let q = (dist - 1) / 256;
        let b = pustream::put_gamma(pustream::put_gamma(a, (len - 1) as u32), (q / p + 1) as u32);
        pustream::put_bits(
            pustream::put_bits(b, (q % p) as u32, x as int),
            (255 - (dist - 1) % 256) as u32,
            8,
        )
    }
}

/// The length of a run less one.
pub open spec fn put_run(w: bitio::BitOut, n: u32) -> bitio::BitOut {
    if n < 128 {
        pustream::put_gamma(w, n)
    } else {
        let a = pustream::put_gamma(w, (128 + (n % 256) / 2) as u32);
        pustream::put_gamma(
            pustream::put_bits(a, ((n % 256) % 2) as u32, 1),
            (n / 256 + 1) as u32,
        )
    }
}

/// The byte of a run: its rank, or the byte itself.
pub open spec fn put_run_byte(w: bitio::BitOut, byte: u8, rank: u8) -> bitio::BitOut {
    if rank != 0 {
        pustream::put_gamma(w, rank as u32)
    } else {
        pustream::put_bits(
            pustream::put_gamma(w, (16 + byte / 16) as u32),
            (byte % 16) as u32,
            4,
        )
    }
}

/// A run.
pub open spec fn put_rle(w: bitio::BitOut, byte: u8, len: u32, e: nat, esc: u32, rank: u8) -> bitio::BitOut {
    let a = pustream::put_gamma(pustream::put_bits(w, esc, e as int), 1);
    let b = bitio::put_bit(bitio::put_bit(a, true), true);
    put_run_byte(put_run(b, (len - 1) as u32), byte, rank)
}

/// One token.
pub open spec fn put_tok(
    w: bitio::BitOut,
    byte: u8,
    t: Tok,
    e: nat,
    x: nat,
    rank: u8,
    esc: u32,
    new_esc: u32,
) -> bitio::BitOut {
    match t {
        Tok::Lit => put_literal(w, byte, e, esc, new_esc),
        Tok::Lz { len, dist } => put_lz(w, len, dist, e, x, esc),
        Tok::Rle { len } => put_rle(w, byte, len, e, esc, rank),
    }
}

/// What is written for the first `k` tokens.
pub open spec fn put_toks(
    data: Seq<u8>,
    toks: Seq<Tok>,
    newesc: Seq<u8>,
    start: nat,
    e: nat,
    x: nat,
    rank_of: Seq<u8>,
    k: int,
) -> bitio::BitOut
    decreases k,
{
    if k <= 0 {
        bitio::BitOut { bytes: Seq::<u8>::empty(), bpos: 0, left: 0, bt: false }
    } else {
        let byte = data[tok_pos(toks, k - 1)];
        put_tok(
            put_toks(data, toks, newesc, start, e, x, rank_of, k - 1),
            byte,
            toks[k - 1],
            e,
            x,
            rank_of[byte as int],
            esc_at(data, toks, newesc, start, e, k - 1) as u32,
            newesc[k - 1] as u32,
        )
    }
}

/// The stream of all tokens and the end marker.
pub open spec fn plan_bytes(
    data: Seq<u8>,
    toks: Seq<Tok>,
    newesc: Seq<u8>,
    start: nat,
    e: nat,
    x: nat,
    rank_of: Seq<u8>,
) -> Seq<u8> {
    let n = toks.len() as int;
    let w = put_toks(data, toks, newesc, start, e, x, rank_of, n);
    let a = pustream::put_bits(w, esc_at(data, toks, newesc, start, e, n) as u32, e as int);
    pustream::put_gamma(pustream::put_gamma(a, 2), SENTINEL).bytes
}

#[verifier::rlimit(40)]
fn emit_literal(w: &mut BitWriter, byte: u8, e: u32, esc: u8, new_esc: u8, Ghost(m): Ghost<PuMode>, Ghost(
    data,
): Ghost<Seq<u8>>, Ghost(i): Ghost<int>, Ghost(gap): Ghost<int>) -> (next: u8)
    requires
        old(w).ok(),
        e <= 8,
        m == out_mode(e as nat, m.extra, m.table),
        m.wf(),
        esc < pow2(e as nat),
        new_esc < pow2(e as nat),
        0 <= i < data.len(),
        data.len() <= 0x3fff_ffff,
        data[i] == byte,
    ensures
        final(w).ok(),
        next == if collides(byte, e as nat, esc as nat) {
            new_esc
        } else {
            esc
        },
        final(w)@ == put_literal(old(w)@, byte, e as nat, esc as u32, new_esc as u32),
        final(w)@.nbits() == old(w)@.nbits() + if collides(byte, e as nat, esc as nat) {
            11 + e
        } else {
            8
        },
        forall|d: Seq<u8>| #[trigger]
            bitio::agrees(final(w)@, d) ==> bitio::agrees(old(w)@, d) && pustream::pu_step(
                d,
                m,
                pu_at(data, i, old(w)@.st(), esc as nat, gap),
            ) == PuStep::Next(
                pu_at(
                    data,
                    i + 1,
                    final(w)@.st(),
                    next as nat,
                    gap_after(gap, i + 1, old(w)@.nbits()),
                ),
            ),
{
    let ghost w0 = w@;
    let p: u32 = two_to(8 - e);
    let sel: u32 = byte as u32 / p;
    let rest: u32 = byte as u32 % p;
    proof {
        lemma_selector(byte, e as nat);
        reveal_with_fuel(bitio::floor_log2, 2);
        assert(data.take(i).push(byte) =~= data.take(i + 1));
        pustream::lemma_small_values(e as nat);
        assert(sel == selector(byte, e as nat));
        assert(pustream::pu_byte(sel as nat, rest as nat, e as nat) == byte);
    }
    if e > 0 && sel != esc as u32 {
        w.bits(sel, e);
        let ghost w1 = w@;
        w.bits(rest, 8 - e);
        assert forall|d: Seq<u8>| #[trigger] bitio::agrees(w@, d) implies bitio::agrees(w0, d)
            && pustream::pu_step(d, m, pu_at(data, i, w0.st(), esc as nat, gap)) == PuStep::Next(
            pu_at(data, i + 1, w@.st(), esc as nat, gap_after(gap, i + 1, w0.nbits())),
        ) by {
            assert(bitio::agrees(w1, d));
        }
        esc
    } else {
        proof {
            pustream::lemma_whole_byte(e as nat, esc as nat, sel as nat, rest as nat);
            assert(pustream::pu_byte(esc as nat, rest as nat, e as nat) == byte);
        }
        w.bits(esc as u32, e);
        let ghost w1 = w@;
        w.gamma(1);
        let ghost w2 = w@;
        w.bit(1);
        let ghost w3 = w@;
        w.bit(0);
        let ghost w4 = w@;
        w.bits(new_esc as u32, e);
        let ghost w5 = w@;
        w.bits(rest, 8 - e);
        assert forall|d: Seq<u8>| #[trigger] bitio::agrees(w@, d) implies bitio::agrees(w0, d)
            && pustream::pu_step(d, m, pu_at(data, i, w0.st(), esc as nat, gap)) == PuStep::Next(
            pu_at(data, i + 1, w@.st(), new_esc as nat, gap_after(gap, i + 1, w0.nbits())),
        ) by {
            assert(bitio::agrees(w5, d));
            assert(bitio::agrees(w4, d));
            assert(bitio::agrees(w3, d));
            assert(bitio::agrees(w2, d));
            assert(bitio::agrees(w1, d));
        }
        new_esc
    }
}

/// What a long match does, from its parts.
proof fn lemma_step_lz(
    data: Seq<u8>,
    m: PuMode,
    d: PuState,
    s: Seq<bitio::BitPos>,
    a: nat,
    b: nat,
    mid: nat,
    low: nat,
    dist: int,
)
    requires
        s.len() == 5,
        m.max_gamma == 7,
        pustream::pu_bits(data, d.s, m.esc_bits) == Some((d.esc, s[0])),
        pustream::pu_gamma(data, s[0], 7) == Some((a, s[1])),
        a != 1,
        pustream::pu_gamma(data, s[1], 7) == Some((b, s[2])),
        b < 255,
        pustream::pu_bits(data, s[2], m.extra) == Some((mid, s[3])),
        pustream::pu_bits(data, s[3], 8) == Some((low, s[4])),
        dist == ((b - 1) * pow2(m.extra) + mid) * 256 + (255 - low) + 1,
    ensures
        pustream::pu_step(data, m, d) == pustream::pu_copy(
            d,
            s[4],
            dist,
            (a + 1) as nat,
            pustream::PuError::MatchUnderrun,
        ),
{
    pustream::lemma_small_values(0);
}

/// A copy that a match of the data makes.
proof fn lemma_copy_at(
    data: Seq<u8>,
    i: int,
    d: PuState,
    s: bitio::BitPos,
    dist: int,
    len: int,
    e: pustream::PuError,
)
    requires
        lz::is_match(data, i, dist, len),
        d.out == data.take(i),
        data.len() <= 0x3fff_ffff,
    ensures
        pustream::pu_copy(d, s, dist, len as nat, e) == PuStep::Next(
            pu_at(data, i + len, s, d.esc, gap_after(d.gap, i + len, pustream::bit_offset(d.s))),
        ),
{
    lz::lemma_lz_copy_match(data, i, dist, len);
}

fn emit_lz2(w: &mut BitWriter, dist: u32, e: u32, esc: u8, Ghost(m): Ghost<PuMode>, Ghost(data): Ghost<
    Seq<u8>,
>, Ghost(i): Ghost<int>, Ghost(gap): Ghost<int>)
    requires
        old(w).ok(),
        e <= 8,
        m == out_mode(e as nat, m.extra, m.table),
        esc < pow2(e as nat),
        1 <= dist <= 256,
        lz::is_match(data, i, dist as int, 2),
        data.len() <= 0x3fff_ffff,
    ensures
        final(w).ok(),
        final(w)@ == put_lz(old(w)@, 2, dist, e as nat, m.extra, esc as u32),
        final(w)@.nbits() == old(w)@.nbits() + e + 10,
        forall|d: Seq<u8>| #[trigger]
            bitio::agrees(final(w)@, d) ==> bitio::agrees(old(w)@, d) && pustream::pu_step(
                d,
                m,
                pu_at(data, i, old(w)@.st(), esc as nat, gap),
            ) == PuStep::Next(
                pu_at(
                    data,
                    i + 2,
                    final(w)@.st(),
                    esc as nat,
                    gap_after(gap, i + 2, old(w)@.nbits()),
                ),
            ),
{
    let ghost w0 = w@;
    proof {
        reveal_with_fuel(bitio::floor_log2, 2);
        pustream::lemma_small_values(e as nat);
    }
    w.bits(esc as u32, e);
    let ghost w1 = w@;
    w.gamma(1);
    let ghost w2 = w@;
    w.bit(0);
    let ghost w3 = w@;
    w.bits(256 - dist, 8);
    assert forall|s: Seq<u8>| #[trigger] bitio::agrees(w@, s) implies bitio::agrees(w0, s)
        && pustream::pu_step(s, m, pu_at(data, i, w0.st(), esc as nat, gap)) == PuStep::Next(
        pu_at(data, i + 2, w@.st(), esc as nat, gap_after(gap, i + 2, w0.nbits())),
    ) by {
        assert(bitio::agrees(w3, s));
        assert(bitio::agrees(w2, s));
        assert(bitio::agrees(w1, s));
        lemma_copy_at(
            data,
            i,
            pu_at(data, i, w0.st(), esc as nat, gap),
            w@.st(),
            dist as int,
            2,
            pustream::PuError::ShortMatchUnderrun,
        );
    }
}

#[verifier::rlimit(40)]
fn emit_lz(w: &mut BitWriter, len: u32, dist: u32, e: u32, x: u32, esc: u8, Ghost(m): Ghost<PuMode>, Ghost(
    data,
): Ghost<Seq<u8>>, Ghost(i): Ghost<int>, Ghost(gap): Ghost<int>)
    requires
        old(w).ok(),
        e <= 8,
        x <= 4,
        m == out_mode(e as nat, x as nat, m.table),
        esc < pow2(e as nat),
        tok_ok(data, i, Tok::Lz { len, dist }, x as nat),
        data.len() <= 0x3fff_ffff,
    ensures
        final(w).ok(),
        final(w)@ == put_lz(old(w)@, len, dist, e as nat, x as nat, esc as u32),
        final(w)@.nbits() == old(w)@.nbits() + lz_bits(e as nat, x as nat, len as int, dist as int),
        forall|d: Seq<u8>| #[trigger]
            bitio::agrees(final(w)@, d) ==> bitio::agrees(old(w)@, d) && pustream::pu_step(
                d,
                m,
                pu_at(data, i, old(w)@.st(), esc as nat, gap),
            ) == PuStep::Next(
                pu_at(
                    data,
                    i + len,
                    final(w)@.st(),
                    esc as nat,
                    gap_after(gap, i + len, old(w)@.nbits()),
                ),
            ),
{
    if len == 2 {
        emit_lz2(w, dist, e, esc, Ghost(m), Ghost(data), Ghost(i), Ghost(gap));
        return ;
    }
    let ghost w0 = w@;
    let d: u32 = dist - 1;
    let p: u32 = two_to(x);
    let q: u32 = d / 256;
    let high: u32 = q / p;
    let mid: u32 = q % p;
    let low: u32 = d % 256;
    proof {
        pustream::lemma_small_values(e as nat);
        vstd::arithmetic::div_mod::lemma_fundamental_div_mod(q as int, p as int);
        assert((high * p + mid) * 256 + low == d) by (nonlinear_arith)
            requires
                q == p * high + mid,
                d == 256 * q + low,
        ;
    }
    w.bits(esc as u32, e);
    let ghost w1 = w@;
    w.gamma(len - 1);
    let ghost w2 = w@;
    w.gamma(high + 1);
    let ghost w3 = w@;
    w.bits(mid, x);
    let ghost w4 = w@;
    w.bits(255 - low, 8);
    let ghost w5 = w@;
    assert forall|s: Seq<u8>| #[trigger] bitio::agrees(w@, s) implies bitio::agrees(w0, s)
        && pustream::pu_step(s, m, pu_at(data, i, w0.st(), esc as nat, gap)) == PuStep::Next(
        pu_at(data, i + len, w@.st(), esc as nat, gap_after(gap, i + len, w0.nbits())),
    ) by {
        assert(bitio::agrees(w4, s));
        assert(bitio::agrees(w3, s));
        assert(bitio::agrees(w2, s));
        assert(bitio::agrees(w1, s));
        let st = pu_at(data, i, w0.st(), esc as nat, gap);
        let b = (high + 1) as nat;
        assert((b - 1) * pow2(m.extra) == high * p);
        lemma_step_lz(
            s,
            m,
            st,
            seq![w1.st(), w2.st(), w3.st(), w4.st(), w5.st()],
            (len - 1) as nat,
            b,
            mid as nat,
            (255 - low) as nat,
            dist as int,
        );
        lemma_copy_at(
            data,
            i,
            st,
            w5.st(),
            dist as int,
            len as int,
            pustream::PuError::MatchUnderrun,
        );
    }
}

/// Length of a run less one.
fn emit_run(w: &mut BitWriter, n: u32, Ghost(m): Ghost<PuMode>)
    requires
        old(w).ok(),
        1 <= n < MAX_RLE_LEN,
        m.max_gamma == 7,
    ensures
        final(w).ok(),
        final(w)@ == put_run(old(w)@, n),
        final(w)@.nbits() == old(w)@.nbits() + if n < 128 {
            pustream::pu_gamma_len(n as nat) as int
        } else {
            15int + pustream::pu_gamma_len((n / 256 + 1) as nat)
        },
        forall|d: Seq<u8>| #[trigger]
            bitio::agrees(final(w)@, d) ==> bitio::agrees(old(w)@, d) && pustream::pu_read_run(
                d,
                m,
                old(w)@.st(),
            ) == Some((n as nat, final(w)@.st())),
{
    let ghost w0 = w@;
    proof {
        pustream::lemma_small_values(1);
    }
    if (n as usize) < SHORT_RLE_LIMIT {
        w.gamma(n);
    } else {
        let first: u32 = 128 + (n % 256) / 2;
        proof {
            lemma_top_gamma(first);
        }
        w.gamma(first);
        let ghost w1 = w@;
        w.bits((n % 256) % 2, 1);
        let ghost w2 = w@;
        w.gamma(n / 256 + 1);
        assert forall|d: Seq<u8>| #[trigger] bitio::agrees(w@, d) implies bitio::agrees(w0, d)
            && pustream::pu_read_run(d, m, w0.st()) == Some((n as nat, w@.st())) by {
            assert(bitio::agrees(w2, d));
            assert(bitio::agrees(w1, d));
            assert((first - 128) * pow2(1) == (first - 128) * 2) by (nonlinear_arith)
                requires
                    pow2(1) == 2,
            ;
        }
    }
}

/// The byte of a run.
fn emit_run_byte(w: &mut BitWriter, byte: u8, rank: u8, Ghost(m): Ghost<PuMode>)
    requires
        old(w).ok(),
        m.max_gamma == 7,
        m.table.len() <= 15,
        rank > 0 ==> rank <= m.table.len() && m.table[rank - 1] == byte,
    ensures
        final(w).ok(),
        final(w)@ == put_run_byte(old(w)@, byte, rank),
        final(w)@.nbits() == old(w)@.nbits() + rle_byte_bits(rank),
        forall|d: Seq<u8>| #[trigger]
            bitio::agrees(final(w)@, d) ==> bitio::agrees(old(w)@, d) && pustream::pu_read_byte(
                d,
                m,
                old(w)@.st(),
            ) == Ok::<(u8, bitio::BitPos), pustream::PuError>((byte, final(w)@.st())),
{
    let ghost w0 = w@;
    proof {
        pustream::lemma_small_values(1);
    }
    if rank != 0 {
        w.gamma(rank as u32);
    } else {
        let code: u32 = 16 + byte as u32 / 16;
        proof {
            lemma_byte_gamma(code);
        }
        w.gamma(code);
        let ghost w1 = w@;
        w.bits(byte as u32 % 16, 4);
        assert forall|d: Seq<u8>| #[trigger] bitio::agrees(w@, d) implies bitio::agrees(w0, d)
            && pustream::pu_read_byte(d, m, w0.st()) == Ok::<
            (u8, bitio::BitPos),
            pustream::PuError,
        >((byte, w@.st())) by {
            assert(bitio::agrees(w1, d));
        }
    }
}

#[verifier::rlimit(40)]
fn emit_rle(w: &mut BitWriter, byte: u8, len: u32, e: u32, esc: u8, rank: u8, Ghost(m): Ghost<PuMode>, Ghost(
    data,
): Ghost<Seq<u8>>, Ghost(i): Ghost<int>, Ghost(gap): Ghost<int>)
    requires
        old(w).ok(),
        e <= 8,
        m == out_mode(e as nat, m.extra, m.table),
        m.table.len() <= 15,
        esc < pow2(e as nat),
        tok_ok(data, i, Tok::Rle { len }, m.extra),
        data[i] == byte,
        rank > 0 ==> rank <= m.table.len() && m.table[rank - 1] == byte,
        data.len() <= 0x3fff_ffff,
    ensures
        final(w).ok(),
        final(w)@ == put_rle(old(w)@, byte, len, e as nat, esc as u32, rank),
        final(w)@.nbits() == old(w)@.nbits() + rle_bits(e as nat, len as int, rle_byte_bits(rank)),
        forall|d: Seq<u8>| #[trigger]
            bitio::agrees(final(w)@, d) ==> bitio::agrees(old(w)@, d) && pustream::pu_step(
                d,
                m,
                pu_at(data, i, old(w)@.st(), esc as nat, gap),
            ) == PuStep::Next(
                pu_at(
                    data,
                    i + len,
                    final(w)@.st(),
                    esc as nat,
                    gap_after(gap, i + len, old(w)@.nbits()),
                ),
            ),
{
    let ghost w0 = w@;
    proof {
        reveal_with_fuel(bitio::floor_log2, 2);
        pustream::lemma_small_values(e as nat);
        assert(pustream::pu_fill(data.take(i), byte, len as nat) =~= data.take(i + len));
    }
    w.bits(esc as u32, e);
    let ghost w1 = w@;
    w.gamma(1);
    let ghost w2 = w@;
    w.bit(1);
    let ghost w3 = w@;
    w.bit(1);
    let ghost w4 = w@;
    emit_run(w, len - 1, Ghost(m));
    let ghost w5 = w@;
    emit_run_byte(w, byte, rank, Ghost(m));
    assert forall|d: Seq<u8>| #[trigger] bitio::agrees(w@, d) implies bitio::agrees(w0, d)
        && pustream::pu_step(d, m, pu_at(data, i, w0.st(), esc as nat, gap)) == PuStep::Next(
        pu_at(data, i + len, w@.st(), esc as nat, gap_after(gap, i + len, w0.nbits())),
    ) by {
        assert(bitio::agrees(w5, d));
        assert(bitio::agrees(w4, d));
        assert(bitio::agrees(w3, d));
        assert(bitio::agrees(w2, d));
        assert(bitio::agrees(w1, d));
    }
}

/// Codes from 128 on have seven leading ones and no zero behind them.
proof fn lemma_top_gamma(v: u32)
    requires
        128 <= v <= 255,
    ensures
        pustream::pu_gamma_len(v as nat) == 14,
{
    bitio::lemma_gamma_monotone(128, v as nat);
    bitio::lemma_gamma_monotone(v as nat, 255);
    reveal_with_fuel(bitio::floor_log2, 9);
}

proof fn lemma_byte_gamma(v: u32)
    requires
        16 <= v <= 31,
    ensures
        pustream::pu_gamma_len(v as nat) == 9,
{
    bitio::lemma_gamma_monotone(16, v as nat);
    bitio::lemma_gamma_monotone(v as nat, 31);
    reveal_with_fuel(bitio::floor_log2, 9);
}

// ---------------------------------------------------------------------------
// Streams
// ---------------------------------------------------------------------------
/// `k` tokens lead from `a` to `b`.
pub open spec fn pu_steps(data: Seq<u8>, m: PuMode, a: PuState, b: PuState, k: nat) -> bool
    decreases k,
{
    if k == 0 {
        a == b
    } else {
        match pustream::pu_step(data, m, a) {
            PuStep::Next(c) => pu_steps(data, m, c, b, (k - 1) as nat),
            _ => false,
        }
    }
}

proof fn lemma_pu_steps_push(data: Seq<u8>, m: PuMode, a: PuState, b: PuState, c: PuState, k: nat)
    requires
        pu_steps(data, m, a, b, k),
        pustream::pu_step(data, m, b) == PuStep::Next(c),
    ensures
        pu_steps(data, m, a, c, k + 1),
    decreases k,
{
    if k > 0 {
        if let PuStep::Next(d) = pustream::pu_step(data, m, a) {
            lemma_pu_steps_push(data, m, d, b, c, (k - 1) as nat);
        }
    } else {
        assert(pu_steps(data, m, c, c, 0));
    }
}

/// Tokens use up bits, so that the fuel lasts.
proof fn lemma_pu_steps_run(data: Seq<u8>, m: PuMode, a: PuState, b: PuState, k: nat, fuel: nat)
    requires
        pu_steps(data, m, a, b, k),
        pustream::pu_wf(data, a.s),
        data.len() <= usize::MAX,
        m.wf(),
        zx02::bits_left(data, a.s) < fuel,
    ensures
        pustream::pu_wf(data, b.s),
        zx02::bits_left(data, b.s) + k <= zx02::bits_left(data, a.s),
        k < fuel,
        pustream::pu_run(data, m, a, fuel) == pustream::pu_run(data, m, b, (fuel - k) as nat),
    decreases k,
{
    if k > 0 {
        if let PuStep::Next(c) = pustream::pu_step(data, m, a) {
            pustream::lemma_pu_step_left(data, m, a);
            lemma_pu_steps_run(data, m, c, b, (k - 1) as nat, (fuel - 1) as nat);
        }
    }
}

proof fn lemma_gamma_small(v: nat)
    requires
        v <= 255,
    ensures
        pustream::pu_gamma_len(v) <= 14,
{
    bitio::lemma_gamma_monotone(v, 255);
    reveal_with_fuel(bitio::floor_log2, 9);
}

proof fn lemma_tok_bits_bound(
    data: Seq<u8>,
    i: int,
    t: Tok,
    e: nat,
    x: nat,
    rank_of: Seq<u8>,
    esc: nat,
)
    requires
        tok_ok(data, i, t, x),
        e <= 8,
        x <= 4,
        rank_of[data[i] as int] <= 15,
    ensures
        tok_bits(data, i, t, e, x, rank_of, esc) <= 60 * tok_len(t),
{
    match t {
        Tok::Lit => {},
        Tok::Lz { len, dist } => {
            if len > 2 {
                vstd::arithmetic::power2::lemma_pow2_pos(x);
                vstd::arithmetic::div_mod::lemma_div_pos_is_pos(
                    (dist - 1) / 256,
                    pow2(x) as int,
                );
                lemma_gamma_small((len - 1) as nat);
                lemma_gamma_small((dist_high(dist as int, x) + 1) as nat);
            }
        },
        Tok::Rle { len } => {
            lemma_gamma_small(rank_of[data[i] as int] as nat);
            if len - 1 < 128 {
                lemma_gamma_small((len - 1) as nat);
            } else {
                lemma_gamma_small(((len - 1) / 256 + 1) as nat);
            }
        },
    }
}

/// The stream of the end alone.
pub open spec fn end_bytes(start_esc: u8, esc_bits: u32) -> Seq<u8> {
    let w = bitio::BitOut { bytes: Seq::<u8>::empty(), bpos: 0, left: 0, bt: false };
    let a = pustream::put_bits(w, start_esc as u32, esc_bits as int);
    pustream::put_gamma(pustream::put_gamma(a, 2), SENTINEL).bytes
}

proof fn lemma_end_masks()
    by (bit_vector)
    ensures
        0u8 | (1u8 << 5u8) == 0x20u8,
        0x20u8 | (1u8 << 2u8) == 0x24u8,
        0x24u8 | (1u8 << 1u8) == 0x26u8,
        0x26u8 | (1u8 << 0u8) == 0x27u8,
        0x80u8 | (1u8 << 6u8) == 0xc0u8,
        0xc0u8 | (1u8 << 5u8) == 0xe0u8,
        0xe0u8 | (1u8 << 4u8) == 0xf0u8,
        0xf0u8 | (1u8 << 3u8) == 0xf8u8,
        0xf8u8 | (1u8 << 2u8) == 0xfcu8,
        0xfcu8 | (1u8 << 1u8) == 0xfeu8,
        0xfeu8 | (1u8 << 0u8) == 0xffu8,
        (0u32 >> 0u32) & 1u32 == 0u32,
        (0u32 >> 1u32) & 1u32 == 0u32,
        (2u32 >> 0u32) & 1u32 == 0u32,
        (255u32 >> 0u32) & 1u32 == 1u32,
        (255u32 >> 1u32) & 1u32 == 1u32,
        (255u32 >> 2u32) & 1u32 == 1u32,
        (255u32 >> 3u32) & 1u32 == 1u32,
        (255u32 >> 4u32) & 1u32 == 1u32,
        (255u32 >> 5u32) & 1u32 == 1u32,
        (255u32 >> 6u32) & 1u32 == 1u32,
{
}

/// The end alone, with the parameters of an empty input.
#[verifier::rlimit(40)]
pub proof fn lemma_end_bytes()
    ensures
        end_bytes(0, 2) == seq![0x27u8, 0xff, 0xe0],
{
    lemma_end_masks();
    let w0 = bitio::BitOut { bytes: Seq::<u8>::empty(), bpos: 0, left: 0, bt: false };
    reveal_with_fuel(bitio::floor_log2, 9);
    reveal_with_fuel(pustream::put_bits, 9);
    reveal_with_fuel(pustream::put_ones, 9);
    let w1 = bitio::put_bit(w0, false);
    assert(w1.bytes =~= seq![0u8] && w1.bpos == 0 && w1.left == 7);
    let w2 = bitio::put_bit(w1, false);
    assert(w2.bytes =~= seq![0u8] && w2.left == 6);
    assert(pustream::put_bits(w0, 0, 2) == w2);
    let w3 = bitio::put_bit(w2, true);
    assert(w3.bytes =~= seq![0x20u8] && w3.left == 5);
    let w4 = bitio::put_bit(w3, false);
    let w5 = bitio::put_bit(w4, false);
    assert(w5.bytes =~= seq![0x20u8] && w5.left == 3 && w5.bpos == 0);
    assert(bitio::floor_log2(2) == 1);
    assert(pustream::put_gamma(w2, 2) == w5);
    let w6 = bitio::put_bit(w5, true);
    assert(w6.bytes =~= seq![0x24u8]);
    let w7 = bitio::put_bit(w6, true);
    assert(w7.bytes =~= seq![0x26u8]);
    let w8 = bitio::put_bit(w7, true);
    assert(w8.bytes =~= seq![0x27u8] && w8.left == 0);
    let a1 = bitio::put_bit(w8, true);
    assert(a1.bytes =~= seq![0x27u8, 0x80] && a1.left == 7 && a1.bpos == 1);
    let a2 = bitio::put_bit(a1, true);
    assert(a2.bytes =~= seq![0x27u8, 0xc0]);
    let a3 = bitio::put_bit(a2, true);
    assert(a3.bytes =~= seq![0x27u8, 0xe0]);
    let a4 = bitio::put_bit(a3, true);
    assert(a4.bytes =~= seq![0x27u8, 0xf0]);
    let a5 = bitio::put_bit(a4, true);
    assert(a5.bytes =~= seq![0x27u8, 0xf8]);
    let a6 = bitio::put_bit(a5, true);
    assert(a6.bytes =~= seq![0x27u8, 0xfc]);
    let a7 = bitio::put_bit(a6, true);
    assert(a7.bytes =~= seq![0x27u8, 0xfe]);
    let a8 = bitio::put_bit(a7, true);
    assert(a8.bytes =~= seq![0x27u8, 0xff] && a8.left == 0);
    let b1 = bitio::put_bit(a8, true);
    assert(b1.bytes =~= seq![0x27u8, 0xff, 0x80] && b1.left == 7 && b1.bpos == 2);
    let b2 = bitio::put_bit(b1, true);
    assert(b2.bytes =~= seq![0x27u8, 0xff, 0xc0]);
    let b3 = bitio::put_bit(b2, true);
    assert(b3.bytes =~= seq![0x27u8, 0xff, 0xe0]);
    assert(bitio::floor_log2(255) == 7);
    assert(pustream::put_ones(w5, 7) == a4);
    assert(pustream::put_bits(a4, 255, 7) == b3);
    assert(pustream::put_gamma(w5, 255) == b3);
}

/// Stream of a plan, and the gap of its decoder.
#[verifier::rlimit(60)]
pub fn emit(data: &[u8], plan: &Plan, table: &Vec<u8>, rank_of: &Vec<u8>) -> (r: (Vec<u8>, i64))
    requires
        plan.ok(data@),
        data@.len() <= 0x3fff_ffff,
        rank_ok(table@, rank_of@),
    ensures
        pustream::pu_stream(
            r.0@,
            out_mode(plan.esc_bits as nat, plan.extra as nat, table@),
            plan.start_esc as nat,
        ) == Ok::<(Seq<u8>, int), pustream::PuError>((data@, r.1 as int)),
        r.0@.len() == zx::bytes_for(plan.bits_of(data@, rank_of@)),
        r.1 < data@.len(),
        r.0@ == plan_bytes(
            data@,
            plan.tokens@,
            plan.newesc@,
            plan.start_esc as nat,
            plan.esc_bits as nat,
            plan.extra as nat,
            rank_of@,
        ),
        plan.tokens@.len() == 0 ==> r.0@ == end_bytes(plan.start_esc, plan.esc_bits),
{
    let n: usize = data.len();
    let count: usize = plan.tokens.len();
    let e: u32 = plan.esc_bits;
    let x: u32 = plan.extra;
    let ghost m = out_mode(e as nat, x as nat, table@);
    let ghost start = pustream::pu_start(plan.start_esc as nat);
    let mut w: BitWriter = BitWriter::new();
    let mut esc: u8 = plan.start_esc;
    let mut gap: i64 = NO_GAP;
    let mut i: usize = 0;
    let mut k: usize = 0;
    assert(data@.take(0) =~= Seq::<u8>::empty());
    while k < count
        invariant
            plan.ok(data@),
            rank_ok(table@, rank_of@),
            n == data@.len(),
            n <= 0x3fff_ffff,
            count == plan.tokens@.len(),
            k <= count,
            e == plan.esc_bits,
            x == plan.extra,
            m == out_mode(e as nat, x as nat, table@),
            start == pustream::pu_start(plan.start_esc as nat),
            i == tok_pos(plan.tokens@, k as int),
            i <= n,
            w.ok(),
            esc == esc_at(
                data@,
                plan.tokens@,
                plan.newesc@,
                plan.start_esc as nat,
                e as nat,
                k as int,
            ),
            esc < pow2(e as nat),
            w@.nbits() == stream_bits(
                data@,
                plan.tokens@,
                plan.newesc@,
                plan.start_esc as nat,
                e as nat,
                x as nat,
                rank_of@,
                k as int,
            ),
            gap < i,
            w@ == put_toks(
                data@,
                plan.tokens@,
                plan.newesc@,
                plan.start_esc as nat,
                e as nat,
                x as nat,
                rank_of@,
                k as int,
            ),
            w@.nbits() <= 60 * i,
            forall|d: Seq<u8>| #[trigger]
                bitio::agrees(w@, d) ==> pu_steps(
                    d,
                    m,
                    start,
                    pu_at(data@, i as int, w@.st(), esc as nat, gap as int),
                    k as nat,
                ),
        decreases count - k,
    {
        let t: Tok = plan.tokens[k];
        proof {
            assert(tok_fits(data@, plan.tokens@, x as nat, k as int));
            assert(rank_of@[data@[i as int] as int] > 0 ==> rank_of@[data@[i as int] as int]
                <= table@.len());
            lemma_tok_bits_bound(data@, i as int, t, e as nat, x as nat, rank_of@, esc as nat);
        }
        let ghost w0 = w@;
        let ghost esc0 = esc;
        let ghost gap0 = gap;
        let ghost i0 = i;
        let from: usize = w.byte_offset();
        let byte: u8 = data[i];
        match t {
            Tok::Lit => {
                esc = emit_literal(
                    &mut w,
                    byte,
                    e,
                    esc,
                    plan.newesc[k],
                    Ghost(m),
                    Ghost(data@),
                    Ghost(i as int),
                    Ghost(gap as int),
                );
            },
            Tok::Lz { len, dist } => {
                emit_lz(
                    &mut w,
                    len,
                    dist,
                    e,
                    x,
                    esc,
                    Ghost(m),
                    Ghost(data@),
                    Ghost(i as int),
                    Ghost(gap as int),
                );
            },
            Tok::Rle { len } => {
                emit_rle(
                    &mut w,
                    byte,
                    len,
                    e,
                    esc,
                    rank_of[byte as usize],
                    Ghost(m),
                    Ghost(data@),
                    Ghost(i as int),
                    Ghost(gap as int),
                );
            },
        }
        i += token_len(&t) as usize;
        let g: i64 = i as i64 - 1 - from as i64;
        if g > gap {
            gap = g;
        }
        assert forall|d: Seq<u8>| #[trigger] bitio::agrees(w@, d) implies pu_steps(
            d,
            m,
            start,
            pu_at(data@, i as int, w@.st(), esc as nat, gap as int),
            (k + 1) as nat,
        ) by {
            assert(bitio::agrees(w0, d));
            lemma_pu_steps_push(
                d,
                m,
                start,
                pu_at(data@, i0 as int, w0.st(), esc0 as nat, gap0 as int),
                pu_at(data@, i as int, w@.st(), esc as nat, gap as int),
                k as nat,
            );
        }
        k += 1;
    }
    let ghost w0 = w@;
    w.bits(esc as u32, e);
    let ghost w1 = w@;
    w.gamma(2);
    let ghost w2 = w@;
    w.gamma(SENTINEL);
    let ghost w3 = w@;
    let out: Vec<u8> = w.finish();
    proof {
        let d = out@;
        assert(bitio::agrees(w3, d));
        assert(bitio::agrees(w2, d));
        assert(bitio::agrees(w1, d));
        assert(bitio::agrees(w0, d));
        let a = pu_at(data@, n as int, w0.st(), esc as nat, gap as int);
        lemma_pu_steps_run(d, m, start, a, count as nat, zx02::z_fuel(d));
        pustream::lemma_small_values(e as nat);
        assert(pustream::pu_step(d, m, a) is Done);
        assert(data@.take(n as int) =~= data@);
        reveal_with_fuel(bitio::floor_log2, 9);
    }
    (out, gap)
}

proof fn lemma_stream_bits_bound(data: Seq<u8>, plan: &Plan, rank_of: Seq<u8>, k: int)
    requires
        plan.ok(data),
        rank_of.len() == 256,
        forall|b: int| 0 <= b < 256 ==> #[trigger] rank_of[b] <= 15,
        0 <= k <= plan.tokens@.len(),
    ensures
        stream_bits(
            data,
            plan.tokens@,
            plan.newesc@,
            plan.start_esc as nat,
            plan.esc_bits as nat,
            plan.extra as nat,
            rank_of,
            k,
        ) <= 60 * tok_pos(plan.tokens@, k),
    decreases k,
{
    if k > 0 {
        lemma_stream_bits_bound(data, plan, rank_of, k - 1);
        assert(tok_fits(data, plan.tokens@, plan.extra as nat, k - 1));
        lemma_tok_bits_bound(
            data,
            tok_pos(plan.tokens@, k - 1),
            plan.tokens@[k - 1],
            plan.esc_bits as nat,
            plan.extra as nat,
            rank_of,
            esc_at(
                data,
                plan.tokens@,
                plan.newesc@,
                plan.start_esc as nat,
                plan.esc_bits as nat,
                k - 1,
            ),
        );
    }
}

/// No plan takes more than 60 bits for a byte.
pub proof fn lemma_plan_bits_bound(data: Seq<u8>, plan: &Plan, rank_of: Seq<u8>)
    requires
        plan.ok(data),
        rank_of.len() == 256,
        forall|b: int| 0 <= b < 256 ==> #[trigger] rank_of[b] <= 15,
    ensures
        plan.bits_of(data, rank_of) <= 60 * data.len() + 25,
{
    lemma_stream_bits_bound(data, plan, rank_of, plan.tokens@.len() as int);
}

} // verus!
