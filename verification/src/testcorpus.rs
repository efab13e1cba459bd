//! Byte strings for tests and measurements, the same on every run.
use crate::text;
use crate::text::push_decimal;
use vstd::prelude::*;

verus! {

/// The next state of the generator of pseudo-random numbers.
#[verifier::opaque]
pub open spec fn lcg_next(s: u32) -> u32 {
    s.wrapping_mul(1664525).wrapping_add(1013904223)
}

/// The state after `k` steps.
pub open spec fn lcg_at(seed: u32, k: int) -> u32
    decreases k,
{
    if k <= 0 {
        seed
    } else {
        lcg_next(lcg_at(seed, k - 1))
    }
}

/// The upper byte of a state.
pub open spec fn top_byte(s: u32) -> u8 {
    (s >> 24u32) as u8
}

fn lcg(state: &mut u32) -> (s: u32)
    ensures
        s == lcg_next(*old(state)),
        *final(state) == s,
{
    proof {
        reveal(lcg_next);
    }
    *state = state.wrapping_mul(1664525).wrapping_add(1013904223);
    *state
}

/// A piece of a string, and the generator behind it.
pub struct Piece {
    pub bytes: Seq<u8>,
    pub s: u32,
}

/// `count` times the byte `b`.
pub open spec fn repeated(b: u8, count: int) -> Seq<u8> {
    Seq::new(count as nat, |i: int| b)
}

/// `count` pseudo-random bytes.
pub open spec fn random_bytes(s: u32, count: int, shift: u32) -> Piece
    decreases count,
{
    if count <= 0 {
        Piece { bytes: Seq::empty(), s }
    } else {
        let p = random_bytes(s, count - 1, shift);
        let t = lcg_next(p.s);
        Piece { bytes: p.bytes.push((t >> shift) as u8), s: t }
    }
}

fn push_repeated(out: &mut Vec<u8>, b: u8, count: usize)
    ensures
        final(out)@ == old(out)@ + repeated(b, count as int),
{
    let ghost o = out@;
    let mut k: usize = 0;
    while k < count
        invariant
            k <= count,
            out@ == o + repeated(b, k as int),
        decreases count - k,
    {
        out.push(b);
        k += 1;
        assert(out@ =~= o + repeated(b, k as int));
    }
    assert(out@ =~= o + repeated(b, count as int));
}

fn push_random(out: &mut Vec<u8>, s: &mut u32, count: usize, shift: u32)
    requires
        shift < 32,
    ensures
        final(out)@ == old(out)@ + random_bytes(*old(s), count as int, shift).bytes,
        *final(s) == random_bytes(*old(s), count as int, shift).s,
{
    let ghost o = out@;
    let ghost s0 = *s;
    let mut k: usize = 0;
    assert(o =~= o + random_bytes(s0, 0, shift).bytes);
    while k < count
        invariant
            shift < 32,
            k <= count,
            out@ == o + random_bytes(s0, k as int, shift).bytes,
            *s == random_bytes(s0, k as int, shift).s,
        decreases count - k,
    {
        let t: u32 = lcg(s);
        out.push((t >> shift) as u8);
        k += 1;
        assert(out@ =~= o + random_bytes(s0, k as int, shift).bytes);
    }
}

/// Appends a string.
fn push_all(out: &mut Vec<u8>, bytes: &Vec<u8>)
    ensures
        final(out)@ == old(out)@ + bytes@,
{
    let n: usize = bytes.len();
    let ghost o = out@;
    let mut k: usize = 0;
    assert(o =~= o + bytes@.take(0));
    while k < n
        invariant
            n == bytes@.len(),
            k <= n,
            out@ == o + bytes@.take(k as int),
        decreases n - k,
    {
        out.push(bytes[k]);
        k += 1;
        assert(out@ =~= o + bytes@.take(k as int));
    }
    assert(bytes@.take(n as int) =~= bytes@);
}

/// Cuts a string to its first `n` bytes.
fn first_bytes(bytes: &Vec<u8>, n: usize) -> (out: Vec<u8>)
    requires
        n <= bytes@.len(),
    ensures
        out@ == bytes@.take(n as int),
{
    let mut out: Vec<u8> = Vec::with_capacity(n);
    let mut k: usize = 0;
    while k < n
        invariant
            k <= n <= bytes@.len(),
            out@ == bytes@.take(k as int),
        decreases n - k,
    {
        out.push(bytes[k]);
        k += 1;
        assert(out@ =~= bytes@.take(k as int));
    }
    out
}

// ---------------------------------------------------------------------------
// Strings with a rule for each byte
// ---------------------------------------------------------------------------
/// Nothing but zeros.
pub fn zeros(n: usize) -> (out: Vec<u8>)
    ensures
        out@ == repeated(0, n as int),
{
    let mut out: Vec<u8> = Vec::new();
    push_repeated(&mut out, 0, n);
    assert(out@ =~= repeated(0, n as int));
    out
}

/// The pattern in the memory of a C64 when it is switched on.
pub open spec fn power_on_at(i: int) -> u8 {
    if (i / 64) % 2 == 0 {
        0x00
    } else {
        0xff
    }
}

/// The pattern in the memory of a C64 when it is switched on: 64 bytes of zero
/// and 64 bytes of 255 in turn.
pub fn power_on(n: usize) -> (out: Vec<u8>)
    ensures
        out@ == Seq::new(n as nat, |i: int| power_on_at(i)),
{
    let mut out: Vec<u8> = Vec::new();
    let mut i: usize = 0;
    while i < n
        invariant
            i <= n,
            out@ == Seq::new(i as nat, |j: int| power_on_at(j)),
        decreases n - i,
    {
        out.push(
            if (i / 64) % 2 == 0 {
                0x00
            } else {
                0xff
            },
        );
        i += 1;
        assert(out@ =~= Seq::new(i as nat, |j: int| power_on_at(j)));
    }
    out
}

/// Bytes without any order.
pub fn noise(n: usize) -> (out: Vec<u8>)
    ensures
        out@ == random_bytes(0x1234_5678, n as int, 24).bytes,
{
    let mut s: u32 = 0x1234_5678;
    let mut out: Vec<u8> = Vec::new();
    push_random(&mut out, &mut s, n, 24);
    assert(out@ =~= random_bytes(0x1234_5678, n as int, 24).bytes);
    out
}

/// A short cycle.
pub fn periodic(n: usize) -> (out: Vec<u8>)
    ensures
        out@ == Seq::new(n as nat, |i: int| (i % 13) as u8),
{
    let mut out: Vec<u8> = Vec::new();
    push_cycle(&mut out, 13, n);
    assert(out@ =~= Seq::new(n as nat, |i: int| (i % 13) as u8));
    out
}

/// Counts up to `p` again and again.
fn push_cycle(out: &mut Vec<u8>, p: usize, count: usize)
    requires
        1 <= p <= 255,
    ensures
        final(out)@ == old(out)@ + Seq::new(count as nat, |i: int| (i % (p as int)) as u8),
{
    let ghost o = out@;
    let mut k: usize = 0;
    while k < count
        invariant
            1 <= p <= 255,
            k <= count,
            out@ == o + Seq::new(k as nat, |i: int| (i % (p as int)) as u8),
        decreases count - k,
    {
        out.push((k % p) as u8);
        k += 1;
        assert(out@ =~= o + Seq::new(k as nat, |i: int| (i % (p as int)) as u8));
    }
    assert(out@ =~= o + Seq::new(count as nat, |i: int| (i % (p as int)) as u8));
}

/// A byte of two values.
pub open spec fn binary_byte(s: u32) -> u8 {
    if s >= 0x8000_0000 {
        0xff
    } else {
        0x00
    }
}

/// Two bytes in random order.
pub fn binary_ish(n: usize) -> (out: Vec<u8>)
    ensures
        out@ == Seq::new(n as nat, |i: int| binary_byte(lcg_at(0x2468_ace0, i + 1))),
{
    let mut s: u32 = 0x2468_ace0;
    let mut out: Vec<u8> = Vec::new();
    let mut i: usize = 0;
    while i < n
        invariant
            i <= n,
            s == lcg_at(0x2468_ace0, i as int),
            out@ == Seq::new(i as nat, |j: int| binary_byte(lcg_at(0x2468_ace0, j + 1))),
        decreases n - i,
    {
        let t: u32 = lcg(&mut s);
        out.push(
            if t >= 0x8000_0000 {
                0xff
            } else {
                0x00
            },
        );
        i += 1;
        assert(out@ =~= Seq::new(i as nat, |j: int| binary_byte(lcg_at(0x2468_ace0, j + 1))));
    }
    out
}

// ---------------------------------------------------------------------------
// Strings in pieces
// ---------------------------------------------------------------------------
/// Operation codes of the 6502.
pub open spec fn few_ops() -> Seq<u8> {
    seq![
        0xa9u8, 0x8d, 0xad, 0x20, 0x60, 0xa2, 0xbd, 0x9d, 0xe8, 0xd0, 0x4c, 0xea,
    ]
}

/// An operation code and up to three operand bytes.
pub open spec fn code_piece(s: u32) -> Piece {
    let a = lcg_next(s);
    let b = lcg_next(a);
    let rest = random_bytes(b, (b >> 30u32) as int, 20);
    Piece { bytes: seq![few_ops()[(a >> 24u32) as int % 12]] + rest.bytes, s: rest.s }
}

/// Pieces until there are `n` bytes or more.
pub open spec fn code_from(s: u32, have: Seq<u8>, n: int) -> Seq<u8>
    decreases
            if have.len() < n {
                n - have.len()
            } else {
                0
            },
{
    if have.len() >= n {
        have
    } else {
        let p = code_piece(s);
        code_from(p.s, have + p.bytes, n)
    }
}

/// Bytes like machine code: operation codes with operands.
pub fn code_like(n: usize) -> (out: Vec<u8>)
    ensures
        out@ == code_from(0x0bad_c0de, Seq::empty(), n as int).take(n as int),
{
    let ops: Vec<u8> = vec![
        0xa9u8, 0x8d, 0xad, 0x20, 0x60, 0xa2, 0xbd, 0x9d, 0xe8, 0xd0, 0x4c, 0xea,
    ];
    assert(ops@ =~= few_ops());
    let mut s: u32 = 0x0bad_c0de;
    let mut out: Vec<u8> = Vec::new();
    while out.len() < n
        invariant
            ops@ == few_ops(),
            code_from(s, out@, n as int) == code_from(0x0bad_c0de, Seq::empty(), n as int),
        decreases
                if out@.len() < n {
                    n - out@.len()
                } else {
                    0
                },
    {
        let ghost o = out@;
        let ghost s0 = s;
        let a: u32 = lcg(&mut s);
        out.push(ops[(a >> 24) as usize % 12]);
        let b: u32 = lcg(&mut s);
        push_random(&mut out, &mut s, (b >> 30) as usize, 20);
        assert(out@ =~= o + code_piece(s0).bytes);
    }
    first_bytes(&out, n)
}

/// The phrases.
pub open spec fn phrase(k: int) -> Seq<u8> {
    if k == 0 {
        seq![
            0x4cu8, 0x4f, 0x41, 0x44, 0x22, 0x2a, 0x22, 0x2c, 0x38, 0x2c, 0x31, 0x3a, 0x52,
            0x55, 0x4e,
        ]
    } else if k == 1 {
        seq![
            0x54u8, 0x48, 0x45, 0x20, 0x51, 0x55, 0x49, 0x43, 0x4b, 0x20, 0x42, 0x52, 0x4f,
            0x57, 0x4e, 0x20, 0x46, 0x4f, 0x58,
        ]
    } else if k == 2 {
        seq![
            0x30u8, 0x31, 0x32, 0x33, 0x34, 0x35, 0x36, 0x37, 0x38, 0x39, 0x41, 0x42, 0x43,
            0x44, 0x45, 0x46,
        ]
    } else {
        seq![
            0x2eu8, 0x2e, 0x2e, 0x2e, 0x2e, 0x2e, 0x2e, 0x2e, 0x2e, 0x2e,
        ]
    }
}

fn phrase_bytes(k: usize) -> (v: Vec<u8>)
    ensures
        v@ == phrase(k as int),
{
    let v: Vec<u8> = if k == 0 {
        vec![
            0x4cu8, 0x4f, 0x41, 0x44, 0x22, 0x2a, 0x22, 0x2c, 0x38, 0x2c, 0x31, 0x3a, 0x52,
            0x55, 0x4e,
        ]
    } else if k == 1 {
        vec![
            0x54u8, 0x48, 0x45, 0x20, 0x51, 0x55, 0x49, 0x43, 0x4b, 0x20, 0x42, 0x52, 0x4f,
            0x57, 0x4e, 0x20, 0x46, 0x4f, 0x58,
        ]
    } else if k == 2 {
        vec![
            0x30u8, 0x31, 0x32, 0x33, 0x34, 0x35, 0x36, 0x37, 0x38, 0x39, 0x41, 0x42, 0x43,
            0x44, 0x45, 0x46,
        ]
    } else {
        vec![
            0x2eu8, 0x2e, 0x2e, 0x2e, 0x2e, 0x2e, 0x2e, 0x2e, 0x2e, 0x2e,
        ]
    };
    assert(v@ =~= phrase(k as int));
    v
}

/// A phrase, and now and then a byte of noise.
pub open spec fn phrase_piece(s: u32) -> Piece {
    let a = lcg_next(s);
    let b = lcg_next(a);
    let bytes = phrase((a >> 24u32) as int % 4);
    if b >> 29u32 == 0 {
        Piece { bytes: bytes.push(top_byte(lcg_next(b))), s: lcg_next(b) }
    } else {
        Piece { bytes, s: b }
    }
}

pub open spec fn phrases_from(s: u32, have: Seq<u8>, n: int) -> Seq<u8>
    decreases
            if have.len() < n {
                n - have.len()
            } else {
                0
            },
{
    if have.len() >= n {
        have
    } else {
        let p = phrase_piece(s);
        phrases_from(p.s, have + p.bytes, n)
    }
}

/// Phrases again and again, with a change now and then.
pub fn phrases(n: usize) -> (out: Vec<u8>)
    ensures
        out@ == phrases_from(0x1357_9bdf, Seq::empty(), n as int).take(n as int),
{
    let mut s: u32 = 0x1357_9bdf;
    let mut out: Vec<u8> = Vec::new();
    while out.len() < n
        invariant
            phrases_from(s, out@, n as int) == phrases_from(0x1357_9bdf, Seq::empty(), n as int),
        decreases
                if out@.len() < n {
                    n - out@.len()
                } else {
                    0
                },
    {
        let ghost o = out@;
        let ghost s0 = s;
        let a: u32 = lcg(&mut s);
        let v: Vec<u8> = phrase_bytes((a >> 24) as usize % 4);
        push_all(&mut out, &v);
        let b: u32 = lcg(&mut s);
        if b >> 29 == 0 {
            let t: u32 = lcg(&mut s);
            out.push((t >> 24) as u8);
        }
        assert(out@ =~= o + phrase_piece(s0).bytes);
    }
    first_bytes(&out, n)
}

/// A run of one byte and a marker.
pub open spec fn run_piece(s: u32) -> Piece {
    let a = lcg_next(s);
    let b = lcg_next(a);
    Piece { bytes: repeated((a >> 30u32) as u8, 1 + b as int % 500).push(0xa5), s: b }
}

pub open spec fn runs_from(s: u32, have: Seq<u8>, n: int) -> Seq<u8>
    decreases
            if have.len() < n {
                n - have.len()
            } else {
                0
            },
{
    if have.len() >= n {
        have
    } else {
        let p = run_piece(s);
        runs_from(p.s, have + p.bytes, n)
    }
}

/// Long runs with markers between them.
pub fn runs(n: usize) -> (out: Vec<u8>)
    ensures
        out@ == runs_from(0x0f0f_1e1e, Seq::empty(), n as int).take(n as int),
{
    let mut s: u32 = 0x0f0f_1e1e;
    let mut out: Vec<u8> = Vec::new();
    while out.len() < n
        invariant
            runs_from(s, out@, n as int) == runs_from(0x0f0f_1e1e, Seq::empty(), n as int),
        decreases
                if out@.len() < n {
                    n - out@.len()
                } else {
                    0
                },
    {
        let ghost o = out@;
        let ghost s0 = s;
        let a: u32 = lcg(&mut s);
        let b: u32 = lcg(&mut s);
        push_repeated(&mut out, (a >> 30) as u8, 1 + b as usize % 500);
        out.push(0xa5);
        assert(out@ =~= o + run_piece(s0).bytes);
    }
    first_bytes(&out, n)
}

// ---------------------------------------------------------------------------
// Mixed content
// ---------------------------------------------------------------------------
pub open spec fn pangram() -> Seq<u8> {
    seq![
        0x74u8, 0x68, 0x65, 0x20, 0x71, 0x75, 0x69, 0x63, 0x6b, 0x20, 0x62, 0x72, 0x6f, 0x77,
        0x6e, 0x20, 0x66, 0x6f, 0x78, 0x20, 0x6a, 0x75, 0x6d, 0x70, 0x73, 0x20, 0x6f, 0x76,
        0x65, 0x72, 0x20, 0x74, 0x68, 0x65, 0x20, 0x6c, 0x61, 0x7a, 0x79, 0x20, 0x64, 0x6f,
        0x67, 0x2e, 0x20,
    ]
}

fn pangram_bytes() -> (v: Vec<u8>)
    ensures
        v@ == pangram(),
{
    let v: Vec<u8> = vec![
        0x74u8, 0x68, 0x65, 0x20, 0x71, 0x75, 0x69, 0x63, 0x6b, 0x20, 0x62, 0x72, 0x6f, 0x77,
        0x6e, 0x20, 0x66, 0x6f, 0x78, 0x20, 0x6a, 0x75, 0x6d, 0x70, 0x73, 0x20, 0x6f, 0x76,
        0x65, 0x72, 0x20, 0x74, 0x68, 0x65, 0x20, 0x6c, 0x61, 0x7a, 0x79, 0x20, 0x64, 0x6f,
        0x67, 0x2e, 0x20,
    ];
    assert(v@ =~= pangram());
    v
}

/// `count` times the sentence.
pub open spec fn pangrams(count: int) -> Seq<u8>
    decreases count,
{
    if count <= 0 {
        Seq::empty()
    } else {
        pangrams(count - 1) + pangram()
    }
}

/// Operation codes of the 6502.
pub open spec fn more_ops() -> Seq<u8> {
    seq![
        0xa9u8, 0x8d, 0xad, 0x20, 0x60, 0xa2, 0xbd, 0x9d, 0xe8, 0xd0, 0x4c, 0xa0, 0xb1, 0x91,
        0xc8, 0xea,
    ]
}

/// `count` operation codes, some with two operand bytes.
pub open spec fn ops_bytes(s: u32, count: int) -> Piece
    decreases count,
{
    if count <= 0 {
        Piece { bytes: Seq::empty(), s }
    } else {
        let p = ops_bytes(s, count - 1);
        let a = lcg_next(p.s);
        let b = lcg_next(a);
        let bytes = p.bytes.push(more_ops()[(a >> 24u32) as int % 16]);
        if b >> 30u32 == 0 {
            let c = lcg_next(b);
            let d = lcg_next(c);
            Piece { bytes: bytes.push(top_byte(c)).push(top_byte(d)), s: d }
        } else {
            Piece { bytes, s: b }
        }
    }
}

/// A piece of one of six sorts: zeros, noise, text, code, a cycle or a run.
pub open spec fn mixed_piece(s: u32) -> Piece {
    let a = lcg_next(s);
    let b = lcg_next(a);
    let sort = (a >> 28u32) as int % 6;
    if sort == 0 {
        Piece { bytes: repeated(0, 1 + b as int % 400), s: b }
    } else if sort == 1 {
        random_bytes(b, 1 + b as int % 200, 24)
    } else if sort == 2 {
        Piece { bytes: pangrams(1 + b as int % 8), s: b }
    } else if sort == 3 {
        ops_bytes(b, 1 + b as int % 300)
    } else if sort == 4 {
        let c = lcg_next(b);
        Piece {
            bytes: Seq::new((1 + c as int % 500) as nat, |i: int| (i % (1 + b as int % 17)) as u8),
            s: c,
        }
    } else {
        let c = lcg_next(b);
        Piece { bytes: repeated(top_byte(b), 1 + c as int % 100), s: c }
    }
}

proof fn lemma_random_len(s: u32, count: int, shift: u32)
    requires
        count >= 0,
    ensures
        random_bytes(s, count, shift).bytes.len() == count,
    decreases count,
{
    if count > 0 {
        lemma_random_len(s, count - 1, shift);
    }
}

proof fn lemma_ops_len(s: u32, count: int)
    requires
        count >= 0,
    ensures
        count <= ops_bytes(s, count).bytes.len() <= 3 * count,
    decreases count,
{
    if count > 0 {
        lemma_ops_len(s, count - 1);
    }
}

proof fn lemma_pangrams_len(count: int)
    requires
        count >= 0,
    ensures
        pangrams(count).len() == 45 * count,
    decreases count,
{
    if count > 0 {
        lemma_pangrams_len(count - 1);
    }
}

/// A piece is not empty, and not long.
proof fn lemma_mixed_len(s: u32)
    ensures
        1 <= mixed_piece(s).bytes.len() <= 900,
{
    let a = lcg_next(s);
    let b = lcg_next(a);
    lemma_random_len(b, 1 + b as int % 200, 24);
    lemma_pangrams_len(1 + b as int % 8);
    lemma_ops_len(b, 1 + b as int % 300);
}

pub open spec fn mixed_from(s: u32, have: Seq<u8>, n: int) -> Seq<u8>
    decreases
            if have.len() < n {
                n - have.len()
            } else {
                0
            },
    via mixed_ends
{
    if have.len() >= n {
        have
    } else {
        let p = mixed_piece(s);
        mixed_from(p.s, have + p.bytes, n)
    }
}

#[via_fn]
proof fn mixed_ends(s: u32, have: Seq<u8>, n: int) {
    lemma_mixed_len(s);
}

fn push_ops(out: &mut Vec<u8>, s: &mut u32, count: usize)
    ensures
        final(out)@ == old(out)@ + ops_bytes(*old(s), count as int).bytes,
        *final(s) == ops_bytes(*old(s), count as int).s,
{
    let ops: Vec<u8> = vec![
        0xa9u8, 0x8d, 0xad, 0x20, 0x60, 0xa2, 0xbd, 0x9d, 0xe8, 0xd0, 0x4c, 0xa0, 0xb1, 0x91,
        0xc8, 0xea,
    ];
    assert(ops@ =~= more_ops());
    let ghost o = out@;
    let ghost s0 = *s;
    let mut k: usize = 0;
    assert(o =~= o + ops_bytes(s0, 0).bytes);
    while k < count
        invariant
            ops@ == more_ops(),
            k <= count,
            out@ == o + ops_bytes(s0, k as int).bytes,
            *s == ops_bytes(s0, k as int).s,
        decreases count - k,
    {
        let a: u32 = lcg(s);
        out.push(ops[(a >> 24) as usize % 16]);
        let b: u32 = lcg(s);
        if b >> 30 == 0 {
            let c: u32 = lcg(s);
            out.push((c >> 24) as u8);
            let d: u32 = lcg(s);
            out.push((d >> 24) as u8);
        }
        k += 1;
        assert(out@ =~= o + ops_bytes(s0, k as int).bytes);
    }
}

fn push_pangrams(out: &mut Vec<u8>, count: usize)
    ensures
        final(out)@ == old(out)@ + pangrams(count as int),
{
    let text: Vec<u8> = pangram_bytes();
    let ghost o = out@;
    let mut k: usize = 0;
    assert(o =~= o + pangrams(0));
    while k < count
        invariant
            text@ == pangram(),
            k <= count,
            out@ == o + pangrams(k as int),
        decreases count - k,
    {
        push_all(out, &text);
        k += 1;
        assert(out@ =~= o + pangrams(k as int));
    }
}

fn push_mixed(out: &mut Vec<u8>, s: &mut u32)
    ensures
        final(out)@ == old(out)@ + mixed_piece(*old(s)).bytes,
        *final(s) == mixed_piece(*old(s)).s,
{
    let a: u32 = lcg(s);
    let sort: u32 = (a >> 28) % 6;
    let b: u32 = lcg(s);
    if sort == 0 {
        push_repeated(out, 0, 1 + b as usize % 400);
    } else if sort == 1 {
        push_random(out, s, 1 + b as usize % 200, 24);
    } else if sort == 2 {
        push_pangrams(out, 1 + b as usize % 8);
    } else if sort == 3 {
        push_ops(out, s, 1 + b as usize % 300);
    } else if sort == 4 {
        let c: u32 = lcg(s);
        push_cycle(out, 1 + b as usize % 17, 1 + c as usize % 500);
    } else {
        let c: u32 = lcg(s);
        push_repeated(out, (b >> 24) as u8, 1 + c as usize % 100);
    }
}

/// Content of many sorts: code, tables, text, zeros and noise.
pub fn mixed(n: usize) -> (out: Vec<u8>)
    ensures
        out@ == mixed_from(0xdead_beef, Seq::empty(), n as int).take(n as int),
{
    let mut s: u32 = 0xdead_beef;
    let mut out: Vec<u8> = Vec::new();
    while out.len() < n
        invariant
            mixed_from(s, out@, n as int) == mixed_from(0xdead_beef, Seq::empty(), n as int),
        decreases
                if out@.len() < n {
                    n - out@.len()
                } else {
                    0
                },
    {
        proof {
            lemma_mixed_len(s);
        }
        push_mixed(&mut out, &mut s);
    }
    first_bytes(&out, n)
}

// ---------------------------------------------------------------------------
// Sparse content
// ---------------------------------------------------------------------------
/// A string with `count` bytes of noise at `at`, as far as they lie in it.
pub open spec fn pocket(have: Seq<u8>, s: u32, at: int, count: int) -> Piece
    decreases count,
{
    if count <= 0 {
        Piece { bytes: have, s }
    } else {
        let p = pocket(have, s, at, count - 1);
        let i = at + count - 1;
        if 0 <= i < have.len() {
            Piece { bytes: p.bytes.update(i, top_byte(lcg_next(p.s))), s: lcg_next(p.s) }
        } else {
            p
        }
    }
}

pub open spec fn sparse_from(s: u32, have: Seq<u8>, i: int) -> Seq<u8>
    decreases
            if i < have.len() {
                have.len() - i
            } else {
                0
            },
    via sparse_ends
{
    if i >= have.len() {
        have
    } else {
        let a = lcg_next(s);
        let b = lcg_next(a);
        let at = i + 1 + a as int % 300;
        let count = 1 + b as int % 20;
        let p = pocket(have, b, at, count);
        sparse_from(p.s, p.bytes, at + count)
    }
}

proof fn lemma_pocket_len(have: Seq<u8>, s: u32, at: int, count: int)
    ensures
        pocket(have, s, at, count).bytes.len() == have.len(),
    decreases count,
{
    if count > 0 {
        lemma_pocket_len(have, s, at, count - 1);
    }
}

#[via_fn]
proof fn sparse_ends(s: u32, have: Seq<u8>, i: int) {
    let a = lcg_next(s);
    let b = lcg_next(a);
    lemma_pocket_len(have, b, i + 1 + a as int % 300, 1 + b as int % 20);
}

/// Zeros with small pockets of noise.
pub fn sparse(n: usize) -> (out: Vec<u8>)
    requires
        n <= usize::MAX - 320,
    ensures
        out@ == sparse_from(0x5555_aaaa, repeated(0, n as int), 0),
{
    let mut s: u32 = 0x5555_aaaa;
    let mut out: Vec<u8> = zeros(n);
    let mut i: usize = 0;
    while i < n
        invariant
            n <= usize::MAX - 320,
            i <= n + 320,
            out@.len() == n,
            sparse_from(s, out@, i as int) == sparse_from(0x5555_aaaa, repeated(0, n as int), 0),
        decreases
                if i < n {
                    n - i
                } else {
                    0
                },
    {
        let ghost o = out@;
        let a: u32 = lcg(&mut s);
        let at: usize = i + 1 + a as usize % 300;
        let b: u32 = lcg(&mut s);
        let count: usize = 1 + b as usize % 20;
        let mut j: usize = 0;
        while j < count
            invariant
                j <= count <= 20,
                at <= n + 300,
                n <= usize::MAX - 320,
                o.len() == n,
                out@.len() == n,
                out@ == pocket(o, b, at as int, j as int).bytes,
                s == pocket(o, b, at as int, j as int).s,
            decreases count - j,
        {
            if at + j < n {
                let t: u32 = lcg(&mut s);
                out.set(at + j, (t >> 24) as u8);
            }
            j += 1;
        }
        i = at + count;
    }
    out
}

// ---------------------------------------------------------------------------
// The Fibonacci word
// ---------------------------------------------------------------------------
/// The Fibonacci words over 0 and 1.
pub open spec fn fib_word(k: nat) -> Seq<u8>
    decreases k,
{
    if k == 0 {
        seq![0u8]
    } else if k == 1 {
        seq![0u8, 1u8]
    } else {
        fib_word((k - 1) as nat) + fib_word((k - 2) as nat)
    }
}

/// Every Fibonacci word begins with the one before it.
pub proof fn lemma_fib_prefix(k: nat)
    ensures
        fib_word(k).len() >= 1,
        fib_word(k).len() < fib_word(k + 1).len(),
        fib_word(k + 1).take(fib_word(k).len() as int) == fib_word(k),
    decreases k,
{
    if k == 0 {
        assert(fib_word(1).take(1) =~= fib_word(0));
    } else {
        lemma_fib_prefix((k - 1) as nat);
        assert(fib_word(k + 1).take(fib_word(k).len() as int) =~= fib_word(k));
    }
}

/// A string that begins as all long Fibonacci words do.
pub open spec fn fib_start(s: Seq<u8>) -> bool {
    exists|k: nat| #[trigger] fib_word(k).len() >= s.len() && s == fib_word(k).take(s.len() as int)
}

/// The beginning of the infinite Fibonacci word.
pub fn fibonacci(n: usize) -> (out: Vec<u8>)
    ensures
        out@.len() == n,
        fib_start(out@),
{
    let mut a: Vec<u8> = vec![0u8];
    let mut b: Vec<u8> = vec![0u8, 1u8];
    let ghost mut k: nat = 0;
    assert(a@ =~= fib_word(0));
    assert(b@ =~= fib_word(1));
    while b.len() < n
        invariant
            a@ == fib_word(k),
            b@ == fib_word(k + 1),
            b@.len() >= 2,
        decreases
                if b@.len() < n {
                    n - b@.len()
                } else {
                    0
                },
    {
        proof {
            lemma_fib_prefix(k);
            lemma_fib_prefix(k + 1);
        }
        let mut c: Vec<u8> = first_bytes(&b, b.len());
        assert(c@ =~= b@);
        push_all(&mut c, &a);
        a = b;
        b = c;
        proof {
            k = k + 1;
        }
    }
    let out: Vec<u8> = first_bytes(&b, n);
    assert(fib_word(k + 1).len() >= out@.len());
    out
}

// ---------------------------------------------------------------------------
// Collections
// ---------------------------------------------------------------------------
/// The length of the strings to measure with.
pub const BENCH_SIZE: usize = 65008;

/// The strings to measure with, by name.
pub fn bench_cases() -> (list: Vec<(&'static str, Vec<u8>)>)
    ensures
        list@.len() == 4,
        list@[0].0@ == "zeros"@,
        list@[0].1@ == repeated(0, BENCH_SIZE as int),
        list@[1].0@ == "power-on"@,
        list@[1].1@ == Seq::new(BENCH_SIZE as nat, |i: int| power_on_at(i)),
        list@[2].0@ == "noise"@,
        list@[2].1@ == random_bytes(0x1234_5678, BENCH_SIZE as int, 24).bytes,
        list@[3].0@ == "mixed"@,
        list@[3].1@ == mixed_from(0xdead_beef, Seq::empty(), BENCH_SIZE as int).take(
            BENCH_SIZE as int,
        ),
{
    let mut list: Vec<(&'static str, Vec<u8>)> = Vec::new();
    list.push(("zeros", zeros(BENCH_SIZE)));
    list.push(("power-on", power_on(BENCH_SIZE)));
    list.push(("noise", noise(BENCH_SIZE)));
    list.push(("mixed", mixed(BENCH_SIZE)));
    list
}

/// The name of a string of the collection.
pub open spec fn case_name(name: Seq<char>, size: int) -> Seq<char> {
    name + seq!['/'] + text::decimal(size)
}

fn named(name: &str, size: usize, data: Vec<u8>) -> (r: (String, Vec<u8>))
    ensures
        r.0@ == case_name(name@, size as int),
        r.1@ == data@,
{
    let mut s: String = name.to_owned();
    proof {
        reveal_strlit("/");
    }
    s.append("/");
    assert(s@ =~= name@ + seq!['/']);
    push_decimal(&mut s, size);
    (s, data)
}

/// String `k` of the collection, of a given size: its name and its bytes.
pub open spec fn case_is(k: int, size: int, name: Seq<char>, data: Seq<u8>) -> bool {
    if k == 0 {
        name == case_name("zeros"@, size) && data == repeated(0, size)
    } else if k == 1 {
        name == case_name("power-on"@, size) && data == Seq::new(
            size as nat,
            |i: int| power_on_at(i),
        )
    } else if k == 2 {
        name == case_name("noise"@, size) && data == random_bytes(0x1234_5678, size, 24).bytes
    } else if k == 3 {
        name == case_name("mixed"@, size) && data == mixed_from(
            0xdead_beef,
            Seq::empty(),
            size,
        ).take(size)
    } else if k == 4 {
        name == case_name("code-like"@, size) && data == code_from(
            0x0bad_c0de,
            Seq::empty(),
            size,
        ).take(size)
    } else if k == 5 {
        name == case_name("sparse"@, size) && data == sparse_from(
            0x5555_aaaa,
            repeated(0, size),
            0,
        )
    } else if k == 6 {
        name == case_name("periodic"@, size) && data == Seq::new(
            size as nat,
            |i: int| (i % 13) as u8,
        )
    } else if k == 7 {
        name == case_name("phrases"@, size) && data == phrases_from(
            0x1357_9bdf,
            Seq::empty(),
            size,
        ).take(size)
    } else if k == 8 {
        name == case_name("binary-ish"@, size) && data == Seq::new(
            size as nat,
            |i: int| binary_byte(lcg_at(0x2468_ace0, i + 1)),
        )
    } else if k == 9 {
        name == case_name("runs"@, size) && data == runs_from(
            0x0f0f_1e1e,
            Seq::empty(),
            size,
        ).take(size)
    } else {
        name == case_name("fibonacci"@, size) && data.len() == size && fib_start(data)
    }
}

fn one_case(k: usize, size: usize) -> (r: (String, Vec<u8>))
    requires
        k < 11,
        size <= usize::MAX - 320,
    ensures
        case_is(k as int, size as int, r.0@, r.1@),
{
    match k {
        0 => named("zeros", size, zeros(size)),
        1 => named("power-on", size, power_on(size)),
        2 => named("noise", size, noise(size)),
        3 => named("mixed", size, mixed(size)),
        4 => named("code-like", size, code_like(size)),
        5 => named("sparse", size, sparse(size)),
        6 => named("periodic", size, periodic(size)),
        7 => named("phrases", size, phrases(size)),
        8 => named("binary-ish", size, binary_ish(size)),
        9 => named("runs", size, runs(size)),
        _ => named("fibonacci", size, fibonacci(size)),
    }
}

/// One string of every sort for each of the sizes.
pub fn corpus(sizes: &[usize]) -> (out: Vec<(String, Vec<u8>)>)
    requires
        forall|i: int| 0 <= i < sizes@.len() ==> #[trigger] sizes@[i] <= usize::MAX - 320,
    ensures
        out@.len() == 11 * sizes@.len(),
        forall|j: int|
            0 <= j < out@.len() ==> case_is(
                j % 11,
                sizes@[j / 11] as int,
                (#[trigger] out@[j]).0@,
                out@[j].1@,
            ),
{
    let n: usize = sizes.len();
    let mut out: Vec<(String, Vec<u8>)> = Vec::new();
    let mut i: usize = 0;
    while i < n
        invariant
            n == sizes@.len(),
            i <= n,
            forall|i: int| 0 <= i < sizes@.len() ==> #[trigger] sizes@[i] <= usize::MAX - 320,
            out@.len() == 11 * i,
            forall|j: int|
                0 <= j < out@.len() ==> case_is(
                    j % 11,
                    sizes@[j / 11] as int,
                    (#[trigger] out@[j]).0@,
                    out@[j].1@,
                ),
        decreases n - i,
    {
        let size: usize = sizes[i];
        assert(sizes@[i as int] <= usize::MAX - 320);
        let mut k: usize = 0;
        while k < 11
            invariant
                n == sizes@.len(),
                i < n,
                size == sizes@[i as int],
                size <= usize::MAX - 320,
                k <= 11,
                out@.len() == 11 * i + k,
                forall|j: int|
                    0 <= j < out@.len() ==> case_is(
                        j % 11,
                        sizes@[j / 11] as int,
                        (#[trigger] out@[j]).0@,
                        out@[j].1@,
                    ),
            decreases 11 - k,
        {
            let c: (String, Vec<u8>) = one_case(k, size);
            out.push(c);
            assert((11 * i + k) % 11 == k && (11 * i + k) / 11 == i);
            k += 1;
        }
        i += 1;
    }
    out
}

} // verus!
