//! The TSCrunch stream: byte-aligned tokens for literals, runs, runs of zeros
//! of one fixed length, short matches and long matches. What a stream decodes
//! to, how tokens are written, and how far an in-place stream must be moved.
use crate::lz;
use crate::lz::copy_match;
use crate::tslaws;
use vstd::prelude::*;

verus! {

pub const LONGEST_RLE: usize = 64;

pub const LONGEST_LONG_LZ: usize = 64;

pub const LONGEST_LZ: usize = 32;

pub const LONGEST_LITERAL: usize = 31;

pub const MIN_RLE: usize = 2;

pub const MIN_LZ: usize = 3;

/// Offsets from here on take three bytes.
pub const LZ_OFFSET: usize = 256;

pub const LONG_LZ_OFFSET: usize = 32767;

pub const LZ2_OFFSET: usize = 94;

pub const LZ2_SIZE: usize = 2;

/// The byte behind the last token.
pub const TERMINATOR: u8 = 0x20;

// ---------------------------------------------------------------------------
// Decoding
// ---------------------------------------------------------------------------
/// What a byte at the start of a token stands for.
pub enum TsCode {
    Literal(int),
    Lz2(int),
    Rle(int),
    Zerorun,
    Short(int),
    Long(int),
}

pub open spec fn ts_code(code: u8) -> TsCode {
    if code < 32 {
        TsCode::Literal(code as int)
    } else if code < 128 {
        TsCode::Lz2(127 - code)
    } else if code == 129 {
        TsCode::Zerorun
    } else if code % 2 == 1 {
        TsCode::Rle((code - 128) / 2 + 1)
    } else if code / 2 % 2 == 1 {
        TsCode::Short((code - 128) / 4 + 1)
    } else {
        TsCode::Long((code - 128) / 4 * 2 + 1)
    }
}

/// A match onto the output; `None` where it reaches back before it.
pub open spec fn ts_copy(out: Seq<u8>, off: int, len: int) -> Option<Seq<u8>> {
    if 1 <= off <= out.len() && out.len() + len <= usize::MAX {
        Some(lz::lz_copy(out, off, len as nat))
    } else {
        None
    }
}

pub open spec fn ts_fill(out: Seq<u8>, b: u8, len: int) -> Option<Seq<u8>> {
    if out.len() + len <= usize::MAX {
        Some(out + Seq::new(len as nat, |i: int| b))
    } else {
        None
    }
}

/// Output and place after the token at `i`; `None` where the stream is broken.
/// `run` is the length of a run of zeros.
pub open spec fn ts_token(src: Seq<u8>, run: int, i: int, out: Seq<u8>) -> Option<(Seq<u8>, int)> {
    match ts_code(src[i]) {
        TsCode::Literal(k) => if i + 1 + k <= src.len() && out.len() + k <= usize::MAX {
            Some((out + src.subrange(i + 1, i + 1 + k), i + 1 + k))
        } else {
            None
        },
        TsCode::Lz2(off) => match ts_copy(out, off, 2) {
            Some(o) => Some((o, i + 1)),
            None => None,
        },
        TsCode::Rle(k) => if i + 1 < src.len() {
            match ts_fill(out, src[i + 1], k) {
                Some(o) => Some((o, i + 2)),
                None => None,
            }
        } else {
            None
        },
        TsCode::Zerorun => match ts_fill(out, 0, run) {
            Some(o) => Some((o, i + 1)),
            None => None,
        },
        TsCode::Short(k) => if i + 1 < src.len() {
            match ts_copy(out, src[i + 1] as int, k) {
                Some(o) => Some((o, i + 2)),
                None => None,
            }
        } else {
            None
        },
        TsCode::Long(k) => if i + 2 < src.len() {
            let hi = src[i + 2];
            match ts_copy(
                out,
                32768 - (src[i + 1] + 256 * (hi % 128)),
                k + hi as int / 128,
            ) {
                Some(o) => Some((o, i + 3)),
                None => None,
            }
        } else {
            None
        },
    }
}

/// Tokens from `i` on, up to the terminator or the end: the output and the
/// place of the terminator.
pub open spec fn ts_run(src: Seq<u8>, run: int, i: int, out: Seq<u8>) -> Option<(Seq<u8>, int)>
    decreases src.len() - i,
{
    if i < 0 || i >= src.len() || src[i] == TERMINATOR {
        Some((out, i))
    } else {
        match ts_token(src, run, i, out) {
            None => None,
            Some((o, j)) => if j <= i {
                None
            } else {
                ts_run(src, run, j, o)
            },
        }
    }
}

/// What a forward stream decodes to.
pub open spec fn ts_decoded(src: Seq<u8>) -> Option<Seq<u8>> {
    if src.len() == 0 {
        Some(Seq::empty())
    } else {
        match ts_run(src, src[0] + 1, 1, Seq::empty()) {
            None => None,
            Some((o, _)) => Some(o),
        }
    }
}

/// What an in-place stream decodes to: two addresses, the length of a run of
/// zeros, the byte behind the tokens, the tokens, and a tail of literals.
pub open spec fn ts_inplace(src: Seq<u8>) -> Option<Seq<u8>> {
    if src.len() < 6 {
        Some(Seq::empty())
    } else {
        match ts_run(src, src[4] + 1, 6, Seq::empty()) {
            None => None,
            Some((o, j)) => if o.len() + src.len() > usize::MAX {
                None
            } else {
                Some(
                    o.push(src[5]) + if j + 1 <= src.len() {
                        src.skip(j + 1)
                    } else {
                        Seq::empty()
                    },
                )
            },
        }
    }
}

fn fill(out: &mut Vec<u8>, b: u8, len: usize)
    requires
        old(out)@.len() + len <= usize::MAX,
    ensures
        final(out)@ == old(out)@ + Seq::new(len as nat, |i: int| b),
{
    let ghost o = out@;
    let mut k: usize = 0;
    assert(o + Seq::new(0, |i: int| b) =~= o);
    while k < len
        invariant
            k <= len,
            o.len() + len <= usize::MAX,
            out@ == o + Seq::new(k as nat, |i: int| b),
        decreases len - k,
    {
        out.push(b);
        k += 1;
        assert(out@ =~= o + Seq::new(k as nat, |i: int| b));
    }
}

/// Decodes tokens from `start` on: the output and the place of the terminator.
#[verifier::rlimit(40)]
pub fn decode_tokens(src: &[u8], run: usize, start: usize) -> (r: (Vec<u8>, usize))
    requires
        start <= src@.len(),
        run <= 256,
        ts_run(src@, run as int, start as int, Seq::empty()) is Some,
    ensures
        ts_run(src@, run as int, start as int, Seq::empty()) == Some((r.0@, r.1 as int)),
        start <= r.1 <= src@.len(),
{
    let n: usize = src.len();
    let ghost goal = ts_run(src@, run as int, start as int, Seq::empty());
    let mut out: Vec<u8> = Vec::new();
    let mut i: usize = start;
    assert(out@ =~= Seq::<u8>::empty());
    while i < n && src[i] != TERMINATOR
        invariant
            n == src@.len(),
            start <= i <= n,
            run <= 256,
            goal is Some,
            goal == ts_run(src@, run as int, start as int, Seq::empty()),
            goal == ts_run(src@, run as int, i as int, out@),
        decreases n - i,
    {
        let code: u8 = src[i];
        let ghost o = out@;
        let ghost i0 = i as int;
        let ghost t = ts_token(src@, run as int, i as int, o);
        assert(t is Some);
        if code < 32 {
            let k: usize = code as usize;
            let lits: &[u8] = vstd::slice::slice_subrange(src, i + 1, i + 1 + k);
            out.extend_from_slice(lits);
            i += k + 1;
            assert(out@ =~= o + src@.subrange(i0 + 1, i0 + 1 + k));
        } else if code < 128 {
            copy_match(&mut out, 127 - code as usize, 2);
            i += 1;
        } else if code == 129 {
            fill(&mut out, 0, run);
            i += 1;
        } else if code % 2 == 1 {
            fill(&mut out, src[i + 1], (code - 128) as usize / 2 + 1);
            i += 2;
        } else if code / 2 % 2 == 1 {
            copy_match(&mut out, src[i + 1] as usize, (code - 128) as usize / 4 + 1);
            i += 2;
        } else {
            let hi: usize = src[i + 2] as usize;
            let off: usize = 32768 - (src[i + 1] as usize + 256 * (hi % 128));
            copy_match(&mut out, off, (code - 128) as usize / 4 * 2 + 1 + hi / 128);
            i += 3;
        }
        assert(t == Some((out@, i as int)));
    }
    (out, i)
}

/// Decodes a forward stream.
pub fn decompress_forward(src: &[u8]) -> (out: Vec<u8>)
    requires
        ts_decoded(src@) is Some,
    ensures
        ts_decoded(src@) == Some(out@),
{
    if src.len() == 0 {
        let out: Vec<u8> = Vec::new();
        assert(out@ =~= Seq::<u8>::empty());
        return out;
    }
    decode_tokens(src, src[0] as usize + 1, 1).0
}

/// Decodes an in-place stream.
pub fn decompress_inplace(src: &[u8]) -> (out: Vec<u8>)
    requires
        ts_inplace(src@) is Some,
    ensures
        ts_inplace(src@) == Some(out@),
{
    let n: usize = src.len();
    if n < 6 {
        let out: Vec<u8> = Vec::new();
        assert(out@ =~= Seq::<u8>::empty());
        return out;
    }
    let (mut out, j) = decode_tokens(src, src[4] as usize + 1, 6);
    let ghost o = out@;
    out.push(src[5]);
    if j < n {
        let tail: &[u8] = vstd::slice::slice_subrange(src, j + 1, n);
        assert(tail@ =~= src@.skip(j + 1));
        out.extend_from_slice(tail);
    }
    assert(out@ =~= o.push(src@[5]) + if j + 1 <= n {
        src@.skip(j + 1)
    } else {
        Seq::empty()
    });
    out
}

// ---------------------------------------------------------------------------
// Tokens
// ---------------------------------------------------------------------------
#[derive(Clone, Copy)]
pub enum TsTok {
    Literal { size: usize },
    Rle { size: usize },
    Lz { size: usize, offset: usize },
    Lz2 { offset: usize },
    Zerorun,
}

/// Bytes that a token stands for; `run` is the length of a run of zeros.
pub open spec fn ts_len(t: TsTok, run: int) -> int {
    match t {
        TsTok::Literal { size } => size as int,
        TsTok::Rle { size } => size as int,
        TsTok::Lz { size, .. } => size as int,
        TsTok::Lz2 { .. } => 2,
        TsTok::Zerorun => run,
    }
}

pub fn tok_size(t: &TsTok, run: usize) -> (n: usize)
    ensures
        n == ts_len(*t, run as int),
{
    match t {
        TsTok::Literal { size } => *size,
        TsTok::Rle { size } => *size,
        TsTok::Lz { size, .. } => *size,
        TsTok::Lz2 { .. } => 2,
        TsTok::Zerorun => run,
    }
}

/// The bytes from `p` on are `len` times the same.
pub open spec fn same_from(s: Seq<u8>, p: int, len: int) -> bool {
    forall|j: int| p <= j < p + len ==> #[trigger] s[j] == s[p]
}

/// The token stands for the bytes at `p` and has a code.
pub open spec fn ts_ok(s: Seq<u8>, p: int, t: TsTok, run: int) -> bool {
    &&& 0 <= p
    &&& p + ts_len(t, run) <= s.len()
    &&& match t {
        TsTok::Literal { size } => 1 <= size <= 31,
        TsTok::Rle { size } => 2 <= size <= 64 && same_from(s, p, size as int),
        TsTok::Lz { size, offset } => 3 <= size <= 64 && offset <= 32767 && lz::is_match(
            s,
            p,
            offset as int,
            size as int,
        ),
        TsTok::Lz2 { offset } => offset <= 94 && lz::is_match(s, p, offset as int, 2),
        TsTok::Zerorun => 1 <= run <= 256 && s[p] == 0 && same_from(s, p, run),
    }
}

pub open spec fn ts_is_long(size: int, offset: int) -> bool {
    offset >= 256 || size > 32
}

/// The bytes of a token.
pub open spec fn ts_bytes(s: Seq<u8>, p: int, t: TsTok) -> Seq<u8> {
    match t {
        TsTok::Literal { size } => seq![size as u8] + s.subrange(p, p + size),
        TsTok::Rle { size } => seq![(127 + 2 * size) as u8, s[p]],
        TsTok::Zerorun => seq![129u8],
        TsTok::Lz2 { offset } => seq![(127 - offset) as u8],
        TsTok::Lz { size, offset } => if ts_is_long(size as int, offset as int) {
            let v = 32768 - offset;
            seq![
                (128 + 4 * ((size - 1) / 2)) as u8,
                (v % 256) as u8,
                (v / 256 + 128 * ((size - 1) % 2)) as u8,
            ]
        } else {
            seq![(126 + 4 * size) as u8, offset as u8]
        },
    }
}

/// Reading the bytes of a token gives what it stands for.
#[verifier::rlimit(60)]
pub proof fn lemma_ts_token(d: Seq<u8>, i: int, s: Seq<u8>, p: int, t: TsTok, run: int)
    requires
        ts_ok(s, p, t, run),
        s.len() <= usize::MAX,
        0 <= i,
        i + ts_bytes(s, p, t).len() <= d.len(),
        d.subrange(i, i + ts_bytes(s, p, t).len()) == ts_bytes(s, p, t),
    ensures
        d[i] != TERMINATOR,
        ts_bytes(s, p, t).len() >= 1,
        ts_token(d, run, i, s.take(p)) == Some(
            (s.take(p + ts_len(t, run)), i + ts_bytes(s, p, t).len()),
        ),
{
    let b = ts_bytes(s, p, t);
    let sub = d.subrange(i, i + b.len());
    assert(sub[0] == d[i]);
    match t {
        TsTok::Literal { size } => {
            assert(d.subrange(i + 1, i + 1 + size) =~= sub.subrange(1, 1 + size));
            assert(b.subrange(1, 1 + size) =~= s.subrange(p, p + size));
            assert(s.take(p) + s.subrange(p, p + size) =~= s.take(p + size));
        },
        TsTok::Rle { size } => {
            assert(sub[1] == d[i + 1]);
            assert(s.take(p) + Seq::new(size as nat, |j: int| s[p]) =~= s.take(p + size));
        },
        TsTok::Zerorun => {
            assert(s.take(p) + Seq::new(run as nat, |j: int| 0u8) =~= s.take(p + run));
        },
        TsTok::Lz2 { offset } => {
            lz::lemma_lz_copy_match(s, p, offset as int, 2);
        },
        TsTok::Lz { size, offset } => {
            lz::lemma_lz_copy_match(s, p, offset as int, size as int);
            assert(sub[1] == d[i + 1]);
            if ts_is_long(size as int, offset as int) {
                assert(sub[2] == d[i + 2]);
            }
        },
    }
}

/// Where token `k` starts in the input.
pub open spec fn ts_pos(toks: Seq<TsTok>, run: int, k: int) -> int
    decreases k,
{
    if k <= 0 {
        0
    } else {
        ts_pos(toks, run, k - 1) + ts_len(toks[k - 1], run)
    }
}

/// The bytes of the first `k` tokens.
pub open spec fn ts_all(s: Seq<u8>, toks: Seq<TsTok>, run: int, k: int) -> Seq<u8>
    decreases k,
{
    if k <= 0 {
        Seq::empty()
    } else {
        ts_all(s, toks, run, k - 1) + ts_bytes(s, ts_pos(toks, run, k - 1), toks[k - 1])
    }
}

/// Token `k` stands for the bytes at its place.
pub open spec fn ts_fits(s: Seq<u8>, toks: Seq<TsTok>, run: int, k: int) -> bool {
    ts_ok(s, ts_pos(toks, run, k), toks[k], run)
}

pub open spec fn ts_toks_ok(s: Seq<u8>, toks: Seq<TsTok>, run: int) -> bool {
    forall|k: int| 0 <= k < toks.len() ==> #[trigger] ts_fits(s, toks, run, k)
}

/// A stream that holds tokens from `i` on, with the terminator behind them,
/// decodes to what they stand for.
pub proof fn lemma_ts_run(d: Seq<u8>, i: int, s: Seq<u8>, toks: Seq<TsTok>, run: int, k: int)
    requires
        ts_toks_ok(s, toks, run),
        s.len() <= usize::MAX,
        0 <= k <= toks.len(),
        0 <= i,
        i + ts_all(s, toks, run, toks.len() as int).len() < d.len(),
        d.subrange(i, i + ts_all(s, toks, run, toks.len() as int).len()) == ts_all(
            s,
            toks,
            run,
            toks.len() as int,
        ),
        d[i + ts_all(s, toks, run, toks.len() as int).len()] == TERMINATOR,
    ensures
        ts_run(
            d,
            run,
            i + ts_all(s, toks, run, k).len(),
            s.take(ts_pos(toks, run, k)),
        ) == Some(
            (
                s.take(ts_pos(toks, run, toks.len() as int)),
                i + ts_all(s, toks, run, toks.len() as int).len(),
            ),
        ),
    decreases toks.len() - k,
{
    let n = toks.len() as int;
    let all = ts_all(s, toks, run, n);
    if k < n {
        lemma_ts_run(d, i, s, toks, run, k + 1);
        lemma_ts_all_prefix(s, toks, run, k + 1, n);
        let p = ts_pos(toks, run, k);
        let b = ts_bytes(s, p, toks[k]);
        let at = i + ts_all(s, toks, run, k).len();
        assert(ts_fits(s, toks, run, k));
        assert(ts_all(s, toks, run, k + 1) =~= ts_all(s, toks, run, k) + b);
        let a = ts_all(s, toks, run, k).len() as int;
        assert(d.subrange(at, at + b.len()) =~= all.subrange(a, a + b.len()));
        assert(all.subrange(a, a + b.len()) =~= all.take(a + b.len()).subrange(a, a + b.len()));
        assert(ts_all(s, toks, run, k + 1).subrange(a, a + b.len()) =~= b);
        lemma_ts_token(d, at, s, p, toks[k], run);
    }
}

proof fn lemma_ts_all_prefix(s: Seq<u8>, toks: Seq<TsTok>, run: int, j: int, k: int)
    requires
        0 <= j <= k,
    ensures
        ts_all(s, toks, run, j).len() <= ts_all(s, toks, run, k).len(),
        ts_all(s, toks, run, k).take(ts_all(s, toks, run, j).len() as int) == ts_all(
            s,
            toks,
            run,
            j,
        ),
    decreases k - j,
{
    let n = ts_all(s, toks, run, j).len() as int;
    if j < k {
        lemma_ts_all_prefix(s, toks, run, j, k - 1);
        assert(ts_all(s, toks, run, k).take(n) =~= ts_all(s, toks, run, k - 1).take(n));
    } else {
        assert(ts_all(s, toks, run, k).take(n) =~= ts_all(s, toks, run, j));
    }
}

/// Appends the bytes of a token.
pub fn emit_token(out: &mut Vec<u8>, src: &[u8], p: usize, t: &TsTok, Ghost(run): Ghost<int>)
    requires
        ts_ok(src@, p as int, *t, run),
    ensures
        final(out)@ == old(out)@ + ts_bytes(src@, p as int, *t),
{
    let ghost o = out@;
    let n: usize = src.len();
    assert(p + ts_len(*t, run) <= n);
    match t {
        TsTok::Literal { size } => {
            out.push(*size as u8);
            let lits: &[u8] = vstd::slice::slice_subrange(src, p, p + *size);
            out.extend_from_slice(lits);
        },
        TsTok::Rle { size } => {
            out.push((127 + 2 * *size) as u8);
            out.push(src[p]);
        },
        TsTok::Zerorun => {
            out.push(129);
        },
        TsTok::Lz2 { offset } => {
            out.push((127 - *offset) as u8);
        },
        TsTok::Lz { size, offset } => {
            if *offset >= LZ_OFFSET || *size > LONGEST_LZ {
                let v: usize = 32768 - *offset;
                out.push((128 + 4 * ((*size - 1) / 2)) as u8);
                out.push((v % 256) as u8);
                out.push((v / 256 + 128 * ((*size - 1) % 2)) as u8);
            } else {
                out.push((126 + 4 * *size) as u8);
                out.push(*offset as u8);
            }
        },
    }
    assert(out@ =~= o + ts_bytes(src@, p as int, *t));
}

/// Length of the bytes of a token.
pub fn payload_len(t: &TsTok, Ghost(s): Ghost<Seq<u8>>, Ghost(p): Ghost<int>, Ghost(run): Ghost<int>) -> (n: usize)
    requires
        ts_ok(s, p, *t, run),
    ensures
        n == ts_bytes(s, p, *t).len(),
        1 <= n <= 32,
        n <= 2 * ts_len(*t, run),
{
    match t {
        TsTok::Literal { size } => 1 + *size,
        TsTok::Rle { .. } => 2,
        TsTok::Zerorun => 1,
        TsTok::Lz2 { .. } => 1,
        TsTok::Lz { size, offset } => if *offset >= LZ_OFFSET || *size > LONGEST_LZ {
            3
        } else {
            2
        },
    }
}

// ---------------------------------------------------------------------------
// In-place placement
// ---------------------------------------------------------------------------
/// Bytes that the token with this first byte stands for, the next being `hi`
/// two places on.
pub open spec fn ts_out(code: u8, hi: u8, run: int) -> int {
    match ts_code(code) {
        TsCode::Literal(k) => k,
        TsCode::Lz2(_) => 2,
        TsCode::Rle(k) => k,
        TsCode::Zerorun => run,
        TsCode::Short(k) => k,
        TsCode::Long(k) => k + hi as int / 128,
    }
}

/// Bytes of the token.
pub open spec fn ts_in(code: u8) -> int {
    match ts_code(code) {
        TsCode::Literal(k) => k + 1,
        TsCode::Lz2(_) => 1,
        TsCode::Rle(_) => 2,
        TsCode::Zerorun => 1,
        TsCode::Short(_) => 2,
        TsCode::Long(_) => 3,
    }
}

/// Smallest lead of the read address over the write address at which the copy
/// of the token leaves all bytes that are still to be read alone. A literal is
/// copied from its last byte down, all else upward.
pub open spec fn ts_need(code: u8, hi: u8, run: int) -> int {
    match ts_code(code) {
        TsCode::Literal(k) => k - 1,
        TsCode::Lz2(_) => 1,
        TsCode::Rle(k) => k - 2,
        TsCode::Zerorun => run - 1,
        TsCode::Short(k) => k - 2,
        TsCode::Long(k) => k + hi as int / 128 - 3,
    }
}

pub open spec fn ts_hi(src: Seq<u8>, i: int) -> u8 {
    if i + 2 < src.len() {
        src[i + 2]
    } else {
        0
    }
}

/// The tokens from `i` on can be walked: long matches are complete.
pub open spec fn ts_walks(src: Seq<u8>, i: int) -> bool
    decreases
        if i < src.len() {
            src.len() - i
        } else {
            0
        },
{
    if i < 0 || i >= src.len() || src[i] == TERMINATOR {
        true
    } else {
        (ts_code(src[i]) is Long ==> i + 2 < src.len()) && ts_walks(src, i + ts_in(src[i]))
    }
}

/// All copies from the token at `i` on are safe when the read address leads by
/// `lead + i - o`, `o` bytes having been written.
pub open spec fn ts_safe_from(src: Seq<u8>, run: int, i: int, o: int, lead: int) -> bool
    decreases
        if i < src.len() {
            src.len() - i
        } else {
            0
        },
{
    if i < 0 || i >= src.len() {
        true
    } else if src[i] == TERMINATOR {
        lead + i - o >= 0
    } else {
        &&& lead + i - o >= ts_need(src[i], ts_hi(src, i), run)
        &&& ts_safe_from(
            src,
            run,
            i + ts_in(src[i]),
            o + ts_out(src[i], ts_hi(src, i), run),
            lead,
        )
    }
}

/// Bytes written from the token at `i` on, with the byte behind the tokens and
/// the tail.
pub open spec fn ts_total(src: Seq<u8>, run: int, i: int) -> int
    decreases
        if i < src.len() {
            src.len() - i
        } else {
            0
        },
{
    if i < 0 || i >= src.len() {
        1
    } else if src[i] == TERMINATOR {
        1 + (src.len() - (i + 1))
    } else {
        ts_out(src[i], ts_hi(src, i), run) + ts_total(src, run, i + ts_in(src[i]))
    }
}

/// An in-place stream that ends `shift` bytes above the output is safe.
pub open spec fn ts_safe(src: Seq<u8>, shift: int) -> bool {
    let run = src[4] + 1;
    ts_safe_from(src, run, 6, 0, ts_total(src, run, 6) - src.len() + shift)
}

/// A greater lead is at least as safe.
pub proof fn lemma_more_lead(src: Seq<u8>, run: int, i: int, o: int, a: int, b: int)
    requires
        a <= b,
        ts_safe_from(src, run, i, o, a),
    ensures
        ts_safe_from(src, run, i, o, b),
    decreases
        if i < src.len() {
            src.len() - i
        } else {
            0
        },
{
    if 0 <= i < src.len() && src[i] != TERMINATOR {
        lemma_more_lead(
            src,
            run,
            i + ts_in(src[i]),
            o + ts_out(src[i], ts_hi(src, i), run),
            a,
            b,
        );
    }
}

/// The smallest upward shift at which an in-place stream does not overwrite
/// what it has still to read.
pub fn inplace_required_shift(src: &[u8]) -> (shift: usize)
    requires
        src@.len() <= 0x3fff_ffff,
        src@.len() >= 6 ==> ts_walks(src@, 6),
    ensures
        src@.len() < 6 ==> shift == 0,
        src@.len() >= 6 ==> ts_safe(src@, shift as int),
        src@.len() >= 6 && shift > 0 ==> !ts_safe(src@, shift - 1),
        src@.len() >= 6 && ts_inplace(src@) is Some ==> tslaws::t_safe(src@, shift as int) && (shift
            > 0 ==> !tslaws::t_safe(src@, shift - 1)),
{
    let n: usize = src.len();
    if n < 6 {
        return 0;
    }
    let run: i64 = src[4] as i64 + 1;
    let ghost r = run as int;
    let mut i: usize = 6;
    let mut out: i64 = 0;
    let mut req: i64 = -0x4000_0000_0000;
    let mut tail: i64 = 0;
    let ghost total = ts_total(src@, r, 6);
    while i < n && src[i] != TERMINATOR
        invariant
            n == src@.len(),
            6 <= n <= 0x3fff_ffff,
            run == src@[4] + 1,
            r == run,
            total == ts_total(src@, r, 6),
            6 <= i <= n + 32,
            0 <= out <= 256 * i,
            -0x4000_0000_0000 <= req <= out + 255,
            ts_walks(src@, i as int),
            total == out + ts_total(src@, r, i as int),
            forall|lead: int|
                lead >= -0x4000_0000_0000 ==> (#[trigger] ts_safe_from(src@, r, 6, 0, lead) <==> lead
                    >= req && ts_safe_from(src@, r, i as int, out as int, lead)),
        decreases n + 32 - i,
    {
        let code: u8 = src[i];
        let need: i64;
        let made: i64;
        let took: usize;
        if code < 32 {
            made = code as i64;
            need = made - 1;
            took = code as usize + 1;
        } else if code < 128 {
            made = 2;
            need = 1;
            took = 1;
        } else if code == 129 {
            made = run;
            need = run - 1;
            took = 1;
        } else if code % 2 == 1 {
            made = (code - 128) as i64 / 2 + 1;
            need = made - 2;
            took = 2;
        } else if code / 2 % 2 == 1 {
            made = (code - 128) as i64 / 4 + 1;
            need = made - 2;
            took = 2;
        } else {
            made = (code - 128) as i64 / 4 * 2 + 1 + src[i + 2] as i64 / 128;
            need = made - 3;
            took = 3;
        }
        let here: i64 = need - (i as i64 - out);
        let ghost i0 = i as int;
        let ghost o0 = out as int;
        let ghost req0 = req as int;
        assert(need == ts_need(code, ts_hi(src@, i0), r));
        assert(made == ts_out(code, ts_hi(src@, i0), r));
        assert(took == ts_in(code));
        if here > req {
            req = here;
        }
        out = out + made;
        i += took;
        assert forall|lead: int|
            lead >= -0x4000_0000_0000 implies (#[trigger] ts_safe_from(src@, r, 6, 0, lead) <==> lead
            >= req && ts_safe_from(src@, r, i as int, out as int, lead)) by {
            assert(ts_safe_from(src@, r, 6, 0, lead) <==> lead >= req0 && ts_safe_from(
                src@,
                r,
                i0,
                o0,
                lead,
            ));
        }
    }
    if i < n {
        let here: i64 = out - i as i64;
        if here > req {
            req = here;
        }
        tail = (n - (i + 1)) as i64;
    }
    let provided: i64 = out + 1 + tail - n as i64;
    proof {
        assert(provided == total - n);
    }
    if req > provided {
        let k: i64 = req - provided;
        proof {
            let a = provided + k;
            let b = provided + k - 1;
            assert(ts_safe_from(src@, r, 6, 0, a));
            assert(!ts_safe_from(src@, r, 6, 0, b));
            assert(k <= n + 255);
            if ts_inplace(src@) is Some {
                tslaws::lemma_safe_shift(src@, k as int);
                tslaws::lemma_safe_shift(src@, k - 1);
            }
        }
        k as usize
    } else {
        proof {
            assert(ts_safe_from(src@, r, 6, 0, provided as int));
            if ts_inplace(src@) is Some {
                tslaws::lemma_safe_shift(src@, 0);
            }
        }
        0
    }
}

} // verus!
