//! What TSCrunch streams are good for: unpacking in place, and repeats of the input.
use crate::lz;
use crate::tscrunch;
use crate::tsgraph;
use crate::tspath;
use crate::tsstream;
use crate::tsstream::TsTok;
use crate::zxdp;
use crate::zxlaws;
use vstd::arithmetic::power::pow;
use vstd::prelude::*;

verus! {

// ---------------------------------------------------------------------------
// Unpacking in place
// ---------------------------------------------------------------------------
/// Output and place of the decoder after `k` more tokens.
pub open spec fn t_from(src: Seq<u8>, run: int, i: int, out: Seq<u8>, k: nat) -> Option<
    (Seq<u8>, int),
>
    decreases k,
{
    if k == 0 {
        Some((out, i))
    } else if i < 0 || i >= src.len() || src[i] == 0x20 {
        None
    } else {
        match tsstream::ts_token(src, run, i, out) {
            None => None,
            Some((o, j)) => t_from(src, run, j, o, (k - 1) as nat),
        }
    }
}

/// What is written next stays off what is still to be read, with `src[0]` at address
/// `lead` and the output at address 0: the last byte of a token is not above the
/// bytes that have been taken by the time it is written. Those are all of the token,
/// or for literals, which are copied from the last down, its first.
pub open spec fn t_clear(src: Seq<u8>, run: int, i: int, out: Seq<u8>, lead: int) -> bool {
    if i >= src.len() {
        true
    } else if src[i] == 0x20 {
        out.len() <= lead + i
    } else {
        tsstream::ts_token(src, run, i, out) matches Some((o, j)) ==> o.len() - 1 <= lead + (
        if src[i] < 32 {
            i
        } else {
            j - 1
        })
    }
}

pub open spec fn t_clear_at(src: Seq<u8>, run: int, i: int, out: Seq<u8>, k: nat, lead: int) -> bool {
    t_from(src, run, i, out, k) matches Some((o, j)) ==> t_clear(src, run, j, o, lead)
}

/// An in-place stream that ends `shift` bytes above its output is never written over
/// before it is read.
pub open spec fn t_safe(src: Seq<u8>, shift: int) -> bool {
    let total = tsstream::ts_inplace(src)->0.len();
    forall|k: nat|
        #[trigger] t_clear_at(
            src,
            src[4] + 1,
            6,
            Seq::empty(),
            k,
            total + shift - src.len(),
        )
}

proof fn lemma_token_sizes(src: Seq<u8>, run: int, i: int, out: Seq<u8>)
    requires
        0 <= i < src.len(),
        src[i] != 0x20,
        run >= 1,
        tsstream::ts_token(src, run, i, out) is Some,
    ensures
        ({
            let (o, j) = tsstream::ts_token(src, run, i, out)->0;
            let hi = tsstream::ts_hi(src, i);
            &&& o.len() == out.len() + tsstream::ts_out(src[i], hi, run)
            &&& j == i + tsstream::ts_in(src[i])
            &&& j > i
            &&& tsstream::ts_need(src[i], hi, run) == o.len() - out.len() - 1 - (if src[i] < 32 {
                0
            } else {
                j - 1 - i
            })
        }),
{
    match tsstream::ts_code(src[i]) {
        tsstream::TsCode::Lz2(off) => {
            lz::lemma_lz_copy_len(out, off, 2);
        },
        tsstream::TsCode::Short(k) => {
            lz::lemma_lz_copy_len(out, src[i + 1] as int, k as nat);
        },
        tsstream::TsCode::Long(k) => {
            let hi = src[i + 2];
            lz::lemma_lz_copy_len(
                out,
                32768 - (src[i + 1] + 256 * (hi % 128)),
                (k + hi as int / 128) as nat,
            );
        },
        _ => {},
    }
}

proof fn lemma_all_clear(src: Seq<u8>, run: int, i: int, out: Seq<u8>, lead: int)
    requires
        i >= 0,
        run >= 1,
        tsstream::ts_run(src, run, i, out) is Some,
    ensures
        tsstream::ts_safe_from(src, run, i, out.len() as int, lead) <==> forall|k: nat| #[trigger]
            t_clear_at(src, run, i, out, k, lead),
        ({
            let (o, j) = tsstream::ts_run(src, run, i, out)->0;
            tsstream::ts_total(src, run, i) == o.len() - out.len() + 1 + if j < src.len() {
                src.len() - (j + 1)
            } else {
                0
            }
        }),
    decreases src.len() - i,
{
    if i >= src.len() || src[i] == 0x20 {
        assert forall|k: nat| k > 0 implies t_from(src, run, i, out, k) is None by {}
        assert(t_clear_at(src, run, i, out, 0, lead) == t_clear(src, run, i, out, lead));
    } else {
        lemma_token_sizes(src, run, i, out);
        let (o, j) = tsstream::ts_token(src, run, i, out)->0;
        lemma_all_clear(src, run, j, o, lead);
        assert(t_clear_at(src, run, i, out, 0, lead) == t_clear(src, run, i, out, lead));
        if tsstream::ts_safe_from(src, run, i, out.len() as int, lead) {
            assert forall|k: nat| #[trigger] t_clear_at(src, run, i, out, k, lead) by {
                if k > 0 {
                    assert(t_clear_at(src, run, j, o, (k - 1) as nat, lead));
                }
            }
        }
        if forall|k: nat| #[trigger] t_clear_at(src, run, i, out, k, lead) {
            assert forall|k: nat| #[trigger] t_clear_at(src, run, j, o, k, lead) by {
                assert(t_clear_at(src, run, i, out, k + 1, lead));
            }
        }
    }
}

/// A shift is safe exactly where nothing is written over before it is read.
pub proof fn lemma_safe_shift(src: Seq<u8>, shift: int)
    requires
        src.len() >= 6,
        tsstream::ts_inplace(src) is Some,
    ensures
        tsstream::ts_safe(src, shift) <==> t_safe(src, shift),
{
    let run = src[4] + 1;
    let none = Seq::<u8>::empty();
    let (o, j) = tsstream::ts_run(src, run, 6, none)->0;
    lemma_end_in(src, run, 6, none);
    let lead = tsstream::ts_total(src, run, 6) - src.len() + shift;
    lemma_all_clear(src, run, 6, none, lead);
    assert(tsstream::ts_inplace(src)->0.len() == tsstream::ts_total(src, run, 6));
    assert(lead == tsstream::ts_inplace(src)->0.len() + shift - src.len());
}

proof fn lemma_end_in(src: Seq<u8>, run: int, i: int, out: Seq<u8>)
    requires
        i >= 0,
        run >= 1,
        tsstream::ts_run(src, run, i, out) is Some,
    ensures
        tsstream::ts_run(src, run, i, out) matches Some((o, j)) ==> j >= i,
    decreases src.len() - i,
{
    if i < src.len() && src[i] != 0x20 {
        lemma_token_sizes(src, run, i, out);
        let (o, j) = tsstream::ts_token(src, run, i, out)->0;
        lemma_end_in(src, run, j, o);
    }
}

/// The bytes of the tokens from `j` to `k`.
pub open spec fn coded_between(src: Seq<u8>, toks: Seq<TsTok>, run: int, j: int, k: int) -> int {
    tsstream::ts_all(src, toks, run, k).len() - tsstream::ts_all(src, toks, run, j).len()
}

/// The bytes that they stand for.
pub open spec fn meant_between(toks: Seq<TsTok>, run: int, j: int, k: int) -> int {
    tsstream::ts_pos(toks, run, k) - tsstream::ts_pos(toks, run, j)
}

/// From every token up to `k` on, those up to `k` are fewer bytes than they stand for.
pub open spec fn shrinks_up_to(src: Seq<u8>, toks: Seq<TsTok>, run: int, from: int, k: int) -> bool {
    forall|j: int|
        from <= j < k ==> #[trigger] coded_between(src, toks, run, j, k) < meant_between(
            toks,
            run,
            j,
            k,
        )
}

proof fn lemma_kept(
    src: Seq<u8>,
    toks: Seq<TsTok>,
    run: int,
    i: int,
    safety: int,
    seg_out: int,
    seg_in: int,
)
    requires
        0 <= i <= safety <= toks.len(),
        seg_out == meant_between(toks, run, i, safety),
        seg_in == coded_between(src, toks, run, i, safety),
        shrinks_up_to(src, toks, run, i, safety),
        meant_between(toks, run, safety, toks.len() as int) <= coded_between(
            src,
            toks,
            run,
            safety,
            toks.len() as int,
        ),
    ensures
        ({
            let k = tscrunch::kept(src, toks, run, i, safety, seg_out, seg_in);
            &&& 0 <= k <= toks.len()
            &&& shrinks_up_to(src, toks, run, 0, k)
            &&& meant_between(toks, run, k, toks.len() as int) <= coded_between(
                src,
                toks,
                run,
                k,
                toks.len() as int,
            )
        }),
    decreases i,
{
    if i > 0 {
        let t = toks[i - 1];
        let size = seg_in + tsstream::ts_bytes(src, tsstream::ts_pos(toks, run, i - 1), t).len();
        let len = seg_out + tsstream::ts_len(t, run);
        assert(len == meant_between(toks, run, i - 1, safety));
        assert(size == coded_between(src, toks, run, i - 1, safety));
        if len <= size {
            lemma_kept(src, toks, run, i - 1, i - 1, 0, 0);
        } else {
            lemma_kept(src, toks, run, i - 1, safety, len, size);
        }
    }
}

/// An in-place stream keeps the tokens up to where, seen from any of them, they still
/// shrink what they stand for, and those that it drops shrink nothing.
pub proof fn lemma_kept_tokens_shrink(src: Seq<u8>, toks: Seq<TsTok>, run: int)
    ensures
        ({
            let k = tscrunch::kept_of(src, toks, run);
            &&& 0 <= k <= toks.len()
            &&& shrinks_up_to(src, toks, run, 0, k)
            &&& meant_between(toks, run, k, toks.len() as int) <= coded_between(
                src,
                toks,
                run,
                k,
                toks.len() as int,
            )
        }),
{
    lemma_kept(src, toks, run, toks.len() as int, toks.len() as int, 0, 0);
}

/// An in-place stream loads so that it ends where the output at the address ends, in 64 K
/// of memory.
pub proof fn lemma_stream_ends_with_output(input: Seq<u8>, addr: Seq<u8>, rich: bool, stream: Seq<u8>)
    requires
        tscrunch::ts_packed_inplace(input, addr, rich, stream),
        addr.len() == 2,
    ensures
        (stream[0] + 256 * stream[1] + (stream.len() - 2)) % 0x1_0000 == (addr[0] + 256 * addr[1]
            + input.len()) % 0x1_0000,
{
}

// ---------------------------------------------------------------------------
// Shortest streams
// ---------------------------------------------------------------------------
/// Bytes that the code of a token takes.
pub open spec fn t_bytes(t: TsTok) -> int {
    match t {
        TsTok::Literal { size } => size + 1,
        TsTok::Rle { .. } => 2,
        TsTok::Zerorun => 1,
        TsTok::Lz2 { .. } => 1,
        TsTok::Lz { size, offset } => if offset < 256 && size <= 32 {
            2
        } else {
            3
        },
    }
}

pub open spec fn t_all_bytes(s: Seq<TsTok>) -> int
    decreases s.len(),
{
    if s.len() == 0 {
        0
    } else {
        t_bytes(s[0]) + t_all_bytes(s.skip(1))
    }
}

/// The bytes at `p` are `len` times the same.
pub open spec fn t_same(src: Seq<u8>, p: int, len: int) -> bool {
    p + len <= src.len() && forall|j: int| p <= j < p + len ==> #[trigger] src[j] == src[p]
}

/// The token stands for the bytes at `p`: up to 31 literals, a run of up to 64 bytes, a
/// match of 3 to 64 bytes that are up to 32766 back, or one of two bytes up to 94 back.
/// No match is from the first byte, and a match of two does not end the input. Where
/// more than 62 equal bytes stand, only a run counts, where more than 64, only the
/// longest.
pub open spec fn t_stands(src: Seq<u8>, p: int, t: TsTok) -> bool {
    match t {
        TsTok::Literal { size } => 1 <= size <= 31 && p + size <= src.len(),
        TsTok::Rle { size } => {
            &&& 2 <= size <= 64
            &&& t_same(src, p, size as int)
            &&& size == 64 || !t_same(src, p, 65)
        },
        TsTok::Lz { size, offset } => {
            &&& 3 <= size <= 64
            &&& 1 <= offset <= 32766
            &&& offset < p
            &&& lz::is_match(src, p, offset as int, size as int)
            &&& !t_same(src, p, 63)
        },
        TsTok::Lz2 { offset } => {
            &&& 1 <= offset <= 94
            &&& p + 2 < src.len()
            &&& lz::is_match(src, p, offset as int, 2)
        },
        TsTok::Zerorun => false,
    }
}

/// Bytes that a token other than a run of zeros stands for.
pub open spec fn t_len(t: TsTok) -> int {
    match t {
        TsTok::Literal { size } => size as int,
        TsTok::Rle { size } => size as int,
        TsTok::Lz { size, .. } => size as int,
        TsTok::Lz2 { .. } => 2,
        TsTok::Zerorun => 1,
    }
}

/// The tokens stand for the bytes from `p` to the end. Those of three bytes and more
/// that are matches count only with `rich`.
pub open spec fn t_covers(src: Seq<u8>, rich: bool, p: int, s: Seq<TsTok>) -> bool
    decreases s.len(),
{
    if s.len() == 0 {
        p == src.len()
    } else {
        &&& t_stands(src, p, s[0])
        &&& rich || !(s[0] is Lz)
        &&& t_covers(src, rich, p + t_len(s[0]), s.skip(1))
    }
}

proof fn lemma_covers_offered(src: Seq<u8>, run: int, rich: bool, p: int, s: Seq<TsTok>)
    requires
        0 <= p,
        t_covers(src, rich, p, s),
    ensures
        tsgraph::offered_way(src, run, rich, p, s),
        tspath::way_cost(s) <= 2031616 * t_all_bytes(s) + 138 * s.len(),
    decreases s.len(),
{
    if s.len() > 0 {
        lemma_covers_offered(src, run, rich, p + t_len(s[0]), s.skip(1));
        if tsgraph::run_at(src, p, 65) {
            assert(t_same(src, p, 65));
            assert(t_same(src, p, 63));
        }
        if tsgraph::run_at(src, p, 63) {
            assert(t_same(src, p, 63));
        }
    }
}

proof fn lemma_sizes(src: Seq<u8>, run: int, rich: bool, toks: Seq<TsTok>, k: int)
    requires
        0 <= k <= toks.len(),
        tsgraph::offered_way(src, run, rich, tsstream::ts_pos(toks, run, k), toks.skip(k)),
    ensures
        tsstream::ts_all(src, toks, run, toks.len() as int).len() == tsstream::ts_all(
            src,
            toks,
            run,
            k,
        ).len() + t_all_bytes(toks.skip(k)),
        2031616 * t_all_bytes(toks.skip(k)) <= tspath::way_cost(toks.skip(k)),
    decreases toks.len() - k,
{
    if k < toks.len() {
        assert(toks.skip(k).skip(1) =~= toks.skip(k + 1));
        lemma_sizes(src, run, rich, toks, k + 1);
    }
}

/// A stream is no longer than any tokens are that stand for the input, with the byte
/// before and the one behind them. Without the richer search that is said of tokens
/// without matches of three bytes and more.
pub proof fn lemma_no_shorter_tokens(input: Seq<u8>, rich: bool, stream: Seq<u8>, q: Seq<TsTok>)
    requires
        tscrunch::ts_packed(input, rich, stream),
        t_covers(input, rich, 0, q),
        q.len() <= 14721,
    ensures
        stream.len() <= 2 + t_all_bytes(q),
{
    let (toks, run) = choose|toks: Seq<TsTok>, run: int|
        #![trigger tscrunch::ts_stream(input, toks, run)]
        tscrunch::best_zero_run(input, run) && tsgraph::ts_parse(input, run, rich, toks) && stream
            == tscrunch::ts_stream(input, toks, run);
    assert(toks.skip(0) =~= toks);
    lemma_sizes(input, run, rich, toks, 0);
    lemma_covers_offered(input, run, rich, 0, q);
}

// ---------------------------------------------------------------------------
// Runs of zeros
// ---------------------------------------------------------------------------
/// A run of exactly `k` zeros stands at `i`.
pub open spec fn zeros_stand(src: Seq<u8>, i: int, k: int) -> bool {
    &&& 0 <= i
    &&& i + k <= src.len()
    &&& forall|j: int| i <= j < i + k ==> #[trigger] src[j] == 0
    &&& i > 0 ==> src[i - 1] != 0
    &&& i + k < src.len() ==> src[i + k] != 0
}

proof fn lemma_times_is_power(base: nat, m: nat, k: nat)
    ensures
        tscrunch::times(base, m, k) == base * pow(m as int, k),
    decreases k,
{
    reveal(pow);
    if k > 0 {
        lemma_times_is_power(base, m, (k - 1) as nat);
        let x = pow(m as int, (k - 1) as nat);
        assert(m * (base * x) == base * (m * x)) by (nonlinear_arith);
    } else {
        assert(base * 1 == base) by (nonlinear_arith);
    }
}

proof fn lemma_zeros_counted(src: Seq<u8>, i: int, k: int, m: int)
    requires
        zeros_stand(src, i, m),
        1 <= k <= m < 256,
    ensures
        tscrunch::zeros_at(src, i, k) == m,
    decreases m - k,
{
    if k < m {
        assert(src[i + k] == 0);
        lemma_zeros_counted(src, i, k + 1, m);
    }
}

proof fn lemma_zeros_passed(src: Seq<u8>, i: int, k: int)
    requires
        1 <= k <= 256,
        0 <= i,
        i + k <= src.len(),
        forall|j: int| i <= j < i + k ==> #[trigger] src[j] == 0,
    ensures
        ({
            let e = tscrunch::zeros_at(src, i, k);
            &&& k <= e <= 256
            &&& i + e <= src.len()
            &&& forall|j: int| i <= j < i + e ==> #[trigger] src[j] == 0
        }),
    decreases 256 - k,
{
    if k < 256 && i + k < src.len() && src[i + k] == 0 {
        lemma_zeros_passed(src, i, k + 1);
    }
}

/// A run that stands is listed, seen from `j` on before it.
proof fn lemma_run_listed(src: Seq<u8>, j: int, i: int, m: int)
    requires
        0 <= j <= i,
        zeros_stand(src, i, m),
        2 <= m < 256,
    ensures
        tscrunch::zero_runs(src, j).contains(m),
    decreases i - j,
{
    if j == i {
        assert(src[i] == 0);
        lemma_zeros_counted(src, i, 1, m);
        let rest = tscrunch::zero_runs(src, i + m);
        assert((seq![m] + rest)[0] == m);
    } else if src[j] == 0 {
        lemma_zeros_passed(src, j, 1);
        let k = tscrunch::zeros_at(src, j, 1);
        assert(j + k <= i) by {
            if j + k > i {
                assert(src[i - 1] == 0);
            }
        }
        lemma_run_listed(src, j + k, i, m);
        let rest = tscrunch::zero_runs(src, j + k);
        let x = choose|x: int| 0 <= x < rest.len() && rest[x] == m;
        if k >= 2 {
            assert((seq![k] + rest)[x + 1] == m);
        }
    } else {
        lemma_run_listed(src, j + 1, i, m);
    }
}

/// Every run of two zeros and more, up to 255, counts for the length that gets a code of
/// its own.
pub proof fn lemma_runs_of_zeros_count(src: Seq<u8>, i: int, m: int)
    requires
        zeros_stand(src, i, m),
        2 <= m < 256,
    ensures
        tscrunch::zero_runs(src, 0).contains(m),
{
    lemma_run_listed(src, 0, i, m);
}

/// Of the runs of zeros, the length that gets a code of its own has the greatest product
/// of length and number to the power of 11/10: no other has a greater tenth power of it.
pub proof fn lemma_best_run_of_zeros(src: Seq<u8>, run: int, q: int)
    requires
        tscrunch::best_zero_run(src, run),
        tscrunch::zero_runs(src, 0).len() > 0,
        2 <= q <= 256,
    ensures
        ({
            let runs = tscrunch::zero_runs(src, 0);
            let n = runs.len() as int;
            pow(q, 10) * pow(tscrunch::times_in(runs, q, n) as int, 11) <= pow(run, 10) * pow(
                tscrunch::times_in(runs, run, n) as int,
                11,
            )
        }),
{
    let runs = tscrunch::zero_runs(src, 0);
    let n = runs.len() as int;
    let a = tscrunch::times_in(runs, q, n);
    let b = tscrunch::times_in(runs, run, n);
    assert(tscrunch::run_score(q as nat, a) <= tscrunch::run_score(run as nat, b));
    lemma_times_is_power(1, q as nat, 10);
    lemma_times_is_power(1, run as nat, 10);
    lemma_times_is_power(tscrunch::times(1, q as nat, 10), a, 11);
    lemma_times_is_power(tscrunch::times(1, run as nat, 10), b, 11);
}

// ---------------------------------------------------------------------------
// The plain search
// ---------------------------------------------------------------------------
proof fn lemma_places(src: Seq<u8>, key: u32, upto: int)
    requires
        upto <= src.len() <= usize::MAX,
    ensures
        ({
            let list = tsgraph::places_of(src, key, upto);
            &&& forall|a: int, b: int| 0 <= a < b < list.len() ==> list[a] < list[b]
            &&& forall|a: int| 0 <= a < list.len() ==> (#[trigger] list[a]) < upto
        }),
    decreases upto,
{
    if upto > 0 {
        lemma_places(src, key, upto - 1);
        let list = tsgraph::places_of(src, key, upto);
        let before = tsgraph::places_of(src, key, upto - 1);
        assert forall|a: int, b: int| 0 <= a < b < list.len() implies list[a] < list[b] by {
            assert(list[a] == before[a]);
            if b < before.len() {
                assert(list[b] == before[b]);
            }
        }
        assert forall|a: int| 0 <= a < list.len() implies (#[trigger] list[a]) < upto by {
            if a < before.len() {
                assert(list[a] == before[a]);
            }
        }
    }
}

proof fn lemma_place_listed(src: Seq<u8>, key: u32, upto: int, q: int) -> (x: int)
    requires
        0 <= q < upto <= src.len() <= usize::MAX,
        tsgraph::key_of(src, q) == key,
    ensures
        0 <= x < tsgraph::places_of(src, key, upto).len(),
        tsgraph::places_of(src, key, upto)[x] == q,
    decreases upto,
{
    if q == upto - 1 {
        tsgraph::places_of(src, key, upto).len() - 1
    } else {
        lemma_place_listed(src, key, upto - 1, q)
    }
}

proof fn lemma_lands(list: Seq<usize>, pos: int, l: int, h: int, mid: int, idx: int)
    requires
        forall|a: int, b: int| 0 <= a < b < list.len() ==> list[a] < list[b],
        0 <= l <= idx <= h < list.len(),
        list[idx] == pos,
        l < h || mid >= idx - 1,
        mid < list.len(),
    ensures
        idx - 1 <= tsgraph::lands(list, pos, l, h, mid) < list.len(),
    decreases h - l + 1,
{
    if l < h {
        let m = l + (h - l) / 2;
        if list[m] < pos {
            assert(idx > m) by {
                if idx < m {
                    assert(list[idx] < list[m]);
                }
            }
            lemma_lands(list, pos, m + 1, h, m, idx);
        } else if list[m] > pos {
            assert(idx < m) by {
                if m < idx {
                    assert(list[m] < list[idx]);
                }
            }
            lemma_lands(list, pos, l, m - 1, m, idx);
        } else {
            assert(idx == m) by {
                if m < idx {
                    assert(list[m] < list[idx]);
                }
                if idx < m {
                    assert(list[idx] < list[m]);
                }
            }
        }
    }
}

proof fn lemma_best_down(
    src: Seq<u8>,
    list: Seq<usize>,
    pos: int,
    minlz: int,
    o: int,
    best_len: int,
    best_off: int,
)
    ensures
        tsgraph::best_down(src, list, pos, minlz, o, best_len, best_off).0 >= best_len,
    decreases o,
{
    if o > 0 {
        let off = pos - list[o - 1];
        let len = zxdp::capped_run(src, pos, off, tsgraph::match_cap(src.len() as int, pos));
        lemma_best_down(src, list, pos, minlz, o - 1, best_len, best_off);
        if len > best_len {
            lemma_best_down(src, list, pos, minlz, o - 1, len, off);
        }
    }
}

proof fn lemma_best_of_places(
    src: Seq<u8>,
    list: Seq<usize>,
    pos: int,
    minlz: int,
    o: int,
    best_len: int,
    best_off: int,
    x: int,
    len: int,
)
    requires
        forall|a: int, b: int| 0 <= a < b < list.len() ==> list[a] < list[b],
        0 <= x < o <= list.len(),
        1 <= list[x] < pos,
        pos - list[x] < 32767,
        minlz <= len <= zxdp::capped_run(
            src,
            pos,
            pos - list[x],
            tsgraph::match_cap(src.len() as int, pos),
        ),
    ensures
        tsgraph::best_down(src, list, pos, minlz, o, best_len, best_off).0 >= len - 1,
    decreases o,
{
    let off = pos - list[o - 1];
    let here = zxdp::capped_run(src, pos, off, tsgraph::match_cap(src.len() as int, pos));
    let takes = off > 0 && here >= minlz && tsgraph::is_taken(here, off, best_len, best_off);
    if x < o - 1 {
        assert(list[x] < list[o - 1]);
        if takes {
            lemma_best_of_places(src, list, pos, minlz, o - 1, here, off, x, len);
        } else {
            lemma_best_of_places(src, list, pos, minlz, o - 1, best_len, best_off, x, len);
        }
    } else if takes {
        lemma_best_down(src, list, pos, minlz, o - 1, here, off);
    } else {
        lemma_best_down(src, list, pos, minlz, o - 1, best_len, best_off);
    }
}

/// Where the bytes at `pos` occur earlier, but not from the first byte on or 32767 bytes
/// back and more, for `len` bytes that are more than the run there, the plain search has
/// a match of no fewer bytes than one less.
pub proof fn lemma_plain_search_finds(src: Seq<u8>, pos: int, off: int, len: int)
    requires
        src.len() <= usize::MAX,
        0 <= pos,
        pos + 3 < src.len(),
        1 <= off < 32767,
        off < pos,
        3 <= len <= 64,
        lz::is_match(src, pos, off, len),
        tsgraph::longest_run(src, pos) < len,
    ensures
        ({
            let least = tsgraph::least_match(tsgraph::longest_run(src, pos));
            tsgraph::plain_match(src, pos, least).0 >= len - 1
        }),
{
    let least = tsgraph::least_match(tsgraph::longest_run(src, pos));
    let key = tsgraph::key_of(src, pos);
    let list = tsgraph::places_of(src, key, src.len() - 3);
    let q = pos - off;
    assert(src[pos + 0] == src[pos + 0 - off]);
    assert(src[pos + 1] == src[pos + 1 - off]);
    assert(src[pos + 2] == src[pos + 2 - off]);
    assert(tsgraph::key_of(src, q) == key);
    lemma_places(src, key, src.len() - 3);
    let x = lemma_place_listed(src, key, src.len() - 3, q);
    let idx = lemma_place_listed(src, key, src.len() - 3, pos);
    assert(x < idx) by {
        if idx < x {
            assert(list[idx] < list[x]);
        }
    }
    lemma_lands(list, pos, 0, list.len() - 1, 0, idx);
    let o = tsgraph::lands(list, pos, 0, list.len() - 1, 0) + 1;
    zxlaws::lemma_run_at_least(src, pos, off, len);
    lemma_best_of_places(src, list, pos, least, o, 0, 1, x, len);
}

} // verus!
