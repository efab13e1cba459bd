//! TSCrunch: the shortest path through the graph of all tokens. The forward
//! stream is read from its start; the in-place stream is loaded so that it ends
//! where the output ends, and its tail that does not shrink is kept as it is.
pub use crate::tsgraph::MAX_INPUT;
use crate::tsgraph;
use crate::tsgraph::shortest_path;
use crate::tsstream;
pub use crate::tsstream::{
    decompress_forward, decompress_inplace, inplace_required_shift, TERMINATOR,
};
use crate::tsstream::{emit_token, payload_len, tok_size, TsTok, LONGEST_RLE, MIN_RLE};
use vstd::prelude::*;

verus! {

/// Level 1 runs the plain search, level 2 the best of it and the richer one.
pub const MAX_LEVEL: u8 = 2;

// ---------------------------------------------------------------------------
// Large numbers
// ---------------------------------------------------------------------------
/// Value of the digits from `i` on, the lowest first.
pub open spec fn big_from(s: Seq<u32>, i: int) -> nat
    decreases s.len() - i,
{
    if i < 0 || i >= s.len() {
        0
    } else {
        s[i] as nat + 0x1_0000_0000 * big_from(s, i + 1)
    }
}

/// Value of the digits with `top` above them.
pub open spec fn big_on(s: Seq<u32>, top: nat) -> nat
    decreases s.len(),
{
    if s.len() == 0 {
        top
    } else {
        s[0] as nat + 0x1_0000_0000 * big_on(s.drop_first(), top)
    }
}

proof fn lemma_big_push(s: Seq<u32>, d: u32, top: nat)
    ensures
        big_on(s.push(d), top) == big_on(s, d as nat + 0x1_0000_0000 * top),
    decreases s.len(),
{
    if s.len() == 0 {
        assert(s.push(d).drop_first() =~= s);
        reveal_with_fuel(big_on, 2);
    } else {
        assert(s.push(d).drop_first() =~= s.drop_first().push(d));
        lemma_big_push(s.drop_first(), d, top);
    }
}

proof fn lemma_big_on_from(s: Seq<u32>, i: int)
    requires
        0 <= i <= s.len(),
    ensures
        big_on(s.skip(i), 0) == big_from(s, i),
    decreases s.len() - i,
{
    if i < s.len() {
        lemma_big_on_from(s, i + 1);
        assert(s.skip(i).drop_first() =~= s.skip(i + 1));
    } else {
        assert(s.skip(i) =~= Seq::<u32>::empty());
    }
}

/// The number times `m`.
fn big_times(a: &Vec<u32>, m: u32) -> (r: Vec<u32>)
    requires
        a@.len() < usize::MAX,
    ensures
        big_from(r@, 0) == m as nat * big_from(a@, 0),
        r@.len() == a@.len() + 1,
{
    let n: usize = a.len();
    let mut r: Vec<u32> = Vec::with_capacity(n);
    let mut carry: u64 = 0;
    let mut i: usize = 0;
    while i < n
        invariant
            n == a@.len(),
            i <= n,
            carry <= 0xffff_ffff,
            r@.len() == i,
            big_on(r@, m as nat * big_from(a@, i as int) + carry as nat) == m as nat * big_from(a@, 0),
        decreases n - i,
    {
        let ghost r0 = r@;
        proof {
            assert(a@[i as int] * m <= 0xffff_ffff * 0xffff_ffff) by (nonlinear_arith)
                requires
                    m <= 0xffff_ffff,
                    a@[i as int] <= 0xffff_ffff,
            ;
        }
        let x: u64 = a[i] as u64 * m as u64 + carry;
        let d: u32 = (x % 0x1_0000_0000) as u32;
        let c: u64 = x / 0x1_0000_0000;
        r.push(d);
        proof {
            let y = big_from(a@, i + 1);
            let ai = a@[i as int] as nat;
            let mm = m as nat;
            let cc = carry as nat;
            let dd = d as nat;
            let c2 = c as nat;
            assert(mm * (ai + 0x1_0000_0000 * y) + cc == dd + 0x1_0000_0000 * (mm * y + c2))
                by (nonlinear_arith)
                requires
                    ai * mm + cc == dd + 0x1_0000_0000 * c2,
            ;
            lemma_big_push(r0, d, m as nat * y + c as nat);
        }
        carry = c;
        i += 1;
    }
    let ghost r0 = r@;
    r.push(carry as u32);
    proof {
        assert(big_from(a@, n as int) == 0);
        assert(m as nat * big_from(a@, n as int) == 0) by (nonlinear_arith)
            requires
                big_from(a@, n as int) == 0,
        ;
        lemma_big_push(r0, carry as u32, 0);
        lemma_big_on_from(r@, 0);
        assert(r@.skip(0) =~= r@);
    }
    r
}

/// The first number is above the second.
fn big_above(a: &Vec<u32>, b: &Vec<u32>) -> (r: bool)
    requires
        a@.len() == b@.len(),
    ensures
        r == (big_from(a@, 0) > big_from(b@, 0)),
{
    let n: usize = a.len();
    let mut i: usize = n;
    while i > 0
        invariant
            n == a@.len(),
            n == b@.len(),
            i <= n,
            big_from(a@, i as int) == big_from(b@, i as int),
        decreases i,
    {
        i -= 1;
        if a[i] != b[i] {
            let r: bool = a[i] > b[i];
            proof {
                lemma_big_order(a@, b@, i as int);
                if !r {
                    lemma_big_order(b@, a@, i as int);
                }
            }
            return r;
        }
    }
    false
}

/// The highest digit that differs decides.
proof fn lemma_big_order(a: Seq<u32>, b: Seq<u32>, i: int)
    requires
        0 <= i <= a.len(),
        a.len() == b.len(),
    ensures
        big_from(a, i) > big_from(b, i) ==> big_from(a, 0) > big_from(b, 0),
    decreases i,
{
    if i > 0 && big_from(a, i) > big_from(b, i) {
        assert(big_from(a, i - 1) > big_from(b, i - 1));
        lemma_big_order(a, b, i - 1);
    }
}

/// `base` times `m`, `k` times over.
pub open spec fn times(base: nat, m: nat, k: nat) -> nat
    decreases k,
{
    if k == 0 {
        base
    } else {
        m * times(base, m, (k - 1) as nat)
    }
}

fn big_times_over(base: Vec<u32>, m: u32, k: usize) -> (r: Vec<u32>)
    requires
        base@.len() + k < usize::MAX,
    ensures
        big_from(r@, 0) == times(big_from(base@, 0), m as nat, k as nat),
        r@.len() == base@.len() + k,
{
    let ghost b0 = big_from(base@, 0);
    let ghost n = base@.len();
    let mut r: Vec<u32> = base;
    let mut j: usize = 0;
    while j < k
        invariant
            j <= k,
            n + k < usize::MAX,
            r@.len() == n + j,
            big_from(r@, 0) == times(b0, m as nat, j as nat),
        decreases k - j,
    {
        r = big_times(&r, m);
        j += 1;
    }
    r
}

// ---------------------------------------------------------------------------
// Length of the runs of zeros that get a code of their own
// ---------------------------------------------------------------------------
/// Zeros at `i`, at most 256, `k` of which are known.
pub open spec fn zeros_at(src: Seq<u8>, i: int, k: int) -> int
    decreases 256 - k,
{
    if k < 256 && i + k < src.len() && src[i + k] == 0 {
        zeros_at(src, i, k + 1)
    } else {
        k
    }
}

/// Lengths of the runs of zeros from `i` on that are at least two long.
pub open spec fn zero_runs(src: Seq<u8>, i: int) -> Seq<int>
    decreases
        if i < src.len() {
            src.len() - i
        } else {
            0
        },
{
    if i < 0 || i + 1 >= src.len() {
        Seq::empty()
    } else if src[i] == 0 {
        let k = zeros_at(src, i, 1);
        if k < 1 {
            Seq::empty()
        } else if k >= 2 {
            seq![k] + zero_runs(src, i + k)
        } else {
            zero_runs(src, i + k)
        }
    } else {
        zero_runs(src, i + 1)
    }
}

/// How often `v` occurs in the first `k` numbers.
pub open spec fn times_in(s: Seq<int>, v: int, k: int) -> nat
    decreases k,
{
    if k <= 0 {
        0
    } else {
        times_in(s, v, k - 1) + if s[k - 1] == v {
            1nat
        } else {
            0nat
        }
    }
}

/// What a run length is worth: it grows with the length and a little more than
/// in proportion with the number of runs, as length times number to the power
/// of 11/10 does.
pub open spec fn run_score(run: nat, count: nat) -> nat {
    times(times(1, run, 10), count, 11)
}

fn score_of(run: u32, count: u32) -> (r: Vec<u32>)
    ensures
        big_from(r@, 0) == run_score(run as nat, count as nat),
        r@.len() == 22,
{
    let mut one: Vec<u32> = Vec::new();
    one.push(1);
    assert(big_from(one@, 0) == 1) by {
        reveal_with_fuel(big_from, 2);
    }
    let r: Vec<u32> = big_times_over(one, run, 10);
    big_times_over(r, count, 11)
}

/// `run` is the best length for a run of zeros: no other has a higher score, and no
/// shorter one as high a one. Without runs it is 64.
pub open spec fn best_zero_run(src: Seq<u8>, run: int) -> bool {
    let runs = zero_runs(src, 0);
    if runs.len() == 0 {
        run == 64
    } else {
        &&& 2 <= run <= 256
        &&& runs.contains(run)
        &&& forall|q: int|
            2 <= q <= 256 ==> #[trigger] run_score(
                q as nat,
                times_in(runs, q, runs.len() as int),
            ) <= run_score(run as nat, times_in(runs, run, runs.len() as int))
        &&& forall|q: int|
            2 <= q < run ==> #[trigger] run_score(q as nat, times_in(runs, q, runs.len() as int))
                < run_score(run as nat, times_in(runs, run, runs.len() as int))
    }
}

/// There is one best length.
pub proof fn lemma_one_zero_run(src: Seq<u8>, a: int, b: int)
    requires
        best_zero_run(src, a),
        best_zero_run(src, b),
    ensures
        a == b,
{
    let runs = zero_runs(src, 0);
    let n = runs.len() as int;
    if n > 0 {
        assert(run_score(a as nat, times_in(runs, a, n)) <= run_score(
            b as nat,
            times_in(runs, b, n),
        ));
        assert(run_score(b as nat, times_in(runs, b, n)) <= run_score(
            a as nat,
            times_in(runs, a, n),
        ));
    }
}

proof fn lemma_times_positive(base: nat, m: nat, k: nat)
    requires
        base > 0,
        m > 0,
    ensures
        times(base, m, k) > 0,
    decreases k,
{
    if k > 0 {
        lemma_times_positive(base, m, (k - 1) as nat);
        assert(m * times(base, m, (k - 1) as nat) > 0) by (nonlinear_arith)
            requires
                m > 0,
                times(base, m, (k - 1) as nat) > 0,
        ;
    }
}

proof fn lemma_zeros_bounds(src: Seq<u8>, i: int, k: int)
    requires
        k <= 256,
        0 <= i,
        i + k <= src.len(),
    ensures
        k <= zeros_at(src, i, k) <= 256,
        i + zeros_at(src, i, k) <= src.len(),
    decreases 256 - k,
{
    if k < 256 && i + k < src.len() && src[i + k] == 0 {
        lemma_zeros_bounds(src, i, k + 1);
    }
}

proof fn lemma_times_in(s: Seq<int>, v: int, k: int)
    requires
        0 <= k <= s.len(),
    ensures
        times_in(s, v, k) <= k,
        times_in(s, v, k) > 0 <==> exists|j: int| 0 <= j < k && s[j] == v,
    decreases k,
{
    if k > 0 {
        lemma_times_in(s, v, k - 1);
        if s[k - 1] == v {
            assert(s[k - 1] == v);
        } else if times_in(s, v, k) > 0 {
            let j = choose|j: int| 0 <= j < k - 1 && s[j] == v;
            assert(0 <= j < k && s[j] == v);
        }
    }
}

proof fn lemma_times_prefix(a: Seq<int>, b: Seq<int>, v: int, k: int)
    requires
        0 <= k <= a.len(),
        k <= b.len(),
        forall|j: int| 0 <= j < k ==> a[j] == b[j],
    ensures
        times_in(a, v, k) == times_in(b, v, k),
    decreases k,
{
    if k > 0 {
        lemma_times_prefix(a, b, v, k - 1);
    }
}

proof fn lemma_score_zero(run: nat, k: nat)
    ensures
        times(k, 0, 11) == 0,
{
    reveal_with_fuel(times, 12);
    assert(0 * times(k, 0, 10) == 0) by (nonlinear_arith);
}

/// How often every length occurs.
fn count_zero_runs(src: &[u8]) -> (counts: Vec<u32>)
    requires
        src@.len() <= MAX_INPUT,
    ensures
        counts@.len() == 257,
        forall|q: int|
            2 <= q <= 256 ==> #[trigger] counts@[q] == times_in(
                zero_runs(src@, 0),
                q,
                zero_runs(src@, 0).len() as int,
            ),
        forall|j: int|
            0 <= j < zero_runs(src@, 0).len() ==> 2 <= #[trigger] zero_runs(src@, 0)[j] <= 256,
{
    let n: usize = src.len();
    let mut counts: Vec<u32> = vec![0u32; 257];
    let ghost mut runs = Seq::<int>::empty();
    let ghost all = zero_runs(src@, 0);
    let mut i: usize = 0;
    assert(runs + all =~= all);
    while n >= 1 && i < n - 1
        invariant
            n == src@.len(),
            n <= MAX_INPUT,
            i <= n,
            all == zero_runs(src@, 0),
            all == runs + zero_runs(src@, i as int),
            runs.len() <= i,
            counts@.len() == 257,
            forall|q: int|
                2 <= q <= 256 ==> #[trigger] counts@[q] == times_in(runs, q, runs.len() as int),
            forall|j: int| 0 <= j < runs.len() ==> 2 <= #[trigger] runs[j] <= 256,
        decreases n - i,
    {
        if src[i] == 0 {
            let mut k: usize = 1;
            while k < 256 && i + k < n && src[i + k] == 0
                invariant
                    n == src@.len(),
                    i < n,
                    n <= MAX_INPUT,
                    1 <= k <= 256,
                    i + k <= n,
                    zeros_at(src@, i as int, 1) == zeros_at(src@, i as int, k as int),
                decreases 256 - k,
            {
                k += 1;
            }
            assert(zeros_at(src@, i as int, 1) == k);
            let ghost r0 = runs;
            if k >= 2 {
                proof {
                    lemma_times_in(runs, k as int, runs.len() as int);
                }
                let c: u32 = counts[k];
                counts.set(k, c + 1);
                proof {
                    runs = runs.push(k as int);
                    assert forall|q: int| 2 <= q <= 256 implies #[trigger] counts@[q] == times_in(
                        runs,
                        q,
                        runs.len() as int,
                    ) by {
                        lemma_times_prefix(r0, runs, q, r0.len() as int);
                    }
                    assert(r0 + (seq![k as int] + zero_runs(src@, i + k)) =~= runs + zero_runs(
                        src@,
                        i + k,
                    ));
                }
            }
            i += k;
        } else {
            i += 1;
        }
    }
    assert(runs + zero_runs(src@, i as int) =~= runs);
    counts
}

/// The length of a run of zeros that gets a code of its own.
pub fn find_optimal_zero(src: &[u8]) -> (run: usize)
    requires
        src@.len() <= MAX_INPUT,
    ensures
        best_zero_run(src@, run as int),
        2 <= run <= 256,
{
    let counts: Vec<u32> = count_zero_runs(src);
    let ghost runs = zero_runs(src@, 0);
    let ghost len = runs.len() as int;
    let mut best_run: usize = LONGEST_RLE;
    let mut best: Vec<u32> = score_of(0, 0);
    let mut found: bool = false;
    let mut run: usize = MIN_RLE;
    while run <= 256
        invariant
            2 <= run <= 257,
            counts@.len() == 257,
            runs == zero_runs(src@, 0),
            len == runs.len(),
            best@.len() == 22,
            forall|q: int| 2 <= q <= 256 ==> #[trigger] counts@[q] == times_in(runs, q, len),
            2 <= best_run <= 256,
            !found ==> best_run == 64 && forall|q: int| 2 <= q < run ==> #[trigger] counts@[q] == 0,
            found ==> {
                &&& counts@[best_run as int] > 0
                &&& big_from(best@, 0) == run_score(best_run as nat, counts@[best_run as int] as nat)
                &&& forall|q: int|
                    2 <= q < run ==> run_score(q as nat, #[trigger] counts@[q] as nat) <= big_from(
                        best@,
                        0,
                    )
                &&& forall|q: int|
                    2 <= q < best_run ==> run_score(q as nat, #[trigger] counts@[q] as nat)
                        < big_from(best@, 0)
            },
        decreases 257 - run,
    {
        let count: u32 = counts[run];
        if count > 0 {
            let score: Vec<u32> = score_of(run as u32, count);
            if !found || big_above(&score, &best) {
                proof {
                    lemma_times_positive(1, run as nat, 10);
                    lemma_times_positive(times(1, run as nat, 10), count as nat, 11);
                    assert forall|q: int| 2 <= q < run implies run_score(
                        q as nat,
                        #[trigger] counts@[q] as nat,
                    ) < big_from(score@, 0) by {
                        if counts@[q] == 0 {
                            lemma_score_zero(q as nat, times(1, q as nat, 10));
                        }
                    }
                }
                best = score;
                best_run = run;
                found = true;
                proof {
                    assert forall|q: int| 2 <= q < run + 1 implies run_score(
                        q as nat,
                        #[trigger] counts@[q] as nat,
                    ) <= big_from(best@, 0) by {
                        if counts@[q] == 0 {
                            lemma_score_zero(q as nat, times(1, q as nat, 10));
                        }
                    }
                }
            }
        } else {
            proof {
                lemma_score_zero(run as nat, times(1, run as nat, 10));
            }
        }
        run += 1;
    }
    proof {
        if found {
            lemma_times_in(runs, best_run as int, len);
            let j = choose|j: int| 0 <= j < len && runs[j] == best_run;
            assert(runs.contains(best_run as int));
            assert forall|q: int| 2 <= q <= 256 implies #[trigger] run_score(
                q as nat,
                times_in(runs, q, len),
            ) <= run_score(best_run as nat, times_in(runs, best_run as int, len)) by {
                assert(counts@[q] == times_in(runs, q, len));
            }
            assert forall|q: int| 2 <= q < best_run implies #[trigger] run_score(
                q as nat,
                times_in(runs, q, len),
            ) < run_score(best_run as nat, times_in(runs, best_run as int, len)) by {
                assert(counts@[q] == times_in(runs, q, len));
            }
        } else if len > 0 {
            let q = runs[0];
            lemma_times_in(runs, q, len);
            assert(0 <= 0 < len && runs[0] == q);
            assert(counts@[q] == 0);
        }
    }
    best_run
}

proof fn lemma_ts_pos(a: Seq<TsTok>, b: Seq<TsTok>, run: int, k: int)
    requires
        0 <= k <= a.len(),
        k <= b.len(),
        forall|j: int| 0 <= j < k ==> a[j] == b[j],
    ensures
        tsstream::ts_pos(a, run, k) == tsstream::ts_pos(b, run, k),
    decreases k,
{
    if k > 0 {
        lemma_ts_pos(a, b, run, k - 1);
    }
}

// ---------------------------------------------------------------------------
// Streams
// ---------------------------------------------------------------------------
/// The forward stream of tokens: the length of a run of zeros less one, the
/// tokens, and the terminator.
pub open spec fn ts_stream(src: Seq<u8>, toks: Seq<TsTok>, run: int) -> Seq<u8> {
    seq![(run - 1) as u8] + tsstream::ts_all(src, toks, run, toks.len() as int) + seq![TERMINATOR]
}

/// `stream` is a forward stream of the cheapest tokens for the input with the
/// best length of a run of zeros, and the input comes back.
pub open spec fn ts_packed(input: Seq<u8>, rich: bool, stream: Seq<u8>) -> bool {
    &&& tsstream::ts_decoded(stream) == Some(input)
    &&& exists|toks: Seq<TsTok>, run: int|
        #![trigger ts_stream(input, toks, run)]
        best_zero_run(input, run) && tsgraph::ts_parse(input, run, rich, toks) && stream
            == ts_stream(input, toks, run)
}

/// Bytes of the first `count` tokens.
fn emit_all(src: &[u8], toks: &Vec<TsTok>, run: usize, count: usize, out: &mut Vec<u8>)
    requires
        tsstream::ts_toks_ok(src@, toks@, run as int),
        count <= toks@.len(),
        src@.len() <= MAX_INPUT,
    ensures
        final(out)@ == old(out)@ + tsstream::ts_all(src@, toks@, run as int, count as int),
{
    let n: usize = src.len();
    let ghost o = out@;
    let mut k: usize = 0;
    let mut p: usize = 0;
    assert(o + Seq::<u8>::empty() =~= o);
    while k < count
        invariant
            n == src@.len(),
            n <= MAX_INPUT,
            tsstream::ts_toks_ok(src@, toks@, run as int),
            k <= count <= toks@.len(),
            p == tsstream::ts_pos(toks@, run as int, k as int),
            p <= n,
            out@ == o + tsstream::ts_all(src@, toks@, run as int, k as int),
        decreases count - k,
    {
        let t: TsTok = toks[k];
        assert(tsstream::ts_fits(src@, toks@, run as int, k as int));
        emit_token(out, src, p, &t, Ghost(run as int));
        p += tok_size(&t, run);
        k += 1;
        assert(out@ =~= o + tsstream::ts_all(src@, toks@, run as int, k as int));
    }
}

/// Forward stream by the plain or the richer search.
fn crunch_forward(input: &[u8], rich: bool) -> (stream: Vec<u8>)
    requires
        input@.len() <= MAX_INPUT,
    ensures
        ts_packed(input@, rich, stream@),
{
    let run: usize = find_optimal_zero(input);
    let toks: Vec<TsTok> = shortest_path(input, run, rich);
    let mut out: Vec<u8> = Vec::new();
    out.push((run - 1) as u8);
    let count: usize = toks.len();
    emit_all(input, &toks, run, count, &mut out);
    out.push(TERMINATOR);
    proof {
        let r = run as int;
        let all = tsstream::ts_all(input@, toks@, r, toks@.len() as int);
        assert(out@ =~= ts_stream(input@, toks@, r));
        assert(out@.subrange(1, 1 + all.len() as int) =~= all);
        tsstream::lemma_ts_run(out@, 1, input@, toks@, r, 0);
        assert(input@.take(0) =~= Seq::<u8>::empty());
        assert(input@.take(input@.len() as int) =~= input@);
        assert(out@[0] + 1 == run);
    }
    out
}

/// An in-place stream is loaded so that it ends where the output ends: its
/// address for an output at `addr` of `n` bytes.
pub open spec fn load_address(addr: int, n: int, len: int) -> int {
    ((addr + n - 1) % 0x1_0000 - len + 1) % 0x1_0000
}

pub open spec fn addr_of(addr: Seq<u8>) -> int {
    addr[0] + 256 * addr[1]
}

/// The input without its last byte: what the tokens of an in-place stream are
/// for.
pub open spec fn all_but_last(input: Seq<u8>) -> Seq<u8> {
    input.take(if input.len() > 0 {
        input.len() - 1
    } else {
        0
    })
}

/// The body of an in-place stream that keeps `keep` of the tokens: what the
/// others stand for, and the last byte, follow as they are, the first of these
/// bytes in the header.
pub open spec fn body_of(input: Seq<u8>, addr: Seq<u8>, toks: Seq<TsTok>, run: int, keep: int) -> Seq<u8> {
    let work = all_but_last(input);
    let tail = input.skip(tsstream::ts_pos(toks, run, keep));
    let first = if tail.len() > 0 {
        tail[0]
    } else {
        0u8
    };
    inplace_body(
        seq![addr[0], addr[1], (run - 1) as u8, first],
        tsstream::ts_all(work, toks, run, keep),
        if tail.len() > 1 {
            tail.skip(1)
        } else {
            Seq::empty()
        },
    )
}

/// `stream` is an in-place stream for the address: the load address, and then
/// the cheapest tokens as far as they are kept. The input comes back. The stream
/// for no input is the header alone, with no byte behind the tokens.
pub open spec fn ts_packed_inplace(input: Seq<u8>, addr: Seq<u8>, rich: bool, stream: Seq<u8>) -> bool {
    &&& stream.len() >= 5
    &&& input.len() > 0 ==> stream.len() >= 6
    &&& stream[0] + 256 * stream[1] == load_address(
        addr_of(addr),
        input.len() as int,
        stream.len() - 2,
    )
    &&& tsstream::ts_inplace(stream) == Some(input)
    &&& inplace_parsed(input, addr, rich, stream.skip(2))
}

pub open spec fn inplace_parsed(input: Seq<u8>, addr: Seq<u8>, rich: bool, body: Seq<u8>) -> bool {
    if input.len() == 0 {
        exists|run: int|
            #[trigger] best_zero_run(input, run) && body == seq![addr[0], addr[1], (run - 1) as u8]
    } else {
        inplace_tokens(input, addr, rich, body)
    }
}

pub open spec fn inplace_tokens(input: Seq<u8>, addr: Seq<u8>, rich: bool, body: Seq<u8>) -> bool {
    exists|toks: Seq<TsTok>, run: int|
        #![trigger tsgraph::ts_parse(all_but_last(input), run, rich, toks)]
        {
            &&& best_zero_run(all_but_last(input), run)
            &&& tsgraph::ts_parse(all_but_last(input), run, rich, toks)
            &&& body == body_of(input, addr, toks, run, kept_of(all_but_last(input), toks, run))
        }
}

/// How many tokens are kept when the tokens from `i` on have been looked at:
/// `safety` of them so far. From there back to `i` the tokens take `seg_in` bytes
/// for `seg_out` bytes; where that shrinks nothing, they are dropped too.
pub open spec fn kept(
    src: Seq<u8>,
    toks: Seq<TsTok>,
    run: int,
    i: int,
    safety: int,
    seg_out: int,
    seg_in: int,
) -> int
    decreases i,
{
    if i <= 0 {
        safety
    } else {
        let t = toks[i - 1];
        let size = seg_in + tsstream::ts_bytes(src, tsstream::ts_pos(toks, run, i - 1), t).len();
        let len = seg_out + tsstream::ts_len(t, run);
        if len <= size {
            kept(src, toks, run, i - 1, i - 1, 0, 0)
        } else {
            kept(src, toks, run, i - 1, safety, len, size)
        }
    }
}

/// How many tokens of a parse are kept.
pub open spec fn kept_of(src: Seq<u8>, toks: Seq<TsTok>, run: int) -> int {
    kept(src, toks, run, toks.len() as int, toks.len() as int, 0, 0)
}

/// How many tokens are kept: those behind them shrink nothing, as seen from the
/// end.
fn keep_count(src: &[u8], toks: &Vec<TsTok>, run: usize) -> (r: (usize, usize))
    requires
        tsstream::ts_toks_ok(src@, toks@, run as int),
        tsstream::ts_pos(toks@, run as int, toks@.len() as int) == src@.len(),
        src@.len() <= MAX_INPUT,
    ensures
        r.0 == kept_of(src@, toks@, run as int),
        r.0 <= toks@.len(),
        r.1 == src@.len() - tsstream::ts_pos(toks@, run as int, r.0 as int),
        r.1 <= src@.len(),
{
    let n: usize = src.len();
    let count: usize = toks.len();
    let mut safety: usize = count;
    let mut seg_out: usize = 0;
    let mut seg_in: usize = 0;
    let mut total: usize = 0;
    let mut i: usize = count;
    while i > 0
        invariant
            n == src@.len(),
            n <= MAX_INPUT,
            count == toks@.len(),
            i <= safety <= count,
            tsstream::ts_toks_ok(src@, toks@, run as int),
            total == n - tsstream::ts_pos(toks@, run as int, safety as int),
            total + seg_out == n - tsstream::ts_pos(toks@, run as int, i as int),
            seg_in <= 2 * seg_out,
            total + seg_out <= n,
            kept_of(src@, toks@, run as int) == kept(
                src@,
                toks@,
                run as int,
                i as int,
                safety as int,
                seg_out as int,
                seg_in as int,
            ),
        decreases i,
    {
        i -= 1;
        let t: TsTok = toks[i];
        assert(tsstream::ts_fits(src@, toks@, run as int, i as int));
        seg_in += payload_len(
            &t,
            Ghost(src@),
            Ghost(tsstream::ts_pos(toks@, run as int, i as int)),
            Ghost(run as int),
        );
        seg_out += tok_size(&t, run);
        if seg_out <= seg_in {
            safety = i;
            total += seg_out;
            seg_out = 0;
            seg_in = 0;
        }
    }
    (safety, total)
}

/// The stream with the two bytes of a load address in front.
pub open spec fn loaded(a: u8, b: u8, body: Seq<u8>) -> Seq<u8> {
    seq![a, b] + body
}

/// In-place stream without the load address in front.
#[verifier::rlimit(60)]
fn crunch_inplace(input: &[u8], addr: [u8; 2], rich: bool) -> (body: Vec<u8>)
    requires
        input@.len() <= MAX_INPUT,
    ensures
        body@.len() >= 3,
        input@.len() > 0 ==> body@.len() >= 4,
        body@.len() <= 0x2_0000_0000,
        inplace_parsed(input@, addr@, rich, body@),
        forall|a: u8, b: u8|
            #[trigger] tsstream::ts_inplace(loaded(a, b, body@)) == Some(input@),
{
    let n: usize = input.len();
    if n == 0 {
        let run: usize = find_optimal_zero(input);
        let mut out: Vec<u8> = Vec::new();
        out.push(addr[0]);
        out.push(addr[1]);
        out.push((run - 1) as u8);
        proof {
            assert(out@ =~= seq![addr@[0], addr@[1], (run - 1) as u8]);
            assert(best_zero_run(input@, run as int));
            assert(input@ =~= Seq::<u8>::empty());
        }
        return out;
    }
    let last: u8 = input[n - 1];
    let work: &[u8] = vstd::slice::slice_subrange(input, 0, n - 1);
    let m: usize = work.len();
    let run: usize = find_optimal_zero(work);
    let toks: Vec<TsTok> = shortest_path(work, run, rich);
    let (keep, total) = keep_count(work, &toks, run);
    let first: u8 = if total > 0 {
        work[m - total]
    } else {
        last
    };
    let mut out: Vec<u8> = Vec::new();
    out.push(addr[0]);
    out.push(addr[1]);
    out.push((run - 1) as u8);
    out.push(first);
    emit_all(work, &toks, run, keep, &mut out);
    out.push(TERMINATOR);
    let ghost head = out@;
    if total > 0 {
        let tail: &[u8] = vstd::slice::slice_subrange(work, m - total + 1, m);
        out.extend_from_slice(tail);
        out.push(last);
    }
    proof {
        let r = run as int;
        lemma_all_bound(work@, toks@, r, keep as int);
        let rest = if total > 0 {
            work@.subrange(m - total + 1, m as int).push(last)
        } else {
            Seq::<u8>::empty()
        };
        assert(out@ =~= inplace_body(
            seq![addr@[0], addr@[1], (run - 1) as u8, first],
            tsstream::ts_all(work@, toks@, r, keep as int),
            rest,
        ));
        assert(work@ =~= all_but_last(input@));
        let tail = input@.skip(tsstream::ts_pos(toks@, r, keep as int));
        assert(rest =~= if tail.len() > 1 {
            tail.skip(1)
        } else {
            Seq::empty()
        });
        assert(out@ == body_of(input@, addr@, toks@, r, keep as int));
        assert(tsgraph::ts_parse(all_but_last(input@), r, rich, toks@));
        assert(inplace_tokens(input@, addr@, rich, out@));
        assert forall|a: u8, b: u8| #[trigger] tsstream::ts_inplace(loaded(a, b, out@)) == Some(
            input@,
        ) by {
            assert(work@.take(m - total).push(first) + rest =~= input@);
            lemma_inplace(
                seq![addr@[0], addr@[1], (run - 1) as u8, first],
                rest,
                work@,
                toks@,
                r,
                keep as int,
                a,
                b,
            );
        }
    }
    out
}

/// Header, tokens, terminator and tail.
pub open spec fn inplace_body(head: Seq<u8>, all: Seq<u8>, rest: Seq<u8>) -> Seq<u8> {
    head + all + seq![TERMINATOR] + rest
}

/// An in-place stream decodes to what its tokens stand for, the byte behind
/// them and the tail.
proof fn lemma_inplace(
    head: Seq<u8>,
    rest: Seq<u8>,
    work: Seq<u8>,
    toks: Seq<TsTok>,
    run: int,
    keep: int,
    a: u8,
    b: u8,
)
    requires
        head.len() == 4,
        head[2] + 1 == run,
        tsstream::ts_toks_ok(work, toks, run),
        0 <= keep <= toks.len(),
        work.len() <= MAX_INPUT,
        rest.len() <= MAX_INPUT,
    ensures
        tsstream::ts_inplace(
            loaded(a, b, inplace_body(head, tsstream::ts_all(work, toks, run, keep), rest)),
        ) == Some(work.take(tsstream::ts_pos(toks, run, keep)).push(head[3]) + rest),
{
    let all = tsstream::ts_all(work, toks, run, keep);
    let kept = toks.take(keep);
    let d = loaded(a, b, inplace_body(head, all, rest));
    lemma_take_toks(work, toks, run, keep);
    lemma_all_bound(work, toks, run, keep);
    assert(d.subrange(6, 6 + all.len() as int) =~= all);
    assert(d[6 + all.len() as int] == TERMINATOR);
    tsstream::lemma_ts_run(d, 6, work, kept, run, 0);
    assert(work.take(0) =~= Seq::<u8>::empty());
    assert(d[4] == head[2]);
    assert(d[5] == head[3]);
    assert(d.skip(6 + all.len() as int + 1) =~= rest);
}

/// What was said of the first tokens holds of them alone.
proof fn lemma_take_toks(src: Seq<u8>, toks: Seq<TsTok>, run: int, k: int)
    requires
        tsstream::ts_toks_ok(src, toks, run),
        0 <= k <= toks.len(),
    ensures
        tsstream::ts_toks_ok(src, toks.take(k), run),
        tsstream::ts_pos(toks.take(k), run, k) == tsstream::ts_pos(toks, run, k),
        tsstream::ts_all(src, toks.take(k), run, k) == tsstream::ts_all(src, toks, run, k),
{
    let t = toks.take(k);
    assert forall|j: int| 0 <= j < t.len() implies #[trigger] tsstream::ts_fits(src, t, run, j) by {
        lemma_ts_pos(t, toks, run, j);
        assert(tsstream::ts_fits(src, toks, run, j));
    }
    lemma_ts_pos(t, toks, run, k);
    lemma_all_prefix(src, t, toks, run, k);
}

proof fn lemma_all_prefix(src: Seq<u8>, a: Seq<TsTok>, b: Seq<TsTok>, run: int, k: int)
    requires
        0 <= k <= a.len(),
        k <= b.len(),
        forall|j: int| 0 <= j < k ==> a[j] == b[j],
    ensures
        tsstream::ts_all(src, a, run, k) == tsstream::ts_all(src, b, run, k),
    decreases k,
{
    if k > 0 {
        lemma_all_prefix(src, a, b, run, k - 1);
        lemma_ts_pos(a, b, run, k - 1);
    }
}

/// Tokens take at most twice the bytes that they stand for.
proof fn lemma_all_bound(src: Seq<u8>, toks: Seq<TsTok>, run: int, k: int)
    requires
        tsstream::ts_toks_ok(src, toks, run),
        0 <= k <= toks.len(),
    ensures
        tsstream::ts_all(src, toks, run, k).len() <= 2 * tsstream::ts_pos(toks, run, k),
        tsstream::ts_pos(toks, run, k) <= src.len(),
    decreases k,
{
    if k > 0 {
        lemma_all_bound(src, toks, run, k - 1);
        assert(tsstream::ts_fits(src, toks, run, k - 1));
    }
}

/// The load address in front of an in-place stream.
#[verifier::spinoff_prover]
fn wrap_inplace(n: usize, addr: [u8; 2], body: &Vec<u8>) -> (out: Vec<u8>)
    requires
        n <= MAX_INPUT,
        body@.len() <= 0x2_0000_0000,
    ensures
        out@.len() == body@.len() + 2,
        out@ == loaded(out@[0], out@[1], body@),
        out@[0] + 256 * out@[1] == load_address(
            addr_of(addr@),
            n as int,
            body@.len() as int,
        ),
{
    let to: i64 = addr[0] as i64 + 256 * addr[1] as i64;
    let end: i64 = (to + n as i64 + 0xffff) % 0x1_0000;
    let load: i64 = (end + 0x1_0000_0000_0000 - body.len() as i64 + 1) % 0x1_0000;
    proof {
        vstd::arithmetic::div_mod::lemma_mod_multiples_vanish(1, to + n - 1, 0x1_0000);
        vstd::arithmetic::div_mod::lemma_mod_multiples_vanish(
            0x1_0000_0000,
            end - body@.len() + 1,
            0x1_0000,
        );
    }
    let mut out: Vec<u8> = Vec::with_capacity(2);
    out.push((load % 256) as u8);
    out.push((load / 256) as u8);
    out.extend_from_slice(body.as_slice());
    assert(out@ =~= loaded(out@[0], out@[1], body@));
    out
}

fn inplace(input: &[u8], addr: [u8; 2], rich: bool) -> (stream: Vec<u8>)
    requires
        input@.len() <= MAX_INPUT,
    ensures
        ts_packed_inplace(input@, addr@, rich, stream@),
{
    let body: Vec<u8> = crunch_inplace(input, addr, rich);
    let stream: Vec<u8> = wrap_inplace(input.len(), addr, &body);
    assert(stream@.skip(2) =~= body@);
    stream
}

/// Forward stream by the plain search.
pub fn compress_tscrunch(input: &[u8]) -> (stream: Vec<u8>)
    requires
        input@.len() <= MAX_INPUT,
    ensures
        ts_packed(input@, false, stream@),
{
    crunch_forward(input, false)
}

/// Forward stream by the richer search.
pub fn compress_tscrunch_rich(input: &[u8]) -> (stream: Vec<u8>)
    requires
        input@.len() <= MAX_INPUT,
    ensures
        ts_packed(input@, true, stream@),
{
    crunch_forward(input, true)
}

/// The shorter of two streams, the first where they are equally long.
pub fn shorter_of(a: Vec<u8>, b: Vec<u8>) -> (r: Vec<u8>)
    ensures
        r@ == shorter(a@, b@),
        r@.len() <= a@.len(),
        r@.len() <= b@.len(),
{
    if b.len() < a.len() {
        b
    } else {
        a
    }
}

/// The shorter of two strings, the first where they are equally long.
pub open spec fn shorter(a: Seq<u8>, b: Seq<u8>) -> Seq<u8> {
    if b.len() < a.len() {
        b
    } else {
        a
    }
}

/// The shorter of a forward stream by the plain search and one by the richer
/// search.
pub open spec fn ts_best(input: Seq<u8>, stream: Seq<u8>) -> bool {
    exists|a: Seq<u8>, b: Seq<u8>|
        #![trigger shorter(a, b)]
        ts_packed(input, false, a) && ts_packed(input, true, b) && stream == shorter(a, b)
}

/// The shorter of an in-place stream by the plain search and one by the richer
/// search.
pub open spec fn ts_best_inplace(input: Seq<u8>, addr: Seq<u8>, stream: Seq<u8>) -> bool {
    exists|a: Seq<u8>, b: Seq<u8>|
        #![trigger shorter(a, b)]
        ts_packed_inplace(input, addr, false, a) && ts_packed_inplace(input, addr, true, b) && stream
            == shorter(a, b)
}

/// The shorter of the two forward streams.
pub fn compress_tscrunch_best(input: &[u8]) -> (stream: Vec<u8>)
    requires
        input@.len() <= MAX_INPUT,
    ensures
        ts_best(input@, stream@),
        tsstream::ts_decoded(stream@) == Some(input@),
{
    let a: Vec<u8> = compress_tscrunch(input);
    let b: Vec<u8> = compress_tscrunch_rich(input);
    let ghost (x, y) = (a@, b@);
    let r: Vec<u8> = shorter_of(a, b);
    assert(r@ == shorter(x, y));
    r
}

/// In-place stream by the plain search, for an output at `addr`.
pub fn compress_tscrunch_backward_with_addr(input: &[u8], addr: [u8; 2]) -> (stream: Vec<u8>)
    requires
        input@.len() <= MAX_INPUT,
    ensures
        ts_packed_inplace(input@, addr@, false, stream@),
{
    inplace(input, addr, false)
}

/// In-place stream by the richer search, for an output at `addr`.
pub fn compress_tscrunch_rich_backward_with_addr(input: &[u8], addr: [u8; 2]) -> (stream: Vec<u8>)
    requires
        input@.len() <= MAX_INPUT,
    ensures
        ts_packed_inplace(input@, addr@, true, stream@),
{
    inplace(input, addr, true)
}

/// The shorter of the two in-place streams.
pub fn compress_tscrunch_best_backward_with_addr(input: &[u8], addr: [u8; 2]) -> (stream: Vec<u8>)
    requires
        input@.len() <= MAX_INPUT,
    ensures
        ts_best_inplace(input@, addr@, stream@),
        tsstream::ts_inplace(stream@) == Some(input@),
{
    let a: Vec<u8> = compress_tscrunch_backward_with_addr(input, addr);
    let b: Vec<u8> = compress_tscrunch_rich_backward_with_addr(input, addr);
    let ghost (x, y) = (a@, b@);
    let r: Vec<u8> = shorter_of(a, b);
    assert(r@ == shorter(x, y));
    r
}

/// The shorter of the two in-place streams, for an output at address 0.
pub fn compress_tscrunch_backward(input: &[u8]) -> (stream: Vec<u8>)
    requires
        input@.len() <= MAX_INPUT,
    ensures
        ts_best_inplace(input@, seq![0u8, 0u8], stream@),
        tsstream::ts_inplace(stream@) == Some(input@),
{
    let addr: [u8; 2] = [0, 0];
    assert(addr@ =~= seq![0u8, 0u8]);
    compress_tscrunch_best_backward_with_addr(input, addr)
}

/// In-place stream by the plain search, for an output at address 0.
pub fn compress_tscrunch_anchor_backward(input: &[u8]) -> (stream: Vec<u8>)
    requires
        input@.len() <= MAX_INPUT,
    ensures
        ts_packed_inplace(input@, seq![0u8, 0u8], false, stream@),
{
    let addr: [u8; 2] = [0, 0];
    assert(addr@ =~= seq![0u8, 0u8]);
    compress_tscrunch_backward_with_addr(input, addr)
}

/// `stream` is a stream of the layout by the plain search, or with `rich` the
/// best of both.
pub open spec fn ts_packed_as(input: Seq<u8>, rich: bool, backward: bool, stream: Seq<u8>) -> bool {
    &&& ts_decoded_as(stream, backward) == Some(input)
    &&& if backward {
        if rich {
            ts_best_inplace(input, seq![0u8, 0u8], stream)
        } else {
            ts_packed_inplace(input, seq![0u8, 0u8], false, stream)
        }
    } else if rich {
        ts_best(input, stream)
    } else {
        ts_packed(input, false, stream)
    }
}

/// Compresses at a level: 1 is the plain search, from 2 on the best of both.
pub fn compress(input: &[u8], level: u8, backward: bool) -> (stream: Vec<u8>)
    requires
        input@.len() <= MAX_INPUT,
    ensures
        ts_packed_as(input@, level >= 2, backward, stream@),
{
    compress_native(input, level >= 2, backward)
}

/// Compresses by the plain search, or with `rich` to the best of both.
pub fn compress_native(input: &[u8], rich: bool, backward: bool) -> (stream: Vec<u8>)
    requires
        input@.len() <= MAX_INPUT,
    ensures
        ts_packed_as(input@, rich, backward, stream@),
{
    if backward {
        if rich {
            compress_tscrunch_backward(input)
        } else {
            compress_tscrunch_anchor_backward(input)
        }
    } else if rich {
        compress_tscrunch_best(input)
    } else {
        compress_tscrunch(input)
    }
}

/// What a stream of the layout decodes to.
pub open spec fn ts_decoded_as(stream: Seq<u8>, backward: bool) -> Option<Seq<u8>> {
    if backward {
        tsstream::ts_inplace(stream)
    } else {
        tsstream::ts_decoded(stream)
    }
}

/// Decompresses a forward or in-place stream.
pub fn decompress(input: &[u8], backward: bool) -> (out: Vec<u8>)
    requires
        ts_decoded_as(input@, backward) is Some,
    ensures
        ts_decoded_as(input@, backward) == Some(out@),
{
    if backward {
        decompress_inplace(input)
    } else {
        decompress_forward(input)
    }
}

/// A search gives one forward stream of an input.
pub proof fn lemma_one_stream(input: Seq<u8>, rich: bool, a: Seq<u8>, b: Seq<u8>)
    requires
        ts_packed(input, rich, a),
        ts_packed(input, rich, b),
    ensures
        a == b,
{
    let (s, q) = choose|toks: Seq<TsTok>, run: int|
        #![trigger ts_stream(input, toks, run)]
        best_zero_run(input, run) && tsgraph::ts_parse(input, run, rich, toks) && a == ts_stream(
            input,
            toks,
            run,
        );
    let (t, r) = choose|toks: Seq<TsTok>, run: int|
        #![trigger ts_stream(input, toks, run)]
        best_zero_run(input, run) && tsgraph::ts_parse(input, run, rich, toks) && b == ts_stream(
            input,
            toks,
            run,
        );
    lemma_one_zero_run(input, q, r);
}

/// A search gives one in-place stream of an input for an address.
pub proof fn lemma_one_inplace_stream(
    input: Seq<u8>,
    addr: Seq<u8>,
    rich: bool,
    a: Seq<u8>,
    b: Seq<u8>,
)
    requires
        ts_packed_inplace(input, addr, rich, a),
        ts_packed_inplace(input, addr, rich, b),
    ensures
        a == b,
{
    if input.len() == 0 {
        let q = choose|run: int|
            #[trigger] best_zero_run(input, run) && a.skip(2) == seq![addr[0], addr[1], (run - 1) as u8];
        let r = choose|run: int|
            #[trigger] best_zero_run(input, run) && b.skip(2) == seq![addr[0], addr[1], (run - 1) as u8];
        lemma_one_zero_run(input, q, r);
    } else {
        let work = all_but_last(input);
        let (s, q) = choose|toks: Seq<TsTok>, run: int|
            #![trigger tsgraph::ts_parse(work, run, rich, toks)]
            {
                &&& best_zero_run(work, run)
                &&& tsgraph::ts_parse(work, run, rich, toks)
                &&& a.skip(2) == body_of(input, addr, toks, run, kept_of(work, toks, run))
            };
        let (t, r) = choose|toks: Seq<TsTok>, run: int|
            #![trigger tsgraph::ts_parse(work, run, rich, toks)]
            {
                &&& best_zero_run(work, run)
                &&& tsgraph::ts_parse(work, run, rich, toks)
                &&& b.skip(2) == body_of(input, addr, toks, run, kept_of(work, toks, run))
            };
        lemma_one_zero_run(work, q, r);
    }
    assert(a.skip(2) == b.skip(2));
    assert(a.len() == b.len());
    assert(a[0] + 256 * a[1] == b[0] + 256 * b[1]);
    assert forall|k: int| 0 <= k < a.len() implies a[k] == b[k] by {
        if k >= 2 {
            assert(a.skip(2)[k - 2] == b.skip(2)[k - 2]);
        }
    }
    assert(a =~= b);
}

/// The best forward stream is the shorter of those of the two searches, the plain
/// one where they are equally long.
pub proof fn lemma_best_is_shorter(input: Seq<u8>, best: Seq<u8>, anchor: Seq<u8>, rich: Seq<u8>)
    requires
        ts_best(input, best),
        ts_packed(input, false, anchor),
        ts_packed(input, true, rich),
    ensures
        best == shorter(anchor, rich),
{
    let (a, b) = choose|a: Seq<u8>, b: Seq<u8>|
        #![trigger shorter(a, b)]
        ts_packed(input, false, a) && ts_packed(input, true, b) && best == shorter(a, b);
    lemma_one_stream(input, false, a, anchor);
    lemma_one_stream(input, true, b, rich);
}

/// The same of in-place streams.
pub proof fn lemma_best_inplace_is_shorter(
    input: Seq<u8>,
    addr: Seq<u8>,
    best: Seq<u8>,
    anchor: Seq<u8>,
    rich: Seq<u8>,
)
    requires
        ts_best_inplace(input, addr, best),
        ts_packed_inplace(input, addr, false, anchor),
        ts_packed_inplace(input, addr, true, rich),
    ensures
        best == shorter(anchor, rich),
{
    let (a, b) = choose|a: Seq<u8>, b: Seq<u8>|
        #![trigger shorter(a, b)]
        ts_packed_inplace(input, addr, false, a) && ts_packed_inplace(input, addr, true, b) && best
            == shorter(a, b);
    lemma_one_inplace_stream(input, addr, false, a, anchor);
    lemma_one_inplace_stream(input, addr, true, b, rich);
}

} // verus!
