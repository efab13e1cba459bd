//! The cheapest ways to end in a match, offset by offset, for streams with one
//! recent offset. Costs count one bit more than the blocks take.
use crate::gammaq;
use crate::gammaq::{gamma, length_bits, Item, Queue, NO_BITS};
use crate::lz;
use crate::zx;
use vstd::prelude::*;

verus! {

/// The byte at `q` repeats the one `off` before it, and `off` may be used.
pub open spec fn hits(input: Seq<u8>, limit: int, off: int, q: int) -> bool {
    &&& 1 <= off <= limit
    &&& off <= q < input.len()
    &&& input[q] == input[q - off]
}

/// Bits of the literals from `j` to `k`, with the bit in front.
pub open spec fn lits_cost(j: int, k: int) -> int {
    1 + 8 * (k - j) + gamma(k - j)
}

/// A match from `k` to `p`, behind literals from the end `j` of another match
/// with the same offset. `ends` has what it costs to end in a match.
pub open spec fn rep_way(input: Seq<u8>, limit: int, off: int, ends: Seq<int>, j: int, k: int, p: int) -> bool {
    &&& 0 <= j < k < p
    &&& ends[j] < NO_BITS
    &&& off <= limit
    &&& lz::is_match(input, k, off, p - k)
}

pub open spec fn rep_cost(ends: Seq<int>, j: int, k: int, p: int) -> int {
    ends[j] + lits_cost(j, k) + 1 + gamma(p - k)
}

/// A match of length `len` up to `p` whose offset is written.
pub open spec fn new_way(input: Seq<u8>, limit: int, off: int, len: int, p: int) -> bool {
    &&& 2 <= len <= p
    &&& off <= limit
    &&& lz::is_match(input, p - len, off, len)
}

pub open spec fn new_cost(opt: Seq<int>, off: int, len: int, p: int) -> int {
    opt[p - len] + 1 + zx::off_len(off) + gamma(len - 1)
}

/// The cheapest way to end in a match at `p`.
pub open spec fn end_right(input: Seq<u8>, limit: int, off: int, ends: Seq<int>, opt: Seq<int>, p: int) -> bool {
    &&& forall|j: int, k: int| #[trigger]
        rep_way(input, limit, off, ends, j, k, p) ==> ends[p] <= rep_cost(ends, j, k, p)
    &&& forall|len: int| #[trigger]
        new_way(input, limit, off, len, p) ==> ends[p] <= new_cost(opt, off, len, p)
    &&& ends[p] == NO_BITS || end_reached(input, limit, off, ends, opt, p)
}

pub open spec fn end_reached(input: Seq<u8>, limit: int, off: int, ends: Seq<int>, opt: Seq<int>, p: int) -> bool {
    ||| exists|j: int, k: int| #[trigger]
        rep_way(input, limit, off, ends, j, k, p) && ends[p] == rep_cost(ends, j, k, p)
    ||| exists|len: int| #[trigger]
        new_way(input, limit, off, len, p) && ends[p] == new_cost(opt, off, len, p)
}

/// What it costs to end in nothing yet: there is a match at offset 1 before the
/// first byte.
pub open spec fn start_cost(off: int) -> int {
    if off == 1 {
        0
    } else {
        NO_BITS as int
    }
}

/// `ends` is right for every position.
pub open spec fn ends_right(input: Seq<u8>, limit: int, off: int, ends: Seq<int>, opt: Seq<int>) -> bool {
    &&& ends.len() >= 1
    &&& ends[0] == start_cost(off)
    &&& forall|p: int|
        1 <= p < ends.len() ==> #[trigger] end_right(input, limit, off, ends, opt, p)
}

/// No cost is out of range.
pub open spec fn in_range(s: Seq<int>) -> bool {
    forall|p: int|
        0 <= p < s.len() ==> 0 <= #[trigger] s[p] && (s[p] <= 200 * (p + 1) || s[p] == NO_BITS)
}

/// There is one right answer.
pub proof fn lemma_ends_same(input: Seq<u8>, limit: int, off: int, a: Seq<int>, b: Seq<int>, opt: Seq<int>, p: int)
    requires
        ends_right(input, limit, off, a, opt),
        ends_right(input, limit, off, b, opt),
        in_range(a),
        in_range(b),
        0 <= p < a.len(),
        p < b.len(),
        p <= 0x4000_0000,
    ensures
        a[p] == b[p],
    decreases p,
{
    if p > 0 {
        assert(end_right(input, limit, off, a, opt, p));
        assert(end_right(input, limit, off, b, opt, p));
        assert forall|j: int| 0 <= j < p implies a[j] == b[j] by {
            lemma_ends_same(input, limit, off, a, b, opt, j);
        }
        lemma_reached_no_less(input, limit, off, a, b, opt, p);
        lemma_reached_no_less(input, limit, off, b, a, opt, p);
    }
}

proof fn lemma_reached_no_less(input: Seq<u8>, limit: int, off: int, a: Seq<int>, b: Seq<int>, opt: Seq<int>, p: int)
    requires
        end_right(input, limit, off, a, opt, p),
        end_right(input, limit, off, b, opt, p),
        in_range(a),
        in_range(b),
        0 < p < a.len(),
        p < b.len(),
        p <= 0x4000_0000,
        forall|j: int| 0 <= j < p ==> a[j] == b[j],
    ensures
        b[p] <= a[p],
{
    assert(b[p] <= NO_BITS);
    if a[p] != NO_BITS {
        if exists|j: int, k: int| #[trigger]
            rep_way(input, limit, off, a, j, k, p) && a[p] == rep_cost(a, j, k, p) {
            let (j, k) = choose|j: int, k: int| #[trigger]
                rep_way(input, limit, off, a, j, k, p) && a[p] == rep_cost(a, j, k, p);
            assert(rep_way(input, limit, off, b, j, k, p));
            assert(a[j] == b[j]);
        } else {
            let len = choose|len: int| #[trigger]
                new_way(input, limit, off, len, p) && a[p] == new_cost(opt, off, len, p);
            assert(new_way(input, limit, off, len, p));
        }
    }
}

/// The cheapest literal run up to `k` behind one of the first `t` ends.
pub open spec fn run_min(ends: Seq<int>, k: int, t: int) -> int
    decreases t,
{
    if t <= 0 {
        NO_BITS as int
    } else {
        let before = run_min(ends, k, t - 1);
        let here = if ends[t - 1] < NO_BITS {
            ends[t - 1] + lits_cost(t - 1, k)
        } else {
            NO_BITS as int
        };
        if here < before {
            here
        } else {
            before
        }
    }
}

proof fn lemma_run_min(ends: Seq<int>, k: int, t: int, v: int)
    requires
        0 <= t <= k,
        v <= NO_BITS,
        forall|j: int| 0 <= j < t && ends[j] < NO_BITS ==> v <= #[trigger] ends[j] + lits_cost(j, k),
        v == NO_BITS || exists|j: int|
            0 <= j < t && ends[j] < NO_BITS && v == #[trigger] ends[j] + lits_cost(j, k),
    ensures
        run_min(ends, k, t) == v,
    decreases t,
{
    lemma_run_min_least(ends, k, t);
    if run_min(ends, k, t) < NO_BITS {
        lemma_run_min_some(ends, k, t);
    }
}

proof fn lemma_run_min_least(ends: Seq<int>, k: int, t: int)
    requires
        0 <= t <= k,
    ensures
        run_min(ends, k, t) <= NO_BITS,
        forall|j: int|
            0 <= j < t && ends[j] < NO_BITS ==> run_min(ends, k, t) <= #[trigger] ends[j] + lits_cost(
                j,
                k,
            ),
    decreases t,
{
    if t > 0 {
        lemma_run_min_least(ends, k, t - 1);
    }
}

proof fn lemma_run_min_some(ends: Seq<int>, k: int, t: int)
    requires
        0 <= t <= k,
        run_min(ends, k, t) < NO_BITS,
    ensures
        exists|j: int|
            0 <= j < t && ends[j] < NO_BITS && run_min(ends, k, t) == #[trigger] ends[j] + lits_cost(
                j,
                k,
            ),
    decreases t,
{
    if t > 0 {
        let before = run_min(ends, k, t - 1);
        if ends[t - 1] < NO_BITS && ends[t - 1] + lits_cost(t - 1, k) < before {
            assert(run_min(ends, k, t) == ends[t - 1] + lits_cost(t - 1, k));
        } else {
            lemma_run_min_some(ends, k, t - 1);
        }
    }
}

proof fn lemma_run_min_frame(a: Seq<int>, b: Seq<int>, k: int, t: int)
    requires
        t <= a.len(),
        t <= b.len(),
        forall|j: int| 0 <= j < t ==> a[j] == b[j],
    ensures
        run_min(a, k, t) == run_min(b, k, t),
    decreases t,
{
    if t > 0 {
        lemma_run_min_frame(a, b, k, t - 1);
    }
}

/// The offers for literal runs: the ends before `t`.
pub open spec fn lit_offers(ends: Seq<int>, n: int, t: int) -> Seq<int> {
    Seq::new(
        t as nat,
        |j: int|
            if ends[j] < NO_BITS {
                ends[j] + 8 * (n - j)
            } else {
                NO_BITS as int
            },
    )
}

/// The offers for matches behind literals that go on to `e`: their starts are
/// the last `run` positions before `e`.
pub open spec fn rep_offers(ends: Seq<int>, e: int, run: int) -> Seq<int> {
    Seq::new(
        e as nat,
        |k: int|
            if e - run <= k {
                run_min(ends, k, k)
            } else {
                NO_BITS as int
            },
    )
}

/// `run` bytes before `e` repeat what is `off` before them, and no more.
pub open spec fn run_is(input: Seq<u8>, limit: int, off: int, e: int, run: int) -> bool {
    &&& 0 <= run <= e
    &&& forall|q: int| e - run <= q < e ==> #[trigger] hits(input, limit, off, q)
    &&& run < e ==> !hits(input, limit, off, e - run - 1)
}

/// What is known of one offset at a position: offers for literal runs, offers
/// for matches behind them, and what it costs to end in a match here.
pub struct Lane {
    pub lits: Queue,
    pub reps: Queue,
    pub pend: u64,
}

/// How to end in a match: behind literals from `from` on as a match from `start`
/// on, or where `len` is not zero as a match of that length with its offset.
#[derive(Clone, Copy)]
pub struct Way {
    pub bits: u64,
    pub start: usize,
    pub from: usize,
    pub len: usize,
}

/// The way is one that there is, and costs what it says.
pub open spec fn way_ok(input: Seq<u8>, limit: int, off: int, ends: Seq<int>, opt: Seq<int>, p: int, w: Way) -> bool {
    &&& w.bits == ends[p]
    &&& w.bits < NO_BITS ==> if w.len == 0 {
        &&& rep_way(input, limit, off, ends, w.from as int, w.start as int, p)
        &&& ends[p] == rep_cost(ends, w.from as int, w.start as int, p)
    } else {
        &&& new_way(input, limit, off, w.len as int, p)
        &&& ends[p] == new_cost(opt, off, w.len as int, p)
    }
}

impl Lane {
    pub open spec fn ok(&self, input: Seq<u8>, limit: int, off: int, ends: Seq<int>, run: int) -> bool {
        let n = input.len() as int;
        let e = ends.len() - 1;
        &&& 0 <= e <= n
        &&& run_is(input, limit, off, e, run)
        &&& gammaq::kept_ok(
            self.lits.items@,
            lit_offers(
                ends,
                n,
                if e == 0 {
                    1
                } else {
                    e
                },
            ),
        )
        &&& gammaq::kept_ok(self.reps.items@, rep_offers(ends, e, run))
        &&& forall|i: int|
            0 <= i < self.reps.items@.len() ==> {
                let it = #[trigger] self.reps.items@[i];
                &&& it.tag < it.pos
                &&& ends[it.tag as int] < NO_BITS
                &&& it.base == ends[it.tag as int] + lits_cost(it.tag as int, it.pos as int)
            }
        &&& run == 0 && e > 0 ==> ends[e] == NO_BITS
        &&& run > 0 ==> self.pend == ends[e]
    }

    /// A lane that nothing is known of yet.
    pub fn new() -> (l: Lane)
        ensures
            l.lits.items@.len() == 0,
            l.reps.items@.len() == 0,
    {
        Lane { lits: Queue::new(), reps: Queue::new(), pend: NO_BITS }
    }

    /// The lane of an offset before the first byte.
    pub fn start(off: usize, n: usize, Ghost(input): Ghost<Seq<u8>>, Ghost(limit): Ghost<int>) -> (l: Lane)
        requires
            n == input.len(),
            n <= 0x3fff_ffff,
            off >= 1,
        ensures
            l.ok(input, limit, off as int, seq![start_cost(off as int)], 0),
    {
        let mut l: Lane = Lane::new();
        let ghost ends = seq![start_cost(off as int)];
        let ghost none = Seq::<int>::empty();
        assert(gammaq::kept_ok(l.lits.items@, none));
        if off == 1 {
            l.lits.push(8 * n as u64, 0, 1, Ghost(none));
            assert(lit_offers(ends, n as int, 1) =~= none.push(8 * n as int));
        } else {
            proof {
                gammaq::lemma_no_offer(l.lits.items@, none, NO_BITS as int);
                assert(lit_offers(ends, n as int, 1) =~= none.push(NO_BITS as int));
            }
        }
        assert(rep_offers(ends, 0, 0) =~= none);
        l
    }

    /// The end of a match becomes an offer for literal runs.
    fn settle(
        &mut self,
        e: usize,
        run: usize,
        n: usize,
        off: usize,
        Ghost(input): Ghost<Seq<u8>>,
        Ghost(limit): Ghost<int>,
        Ghost(ends): Ghost<Seq<int>>,
    )
        requires
            old(self).ok(input, limit, off as int, ends, run as int),
            n == input.len(),
            n <= 0x3fff_ffff,
            e == ends.len() - 1,
            in_range(ends),
        ensures
            gammaq::kept_ok(final(self).lits.items@, lit_offers(ends, n as int, e + 1)),
            final(self).reps == old(self).reps,
            final(self).pend == old(self).pend,
    {
        let ghost offers = lit_offers(
            ends,
            n as int,
            if e == 0 {
                1
            } else {
                e as int
            },
        );
        if run > 0 && self.pend < NO_BITS {
            assert(ends[e as int] == self.pend);
            self.lits.push(self.pend + 8 * ((n - e) as u64), e, 0, Ghost(offers));
            assert(lit_offers(ends, n as int, e + 1) =~= offers.push(
                ends[e as int] + 8 * (n - e),
            ));
        } else if e > 0 {
            proof {
                assert(ends[e as int] == NO_BITS);
                gammaq::lemma_no_offer(self.lits.items@, offers, NO_BITS as int);
                assert(lit_offers(ends, n as int, e + 1) =~= offers.push(NO_BITS as int));
            }
        }
    }

    /// The byte at `e` does not repeat the one before: no match ends behind it.
    pub fn miss(
        &mut self,
        e: usize,
        run: usize,
        n: usize,
        off: usize,
        Ghost(input): Ghost<Seq<u8>>,
        Ghost(limit): Ghost<int>,
        Ghost(ends): Ghost<Seq<int>>,
    )
        requires
            old(self).ok(input, limit, off as int, ends, run as int),
            n == input.len(),
            n <= 0x3fff_ffff,
            e == ends.len() - 1,
            e < n,
            !hits(input, limit, off as int, e as int),
            in_range(ends),
        ensures
            final(self).ok(input, limit, off as int, ends.push(NO_BITS as int), 0),
    {
        self.settle(e, run, n, off, Ghost(input), Ghost(limit), Ghost(ends));
        self.reps.clear();
        proof {
            let more = ends.push(NO_BITS as int);
            assert(lit_offers(more, n as int, e + 1) =~= lit_offers(ends, n as int, e + 1));
        }
    }
}

/// A lane at which nothing happens stays as it is.
pub proof fn lemma_idle(l: Lane, input: Seq<u8>, limit: int, off: int, ends: Seq<int>)
    requires
        l.ok(input, limit, off, ends, 0),
        ends.len() - 1 < input.len(),
        !hits(input, limit, off, ends.len() - 1),
        in_range(ends),
    ensures
        l.ok(input, limit, off, ends.push(NO_BITS as int), 0),
{
    let n = input.len() as int;
    let e = ends.len() - 1;
    let more = ends.push(NO_BITS as int);
    let offers = lit_offers(
        ends,
        n,
        if e == 0 {
            1
        } else {
            e
        },
    );
    if e > 0 {
        gammaq::lemma_no_offer(l.lits.items@, offers, NO_BITS as int);
        assert(lit_offers(more, n, e + 1) =~= offers.push(NO_BITS as int));
    } else {
        assert(lit_offers(more, n, e + 1) =~= offers);
    }
    let old_reps = rep_offers(ends, e, 0);
    gammaq::lemma_no_offer(l.reps.items@, old_reps, NO_BITS as int);
    assert(rep_offers(more, e + 1, 0) =~= old_reps.push(NO_BITS as int));
    assert forall|i: int| 0 <= i < l.reps.items@.len() implies {
        let it = #[trigger] l.reps.items@[i];
        &&& it.tag < it.pos
        &&& more[it.tag as int] < NO_BITS
        &&& it.base == more[it.tag as int] + lits_cost(it.tag as int, it.pos as int)
    } by {
        let it = l.reps.items@[i];
        assert(it.pos < e);
    }
}

/// `bits` is the least cost before a match of at most `top` bytes up to `p` and of
/// its length, `len` a length that it is for.
pub open spec fn is_least(opt: Seq<int>, p: int, top: int, bits: int, len: int) -> bool {
    &&& 2 <= len <= top
    &&& bits == opt[p - len] + gamma(len - 1)
    &&& forall|l: int| 2 <= l <= top ==> bits <= #[trigger] opt[p - l] + gamma(l - 1)
}

/// Matches up to `p` are no longer than the run.
proof fn lemma_run_bounds(input: Seq<u8>, limit: int, off: int, p: int, run: int, k: int)
    requires
        run_is(input, limit, off, p, run),
        0 <= k < p,
        off <= limit,
        p <= input.len(),
    ensures
        lz::is_match(input, k, off, p - k) <==> k >= p - run,
{
    if lz::is_match(input, k, off, p - k) && k < p - run {
        let q = p - run - 1;
        assert(input[k + (q - k)] == input[k + (q - k) - off]);
        assert(hits(input, limit, off, q));
    }
    if k >= p - run {
        assert(hits(input, limit, off, k));
        assert forall|i: int| 0 <= i < p - k implies #[trigger] input[k + i] == input[k + i - off] by {
            assert(hits(input, limit, off, k + i));
        }
    }
}

impl Lane {
    /// The literals before `e` as an offer for a match from there on.
    fn open_rep(
        &mut self,
        e: usize,
        run: usize,
        n: usize,
        off: usize,
        Ghost(input): Ghost<Seq<u8>>,
        Ghost(limit): Ghost<int>,
        Ghost(ends): Ghost<Seq<int>>,
    )
        requires
            old(self).ok(input, limit, off as int, ends, run as int),
            n == input.len(),
            n <= 0x3fff_ffff,
            1 <= e < n,
            e == ends.len() - 1,
            in_range(ends),
        ensures
            final(self).lits == old(self).lits,
            final(self).pend == old(self).pend,
            gammaq::kept_ok(final(self).reps.items@, rep_offers(ends, e + 1, run + 1)),
            forall|i: int|
                0 <= i < final(self).reps.items@.len() ==> {
                    let it = #[trigger] final(self).reps.items@[i];
                    &&& it.tag < it.pos
                    &&& ends[it.tag as int] < NO_BITS
                    &&& it.base == ends[it.tag as int] + lits_cost(it.tag as int, it.pos as int)
                },
    {
        let ghost lo = lit_offers(ends, n as int, e as int);
        let ghost ro = rep_offers(ends, e as int, run as int);
        let ghost before = self.reps.items@;
        match self.lits.cheapest(e, Ghost(lo)) {
            None => {
                proof {
                    assert forall|j: int| 0 <= j < e implies ends[j] >= NO_BITS by {
                        assert(lo[j] >= NO_BITS);
                    }
                    lemma_run_min(ends, e as int, e as int, NO_BITS as int);
                    gammaq::lemma_no_offer(self.reps.items@, ro, NO_BITS as int);
                    assert(rep_offers(ends, e + 1, run + 1) =~= ro.push(NO_BITS as int));
                }
            },
            Some(it) => {
                let j: usize = it.pos;
                assert(ends[j as int] < NO_BITS);
                assert(it.base == ends[j as int] + 8 * (n - j));
                assert(ends[j as int] <= 200 * (j + 1));
                let len: usize = e - j;
                let bits: u64 = it.base - 8 * ((n - e) as u64) + 1 + length_bits(len);
                proof {
                    assert(bits == ends[j as int] + lits_cost(j as int, e as int));
                    assert forall|i: int| 0 <= i < e && ends[i] < NO_BITS implies bits
                        <= #[trigger] ends[i] + lits_cost(i, e as int) by {
                        assert(lo[i] < NO_BITS);
                        assert(gammaq::item_at(it, e as int) <= gammaq::cost_at(lo, i, e as int));
                    }
                    lemma_run_min(ends, e as int, e as int, bits as int);
                }
                self.reps.push(bits, e, j, Ghost(ro));
                proof {
                    assert(rep_offers(ends, e + 1, run + 1) =~= ro.push(bits as int));
                    assert forall|i: int| 0 <= i < self.reps.items@.len() implies {
                        let it = #[trigger] self.reps.items@[i];
                        &&& it.tag < it.pos
                        &&& ends[it.tag as int] < NO_BITS
                        &&& it.base == ends[it.tag as int] + lits_cost(
                            it.tag as int,
                            it.pos as int,
                        )
                    } by {
                        let it = self.reps.items@[i];
                        if before.contains(it) {
                            let x = choose|x: int| 0 <= x < before.len() && before[x] == it;
                            assert(before[x] == it);
                        }
                    }
                }
            },
        }
    }

    /// The byte at `e` repeats the one before: the cheapest way to end in a match
    /// behind it. `least` and `least_len` are for a written offset.
    #[verifier::rlimit(40)]
    pub fn hit(
        &mut self,
        e: usize,
        run: usize,
        n: usize,
        off: usize,
        off_bits: u64,
        least: u64,
        least_len: usize,
        Ghost(input): Ghost<Seq<u8>>,
        Ghost(limit): Ghost<int>,
        Ghost(ends): Ghost<Seq<int>>,
        Ghost(opt): Ghost<Seq<int>>,
    ) -> (w: Way)
        requires
            old(self).ok(input, limit, off as int, ends, run as int),
            n == input.len(),
            n <= 0x3fff_ffff,
            e == ends.len() - 1,
            e < n,
            hits(input, limit, off as int, e as int),
            in_range(ends),
            in_range(opt),
            opt.len() == e + 1,
            forall|q: int| 0 <= q < opt.len() ==> #[trigger] opt[q] < NO_BITS,
            off_bits == zx::off_len(off as int),
            off_bits <= 70,
            run >= 1 ==> is_least(opt, e + 1, run + 1, least as int, least_len as int),
        ensures
            ({
                let more = ends.push(w.bits as int);
                &&& final(self).ok(input, limit, off as int, more, run + 1)
                &&& end_right(input, limit, off as int, more, opt, e + 1)
                &&& way_ok(input, limit, off as int, more, opt, e + 1, w)
                &&& in_range(more)
            }),
    {
        let p: usize = e + 1;
        self.open_rep(e, run, n, off, Ghost(input), Ghost(limit), Ghost(ends));
        let ghost mid = self.reps;
        let ghost was = *old(self);
        proof {
            assert(gammaq::kept_ok(self.lits.items@, lit_offers(ends, n as int, e as int)));
        }
        let ghost lo = lit_offers(ends, n as int, e as int);
        if run > 0 && self.pend < NO_BITS {
            self.lits.push(self.pend + 8 * ((n - e) as u64), e, 0, Ghost(lo));
            assert(lit_offers(ends, n as int, e + 1) =~= lo.push(ends[e as int] + 8 * (n - e)));
        } else {
            proof {
                assert(ends[e as int] == NO_BITS);
                gammaq::lemma_no_offer(self.lits.items@, lo, NO_BITS as int);
                assert(lit_offers(ends, n as int, e + 1) =~= lo.push(NO_BITS as int));
            }
        }
        let ghost ro = rep_offers(ends, p as int, run + 1);
        let mut w: Way = Way { bits: NO_BITS, start: 0, from: 0, len: 0 };
        match self.reps.cheapest(p, Ghost(ro)) {
            None => {},
            Some(it) => {
                proof {
                    let x = choose|x: int|
                        0 <= x < self.reps.items@.len() && self.reps.items@[x] == it;
                    assert(self.reps.items@[x] == it);
                    assert(ends[it.tag as int] <= 200 * (it.tag + 1));
                    gammaq::lemma_gamma_range(it.pos - it.tag);
                }
                w = Way { bits: it.base + 1 + length_bits(p - it.pos), start: it.pos, from: it.tag, len: 0 };
            },
        }
        let ghost w1 = w;
        if run >= 1 {
            proof {
                assert(opt[p - least_len] <= 200 * (p - least_len + 1));
                gammaq::lemma_gamma_range(least_len - 1);
            }
            let b: u64 = least + 1 + off_bits;
            if b < w.bits {
                w = Way { bits: b, start: p - least_len, from: 0, len: least_len };
            }
        }
        self.pend = w.bits;
        proof {
            let o = off as int;
            let more = ends.push(w.bits as int);
            assert(run_is(input, limit, o, p as int, run + 1)) by {
                assert forall|q: int| p - (run + 1) <= q < p implies #[trigger] hits(
                    input,
                    limit,
                    o,
                    q,
                ) by {
                    if q == e {
                    } else {
                        assert(e - run <= q < e);
                    }
                }
            }
            assert(lit_offers(more, n as int, p as int) =~= lit_offers(ends, n as int, e + 1));
            assert forall|k: int| 0 <= k < p implies run_min(more, k, k) == #[trigger] run_min(
                ends,
                k,
                k,
            ) by {
                lemma_run_min_frame(more, ends, k, k);
            }
            assert(rep_offers(more, p as int, run + 1) =~= ro);
            assert forall|j: int, k: int| #[trigger]
                rep_way(input, limit, o, more, j, k, p as int) implies more[p as int] <= rep_cost(
                more,
                j,
                k,
                p as int,
            ) by {
                lemma_run_bounds(input, limit, o, p as int, run + 1, k);
                lemma_run_min_least(ends, k, k);
                assert(run_min(ends, k, k) <= ends[j] + lits_cost(j, k));
                assert(ro[k] == run_min(ends, k, k));
                if ro[k] < NO_BITS {
                    assert(w1.bits <= gammaq::cost_at(ro, k, p as int) + 1);
                }
                assert(ends[j] <= 200 * (j + 1));
                gammaq::lemma_gamma_range(k - j);
                assert(ends[j] + lits_cost(j, k) < NO_BITS);
            }
            assert forall|len: int| #[trigger] new_way(input, limit, o, len, p as int) implies more[p as int]
                <= new_cost(opt, o, len, p as int) by {
                lemma_run_bounds(input, limit, o, p as int, run + 1, p - len);
                assert(w.bits <= opt[p - len] + gamma(len - 1) + 1 + off_bits);
            }
            if w.bits < NO_BITS {
                if w.len == 0 {
                    lemma_run_bounds(input, limit, o, p as int, run + 1, w.start as int);
                    assert(rep_way(input, limit, o, more, w.from as int, w.start as int, p as int));
                    assert(w.bits == rep_cost(more, w.from as int, w.start as int, p as int));
                    gammaq::lemma_gamma_range(w.start - w.from);
                } else {
                    lemma_run_bounds(input, limit, o, p as int, run + 1, p - w.len);
                    assert(new_way(input, limit, o, w.len as int, p as int));
                    assert(w.bits == new_cost(opt, o, w.len as int, p as int));
                }
            }
            assert(way_ok(input, limit, o, more, opt, p as int, w));
            assert(end_right(input, limit, o, more, opt, p as int));
            assert forall|i: int| 0 <= i < self.reps.items@.len() implies {
                let it = #[trigger] self.reps.items@[i];
                &&& it.tag < it.pos
                &&& more[it.tag as int] < NO_BITS
                &&& it.base == more[it.tag as int] + lits_cost(it.tag as int, it.pos as int)
            } by {
                let it = self.reps.items@[i];
                assert(it.pos < p);
            }
        }
        w
    }
}

/// What is right depends on what lies before alone.
pub proof fn lemma_right_frame(
    input: Seq<u8>,
    limit: int,
    off: int,
    a: Seq<int>,
    b: Seq<int>,
    opt: Seq<int>,
    opt2: Seq<int>,
    p: int,
)
    requires
        end_right(input, limit, off, a, opt, p),
        1 <= p < a.len(),
        p < b.len(),
        forall|q: int| 0 <= q <= p ==> a[q] == b[q],
        forall|q: int| 0 <= q < p - 1 ==> opt[q] == opt2[q],
    ensures
        end_right(input, limit, off, b, opt2, p),
{
    assert forall|j: int, k: int| #[trigger]
        rep_way(input, limit, off, b, j, k, p) implies b[p] <= rep_cost(b, j, k, p) by {
        assert(a[j] == b[j]);
        assert(rep_way(input, limit, off, a, j, k, p));
    }
    assert forall|len: int| #[trigger] new_way(input, limit, off, len, p) implies b[p] <= new_cost(
        opt2,
        off,
        len,
        p,
    ) by {
        assert(opt2[p - len] == opt[p - len]);
    }
    if a[p] != NO_BITS {
        if exists|j: int, k: int| #[trigger]
            rep_way(input, limit, off, a, j, k, p) && a[p] == rep_cost(a, j, k, p) {
            let (j, k) = choose|j: int, k: int| #[trigger]
                rep_way(input, limit, off, a, j, k, p) && a[p] == rep_cost(a, j, k, p);
            assert(a[j] == b[j]);
            assert(rep_way(input, limit, off, b, j, k, p));
            assert(b[p] == rep_cost(b, j, k, p));
        } else {
            let len = choose|len: int| #[trigger]
                new_way(input, limit, off, len, p) && a[p] == new_cost(opt, off, len, p);
            assert(opt2[p - len] == opt[p - len]);
            assert(new_way(input, limit, off, len, p));
        }
    }
}

pub proof fn lemma_ends_frame(
    input: Seq<u8>,
    limit: int,
    off: int,
    a: Seq<int>,
    b: Seq<int>,
    opt: Seq<int>,
    opt2: Seq<int>,
)
    requires
        ends_right(input, limit, off, a, opt),
        1 <= b.len() <= a.len(),
        forall|q: int| 0 <= q < b.len() ==> a[q] == b[q],
        forall|q: int| 0 <= q < b.len() - 2 ==> opt[q] == opt2[q],
    ensures
        ends_right(input, limit, off, b, opt2),
{
    assert forall|p: int| 1 <= p < b.len() implies #[trigger] end_right(input, limit, off, b, opt2, p) by {
        assert(end_right(input, limit, off, a, opt, p));
        lemma_right_frame(input, limit, off, a, b, opt, opt2, p);
    }
}

/// One end more that is right.
pub proof fn lemma_ends_push(input: Seq<u8>, limit: int, off: int, ends: Seq<int>, opt: Seq<int>, v: int)
    requires
        ends_right(input, limit, off, ends, opt),
        end_right(input, limit, off, ends.push(v), opt, ends.len() as int),
    ensures
        ends_right(input, limit, off, ends.push(v), opt),
{
    let b = ends.push(v);
    assert forall|p: int| 1 <= p < b.len() implies #[trigger] end_right(input, limit, off, b, opt, p) by {
        if p < ends.len() {
            assert(end_right(input, limit, off, ends, opt, p));
            lemma_right_frame(input, limit, off, ends, b, opt, opt, p);
        }
    }
}

/// Where a byte does not repeat, no match ends behind it.
pub proof fn lemma_miss_right(input: Seq<u8>, limit: int, off: int, ends: Seq<int>, opt: Seq<int>)
    requires
        ends_right(input, limit, off, ends, opt),
        ends.len() <= input.len(),
        !hits(input, limit, off, ends.len() - 1),
    ensures
        ends_right(input, limit, off, ends.push(NO_BITS as int), opt),
{
    let p = ends.len() as int;
    let more = ends.push(NO_BITS as int);
    assert forall|j: int, k: int| #[trigger]
        rep_way(input, limit, off, more, j, k, p) implies more[p] <= rep_cost(more, j, k, p) by {
        assert(input[k + (p - 1 - k)] == input[k + (p - 1 - k) - off]);
    }
    assert forall|len: int| #[trigger] new_way(input, limit, off, len, p) implies more[p] <= new_cost(
        opt,
        off,
        len,
        p,
    ) by {
        assert(input[p - len + (len - 1)] == input[p - len + (len - 1) - off]);
    }
    lemma_ends_push(input, limit, off, ends, opt, NO_BITS as int);
}

/// The offers for matches with a written offset that started at the last `run`
/// positions before `t`.
pub open spec fn new_offers(opt: Seq<int>, t: int, run: int) -> Seq<int> {
    Seq::new(
        t as nat,
        |q: int|
            if q >= t - run {
                opt[q]
            } else {
                NO_BITS as int
            },
    )
}

/// The kept starts of matches with a written offset, where a run of `run` bytes
/// ends at `e`.
pub open spec fn news_ok(news: Queue, opt: Seq<int>, e: int, run: int) -> bool {
    if run == 0 {
        news.items@.len() == 0
    } else {
        run <= e && gammaq::kept_ok(news.items@, new_offers(opt, e - 1, run - 1))
    }
}

/// The costs as numbers.
pub open spec fn ints(s: Seq<u64>) -> Seq<int> {
    Seq::new(s.len(), |i: int| s[i] as int)
}

/// The least cost for a written offset when the byte at `e` goes on a run.
pub fn least(news: &mut Queue, e: usize, run: usize, opt: &Vec<u64>) -> (r: (u64, usize))
    requires
        news_ok(*old(news), ints(opt@), e as int, run as int),
        e < opt@.len() <= 0x4000_0000,
        forall|q: int| 0 <= q < opt@.len() ==> (#[trigger] opt@[q]) < NO_BITS,
    ensures
        news_ok(*final(news), ints(opt@), e + 1, run + 1),
        run >= 1 ==> is_least(ints(opt@), e + 1, run + 1, r.0 as int, r.1 as int),
{
    let ghost o = ints(opt@);
    if run == 0 {
        proof {
            let none = new_offers(o, e as int, 0);
            assert(gammaq::kept_ok(news.items@, none));
        }
        return (0, 0);
    }
    let ghost before = new_offers(o, e - 1, run - 1);
    news.push(opt[e - 1], e - 1, 0, Ghost(before));
    let ghost offers = new_offers(o, e as int, run as int);
    assert(offers =~= before.push(o[e - 1]));
    match news.cheapest(e, Ghost(offers)) {
        None => {
            assert(offers[e - 1] == o[e - 1]);
            (0, 0)
        },
        Some(it) => {
            let bits: u64 = it.base + length_bits(e - it.pos);
            let len: usize = e + 1 - it.pos;
            proof {
                assert(offers[it.pos as int] < NO_BITS);
                assert forall|l: int| 2 <= l <= run + 1 implies bits <= #[trigger] o[e + 1 - l]
                    + gamma(l - 1) by {
                    let q = e + 1 - l;
                    assert(offers[q] == o[q]);
                    assert(gammaq::item_at(it, e as int) <= gammaq::cost_at(offers, q, e as int));
                }
            }
            (bits, len)
        },
    }
}

} // verus!
