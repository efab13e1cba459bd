//! Optimal parses for streams with one recent offset. For every position the
//! cheapest way to get there is found, over all offsets and all ways to mix
//! literals and matches.
use crate::bitio;
use crate::gammaq;
use crate::gammaq::{gamma, length_bits, Item, Queue, NO_BITS};
use crate::lz;
use crate::zx;
use crate::zx::{gamma_bits, predicted_payload_bits, ZxCommand, ZxMode, ZxStyle};
use crate::zxbest;
use crate::zxbest::{build_zx_commands_from_best, zero_table};
use crate::zxlane;
use crate::zxlane::{hits, ints, least, lits_cost, Lane, Way};
use vstd::prelude::*;

verus! {

/// The cheapest way to each position: its cost, the offset that is the recent
/// one then, and whether it ends in literals.
struct Reach {
    opt: Vec<u64>,
    offs: Vec<usize>,
    lits: Vec<bool>,
}

/// `opt[p]` is the cheapest way to get to `p`: to end in a match there, or in
/// literals behind one.
spec fn opt_right(ends: Seq<Seq<int>>, opt: Seq<int>, off: usize, lits: bool, p: int) -> bool {
    let w = ends.len() - 1;
    &&& 0 <= opt[p] <= 200 * (p + 1)
    &&& 1 <= off <= w
    &&& forall|o: int| 1 <= o <= w ==> opt[p] <= #[trigger] ends[o][p]
    &&& forall|o: int, j: int|
        1 <= o <= w && 0 <= j < p && (#[trigger] ends[o][j]) < NO_BITS ==> opt[p] <= ends[o][j]
            + lits_cost(j, p)
    &&& if lits {
        exists|j: int|
            0 <= j < p && (#[trigger] ends[off as int][j]) < NO_BITS && opt[p] == ends[off as int][j]
                + lits_cost(j, p)
    } else {
        opt[p] == ends[off as int][p]
    }
}

/// What is known of the offset `o` when `len` ends of matches are.
spec fn lane_at(
    input: Seq<u8>,
    limit: int,
    lanes: Seq<Lane>,
    runs: Seq<usize>,
    news: Seq<Queue>,
    ends: Seq<Seq<int>>,
    opt: Seq<int>,
    o: int,
    len: int,
) -> bool {
    &&& ends[o].len() == len
    &&& lanes[o].ok(input, limit, o, ends[o], runs[o] as int)
    &&& zxlane::ends_right(input, limit, o, ends[o], opt)
    &&& zxlane::in_range(ends[o])
    &&& zxlane::news_ok(news[o], opt, len - 1, runs[o] as int)
}

/// The same while the byte at `e` is looked at, with the offsets below `done`
/// behind.
spec fn lane_half(
    input: Seq<u8>,
    limit: int,
    lanes: Seq<Lane>,
    runs: Seq<usize>,
    news: Seq<Queue>,
    ends: Seq<Seq<int>>,
    opt: Seq<int>,
    o: int,
    done: int,
    e: int,
) -> bool {
    lane_at(
        input,
        limit,
        lanes,
        runs,
        news,
        ends,
        opt,
        o,
        if o < done {
            e + 2
        } else {
            e + 1
        },
    )
}

/// Everything that the parse has found is right.
spec fn reach_right(input: Seq<u8>, limit: int, ends: Seq<Seq<int>>, r: Reach) -> bool {
    let n = input.len() as int;
    let opt = ints(r.opt@);
    &&& 2 <= ends.len() <= 0x4000_0000
    &&& ends.len() - 1 >= limit || ends.len() >= n
    &&& r.opt@.len() == n + 1
    &&& r.offs@.len() == n + 1
    &&& r.lits@.len() == n + 1
    &&& forall|o: int|
        1 <= o < ends.len() ==> (#[trigger] ends[o]).len() == n + 1 && zxlane::ends_right(
            input,
            limit,
            o,
            ends[o],
            opt,
        ) && zxlane::in_range(ends[o])
    &&& forall|p: int|
        1 <= p <= n ==> opt_right(ends, opt, #[trigger] r.offs@[p], r.lits@[p], p)
    &&& zxlane::in_range(opt)
    &&& forall|q: int| 0 <= q <= n ==> (#[trigger] r.opt@[q]) < NO_BITS
}

/// The offers for literals: the cheapest ends of matches, whatever the offset.
spec fn tops_ok(items: Seq<Item>, ends: Seq<Seq<int>>, tops: Seq<int>, n: int) -> bool {
    &&& gammaq::kept_ok(items, zxlane::lit_offers(tops, n, tops.len() as int))
    &&& forall|i: int|
        0 <= i < items.len() ==> {
            let it = #[trigger] items[i];
            &&& 1 <= it.tag < ends.len()
            &&& it.base == ends[it.tag as int][it.pos as int] + 8 * (n - it.pos)
        }
    &&& forall|o: int, j: int|
        1 <= o < ends.len() && 0 <= j < tops.len() ==> tops[j] <= #[trigger] ends[o][j]
    &&& zxlane::in_range(tops)
}

/// Bits of a written offset.
fn offset_bits(off: usize) -> (bits: u64)
    requires
        1 <= off <= 0x4000_0000,
    ensures
        bits == zx::off_len(off as int),
        bits <= 70,
{
    7 + gamma_bits(((off - 1) / 128 + 1) as u32) as u64
}

/// One byte for one offset. Returns what it costs to end in a match behind it.
fn step_lane(
    input: &[u8],
    limit: usize,
    lanes: &mut Vec<Lane>,
    runs: &mut Vec<usize>,
    news: &mut Vec<Queue>,
    off: usize,
    e: usize,
    opt: &Vec<u64>,
    Ghost(ends): Ghost<Seq<Seq<int>>>,
) -> (bits: u64)
    requires
        1 <= off < old(lanes)@.len(),
        old(lanes)@.len() == old(runs)@.len(),
        old(lanes)@.len() == old(news)@.len(),
        old(lanes)@.len() == ends.len(),
        off <= 0x4000_0000,
        input@.len() <= 0x3fff_ffff,
        e < input@.len(),
        opt@.len() == e + 1,
        zxlane::in_range(ints(opt@)),
        forall|q: int| 0 <= q <= e ==> (#[trigger] opt@[q]) < NO_BITS,
        lane_at(
            input@,
            limit as int,
            old(lanes)@,
            old(runs)@,
            old(news)@,
            ends,
            ints(opt@),
            off as int,
            e + 1,
        ),
    ensures
        final(lanes)@.len() == old(lanes)@.len(),
        final(runs)@.len() == old(runs)@.len(),
        final(news)@.len() == old(news)@.len(),
        forall|o: int|
            0 <= o < final(lanes)@.len() && o != off ==> #[trigger] final(lanes)@[o] == old(
                lanes,
            )@[o],
        forall|o: int|
            0 <= o < final(lanes)@.len() && o != off ==> #[trigger] final(runs)@[o] == old(runs)@[o],
        forall|o: int|
            0 <= o < final(lanes)@.len() && o != off ==> #[trigger] final(news)@[o] == old(news)@[o],
        bits <= 200 * (e + 2) || bits == NO_BITS,
        lane_at(
            input@,
            limit as int,
            final(lanes)@,
            final(runs)@,
            final(news)@,
            ends.update(off as int, ends[off as int].push(bits as int)),
            ints(opt@),
            off as int,
            e + 2,
        ),
{
    let n: usize = input.len();
    let run: usize = runs[off];
    let ghost en = ends[off as int];
    let ghost o = ints(opt@);
    if off <= limit && off <= e && input[e] == input[e - off] {
        let mut lane: Lane = Lane::new();
        let mut q: Queue = Queue::new();
        lanes.set_and_swap(off, &mut lane);
        news.set_and_swap(off, &mut q);
        let (b, l) = least(&mut q, e, run, opt);
        let off_bits: u64 = offset_bits(off);
        let w: Way = lane.hit(
            e,
            run,
            n,
            off,
            off_bits,
            b,
            l,
            Ghost(input@),
            Ghost(limit as int),
            Ghost(en),
            Ghost(o),
        );
        lanes.set_and_swap(off, &mut lane);
        news.set_and_swap(off, &mut q);
        runs.set(off, run + 1);
        proof {
            let more = en.push(w.bits as int);
            zxlane::lemma_ends_push(input@, limit as int, off as int, en, o, w.bits as int);
            assert(more[e + 1] == w.bits);
        }
        w.bits
    } else {
        assert(!hits(input@, limit as int, off as int, e as int));
        if run > 0 {
            let mut lane: Lane = Lane::new();
            lanes.set_and_swap(off, &mut lane);
            lane.miss(e, run, n, off, Ghost(input@), Ghost(limit as int), Ghost(en));
            lanes.set_and_swap(off, &mut lane);
            let mut q: Queue = Queue::new();
            news.set_and_swap(off, &mut q);
            runs.set(off, 0);
        } else {
            proof {
                zxlane::lemma_idle(lanes@[off as int], input@, limit as int, off as int, en);
            }
        }
        proof {
            zxlane::lemma_miss_right(input@, limit as int, off as int, en, o);
        }
        NO_BITS
    }
}

/// The lanes before the first byte.
fn start_lanes(
    w: usize,
    n: usize,
    Ghost(input): Ghost<Seq<u8>>,
    Ghost(limit): Ghost<int>,
) -> (lanes: Vec<Lane>)
    requires
        n == input.len(),
        n <= 0x3fff_ffff,
        w < 0x4000_0000,
    ensures
        lanes@.len() == w + 1,
        forall|o: int|
            1 <= o <= w ==> (#[trigger] lanes@[o]).ok(
                input,
                limit,
                o,
                seq![zxlane::start_cost(o)],
                0,
            ),
{
    let mut lanes: Vec<Lane> = Vec::with_capacity(w + 1);
    lanes.push(Lane::new());
    let mut o: usize = 1;
    while o <= w
        invariant
            1 <= o <= w + 1,
            w < 0x4000_0000,
            n == input.len(),
            n <= 0x3fff_ffff,
            lanes@.len() == o,
            forall|i: int|
                1 <= i < o ==> (#[trigger] lanes@[i]).ok(
                    input,
                    limit,
                    i,
                    seq![zxlane::start_cost(i)],
                    0,
                ),
        decreases w + 1 - o,
    {
        let l: Lane = Lane::start(o, n, Ghost(input), Ghost(limit));
        lanes.push(l);
        o += 1;
    }
    lanes
}

fn start_queues(w: usize) -> (news: Vec<Queue>)
    requires
        w < 0x4000_0000,
    ensures
        news@.len() == w + 1,
        forall|o: int| 0 <= o <= w ==> (#[trigger] news@[o]).items@.len() == 0,
{
    let mut news: Vec<Queue> = Vec::with_capacity(w + 1);
    let mut o: usize = 0;
    while o <= w
        invariant
            o <= w + 1,
            w < 0x4000_0000,
            news@.len() == o,
            forall|i: int| 0 <= i < o ==> (#[trigger] news@[i]).items@.len() == 0,
        decreases w + 1 - o,
    {
        news.push(Queue::new());
        o += 1;
    }
    news
}

/// One byte for all offsets. Returns the cheapest end of a match behind it, and
/// its offset.
fn step_all(
    input: &[u8],
    limit: usize,
    lanes: &mut Vec<Lane>,
    runs: &mut Vec<usize>,
    news: &mut Vec<Queue>,
    e: usize,
    opt: &Vec<u64>,
    Ghost(ends): Ghost<Seq<Seq<int>>>,
) -> (r: (u64, usize, Ghost<Seq<Seq<int>>>))
    requires
        old(lanes)@.len() >= 2,
        old(lanes)@.len() == old(runs)@.len(),
        old(lanes)@.len() == old(news)@.len(),
        old(lanes)@.len() == ends.len(),
        old(lanes)@.len() <= 0x4000_0000,
        input@.len() <= 0x3fff_ffff,
        e < input@.len(),
        opt@.len() == e + 1,
        zxlane::in_range(ints(opt@)),
        forall|q: int| 0 <= q <= e ==> (#[trigger] opt@[q]) < NO_BITS,
        forall|o: int|
            1 <= o < ends.len() ==> #[trigger] lane_at(
                input@,
                limit as int,
                old(lanes)@,
                old(runs)@,
                old(news)@,
                ends,
                ints(opt@),
                o,
                e + 1,
            ),
    ensures
        final(lanes)@.len() == old(lanes)@.len(),
        final(runs)@.len() == old(runs)@.len(),
        final(news)@.len() == old(news)@.len(),
        r.2@.len() == ends.len(),
        forall|o: int|
            1 <= o < ends.len() ==> #[trigger] lane_at(
                input@,
                limit as int,
                final(lanes)@,
                final(runs)@,
                final(news)@,
                r.2@,
                ints(opt@),
                o,
                e + 2,
            ),
        forall|o: int, j: int|
            1 <= o < ends.len() && 0 <= j <= e ==> #[trigger] r.2@[o][j] == ends[o][j],
        forall|o: int| 1 <= o < ends.len() ==> r.0 <= #[trigger] r.2@[o][e + 1],
        r.0 <= 200 * (e + 2) || r.0 == NO_BITS,
        r.0 < NO_BITS ==> 1 <= r.1 < ends.len() && r.2@[r.1 as int][e + 1] == r.0,
{
    let w: usize = lanes.len() - 1;
    let ghost mut now = ends;
    let ghost o = ints(opt@);
    let mut best: u64 = NO_BITS;
    let mut best_off: usize = 0;
    let mut off: usize = 1;
    proof {
        assert forall|k: int| 1 <= k < ends.len() implies #[trigger] lane_half(
            input@,
            limit as int,
            lanes@,
            runs@,
            news@,
            now,
            o,
            k,
            1,
            e as int,
        ) by {
            assert(lane_at(input@, limit as int, lanes@, runs@, news@, ends, o, k, e + 1));
        }
    }
    while off <= w
        invariant
            w == lanes@.len() - 1,
            1 <= off <= w + 1,
            w < 0x4000_0000,
            lanes@.len() == runs@.len(),
            lanes@.len() == news@.len(),
            lanes@.len() == ends.len(),
            now.len() == ends.len(),
            input@.len() <= 0x3fff_ffff,
            e < input@.len(),
            opt@.len() == e + 1,
            o == ints(opt@),
            zxlane::in_range(o),
            forall|q: int| 0 <= q <= e ==> (#[trigger] opt@[q]) < NO_BITS,
            forall|k: int|
                1 <= k < ends.len() ==> #[trigger] lane_half(
                    input@,
                    limit as int,
                    lanes@,
                    runs@,
                    news@,
                    now,
                    o,
                    k,
                    off as int,
                    e as int,
                ),
            forall|k: int, j: int|
                1 <= k < ends.len() && 0 <= j <= e ==> #[trigger] now[k][j] == ends[k][j],
            forall|k: int| 1 <= k < off ==> best <= #[trigger] now[k][e + 1],
            best <= 200 * (e + 2) || best == NO_BITS,
            best < NO_BITS ==> 1 <= best_off < off && now[best_off as int][e + 1] == best,
        decreases w + 1 - off,
    {
        let ghost was = now;
        let ghost (l0, r0, n0) = (lanes@, runs@, news@);
        proof {
            assert(lane_half(
                input@,
                limit as int,
                lanes@,
                runs@,
                news@,
                now,
                o,
                off as int,
                off as int,
                e as int,
            ));
        }
        let bits: u64 = step_lane(input, limit, lanes, runs, news, off, e, opt, Ghost(now));
        proof {
            let fresh = was.update(off as int, was[off as int].push(bits as int));
            assert forall|k: int| 1 <= k < ends.len() implies #[trigger] lane_half(
                input@,
                limit as int,
                lanes@,
                runs@,
                news@,
                fresh,
                o,
                k,
                off + 1,
                e as int,
            ) by {
                if k != off {
                    assert(lane_half(
                        input@,
                        limit as int,
                        l0,
                        r0,
                        n0,
                        was,
                        o,
                        k,
                        off as int,
                        e as int,
                    ));
                    assert(fresh[k] == was[k]);
                    assert(lanes@[k] == l0[k]);
                    assert(runs@[k] == r0[k]);
                    assert(news@[k] == n0[k]);
                }
            }
            assert forall|k: int, j: int| 1 <= k < ends.len() && 0 <= j <= e implies #[trigger] fresh[k][j]
                == ends[k][j] by {
                assert(was[k][j] == ends[k][j]);
            }
            assert(was[off as int].len() == e + 1);
            assert(fresh[off as int][e + 1] == bits);
            assert forall|k: int| 1 <= k < off implies best <= #[trigger] fresh[k][e + 1] by {
                assert(fresh[k] == was[k]);
            }
            now = fresh;
        }
        if bits < best {
            best = bits;
            best_off = off;
        }
        off += 1;
    }
    proof {
        assert forall|k: int| 1 <= k < ends.len() implies #[trigger] lane_at(
            input@,
            limit as int,
            lanes@,
            runs@,
            news@,
            now,
            o,
            k,
            e + 2,
        ) by {
            assert(lane_half(
                input@,
                limit as int,
                lanes@,
                runs@,
                news@,
                now,
                o,
                k,
                off as int,
                e as int,
            ));
        }
    }
    (best, best_off, Ghost(now))
}

/// The cheapest way to `p` once all ends of matches up to there are known.
fn step_opt(
    best: u64,
    best_off: usize,
    p: usize,
    n: usize,
    all: &Queue,
    Ghost(ends): Ghost<Seq<Seq<int>>>,
    Ghost(tops): Ghost<Seq<int>>,
    Ghost(before): Ghost<Seq<int>>,
) -> (r: (u64, usize, bool))
    requires
        1 <= p <= n <= 0x3fff_ffff,
        tops.len() == p,
        before.len() == p,
        tops_ok(all.items@, ends, tops, n as int),
        tops[0] == 0,
        ends.len() >= 2,
        forall|o: int| 1 <= o < ends.len() ==> best <= #[trigger] ends[o][p as int],
        best <= 200 * (p + 1) || best == NO_BITS,
        best < NO_BITS ==> 1 <= best_off < ends.len() && ends[best_off as int][p as int] == best,
    ensures
        opt_right(ends, before.push(r.0 as int), r.1, r.2, p as int),
        r.0 < NO_BITS,
{
    let ghost lo = zxlane::lit_offers(tops, n as int, p as int);
    let mut bits: u64 = best;
    let mut off: usize = best_off;
    let mut lits: bool = false;
    match all.cheapest(p, Ghost(lo)) {
        None => {
            assert(lo[0] == 8 * n);
        },
        Some(it) => {
            proof {
                assert(tops[it.pos as int] <= 200 * (it.pos + 1));
                let x = choose|x: int| 0 <= x < all.items@.len() && all.items@[x] == it;
                assert(all.items@[x] == it);
            }
            let b: u64 = it.base - 8 * ((n - p) as u64) + 1 + length_bits(p - it.pos);
            let ghost j = it.pos as int;
            proof {
                assert(b == ends[it.tag as int][j] + lits_cost(j, p as int));
                assert forall|o: int, i: int|
                    1 <= o < ends.len() && 0 <= i < p && (#[trigger] ends[o][i])
                        < NO_BITS implies b <= ends[o][i] + lits_cost(i, p as int) by {
                    assert(tops[i] <= ends[o][i]);
                    assert(lo[i] == tops[i] + 8 * (n - i));
                    assert(tops[i] <= 200 * (i + 1));
                    assert(gammaq::item_at(it, p as int) <= gammaq::cost_at(lo, i, p as int));
                }
            }
            if b < bits {
                bits = b;
                off = it.tag;
                lits = true;
            }
        },
    }
    let ghost opt = before.push(bits as int);
    assert(opt[p as int] == bits);
    (bits, off, lits)
}

/// The cheapest ways to all positions.
#[verifier::rlimit(60)]
fn reach_all(input: &[u8], limit: usize) -> (r: (Reach, Ghost<Seq<Seq<int>>>))
    requires
        1 <= input@.len() <= 0x3fff_ffff,
    ensures
        reach_right(input@, limit as int, r.1@, r.0),
{
    let n: usize = input.len();
    let w: usize = if n <= 2 || limit < 2 {
        1
    } else if limit < n - 1 {
        limit
    } else {
        n - 1
    };
    let mut lanes: Vec<Lane> = start_lanes(w, n, Ghost(input@), Ghost(limit as int));
    let mut news: Vec<Queue> = start_queues(w);
    let mut runs: Vec<usize> = vec![0; w + 1];
    let mut opt: Vec<u64> = Vec::with_capacity(n + 1);
    let mut offs: Vec<usize> = Vec::with_capacity(n + 1);
    let mut lits: Vec<bool> = Vec::with_capacity(n + 1);
    opt.push(0);
    offs.push(1);
    lits.push(false);
    let ghost mut ends = Seq::new((w + 1) as nat, |o: int| seq![zxlane::start_cost(o)]);
    let ghost mut tops = seq![0int];
    let mut all: Queue = Queue::new();
    let ghost none = Seq::<int>::empty();
    assert(gammaq::kept_ok(all.items@, none));
    all.push(8 * n as u64, 0, 1, Ghost(none));
    proof {
        assert(zxlane::lit_offers(tops, n as int, 1) =~= none.push(8 * n as int));
        assert forall|o: int| 1 <= o < ends.len() implies #[trigger] lane_at(
            input@,
            limit as int,
            lanes@,
            runs@,
            news@,
            ends,
            ints(opt@),
            o,
            1,
        ) by {
            assert(lanes@[o].ok(input@, limit as int, o, seq![zxlane::start_cost(o)], 0));
            assert(news@[o].items@.len() == 0);
        }
        assert(tops_ok(all.items@, ends, tops, n as int));
    }
    let mut e: usize = 0;
    while e < n
        invariant
            n == input@.len(),
            1 <= n <= 0x3fff_ffff,
            e <= n,
            1 <= w < 0x4000_0000,
            w >= limit || w + 1 >= n,
            lanes@.len() == w + 1,
            runs@.len() == w + 1,
            news@.len() == w + 1,
            ends.len() == w + 1,
            opt@.len() == e + 1,
            offs@.len() == e + 1,
            lits@.len() == e + 1,
            tops.len() == e + 1,
            tops[0] == 0,
            tops_ok(all.items@, ends, tops, n as int),
            zxlane::in_range(ints(opt@)),
            forall|q: int| 0 <= q <= e ==> (#[trigger] opt@[q]) < NO_BITS,
            forall|o: int|
                1 <= o < ends.len() ==> #[trigger] lane_at(
                    input@,
                    limit as int,
                    lanes@,
                    runs@,
                    news@,
                    ends,
                    ints(opt@),
                    o,
                    e + 1,
                ),
            forall|p: int|
                1 <= p <= e ==> opt_right(ends, ints(opt@), #[trigger] offs@[p], lits@[p], p),
        decreases n - e,
    {
        let ghost was = ends;
        let ghost o1 = ints(opt@);
        let (best, best_off, now) = step_all(
            input,
            limit,
            &mut lanes,
            &mut runs,
            &mut news,
            e,
            &opt,
            Ghost(ends),
        );
        let p: usize = e + 1;
        proof {
            ends = now@;
            lemma_tops_kept(all.items@, was, ends, tops, n as int);
        }
        let (bits, off, lit) = step_opt(
            best,
            best_off,
            p,
            n,
            &all,
            Ghost(ends),
            Ghost(tops),
            Ghost(o1),
        );
        let ghost (f1, t1) = (offs@, lits@);
        opt.push(bits);
        offs.push(off);
        lits.push(lit);
        let ghost lo = zxlane::lit_offers(tops, n as int, p as int);
        let ghost items0 = all.items@;
        if best < NO_BITS {
            all.push(best + 8 * ((n - p) as u64), p, best_off, Ghost(lo));
        } else {
            proof {
                gammaq::lemma_no_offer(all.items@, lo, NO_BITS as int);
            }
        }
        proof {
            let o2 = ints(opt@);
            assert(o2 =~= o1.push(bits as int));
            let next = tops.push(best as int);
            assert(zxlane::lit_offers(next, n as int, p + 1) =~= lo.push(
                if best < NO_BITS {
                    best + 8 * (n - p)
                } else {
                    NO_BITS as int
                },
            ));
            assert forall|i: int| 0 <= i < all.items@.len() implies {
                let it = #[trigger] all.items@[i];
                &&& 1 <= it.tag < ends.len()
                &&& it.base == ends[it.tag as int][it.pos as int] + 8 * (n - it.pos)
            } by {
                let it = all.items@[i];
                if items0.contains(it) {
                    let x = choose|x: int| 0 <= x < items0.len() && items0[x] == it;
                    assert(items0[x] == it);
                }
            }
            assert forall|o: int, j: int|
                1 <= o < ends.len() && 0 <= j < next.len() implies next[j] <= #[trigger] ends[o][j] by {
                if j < p {
                    assert(tops[j] <= ends[o][j]);
                }
            }
            assert(tops_ok(all.items@, ends, next, n as int));
            tops = next;
            assert forall|q: int| 1 <= q <= p implies opt_right(
                ends,
                o2,
                #[trigger] offs@[q],
                lits@[q],
                q,
            ) by {
                if q <= e {
                    assert(opt_right(was, o1, f1[q], t1[q], q));
                    lemma_opt_frame(was, ends, o1, o2, f1[q], t1[q], q);
                }
            }
            assert forall|o: int| 1 <= o < ends.len() implies #[trigger] lane_at(
                input@,
                limit as int,
                lanes@,
                runs@,
                news@,
                ends,
                o2,
                o,
                p + 1,
            ) by {
                assert(lane_at(
                    input@,
                    limit as int,
                    lanes@,
                    runs@,
                    news@,
                    ends,
                    o1,
                    o,
                    e + 2,
                ));
                zxlane::lemma_ends_frame(
                    input@,
                    limit as int,
                    o,
                    ends[o],
                    ends[o],
                    o1,
                    o2,
                );
                if runs@[o] > 0 {
                    assert(zxlane::new_offers(o1, p - 1, runs@[o] - 1)
                        =~= zxlane::new_offers(o2, p - 1, runs@[o] - 1));
                }
            }
        }
        e += 1;
    }
    let r: Reach = Reach { opt, offs, lits };
    proof {
        assert forall|o: int| 1 <= o < ends.len() implies (#[trigger] ends[o]).len() == n + 1
            && zxlane::ends_right(input@, limit as int, o, ends[o], ints(r.opt@)) && zxlane::in_range(
            ends[o],
        ) by {
            assert(lane_at(
                input@,
                limit as int,
                lanes@,
                runs@,
                news@,
                ends,
                ints(r.opt@),
                o,
                e + 1,
            ));
        }
    }
    (r, Ghost(ends))
}

proof fn lemma_tops_kept(items: Seq<Item>, a: Seq<Seq<int>>, b: Seq<Seq<int>>, tops: Seq<int>, n: int)
    requires
        tops_ok(items, a, tops, n),
        a.len() == b.len(),
        forall|o: int, j: int|
            1 <= o < a.len() && 0 <= j < tops.len() ==> #[trigger] b[o][j] == a[o][j],
    ensures
        tops_ok(items, b, tops, n),
{
    assert forall|i: int| 0 <= i < items.len() implies {
        let it = #[trigger] items[i];
        &&& 1 <= it.tag < b.len()
        &&& it.base == b[it.tag as int][it.pos as int] + 8 * (n - it.pos)
    } by {
        let it = items[i];
        assert(b[it.tag as int][it.pos as int] == a[it.tag as int][it.pos as int]);
    }
    assert forall|o: int, j: int|
        1 <= o < b.len() && 0 <= j < tops.len() implies tops[j] <= #[trigger] b[o][j] by {
        assert(tops[j] <= a[o][j]);
    }
}

proof fn lemma_opt_frame(
    a: Seq<Seq<int>>,
    b: Seq<Seq<int>>,
    o1: Seq<int>,
    o2: Seq<int>,
    off: usize,
    lits: bool,
    p: int,
)
    requires
        opt_right(a, o1, off, lits, p),
        a.len() == b.len(),
        p >= 0,
        o1[p] == o2[p],
        forall|o: int, j: int| 1 <= o < a.len() && 0 <= j <= p ==> #[trigger] b[o][j] == a[o][j],
    ensures
        opt_right(b, o2, off, lits, p),
{
    assert forall|o: int| 1 <= o < b.len() implies o2[p] <= #[trigger] b[o][p] by {
        assert(o1[p] <= a[o][p]);
    }
    assert forall|o: int, j: int|
        1 <= o < b.len() && 0 <= j < p && (#[trigger] b[o][j]) < NO_BITS implies o2[p] <= b[o][j]
        + lits_cost(j, p) by {
        assert(b[o][j] == a[o][j]);
        assert(a[o][j] < NO_BITS);
    }
    if lits {
        let j = choose|j: int|
            0 <= j < p && (#[trigger] a[off as int][j]) < NO_BITS && o1[p] == a[off as int][j]
                + lits_cost(j, p);
        assert(b[off as int][j] == a[off as int][j]);
    }
}

// ---------------------------------------------------------------------------
// No parse is cheaper
// ---------------------------------------------------------------------------
/// How a stream with one recent offset is coded.
pub open spec fn rep0_mode() -> ZxMode {
    ZxMode { slots: 1, near: false, am: false, eof: false, style: ZxStyle::Zx }
}

/// Every offset is at most `limit`.
pub open spec fn cmds_within(cmds: Seq<ZxCommand>, limit: int) -> bool {
    forall|k: int| 0 <= k < cmds.len() ==> (#[trigger] cmds[k]).match_off <= limit
}

/// After `k` commands that all have a match, the way here is no cheaper than the
/// cheapest one that ends in a match with the same offset.
proof fn lemma_no_cheaper(
    input: Seq<u8>,
    limit: int,
    ends: Seq<Seq<int>>,
    r: Reach,
    c: Seq<ZxCommand>,
    k: int,
)
    requires
        reach_right(input, limit, ends, r),
        input.len() <= 0x3fff_ffff,
        zx::zx_legal(input, c, rep0_mode()),
        cmds_within(c, limit),
        0 <= k <= c.len(),
        k > 0 ==> c[k - 1].match_off != 0,
    ensures
        ({
            let m = rep0_mode();
            let o = zx::zx_reps(c, m, k)[0] as int;
            let p = zx::zx_pos(c, k);
            &&& 1 <= o < ends.len()
            &&& 0 <= p <= input.len()
            &&& k > 0 ==> p > 0
            &&& ends[o][p] <= zx::zx_bits(c, m, k) + if k > 0 {
                1int
            } else {
                0int
            }
            &&& ends[o][p] < NO_BITS || zx::zx_bits(c, m, k) + 1 >= NO_BITS
        }),
    decreases k,
{
    let m = rep0_mode();
    let n = input.len() as int;
    zx::lemma_zx_reps_len(c, m, k);
    if k == 0 {
        assert(zxlane::ends_right(input, limit, 1, ends[1], ints(r.opt@)));
    } else {
        assert(zx::zx_codable_at(c, m, k - 1));
        assert(zx::zx_tiles_at(input, c, k - 1));
        if k > 1 {
            assert(zx::zx_codable_at(c, m, k - 2));
        }
        lemma_no_cheaper(input, limit, ends, r, c, k - 1);
        zx::lemma_zx_reps_len(c, m, k - 1);
        let cmd = c[k - 1];
        let reps = zx::zx_reps(c, m, k - 1);
        let o = reps[0] as int;
        let a = zx::zx_pos(c, k - 1);
        let s = a + cmd.lit_len;
        let p = s + cmd.match_len;
        let off = cmd.match_off as int;
        let opt = ints(r.opt@);
        assert(cmd.match_off <= limit);
        assert(lz::is_match(input, s, off, cmd.match_len as int));
        assert(off <= s < n || cmd.match_len == 0);
        assert(zx::zx_codable(zx::zx_sel(cmd, reps, m), reps, cmd.match_off, cmd.match_len, m));
        assert(cmd.match_len >= 1);
        assert(1 <= off < ends.len());
        assert(zxlane::ends_right(input, limit, off, ends[off], opt));
        assert(zxlane::end_right(input, limit, off, ends[off], opt, p));
        assert(zxlane::in_range(ends[off]));
        assert(zxlane::in_range(ends[o]));
        assert(zx::zx_bits(c, m, k) == zx::zx_bits(c, m, k - 1) + zx::zx_cmd_bits(c, m, k - 1));
        if ends[o][a] < NO_BITS {
            if cmd.lit_len > 0 && o == off {
                assert(zx::zx_sel(cmd, reps, m) == zx::St::Rep(0));
                assert(zxlane::rep_way(input, limit, off, ends[off], a, s, p));
                assert(ends[off][p] <= zxlane::rep_cost(ends[off], a, s, p));
            } else {
                assert(zx::zx_sel(cmd, reps, m) == zx::St::NewOffset);
                if s > 0 {
                    assert(opt_right(ends, opt, r.offs@[s], r.lits@[s], s));
                }
                assert(zxlane::new_way(input, limit, off, cmd.match_len as int, p));
                assert(opt[p - cmd.match_len] == opt[s]);
                if cmd.lit_len > 0 {
                    assert(opt[s] <= ends[o][a] + lits_cost(a, s));
                } else {
                    assert(opt[s] <= ends[o][a]);
                }
                assert(ends[off][p] <= zxlane::new_cost(opt, off, cmd.match_len as int, p));
            }
        }
        assert(ends[off][p] <= NO_BITS);
    }
}

/// No commands are cheaper than the cheapest way to the end.
proof fn lemma_optimal(
    input: Seq<u8>,
    limit: int,
    ends: Seq<Seq<int>>,
    r: Reach,
    c: Seq<ZxCommand>,
)
    requires
        reach_right(input, limit, ends, r),
        0 < input.len() <= 0x3fff_ffff,
        zx::zx_legal(input, c, rep0_mode()),
        cmds_within(c, limit),
    ensures
        r.opt@[input.len() as int] <= zx::zx_bits(c, rep0_mode(), c.len() as int) + 1,
{
    let m = rep0_mode();
    let n = input.len() as int;
    let k = c.len() as int;
    let opt = ints(r.opt@);
    assert(k > 0);
    assert(opt_right(ends, opt, r.offs@[n], r.lits@[n], n));
    assert(zx::zx_codable_at(c, m, k - 1));
    if c[k - 1].match_off != 0 {
        lemma_no_cheaper(input, limit, ends, r, c, k);
        let o = zx::zx_reps(c, m, k)[0] as int;
        assert(opt[n] <= ends[o][n]);
    } else {
        if k > 1 {
            assert(zx::zx_codable_at(c, m, k - 2));
        }
        lemma_no_cheaper(input, limit, ends, r, c, k - 1);
        let o = zx::zx_reps(c, m, k - 1)[0] as int;
        let a = zx::zx_pos(c, k - 1);
        let cmd = c[k - 1];
        assert(a + cmd.lit_len == n);
        if ends[o][a] < NO_BITS {
            if cmd.lit_len > 0 {
                assert(opt[n] <= ends[o][a] + lits_cost(a, n));
            } else {
                assert(opt[n] <= ends[o][n]);
            }
        }
    }
}

// ---------------------------------------------------------------------------
// The way back
// ---------------------------------------------------------------------------
/// How to end in a match with the offset `off`, for all positions up to `upto`.
#[verifier::rlimit(40)]
fn lane_ways(
    input: &[u8],
    limit: usize,
    off: usize,
    opt: &Vec<u64>,
    upto: usize,
    Ghost(ends): Ghost<Seq<int>>,
) -> (ways: Vec<Way>)
    requires
        1 <= off <= 0x4000_0000,
        1 <= input@.len() <= 0x3fff_ffff,
        upto <= input@.len(),
        opt@.len() == input@.len() + 1,
        ends.len() == input@.len() + 1,
        zxlane::ends_right(input@, limit as int, off as int, ends, ints(opt@)),
        zxlane::in_range(ends),
        zxlane::in_range(ints(opt@)),
        forall|q: int| 0 <= q < opt@.len() ==> (#[trigger] opt@[q]) < NO_BITS,
    ensures
        ways@.len() == upto + 1,
        ways@[0].bits == ends[0],
        forall|p: int|
            1 <= p <= upto ==> zxlane::way_ok(
                input@,
                limit as int,
                off as int,
                ends,
                ints(opt@),
                p,
                #[trigger] ways@[p],
            ),
{
    let n: usize = input.len();
    let ghost o = ints(opt@);
    let off_bits: u64 = offset_bits(off);
    let mut lane: Lane = Lane::start(off, n, Ghost(input@), Ghost(limit as int));
    let mut q: Queue = Queue::new();
    let mut run: usize = 0;
    let mut known: Vec<u64> = Vec::with_capacity(upto + 1);
    known.push(opt[0]);
    let mut ways: Vec<Way> = Vec::with_capacity(upto + 1);
    ways.push(
        Way {
            bits: if off == 1 {
                0
            } else {
                NO_BITS
            },
            start: 0,
            from: 0,
            len: 0,
        },
    );
    let ghost mut now = seq![zxlane::start_cost(off as int)];
    let mut e: usize = 0;
    while e < upto
        invariant
            n == input@.len(),
            1 <= n <= 0x3fff_ffff,
            1 <= off <= 0x4000_0000,
            e <= upto <= n,
            o == ints(opt@),
            opt@.len() == n + 1,
            off_bits == zx::off_len(off as int),
            off_bits <= 70,
            ends.len() == n + 1,
            zxlane::ends_right(input@, limit as int, off as int, ends, o),
            zxlane::in_range(ends),
            zxlane::in_range(o),
            forall|q: int| 0 <= q < opt@.len() ==> (#[trigger] opt@[q]) < NO_BITS,
            known@ == opt@.take(e + 1),
            now == ends.take(e + 1),
            lane.ok(input@, limit as int, off as int, now, run as int),
            zxlane::news_ok(q, ints(known@), e as int, run as int),
            ways@.len() == e + 1,
            ways@[0].bits == ends[0],
            forall|p: int|
                1 <= p <= e ==> zxlane::way_ok(
                    input@,
                    limit as int,
                    off as int,
                    ends,
                    o,
                    p,
                    #[trigger] ways@[p],
                ),
        decreases upto - e,
    {
        let ghost k = ints(known@);
        let ghost o1 = off as int;
        let ghost l1 = limit as int;
        let ghost goal = ends.take(e + 2);
        proof {
            assert(k =~= o.take(e + 1));
            assert(zxlane::in_range(k)) by {
                assert forall|p: int| 0 <= p < k.len() implies 0 <= #[trigger] k[p] && (k[p] <= 200
                    * (p + 1) || k[p] == NO_BITS) by {
                    assert(k[p] == o[p]);
                }
            }
            assert(zxlane::in_range(now)) by {
                assert forall|p: int| 0 <= p < now.len() implies 0 <= #[trigger] now[p] && (now[p]
                    <= 200 * (p + 1) || now[p] == NO_BITS) by {
                    assert(now[p] == ends[p]);
                }
            }
            assert(zxlane::in_range(goal)) by {
                assert forall|p: int| 0 <= p < goal.len() implies 0 <= #[trigger] goal[p] && (goal[p]
                    <= 200 * (p + 1) || goal[p] == NO_BITS) by {
                    assert(goal[p] == ends[p]);
                }
            }
            zxlane::lemma_ends_frame(input@, l1, o1, ends, now, o, k);
            zxlane::lemma_ends_frame(input@, l1, o1, ends, goal, o, k);
        }
        let w: Way;
        if off <= limit && off <= e && input[e] == input[e - off] {
            let (b, l) = least(&mut q, e, run, &known);
            w = lane.hit(
                e,
                run,
                n,
                off,
                off_bits,
                b,
                l,
                Ghost(input@),
                Ghost(limit as int),
                Ghost(now),
                Ghost(k),
            );
            proof {
                zxlane::lemma_ends_push(input@, l1, o1, now, k, w.bits as int);
            }
            run += 1;
        } else {
            assert(!hits(input@, limit as int, off as int, e as int));
            if run > 0 {
                lane.miss(e, run, n, off, Ghost(input@), Ghost(limit as int), Ghost(now));
                q.clear();
                run = 0;
            } else {
                proof {
                    zxlane::lemma_idle(lane, input@, l1, o1, now);
                }
            }
            w = Way { bits: NO_BITS, start: 0, from: 0, len: 0 };
            proof {
                zxlane::lemma_miss_right(input@, l1, o1, now, k);
            }
        }
        let next: u64 = opt[e + 1];
        known.push(next);
        ways.push(w);
        proof {
            let more = now.push(w.bits as int);
            assert(zxlane::in_range(more));
            zxlane::lemma_ends_same(input@, l1, o1, more, goal, k, e + 1);
            assert(more =~= goal);
            let k2 = ints(known@);
            assert(known@ =~= opt@.take(e + 2));
            if run > 0 {
                assert(zxlane::new_offers(k, e as int, run - 1) =~= zxlane::new_offers(
                    k2,
                    e as int,
                    run - 1,
                ));
            }
            let p = e + 1;
            if w.bits < NO_BITS {
                if w.len == 0 {
                    assert(more[w.from as int] == ends[w.from as int]);
                    assert(zxlane::rep_way(
                        input@,
                        l1,
                        o1,
                        ends,
                        w.from as int,
                        w.start as int,
                        p as int,
                    ));
                } else {
                    assert(k[p - w.len] == o[p - w.len]);
                }
            }
            assert(zxlane::way_ok(input@, l1, o1, ends, o, p as int, w));
            now = more;
        }
        e += 1;
    }
    ways
}

/// A table from `p` on, with `run` literals before it and the recent offset
/// `last`, has codes for all its matches.
spec fn tail_ok(best: Seq<(u32, u32)>, p: int, run: int, last: int) -> bool
    decreases
        if p < best.len() {
            best.len() - p
        } else {
            0
        },
{
    if p < 0 || p >= best.len() {
        p == best.len()
    } else if best[p].0 == 0 {
        tail_ok(best, p + 1, run + 1, last)
    } else {
        let (len, off) = best[p];
        &&& 1 <= off <= zx::MAX_OFFSET
        &&& len >= 2 || (run > 0 && off == last)
        &&& tail_ok(best, p + len, 0, off as int)
    }
}

spec fn pending(run: int) -> int {
    if run > 0 {
        lits_cost(0, run)
    } else {
        0
    }
}

/// What it costs.
spec fn tail_bits(best: Seq<(u32, u32)>, p: int, run: int, last: int) -> int
    decreases
        if p < best.len() {
            best.len() - p
        } else {
            0
        },
{
    if p < 0 || p >= best.len() {
        pending(run)
    } else if best[p].0 == 0 {
        tail_bits(best, p + 1, run + 1, last)
    } else {
        let (len, off) = best[p];
        pending(run) + 1 + (if run > 0 && off == last {
            gamma(len as int)
        } else {
            zx::off_len(off as int) + gamma(len - 1)
        }) + tail_bits(best, p + len, 0, off as int)
    }
}

proof fn lemma_tail_frame(a: Seq<(u32, u32)>, b: Seq<(u32, u32)>, p: int, run: int, last: int)
    requires
        a.len() == b.len(),
        0 <= p,
        forall|q: int| p <= q < a.len() ==> a[q] == b[q],
    ensures
        tail_ok(a, p, run, last) == tail_ok(b, p, run, last),
        tail_bits(a, p, run, last) == tail_bits(b, p, run, last),
    decreases
        if p < a.len() {
            a.len() - p
        } else {
            0
        },
{
    if p < a.len() {
        if a[p].0 == 0 {
            lemma_tail_frame(a, b, p + 1, run + 1, last);
        } else {
            lemma_tail_frame(a, b, p + a[p].0, 0, a[p].1 as int);
        }
    }
}

/// Literals in front.
proof fn lemma_tail_lits(best: Seq<(u32, u32)>, j: int, p: int, run: int, last: int)
    requires
        0 <= j <= p <= best.len(),
        forall|q: int| j <= q < p ==> (#[trigger] best[q]).0 == 0,
    ensures
        tail_ok(best, j, run, last) == tail_ok(best, p, run + (p - j), last),
        tail_bits(best, j, run, last) == tail_bits(best, p, run + (p - j), last),
    decreases p - j,
{
    if j < p {
        assert(best[j].0 == 0);
        lemma_tail_lits(best, j + 1, p, run + 1, last);
    }
}

/// Every match of the table lies at most `limit` back.
pub open spec fn offsets_within(best: Seq<(u32, u32)>, limit: int) -> bool {
    forall|p: int| 0 <= p < best.len() ==> (#[trigger] best[p]).1 <= limit
}

/// The table is right from `s` on: whatever comes before, the rest costs at most
/// `rest` bits.
spec fn rest_ok(best: Seq<(u32, u32)>, s: int, rest: int) -> bool {
    forall|run: int, last: int|
        run >= 0 ==> #[trigger] tail_ok(best, s, run, last) && tail_bits(best, s, run, last)
            <= pending(run) + rest
}

spec fn empty_before(best: Seq<(u32, u32)>, s: int) -> bool {
    forall|q: int| 0 <= q < s ==> (#[trigger] best[q]).0 == 0
}

/// A match is put into the table.
fn put_match(
    best: &mut Vec<(u32, u32)>,
    start: usize,
    len: usize,
    off: usize,
    limit: usize,
    Ghost(input): Ghost<Seq<u8>>,
)
    requires
        zxbest::best_ok(input, old(best)@),
        offsets_within(old(best)@, limit as int),
        input.len() <= 0x3fff_ffff,
        len >= 1,
        off <= limit,
        lz::is_match(input, start as int, off as int, len as int),
    ensures
        zxbest::best_ok(input, final(best)@),
        offsets_within(final(best)@, limit as int),
        final(best)@ == old(best)@.update(start as int, (len as u32, off as u32)),
{
    let ghost before = best@;
    best.set(start, (len as u32, off as u32));
    assert forall|p: int| 0 <= p < best@.len() && (#[trigger] best@[p]).0 > 0 implies lz::is_match(
        input,
        p,
        best@[p].1 as int,
        best@[p].0 as int,
    ) by {
        if p != start {
            assert(best@[p] == before[p]);
        }
    }
    assert forall|p: int| 0 <= p < best@.len() implies (#[trigger] best@[p]).1 <= limit by {
        if p != start {
            assert(best@[p] == before[p]);
        }
    }
}

/// Where the literals of the cheapest way to `s` start.
fn find_from(ways: &Vec<Way>, s: usize, goal: u64, Ghost(ends): Ghost<Seq<int>>) -> (j: usize)
    requires
        ways@.len() == s + 1,
        1 <= s <= 0x3fff_ffff,
        ends.len() > s,
        zxlane::in_range(ends),
        forall|p: int| 0 <= p <= s ==> (#[trigger] ways@[p]).bits == ends[p],
        exists|j: int|
            0 <= j < s && (#[trigger] ends[j]) < NO_BITS && goal == ends[j] + lits_cost(j, s as int),
    ensures
        j < s,
        ends[j as int] < NO_BITS,
        goal == ends[j as int] + lits_cost(j as int, s as int),
{
    let mut j: usize = 0;
    let ghost want = choose|j: int|
        0 <= j < s && (#[trigger] ends[j]) < NO_BITS && goal == ends[j] + lits_cost(j, s as int);
    while j < s - 1
        invariant
            ways@.len() == s + 1,
            1 <= s <= 0x3fff_ffff,
            ends.len() > s,
            zxlane::in_range(ends),
            forall|p: int| 0 <= p <= s ==> (#[trigger] ways@[p]).bits == ends[p],
            j <= want < s,
            ends[want] < NO_BITS,
            goal == ends[want] + lits_cost(want, s as int),
        decreases s - j,
    {
        let b: u64 = ways[j].bits;
        assert(ends[j as int] <= 200 * (j + 1) || ends[j as int] == NO_BITS);
        if b < NO_BITS && b + 1 + 8 * ((s - j) as u64) + length_bits(s - j) == goal {
            return j;
        }
        j += 1;
    }
    j
}

/// The matches of one offset up to the end `e` of one, back to where the offset
/// is written, or to the start. Returns the place of that match, or 0.
#[verifier::rlimit(40)]
fn walk_lane(
    best: &mut Vec<(u32, u32)>,
    ways: &Vec<Way>,
    e: usize,
    off: usize,
    limit: usize,
    Ghost(input): Ghost<Seq<u8>>,
    Ghost(ends): Ghost<Seq<int>>,
    Ghost(opt): Ghost<Seq<int>>,
    Ghost(goal): Ghost<int>,
) -> (s: usize)
    requires
        zxbest::best_ok(input, old(best)@),
        offsets_within(old(best)@, limit as int),
        0 < input.len() <= 0x3fff_ffff,
        limit <= zx::MAX_OFFSET,
        e < ways@.len() <= input.len() + 1,
        ends.len() == input.len() + 1,
        ends[0] == zxlane::start_cost(off as int),
        ends[e as int] < NO_BITS,
        forall|p: int|
            1 <= p < ways@.len() ==> zxlane::way_ok(
                input,
                limit as int,
                off as int,
                ends,
                opt,
                p,
                #[trigger] ways@[p],
            ),
        empty_before(old(best)@, e as int),
        old(best)@[0].0 == 0,
        tail_ok(old(best)@, e as int, 0, off as int),
        ends[e as int] + tail_bits(old(best)@, e as int, 0, off as int) <= goal,
    ensures
        zxbest::best_ok(input, final(best)@),
        offsets_within(final(best)@, limit as int),
        s <= e,
        e > 0 ==> s < e,
        empty_before(final(best)@, s as int),
        final(best)@[0].0 == 0,
        s == 0 ==> tail_ok(final(best)@, 0, 0, 1) && tail_bits(final(best)@, 0, 0, 1) <= goal,
        s > 0 ==> exists|rest: int| #[trigger]
            rest_ok(final(best)@, s as int, rest) && opt[s as int] + rest <= goal,
{
    let mut at: usize = e;
    while at > 0
        invariant
            zxbest::best_ok(input, best@),
            offsets_within(best@, limit as int),
            0 < input.len() <= 0x3fff_ffff,
            limit <= zx::MAX_OFFSET,
            at <= e < ways@.len() <= input.len() + 1,
            ends.len() == input.len() + 1,
            ends[0] == zxlane::start_cost(off as int),
            ends[at as int] < NO_BITS,
            forall|p: int|
                1 <= p < ways@.len() ==> zxlane::way_ok(
                    input,
                    limit as int,
                    off as int,
                    ends,
                    opt,
                    p,
                    #[trigger] ways@[p],
                ),
            empty_before(best@, at as int),
            best@[0].0 == 0,
            tail_ok(best@, at as int, 0, off as int),
            ends[at as int] + tail_bits(best@, at as int, 0, off as int) <= goal,
        decreases at,
    {
        let w: Way = ways[at];
        assert(zxlane::way_ok(input, limit as int, off as int, ends, opt, at as int, w));
        let ghost before = best@;
        if w.len > 0 {
            let s: usize = at - w.len;
            put_match(best, s, w.len, off, limit, Ghost(input));
            proof {
                let rest = 1 + zx::off_len(off as int) + gamma(w.len - 1) + tail_bits(
                    before,
                    at as int,
                    0,
                    off as int,
                );
                assert forall|run: int, last: int| run >= 0 implies #[trigger] tail_ok(
                    best@,
                    s as int,
                    run,
                    last,
                ) && tail_bits(best@, s as int, run, last) <= pending(run) + rest by {
                    lemma_tail_frame(before, best@, at as int, 0, off as int);
                    lemma_rep_is_less(w.len as int, off as int);
                }
                assert(rest_ok(best@, s as int, rest));
            }
            return s;
        }
        let (k, j) = (w.start, w.from);
        put_match(best, k, at - k, off, limit, Ghost(input));
        proof {
            lemma_tail_frame(before, best@, at as int, 0, off as int);
            assert forall|q: int| j <= q < k implies (#[trigger] best@[q]).0 == 0 by {
                assert(before[q].0 == 0);
            }
            lemma_tail_lits(best@, j as int, k as int, 0, off as int);
            assert(best@[k as int] == ((at - k) as u32, off as u32));
        }
        at = j;
    }
    0
}

/// A match with the recent offset is cheaper than one whose offset is written.
proof fn lemma_rep_is_less(len: int, off: int)
    requires
        len >= 2,
    ensures
        gamma(len) <= zx::off_len(off) + gamma(len - 1),
{
    gammaq::lemma_log_sum((len - 1) as nat, 1);
    assert((len - 1) as nat + 1 == len as nat);
    assert(bitio::floor_log2(2) == 1) by {
        reveal_with_fuel(bitio::floor_log2, 3);
    }
}

/// The cheapest parse as a table.
#[verifier::rlimit(40)]
fn read_back(
    input: &[u8],
    limit: usize,
    r: &Reach,
    Ghost(ends): Ghost<Seq<Seq<int>>>,
) -> (best: Vec<(u32, u32)>)
    requires
        1 <= input@.len() <= 0x3fff_ffff,
        limit <= zx::MAX_OFFSET,
        reach_right(input@, limit as int, ends, *r),
    ensures
        zxbest::best_ok(input@, best@),
        offsets_within(best@, limit as int),
        best@[0].0 == 0,
        tail_ok(best@, 0, 0, 1),
        tail_bits(best@, 0, 0, 1) <= r.opt@[input@.len() as int],
{
    let n: usize = input.len();
    let mut best: Vec<(u32, u32)> = zero_table(n);
    let mut s: usize = n;
    let ghost opt = ints(r.opt@);
    let ghost goal = opt[n as int];
    proof {
        assert(rest_ok(best@, n as int, 0));
        assert(opt[s as int] + 0 <= goal);
    }
    while s > 0
        invariant
            n == input@.len(),
            1 <= n <= 0x3fff_ffff,
            limit <= zx::MAX_OFFSET,
            s <= n,
            opt == ints(r.opt@),
            goal == opt[n as int],
            reach_right(input@, limit as int, ends, *r),
            zxbest::best_ok(input@, best@),
            offsets_within(best@, limit as int),
            empty_before(best@, s as int),
            best@[0].0 == 0,
            s == 0 ==> tail_ok(best@, 0, 0, 1) && tail_bits(best@, 0, 0, 1) <= goal,
            s > 0 ==> exists|rest: int| #[trigger]
                rest_ok(best@, s as int, rest) && opt[s as int] + rest <= goal,
        decreases s,
    {
        let ghost rest = choose|rest: int| #[trigger]
            rest_ok(best@, s as int, rest) && opt[s as int] + rest <= goal;
        let off: usize = r.offs[s];
        assert(opt_right(ends, opt, r.offs@[s as int], r.lits@[s as int], s as int));
        let ghost en = ends[off as int];
        assert(zxlane::ends_right(input@, limit as int, off as int, en, opt));
        let ways: Vec<Way> = lane_ways(input, limit, off, &r.opt, s, Ghost(en));
        let mut e: usize = s;
        proof {
            assert forall|p: int| 0 <= p <= s implies (#[trigger] ways@[p]).bits == en[p] by {
                if p > 0 {
                    assert(zxlane::way_ok(input@, limit as int, off as int, en, opt, p, ways@[p]));
                }
            }
        }
        if r.lits[s] {
            e = find_from(&ways, s, r.opt[s], Ghost(en));
            proof {
                lemma_tail_lits(best@, e as int, s as int, 0, off as int);
                assert(tail_ok(best@, s as int, s - e, off as int));
            }
        } else {
            proof {
                assert(tail_ok(best@, s as int, 0, off as int));
            }
        }
        s = walk_lane(
            &mut best,
            &ways,
            e,
            off,
            limit,
            Ghost(input@),
            Ghost(en),
            Ghost(opt),
            Ghost(goal),
        );
    }
    best
}

/// The commands of a table from `p` on: they can be written, and cost what was
/// counted. The first literals have no bit in front.
#[verifier::rlimit(60)]
proof fn lemma_tail_cmds(
    best: Seq<(u32, u32)>,
    ri: Seq<i8>,
    p: int,
    run: nat,
    last: int,
    cmds: Seq<ZxCommand>,
)
    requires
        0 <= p <= best.len(),
        run <= p,
        best.len() <= 0x3fff_ffff,
        best.len() == ri.len(),
        forall|q: int| 0 <= q < best.len() ==> (#[trigger] best[q]).0 <= best.len() - q,
        tail_ok(best, p, run as int, last),
        zx::zx_reps(cmds, rep0_mode(), cmds.len() as int)[0] == last,
        zx::zx_all_codable(cmds, rep0_mode()),
        forall|k: int| 0 <= k < cmds.len() ==> (#[trigger] cmds[k]).match_off != 0,
        cmds.len() == 0 ==> run > 0 || (p < best.len() && best[p].0 == 0),
    ensures
        ({
            let m = rep0_mode();
            let all = zxbest::best_cmds_from(best, ri, p, run, cmds);
            &&& zx::zx_all_codable(all, m)
            &&& zx::zx_bits(all, m, all.len() as int) == zx::zx_bits(cmds, m, cmds.len() as int)
                + tail_bits(best, p, run as int, last) - if cmds.len() == 0 {
                1int
            } else {
                0int
            }
        }),
    decreases best.len() - p,
{
    let m = rep0_mode();
    let k = cmds.len() as int;
    zx::lemma_zx_reps_len(cmds, m, k);
    if p >= best.len() {
        if run > 0 {
            let c = ZxCommand {
                lit_len: run as u32,
                lit_start: (p - run) as usize,
                match_off: 0,
                match_len: 0,
                near_rep_ri: -1i8,
            };
            let d = cmds.push(c);
            zx::lemma_zx_prefix(cmds, d, m, k);
            zxbest::lemma_codable_push(cmds, c, m);
            assert(d[k] == c);
        }
    } else if best[p].0 == 0 {
        lemma_tail_cmds(best, ri, p + 1, run + 1, last, cmds);
    } else {
        let (len, off) = best[p];
        let c = ZxCommand {
            lit_len: run as u32,
            lit_start: (p - run) as usize,
            match_off: off,
            match_len: len,
            near_rep_ri: ri[p],
        };
        let d = cmds.push(c);
        let reps = zx::zx_reps(cmds, m, k);
        zx::lemma_zx_prefix(cmds, d, m, k);
        assert(zx::zx_reps(d, m, k) == reps);
        assert(d[k] == c);
        zxbest::lemma_codable_push(cmds, c, m);
        assert(zx::zx_reps(d, m, k + 1) == zx::reps_next(zx::zx_sel(c, reps, m), reps, off));
        assert forall|j: int| 0 <= j < d.len() implies (#[trigger] d[j]).match_off != 0 by {
            if j < k {
                assert(d[j] == cmds[j]);
            }
        }
        lemma_tail_cmds(best, ri, p + len, 0, off as int, d);
        assert(zx::zx_bits(d, m, k + 1) == zx::zx_bits(cmds, m, k) + zx::zx_cmd_bits(d, m, k));
    }
}

/// No commands for the input whose offsets are at most `limit` are cheaper than
/// `bits`.
pub open spec fn least_bits(input: Seq<u8>, limit: int, bits: int) -> bool {
    forall|c: Seq<ZxCommand>| #[trigger]
        zx::zx_legal(input, c, rep0_mode()) && cmds_within(c, limit) ==> bits <= zx::zx_bits(
            c,
            rep0_mode(),
            c.len() as int,
        )
}

/// The cheapest parse with one recent offset as a table of matches, each at most
/// `limit` back.
pub fn cheapest_table(input: &[u8], limit: usize) -> (best: Vec<(u32, u32)>)
    requires
        input@.len() <= 0x3fff_ffff,
        limit <= zx::MAX_OFFSET,
    ensures
        zxbest::best_ok(input@, best@),
        offsets_within(best@, limit as int),
        forall|ri: Seq<i8>|
            ri.len() == input@.len() ==> {
                let cmds = #[trigger] zxbest::best_cmds(best@, ri);
                &&& zx::zx_all_codable(cmds, rep0_mode())
                &&& least_bits(
                    input@,
                    limit as int,
                    zx::zx_bits(cmds, rep0_mode(), cmds.len() as int) as int,
                )
            },
{
    let n: usize = input.len();
    if n == 0 {
        return zero_table(0);
    }
    let (r, ends) = reach_all(input, limit);
    let best: Vec<(u32, u32)> = read_back(input, limit, &r, ends);
    proof {
        let m = rep0_mode();
        assert forall|ri: Seq<i8>| ri.len() == input@.len() implies ({
            let cmds = #[trigger] zxbest::best_cmds(best@, ri);
            &&& zx::zx_all_codable(cmds, m)
            &&& least_bits(
                input@,
                limit as int,
                zx::zx_bits(cmds, m, cmds.len() as int) as int,
            )
        }) by {
            let cmds = zxbest::best_cmds(best@, ri);
            assert forall|q: int| 0 <= q < best@.len() implies (#[trigger] best@[q]).0 <= best@.len()
                - q by {
                if best@[q].0 > 0 {
                    assert(lz::is_match(input@, q, best@[q].1 as int, best@[q].0 as int));
                }
            }
            lemma_tail_cmds(best@, ri, 0, 0, 1, Seq::empty());
            assert forall|c: Seq<ZxCommand>| #[trigger]
                zx::zx_legal(input@, c, m) && cmds_within(c, limit as int) implies zx::zx_bits(
                cmds,
                m,
                cmds.len() as int,
            ) <= zx::zx_bits(c, m, c.len() as int) by {
                lemma_optimal(input@, limit as int, ends@, r, c);
            }
        }
    }
    best
}

} // verus!
