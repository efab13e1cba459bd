//! What a table of arrivals keeps of the arrivals that it is offered.
use crate::zxdp;
use crate::zxdp::{ZxArr, ZX_INF};
use vstd::prelude::*;

verus! {

/// Cost and score of `a` are no better than those of `b`.
pub open spec fn no_better(cost: u64, score: u32, b: ZxArr) -> bool {
    b.cost < cost || (b.cost == cost && b.score <= score)
}

/// The first `width` places of a row are in order, the best first.
pub open spec fn row_in_order(row: Seq<ZxArr>, width: int) -> bool {
    forall|j: int, k: int|
        0 <= j < k < width ==> no_better(
            (#[trigger] row[k]).cost,
            row[k].score,
            #[trigger] row[j],
        )
}

/// The place `k` holds a live arrival in this state that is as good.
pub open spec fn stands_for(
    a: ZxArr,
    lits: u32,
    am: bool,
    reps: Seq<u32>,
    cost: u64,
    score: u32,
) -> bool {
    &&& a.cost < ZX_INF
    &&& a.num_lits == lits
    &&& a.last_is_match == am
    &&& a.reps@ == reps
    &&& no_better(cost, score, a)
}

/// A row has no use for an arrival in this state: it costs too much for any, or
/// one in the same state that is as good is in the row, or all places hold
/// arrivals that are as good.
pub open spec fn has_use_no_more(
    row: Seq<ZxArr>,
    width: int,
    lits: u32,
    am: bool,
    reps: Seq<u32>,
    cost: u64,
    score: u32,
) -> bool {
    ||| cost >= ZX_INF
    ||| no_better(cost, score, row[width - 1])
    ||| exists|k: int|
        0 <= k < width && #[trigger] stands_for(row[k], lits, am, reps, cost, score)
}

/// The same for an arrival.
pub open spec fn covers(row: Seq<ZxArr>, width: int, c: ZxArr) -> bool {
    has_use_no_more(row, width, c.num_lits, c.last_is_match, c.reps@, c.cost, c.score)
}

/// Every row up to that of `n` is in order.
pub open spec fn rows_in_order(arr: Seq<ZxArr>, width: int, n: int) -> bool {
    forall|pos: int|
        0 <= pos <= n ==> row_in_order(#[trigger] zxdp::row_of(arr, pos), width)
}

/// The table `b` came from `a` by offering it the arrivals `offers`, each a
/// position and an arrival there. None of them is of use any more, nor is
/// any that was of none before, and every place that is not as before holds an
/// arrival that was there or was offered.
#[verifier::opaque]
pub open spec fn took(
    a: Seq<ZxArr>,
    b: Seq<ZxArr>,
    width: int,
    n: int,
    offers: Set<(int, ZxArr)>,
) -> bool {
    &&& a.len() == b.len()
    &&& forall|pos: int, c: ZxArr|
        0 <= pos <= n && #[trigger] offers.contains((pos, c)) ==> covers(
            zxdp::row_of(b, pos),
            width,
            c,
        )
    &&& forall|pos: int, lits: u32, am: bool, reps: Seq<u32>, cost: u64, score: u32|
        0 <= pos <= n && #[trigger] has_use_no_more(
            zxdp::row_of(a, pos),
            width,
            lits,
            am,
            reps,
            cost,
            score,
        ) ==> has_use_no_more(zxdp::row_of(b, pos), width, lits, am, reps, cost, score)
    &&& forall|pos: int, k: int|
        #![trigger zxdp::row_of(b, pos)[k]]
        0 <= pos <= n && 0 <= k < 64 ==> zxdp::row_of(a, pos).contains(zxdp::row_of(b, pos)[k])
            || offers.contains((pos, zxdp::row_of(b, pos)[k]))
}

pub proof fn lemma_took_none(a: Seq<ZxArr>, width: int, n: int)
    requires
        a.len() == (n + 1) * 64,
    ensures
        took(a, a, width, n, Set::empty()),
{
    reveal(took);
    assert forall|pos: int, k: int|
        #![trigger zxdp::row_of(a, pos)[k]]
        0 <= pos <= n && 0 <= k < 64 implies zxdp::row_of(a, pos).contains(
        zxdp::row_of(a, pos)[k],
    ) by {
        assert(zxdp::row_of(a, pos).len() == 64);
    }
}

/// Offers one after the other. What is of no use in the end may be counted in.
pub proof fn lemma_took_more(
    a: Seq<ZxArr>,
    b: Seq<ZxArr>,
    c: Seq<ZxArr>,
    width: int,
    n: int,
    s: Set<(int, ZxArr)>,
    t: Set<(int, ZxArr)>,
    u: Set<(int, ZxArr)>,
)
    requires
        a.len() == (n + 1) * 64,
        took(a, b, width, n, s),
        took(b, c, width, n, t),
        s.subset_of(u),
        t.subset_of(u),
        forall|pos: int, x: ZxArr| #[trigger]
            u.contains((pos, x)) && 0 <= pos <= n ==> s.contains((pos, x)) || t.contains((pos, x))
                || covers(zxdp::row_of(c, pos), width, x),
    ensures
        took(a, c, width, n, u),
{
    reveal(took);
    assert forall|pos: int, x: ZxArr| 0 <= pos <= n && #[trigger] u.contains((pos, x)) implies covers(
        zxdp::row_of(c, pos),
        width,
        x,
    ) by {
        if s.contains((pos, x)) {
            assert(covers(zxdp::row_of(b, pos), width, x));
        }
    }
    assert forall|pos: int, k: int|
        #![trigger zxdp::row_of(c, pos)[k]]
        0 <= pos <= n && 0 <= k < 64 implies zxdp::row_of(a, pos).contains(
        zxdp::row_of(c, pos)[k],
    ) || u.contains((pos, zxdp::row_of(c, pos)[k])) by {
        let x = zxdp::row_of(c, pos)[k];
        if zxdp::row_of(b, pos).contains(x) {
            let j = choose|j: int| 0 <= j < zxdp::row_of(b, pos).len() && zxdp::row_of(b, pos)[j] == x;
            assert(zxdp::row_of(b, pos).len() == 64);
            assert(zxdp::row_of(b, pos)[j] == x);
            if s.contains((pos, x)) {
                assert(u.contains((pos, x)));
            }
        } else {
            assert(t.contains((pos, x)));
            assert(u.contains((pos, x)));
        }
    }
}

/// What a place of a table that took offers holds.
pub proof fn lemma_took_place(
    a: Seq<ZxArr>,
    b: Seq<ZxArr>,
    width: int,
    n: int,
    s: Set<(int, ZxArr)>,
    pos: int,
    k: int,
)
    requires
        took(a, b, width, n, s),
        0 <= pos <= n,
        0 <= k < 64,
    ensures
        zxdp::row_of(a, pos).contains(zxdp::row_of(b, pos)[k]) || s.contains(
            (pos, zxdp::row_of(b, pos)[k]),
        ),
{
    reveal(took);
}

/// What a table that took offers has no use for.
pub proof fn lemma_took_use(
    a: Seq<ZxArr>,
    b: Seq<ZxArr>,
    width: int,
    n: int,
    s: Set<(int, ZxArr)>,
    pos: int,
    c: ZxArr,
)
    requires
        took(a, b, width, n, s),
        0 <= pos <= n,
    ensures
        s.contains((pos, c)) ==> covers(zxdp::row_of(b, pos), width, c),
        covers(zxdp::row_of(a, pos), width, c) ==> covers(zxdp::row_of(b, pos), width, c),
{
    reveal(took);
}

// ---------------------------------------------------------------------------
// One row
// ---------------------------------------------------------------------------
proof fn lemma_place_for(row: Seq<ZxArr>, width: int, c: ZxArr, k: int)
    requires
        0 <= k < width <= row.len(),
        forall|j: int| 0 <= j < k ==> !zxdp::betters(c, #[trigger] row[j]),
        zxdp::betters(c, row[width - 1]),
    ensures
        match zxdp::place_for(row, width, c, k) {
            Some(x) => k <= x < width && zxdp::betters(c, row[x]) && forall|j: int|
                0 <= j < x ==> !zxdp::betters(c, #[trigger] row[j]),
            None => covers(row, width, c),
        },
    decreases width - k,
{
    if zxdp::betters(c, row[k]) {
    } else if row[k].cost < ZX_INF && zxdp::same_state(row[k], c) {
        assert(stands_for(row[k], c.num_lits, c.last_is_match, c.reps@, c.cost, c.score));
    } else {
        lemma_place_for(row, width, c, k + 1);
    }
}

proof fn lemma_given_up(row: Seq<ZxArr>, width: int, k: int)
    requires
        0 <= k < width <= row.len(),
        row[width - 1].cost >= ZX_INF,
    ensures
        k <= zxdp::given_up(row, width, k) < width,
        row[zxdp::given_up(row, width, k)].cost >= ZX_INF,
    decreases width - k,
{
    if k < width - 1 && row[k].cost < ZX_INF {
        lemma_given_up(row, width, k + 1);
    }
}

/// A row in order stays in order, has no use for the arrival any more, and
/// none for what it had none for.
pub proof fn lemma_relaxed(row: Seq<ZxArr>, width: int, c: ZxArr)
    requires
        row.len() == 64,
        1 <= width <= 64,
        row_in_order(row, width),
    ensures
        zxdp::relaxed(row, width, c).len() == 64,
        row_in_order(zxdp::relaxed(row, width, c), width),
        covers(zxdp::relaxed(row, width, c), width, c),
        forall|lits: u32, am: bool, reps: Seq<u32>, cost: u64, score: u32| #[trigger]
            has_use_no_more(row, width, lits, am, reps, cost, score) ==> has_use_no_more(
                zxdp::relaxed(row, width, c),
                width,
                lits,
                am,
                reps,
                cost,
                score,
            ),
        forall|k: int|
            0 <= k < 64 ==> row.contains(#[trigger] zxdp::relaxed(row, width, c)[k])
                || zxdp::relaxed(row, width, c)[k] == c,
{
    let r = zxdp::relaxed(row, width, c);
    assert forall|k: int| 0 <= k < 64 implies row.contains(#[trigger] row[k]) by {}
    if zxdp::betters(c, row[width - 1]) {
        lemma_place_for(row, width, c, 0);
        match zxdp::place_for(row, width, c, 0) {
            None => {},
            Some(at) => {
                let out = if row[width - 1].cost < ZX_INF {
                    width - 1
                } else {
                    lemma_given_up(row, width, at);
                    zxdp::given_up(row, width, at)
                };
                assert(at <= out < width);
                assert(r == row.remove(out).insert(at, c));
                assert forall|k: int| 0 <= k < 64 implies #[trigger] r[k] == if k < at {
                    row[k]
                } else if k == at {
                    c
                } else if k <= out {
                    row[k - 1]
                } else {
                    row[k]
                } by {}
                assert forall|k: int| 0 <= k < 64 implies row.contains(#[trigger] r[k]) || r[k]
                    == c by {
                    if k > at && k <= out {
                        assert(row.contains(row[k - 1]));
                    } else if k != at {
                        assert(row.contains(row[k]));
                    }
                }
                assert forall|j: int, k: int| 0 <= j < k < width implies no_better(
                    (#[trigger] r[k]).cost,
                    r[k].score,
                    #[trigger] r[j],
                ) by {
                    if k == at {
                        assert(!zxdp::betters(c, row[j]));
                    } else if j == at {
                        if k <= out {
                            if k - 1 > at {
                                assert(no_better(row[k - 1].cost, row[k - 1].score, row[at]));
                            }
                        } else {
                            assert(no_better(row[k].cost, row[k].score, row[at]));
                        }
                    } else {
                        let k0 = if at < k <= out { k - 1 } else { k };
                        let j0 = if at < j <= out { j - 1 } else { j };
                        assert(j0 < k0);
                        assert(no_better(row[k0].cost, row[k0].score, row[j0]));
                    }
                }
                if c.cost < ZX_INF {
                    assert(stands_for(r[at], c.num_lits, c.last_is_match, c.reps@, c.cost, c.score));
                }
                assert forall|lits: u32, am: bool, reps: Seq<u32>, cost: u64, score: u32| #[trigger]
                    has_use_no_more(row, width, lits, am, reps, cost, score) implies has_use_no_more(
                    r,
                    width,
                    lits,
                    am,
                    reps,
                    cost,
                    score,
                ) by {
                    lemma_relaxed_keeps(row, r, width, c, at, out, lits, am, reps, cost, score);
                }
            },
        }
    }
}

proof fn lemma_relaxed_keeps(
    row: Seq<ZxArr>,
    r: Seq<ZxArr>,
    width: int,
    c: ZxArr,
    at: int,
    out: int,
    lits: u32,
    am: bool,
    reps: Seq<u32>,
    cost: u64,
    score: u32,
)
    requires
        row.len() == 64,
        r.len() == 64,
        1 <= width <= 64,
        row_in_order(row, width),
        0 <= at <= out < width,
        zxdp::betters(c, row[at]),
        out == width - 1 || row[out].cost >= ZX_INF,
        forall|k: int|
            0 <= k < 64 ==> #[trigger] r[k] == if k < at {
                row[k]
            } else if k == at {
                c
            } else if k <= out {
                row[k - 1]
            } else {
                row[k]
            },
        has_use_no_more(row, width, lits, am, reps, cost, score),
    ensures
        has_use_no_more(r, width, lits, am, reps, cost, score),
{
    let last = row[width - 1];
    if at < width - 1 {
        assert(no_better(last.cost, last.score, row[at]));
    }
    if width >= 2 {
        assert(no_better(last.cost, last.score, row[width - 2]));
    }
    assert(no_better(last.cost, last.score, r[width - 1]));
    if cost >= ZX_INF || no_better(cost, score, last) {
    } else {
        let k = choose|k: int|
            0 <= k < width && #[trigger] stands_for(row[k], lits, am, reps, cost, score);
        if k < at || k > out {
            assert(stands_for(r[k], lits, am, reps, cost, score));
        } else if k < out {
            assert(r[k + 1] == row[k]);
            assert(stands_for(r[k + 1], lits, am, reps, cost, score));
        }
    }
}

} // verus!
