//! What the dynamic program over arrivals finds: which arrivals every position
//! offers to the ones behind it, and which parse is read off in the end.
use crate::bitio;
use crate::gammaq;
use crate::matchfinder::MatchSet;
use crate::zxdp;
use crate::zxdp::{ZxArr, NEAR_PROBE_ARRIVALS, NEAR_REP_DELTA_MAX, ZX_INF, ZX_RELAX_SPAN, ZX_REP_PROBE_MAX};
use crate::zxrows;
use crate::zxseed;
use vstd::prelude::*;

verus! {

/// How the dynamic program is run: with how many places in a row, for which
/// features, and how far it searches.
pub struct Search {
    pub width: int,
    pub slots: int,
    pub near: bool,
    pub am: bool,
    pub probe: int,
    pub span: int,
    pub delta: int,
}

/// Large and repetitive inputs are searched less far.
pub open spec fn search_of(ms: &MatchSet, n: int, slots: int, near: bool, am: bool) -> Search {
    if n > 65536 || zxseed::is_repetitive(ms, n) {
        Search { width: 64, slots, near, am, probe: 64, span: 32, delta: 16 }
    } else {
        Search {
            width: 64,
            slots,
            near,
            am,
            probe: ZX_REP_PROBE_MAX as int,
            span: ZX_RELAX_SPAN as int,
            delta: NEAR_REP_DELTA_MAX as int,
        }
    }
}

/// The places of a row from which a new offset leads to a state that no earlier
/// one leads to.
pub open spec fn offset_marks(row: Seq<ZxArr>, width: int, slots: int, am: bool) -> Seq<bool> {
    Seq::new(
        width as nat,
        |s: int|
            s == 0 || (slots > 1 && (row[s].cost < ZX_INF ==> forall|k: int|
                0 <= k < s ==> !zxdp::alike_behind_offset(#[trigger] row[k], row[s], am))),
    )
}

/// The first `k` places of a row in the state after a match (`am`) or after a
/// literal run whose recent offsets no earlier marked one has.
pub open spec fn state_marks(row: Seq<ZxArr>, am: bool, k: nat) -> Seq<bool>
    decreases k,
{
    if k == 0 {
        Seq::empty()
    } else {
        let before = state_marks(row, am, (k - 1) as nat);
        let a = row[k - 1];
        before.push(
            a.cost < ZX_INF && zxdp::in_near_state(a, am) && forall|j: int|
                0 <= j < k - 1 && #[trigger] before[j] ==> row[j].reps@ != a.reps@,
        )
    }
}

/// Everything that a row offers: a literal byte, new offsets of the front and of
/// the further candidates, recent offsets, and near offsets.
#[verifier::opaque]
pub open spec fn step_offers(
    input: Seq<u8>,
    ms: &MatchSet,
    extra: Option<Seq<Vec<(u32, u32)>>>,
    se: Search,
    row: Seq<ZxArr>,
    i: int,
) -> Set<(int, ZxArr)> {
    let marks = offset_marks(row, se.width, se.slots, se.am);
    let lit = state_marks(row, false, 64);
    let mat = state_marks(row, true, 64);
    let list = ms.list(i);
    let cap = zxdp::probe_cap_of(input.len() as int, i, se.probe);
    let probes = NEAR_PROBE_ARRIVALS as int;
    Set::new(
        |p: (int, ZxArr)|
            {
                ||| zxdp::literal_offers(row, i, se.width).contains(p)
                ||| zxdp::front_offers(
                    row,
                    i,
                    list,
                    se.width,
                    se.slots,
                    se.am,
                    marks,
                    se.span,
                    list.len() as int,
                ).contains(p)
                ||| (extra matches Some(t) && zxdp::extra_offers(
                    row,
                    i,
                    t[i]@,
                    se.width,
                    se.slots,
                    se.am,
                    marks,
                    se.span,
                    t[i]@.len() as int,
                ).contains(p))
                ||| zxdp::rep_offers(input, row, i, se.slots, se.near, cap, lit, se.width).contains(p)
                ||| (se.near && zxdp::near_front_offers(row, i, list, false, lit, se.span, 64).contains(p))
                ||| (se.near && zxdp::near_probe_offers(
                    input,
                    row,
                    i,
                    false,
                    cap,
                    se.span,
                    se.delta,
                    lit,
                    probes,
                    0,
                ).contains(p))
                ||| (se.am && zxdp::near_front_offers(row, i, list, true, mat, se.span, 64).contains(p))
                ||| (se.am && zxdp::near_probe_offers(
                    input,
                    row,
                    i,
                    true,
                    cap,
                    se.span,
                    se.delta,
                    mat,
                    probes,
                    0,
                ).contains(p))
            },
    )
}

/// The row before the first byte: one arrival that costs nothing.
pub open spec fn starts(arr: Seq<ZxArr>) -> bool {
    &&& arr[0].cost == 0
    &&& arr[0].score == 0
    &&& arr[0].num_lits == 0
    &&& !arr[0].last_is_match
    &&& arr[0].reps@ == seq![1u32, 1, 1, 1]
    &&& forall|k: int| 1 <= k < 64 ==> (#[trigger] arr[k]).cost == ZX_INF
}

/// What the row of `i` offers is in the table, or of no use there.
pub open spec fn all_taken(
    input: Seq<u8>,
    ms: &MatchSet,
    extra: Option<Seq<Vec<(u32, u32)>>>,
    se: Search,
    arr: Seq<ZxArr>,
    i: int,
) -> bool {
    forall|pos: int, c: ZxArr|
        0 <= pos <= input.len() && #[trigger] step_offers(
            input,
            ms,
            extra,
            se,
            zxdp::row_of(arr, i),
            i,
        ).contains((pos, c)) ==> zxrows::covers(zxdp::row_of(arr, pos), se.width, c)
}

/// The arrival at `pos` was offered by the row of one of the first `upto`
/// positions.
pub open spec fn was_offered(
    input: Seq<u8>,
    ms: &MatchSet,
    extra: Option<Seq<Vec<(u32, u32)>>>,
    se: Search,
    arr: Seq<ZxArr>,
    upto: int,
    pos: int,
    c: ZxArr,
) -> bool {
    exists|i: int|
        0 <= i < upto && #[trigger] step_offers(
            input,
            ms,
            extra,
            se,
            zxdp::row_of(arr, i),
            i,
        ).contains((pos, c))
}

/// The first `upto` rows have made their offers, and nothing else is in the table.
pub open spec fn searched(
    input: Seq<u8>,
    ms: &MatchSet,
    extra: Option<Seq<Vec<(u32, u32)>>>,
    se: Search,
    arr: Seq<ZxArr>,
    upto: int,
) -> bool {
    &&& arr.len() == (input.len() + 1) * 64
    &&& zxrows::rows_in_order(arr, se.width, input.len() as int)
    &&& starts(arr)
    &&& forall|i: int| 0 <= i < upto ==> #[trigger] all_taken(input, ms, extra, se, arr, i)
    &&& forall|pos: int, k: int|
        #![trigger zxdp::row_of(arr, pos)[k]]
        1 <= pos <= input.len() && 0 <= k < 64 && zxdp::row_of(arr, pos)[k].cost < ZX_INF
            ==> was_offered(input, ms, extra, se, arr, upto, pos, zxdp::row_of(arr, pos)[k])
    &&& forall|i: int|
        0 <= i <= upto && i <= input.len() ==> (#[trigger] zxdp::row_of(arr, i))[0].cost <= 12 * i
}

/// The same in the middle of the step out of `i`, with the offers in `got` made.
pub open spec fn half_searched(
    input: Seq<u8>,
    ms: &MatchSet,
    extra: Option<Seq<Vec<(u32, u32)>>>,
    se: Search,
    arr: Seq<ZxArr>,
    i: int,
    got: Set<(int, ZxArr)>,
) -> bool {
    &&& arr.len() == (input.len() + 1) * 64
    &&& starts(arr)
    &&& forall|k: int| 0 <= k < i ==> #[trigger] all_taken(input, ms, extra, se, arr, k)
    &&& forall|pos: int, k: int|
        #![trigger zxdp::row_of(arr, pos)[k]]
        1 <= pos <= input.len() && 0 <= k < 64 && zxdp::row_of(arr, pos)[k].cost < ZX_INF
            ==> was_offered(input, ms, extra, se, arr, i + 1, pos, zxdp::row_of(arr, pos)[k])
    &&& forall|k: int|
        0 <= k <= i ==> (#[trigger] zxdp::row_of(arr, k))[0].cost <= 12 * k
    &&& forall|pos: int, c: ZxArr|
        0 <= pos <= input.len() && #[trigger] got.contains((pos, c)) ==> zxrows::covers(
            zxdp::row_of(arr, pos),
            se.width,
            c,
        )
}

pub proof fn lemma_same_row(a: Seq<ZxArr>, b: Seq<ZxArr>, lim: int, i: int)
    requires
        zxdp::same_rows(a, b, lim),
        0 <= i < lim,
        lim * 64 <= a.len(),
    ensures
        zxdp::row_of(a, i) == zxdp::row_of(b, i),
{
    assert(zxdp::row_of(a, i) =~= zxdp::row_of(b, i));
}

pub proof fn lemma_half(
    input: Seq<u8>,
    ms: &MatchSet,
    extra: Option<Seq<Vec<(u32, u32)>>>,
    se: Search,
    a: Seq<ZxArr>,
    b: Seq<ZxArr>,
    i: int,
    got: Set<(int, ZxArr)>,
    s: Set<(int, ZxArr)>,
)
    requires
        half_searched(input, ms, extra, se, a, i, got),
        zxrows::took(a, b, se.width, input.len() as int, s),
        zxdp::same_rows(a, b, i + 1),
        0 <= i < input.len(),
        forall|p: (int, ZxArr)| #[trigger]
            s.contains(p) ==> step_offers(input, ms, extra, se, zxdp::row_of(a, i), i).contains(p),
    ensures
        half_searched(input, ms, extra, se, b, i, got.union(s)),
{
    let n = input.len() as int;
    assert(b.len() == a.len());
    assert forall|k: int| 0 <= k <= i implies #[trigger] zxdp::row_of(b, k) == zxdp::row_of(a, k) by {
        lemma_same_row(a, b, i + 1, k);
    }
    assert forall|k: int| 0 <= k < 64 implies b[k] == a[k] by {
        assert(0 <= k < (i + 1) * 64);
    }
    assert forall|k: int| 0 <= k < i implies #[trigger] all_taken(input, ms, extra, se, b, k) by {
        assert(all_taken(input, ms, extra, se, a, k));
        assert forall|pos: int, c: ZxArr|
            0 <= pos <= n && #[trigger] step_offers(
                input,
                ms,
                extra,
                se,
                zxdp::row_of(b, k),
                k,
            ).contains((pos, c)) implies zxrows::covers(zxdp::row_of(b, pos), se.width, c) by {
            assert(step_offers(input, ms, extra, se, zxdp::row_of(a, k), k).contains((pos, c)));
            zxrows::lemma_took_use(a, b, se.width, n, s, pos, c);
        }
    }
    assert forall|pos: int, k: int|
        #![trigger zxdp::row_of(b, pos)[k]]
        1 <= pos <= n && 0 <= k < 64 && zxdp::row_of(b, pos)[k].cost < ZX_INF implies was_offered(
        input,
        ms,
        extra,
        se,
        b,
        i + 1,
        pos,
        zxdp::row_of(b, pos)[k],
    ) by {
        let c = zxdp::row_of(b, pos)[k];
        zxrows::lemma_took_place(a, b, se.width, n, s, pos, k);
        if s.contains((pos, c)) {
            assert(step_offers(input, ms, extra, se, zxdp::row_of(b, i), i).contains((pos, c)));
        } else {
            let j = choose|j: int|
                0 <= j < zxdp::row_of(a, pos).len() && zxdp::row_of(a, pos)[j] == c;
            assert(zxdp::row_of(a, pos).len() == 64);
            assert(zxdp::row_of(a, pos)[j] == c);
            assert(was_offered(input, ms, extra, se, a, i + 1, pos, c));
            let q = choose|q: int|
                0 <= q < i + 1 && #[trigger] step_offers(
                    input,
                    ms,
                    extra,
                    se,
                    zxdp::row_of(a, q),
                    q,
                ).contains((pos, c));
            assert(step_offers(input, ms, extra, se, zxdp::row_of(b, q), q).contains((pos, c)));
        }
    }
    assert forall|pos: int, c: ZxArr|
        0 <= pos <= n && #[trigger] got.union(s).contains((pos, c)) implies zxrows::covers(
        zxdp::row_of(b, pos),
        se.width,
        c,
    ) by {
        zxrows::lemma_took_use(a, b, se.width, n, s, pos, c);
    }
}

/// The step out of `i` begins.
pub proof fn lemma_begin(
    input: Seq<u8>,
    ms: &MatchSet,
    extra: Option<Seq<Vec<(u32, u32)>>>,
    se: Search,
    arr: Seq<ZxArr>,
    i: int,
)
    requires
        searched(input, ms, extra, se, arr, i),
        0 <= i < input.len(),
    ensures
        half_searched(input, ms, extra, se, arr, i, Set::empty()),
{
    assert forall|pos: int, k: int|
        #![trigger zxdp::row_of(arr, pos)[k]]
        1 <= pos <= input.len() && 0 <= k < 64 && zxdp::row_of(arr, pos)[k].cost
            < ZX_INF implies was_offered(
        input,
        ms,
        extra,
        se,
        arr,
        i + 1,
        pos,
        zxdp::row_of(arr, pos)[k],
    ) by {
        let c = zxdp::row_of(arr, pos)[k];
        assert(was_offered(input, ms, extra, se, arr, i, pos, c));
        let q = choose|q: int|
            0 <= q < i && #[trigger] step_offers(
                input,
                ms,
                extra,
                se,
                zxdp::row_of(arr, q),
                q,
            ).contains((pos, c));
        assert(step_offers(input, ms, extra, se, zxdp::row_of(arr, q), q).contains((pos, c)));
    }
}

/// An arrival behind a literal byte.
pub open spec fn literal_arrival(a: ZxArr, i: int, c: ZxArr) -> bool {
    zxdp::literal_after(a, i, 0, c)
}

proof fn lemma_literals_are_offered(
    input: Seq<u8>,
    ms: &MatchSet,
    extra: Option<Seq<Vec<(u32, u32)>>>,
    se: Search,
    row: Seq<ZxArr>,
    i: int,
    p: (int, ZxArr),
)
    requires
        zxdp::literal_offers(row, i, se.width).contains(p),
    ensures
        step_offers(input, ms, extra, se, row, i).contains(p),
{
    reveal(step_offers);
}

/// The step out of `i` is done.
pub proof fn lemma_done(
    input: Seq<u8>,
    ms: &MatchSet,
    extra: Option<Seq<Vec<(u32, u32)>>>,
    se: Search,
    arr: Seq<ZxArr>,
    i: int,
    got: Set<(int, ZxArr)>,
    c: ZxArr,
)
    requires
        half_searched(input, ms, extra, se, arr, i, got),
        zxrows::rows_in_order(arr, se.width, input.len() as int),
        0 <= i < input.len() <= 0x3fff_ffff,
        1 <= se.width <= 64,
        forall|p: (int, ZxArr)| #[trigger]
            step_offers(input, ms, extra, se, zxdp::row_of(arr, i), i).contains(p) ==> got.contains(p),
        literal_arrival(zxdp::row_of(arr, i)[0], i, c),
        c.cost <= zxdp::row_of(arr, i)[0].cost + 12,
    ensures
        searched(input, ms, extra, se, arr, i + 1),
{
    let n = input.len() as int;
    let row = zxdp::row_of(arr, i);
    assert forall|k: int| 0 <= k < i + 1 implies #[trigger] all_taken(input, ms, extra, se, arr, k) by {
        if k == i {
            assert forall|pos: int, x: ZxArr|
                0 <= pos <= n && #[trigger] step_offers(
                    input,
                    ms,
                    extra,
                    se,
                    zxdp::row_of(arr, k),
                    k,
                ).contains((pos, x)) implies zxrows::covers(zxdp::row_of(arr, pos), se.width, x) by {
                assert(got.contains((pos, x)));
            }
        }
    }
    assert(row[0].cost < ZX_INF);
    let p = (i + 1, c);
    assert(zxdp::literal_after(row[0], i, 0, p.1));
    assert(zxdp::literal_offers(row, i, se.width).contains(p));
    lemma_literals_are_offered(input, ms, extra, se, row, i, p);
    assert(got.contains((i + 1, c)));
    let next = zxdp::row_of(arr, i + 1);
    assert(zxrows::covers(next, se.width, c));
    assert(zxrows::row_in_order(next, se.width));
    assert(next[0].cost <= c.cost) by {
        if zxrows::no_better(c.cost, c.score, next[se.width - 1]) {
            assert(zxrows::no_better(next[se.width - 1].cost, next[se.width - 1].score, next[0]));
        } else {
            let k = choose|k: int|
                0 <= k < se.width && #[trigger] zxrows::stands_for(
                    next[k],
                    c.num_lits,
                    c.last_is_match,
                    c.reps@,
                    c.cost,
                    c.score,
                );
            if k > 0 {
                assert(zxrows::no_better(next[k].cost, next[k].score, next[0]));
            }
        }
    }
}

/// The arrival that a literal byte leads to.
proof fn lemma_literal_exists(a: ZxArr, i: int) -> (c: ZxArr)
    requires
        a.cost < ZX_INF,
        0 <= i <= 0x3fff_ffff,
    ensures
        literal_arrival(a, i, c),
        c.cost <= a.cost + 12,
{
    let lits = zxdp::capped_sum(a.num_lits, 1);
    gammaq::lemma_log_sum(
        if a.num_lits == 0 {
            1
        } else {
            a.num_lits as nat
        },
        1,
    );
    assert(bitio::floor_log2(2) == 1 && bitio::floor_log2(1) == 0) by {
        reveal_with_fuel(bitio::floor_log2, 3);
    }
    bitio::lemma_gamma_monotone(a.num_lits as nat, lits as nat);
    let add = 8 + if a.num_lits == 0 {
        bitio::gamma_len(1) + if a.last_is_match {
            1int
        } else {
            0
        }
    } else {
        bitio::gamma_len(lits as nat) - bitio::gamma_len(a.num_lits as nat)
    };
    ZxArr {
        cost: (a.cost + add) as u64,
        reps: a.reps,
        num_lits: lits,
        last_is_match: false,
        from_pos: i as u32,
        from_slot: 0,
        step_kind: 0,
        step_ri: -1i8,
        rep_pos: a.rep_pos,
        score: zxdp::capped_sum(a.score, 1),
    }
}

/// The step out of `i` is done once all its offers are made.
pub proof fn lemma_step_done(
    input: Seq<u8>,
    ms: &MatchSet,
    extra: Option<Seq<Vec<(u32, u32)>>>,
    se: Search,
    arr: Seq<ZxArr>,
    i: int,
    got: Set<(int, ZxArr)>,
)
    requires
        half_searched(input, ms, extra, se, arr, i, got),
        zxrows::rows_in_order(arr, se.width, input.len() as int),
        0 <= i < input.len() <= 0x3fff_ffff,
        1 <= se.width <= 64,
        forall|p: (int, ZxArr)| #[trigger]
            step_offers(input, ms, extra, se, zxdp::row_of(arr, i), i).contains(p) ==> got.contains(p),
    ensures
        searched(input, ms, extra, se, arr, i + 1),
{
    let a = zxdp::row_of(arr, i)[0];
    let c = lemma_literal_exists(a, i);
    lemma_done(input, ms, extra, se, arr, i, got, c);
}

/// A new table.
pub proof fn lemma_start(
    input: Seq<u8>,
    ms: &MatchSet,
    extra: Option<Seq<Vec<(u32, u32)>>>,
    se: Search,
    arr: Seq<ZxArr>,
)
    requires
        arr.len() == (input.len() + 1) * 64,
        zxrows::rows_in_order(arr, se.width, input.len() as int),
        starts(arr),
        forall|x: int| 1 <= x < arr.len() ==> (#[trigger] arr[x]).cost == ZX_INF,
    ensures
        searched(input, ms, extra, se, arr, 0),
{
    assert forall|pos: int, k: int|
        #![trigger zxdp::row_of(arr, pos)[k]]
        1 <= pos <= input.len() && 0 <= k < 64 && zxdp::row_of(arr, pos)[k].cost
            < ZX_INF implies was_offered(
        input,
        ms,
        extra,
        se,
        arr,
        0,
        pos,
        zxdp::row_of(arr, pos)[k],
    ) by {
        assert(zxdp::row_of(arr, pos)[k] == arr[pos * 64 + k]);
    }
    assert(zxdp::row_of(arr, 0)[0] == arr[0]);
}

/// The parse that the arrival in `slot` of `pos` is the end of, put into a table
/// of matches and one of the recent offsets that near offsets are coded from.
pub open spec fn read_off(
    arr: Seq<ZxArr>,
    pos: int,
    slot: int,
    best: Seq<(u32, u32)>,
    ri: Seq<i8>,
) -> (Seq<(u32, u32)>, Seq<i8>)
    decreases pos,
{
    let a = arr[pos * 64 + slot];
    if pos <= 0 || a.from_pos >= pos {
        (best, ri)
    } else {
        read_off(
            arr,
            a.from_pos as int,
            a.from_slot as int,
            if a.step_kind != 0 {
                best.update(a.from_pos as int, ((pos - a.from_pos) as u32, a.reps@[0]))
            } else {
                best
            },
            if a.step_kind == 3 {
                ri.update(a.from_pos as int, a.step_ri)
            } else {
                ri
            },
        )
    }
}

/// Without near offsets no arrival comes by one.
pub proof fn lemma_no_near_step(
    input: Seq<u8>,
    ms: &MatchSet,
    extra: Option<Seq<Vec<(u32, u32)>>>,
    se: Search,
    row: Seq<ZxArr>,
    i: int,
    p: (int, ZxArr),
)
    requires
        !se.near,
        !se.am,
        step_offers(input, ms, extra, se, row, i).contains(p),
    ensures
        p.1.step_kind != 3,
{
    reveal(step_offers);
    let marks = offset_marks(row, se.width, se.slots, se.am);
    let lit = state_marks(row, false, 64);
    let list = ms.list(i);
    let cap = zxdp::probe_cap_of(input.len() as int, i, se.probe);
    if zxdp::front_offers(
        row,
        i,
        list,
        se.width,
        se.slots,
        se.am,
        marks,
        se.span,
        list.len() as int,
    ).contains(p) {
        let c = choose|c: int|
            0 <= c < list.len() && zxdp::front_tried(list, c) && #[trigger] zxdp::new_offset_offers(
                row,
                i,
                se.slots,
                se.am,
                marks,
                list[c].offset,
                zxdp::front_lo(list, c),
                list[c].length as int,
                se.span,
                se.width,
            ).contains(p);
        assert(zxdp::new_offset_offers(
            row,
            i,
            se.slots,
            se.am,
            marks,
            list[c].offset,
            zxdp::front_lo(list, c),
            list[c].length as int,
            se.span,
            se.width,
        ).contains(p));
    } else if zxdp::rep_offers(input, row, i, se.slots, se.near, cap, lit, se.width).contains(p) {
        let s = choose|s: int|
            0 <= s < se.width && row[s].cost < ZX_INF && lit[s] && #[trigger] zxdp::rep_slot_offers(
                input,
                row,
                i,
                s,
                se.slots,
                se.near,
                cap,
                se.slots,
            ).contains(p);
        assert(zxdp::rep_slot_offers(
            input,
            row,
            i,
            s,
            se.slots,
            se.near,
            cap,
            se.slots,
        ).contains(p));
    }
}

/// No near offset is taken.
pub open spec fn no_near_taken(ri: Seq<i8>) -> bool {
    forall|p: int| 0 <= p < ri.len() ==> #[trigger] ri[p] == -1
}

/// `best` and `ri` hold the parse that the cheapest arrival at the end stands
/// for, in a table that the dynamic program has filled. Without near offsets `ri`
/// holds none.
pub open spec fn dp_parse(
    input: Seq<u8>,
    ms: &MatchSet,
    extra: Option<Seq<Vec<(u32, u32)>>>,
    se: Search,
    best: Seq<(u32, u32)>,
    ri: Seq<i8>,
) -> bool {
    &&& !se.near && !se.am ==> no_near_taken(ri)
    &&& exists|arr: Seq<ZxArr>| #[trigger]
        searched(input, ms, extra, se, arr, input.len() as int) && (best, ri) == read_off(
            arr,
            input.len() as int,
            0,
            Seq::new(input.len(), |p: int| (0u32, 0u32)),
            Seq::new(input.len(), |p: int| -1i8),
        )
}

/// The marks of a row, as they are found in the table.
pub proof fn lemma_state_marks(arr: Seq<ZxArr>, i: int, am: bool, fresh: Seq<bool>, k: nat)
    requires
        k <= 64,
        fresh.len() == 64,
        0 <= i,
        (i + 1) * 64 <= arr.len(),
        forall|s: int|
            0 <= s < 64 ==> (#[trigger] fresh[s] <==> zxdp::first_of_its_kind(arr, fresh, i, am, s)),
    ensures
        state_marks(zxdp::row_of(arr, i), am, k) == fresh.take(k as int),
    decreases k,
{
    let row = zxdp::row_of(arr, i);
    if k > 0 {
        lemma_state_marks(arr, i, am, fresh, (k - 1) as nat);
        let before = state_marks(row, am, (k - 1) as nat);
        let s = k - 1;
        assert forall|j: int| 0 <= j < 64 implies #[trigger] row[j] == arr[i * 64 + j] by {}
        assert(fresh[s] <==> zxdp::first_of_its_kind(arr, fresh, i, am, s));
        let a = row[s];
        let mark = a.cost < ZX_INF && zxdp::in_near_state(a, am) && forall|j: int|
            0 <= j < s && #[trigger] before[j] ==> row[j].reps@ != a.reps@;
        assert(mark == fresh[s]) by {
            if mark {
                assert forall|j: int| 0 <= j < s && #[trigger] fresh[j] implies arr[i * 64 + j].reps@
                    != arr[i * 64 + s].reps@ by {
                    assert(before[j]);
                }
            }
            if fresh[s] {
                assert forall|j: int| 0 <= j < s && #[trigger] before[j] implies row[j].reps@
                    != a.reps@ by {
                    assert(fresh[j]);
                }
            }
        }
        assert(state_marks(row, am, k) =~= fresh.take(k as int));
    } else {
        assert(state_marks(row, am, 0) =~= fresh.take(0));
    }
}

pub proof fn lemma_offset_marks(arr: Seq<ZxArr>, i: int, width: int, slots: int, am: bool, fresh: Seq<bool>)
    requires
        fresh.len() == width,
        1 <= width <= 64,
        0 <= i,
        (i + 1) * 64 <= arr.len(),
        forall|s: int|
            0 <= s < width ==> (#[trigger] fresh[s] <==> s == 0 || (slots > 1 && (arr[i * 64 + s].cost
                < ZX_INF ==> forall|k: int|
                0 <= k < s ==> !zxdp::alike_behind_offset(
                    #[trigger] arr[i * 64 + k],
                    arr[i * 64 + s],
                    am,
                )))),
    ensures
        offset_marks(zxdp::row_of(arr, i), width, slots, am) == fresh,
{
    let row = zxdp::row_of(arr, i);
    let marks = offset_marks(row, width, slots, am);
    assert forall|j: int| 0 <= j < 64 implies #[trigger] row[j] == arr[i * 64 + j] by {}
    assert forall|s: int| 0 <= s < width implies marks[s] == fresh[s] by {
        if marks[s] {
            assert forall|k: int| slots > 1 && row[s].cost < ZX_INF && 0 <= k < s && s != 0
                implies !zxdp::alike_behind_offset(#[trigger] arr[i * 64 + k], arr[i * 64 + s], am) by {
                assert(row[k] == arr[i * 64 + k]);
            }
        }
        if fresh[s] {
            assert forall|k: int| slots > 1 && row[s].cost < ZX_INF && 0 <= k < s && s != 0
                implies !zxdp::alike_behind_offset(#[trigger] row[k], row[s], am) by {
                assert(row[k] == arr[i * 64 + k]);
            }
        }
    }
    assert(marks =~= fresh);
}

} // verus!
