//! A parse reaches no further back than the matches that it chooses from, where
//! streams have one recent offset and no near offsets.
use crate::matchfinder;
use crate::matchfinder::MatchSet;
use crate::parse;
use crate::parse::ZxTuning;
use crate::zx;
use crate::zx::ZxCommand;
use crate::zx0opt;
use crate::zxbest;
use crate::zxdp;
use crate::zxdp::{ZxArr, ZX_INF};
use crate::zxsearch;
use crate::zxsearch::Search;
use crate::zxseed;
use crate::zxseed::Handed;
use vstd::prelude::*;

verus! {

/// No match of a table reaches further back than `w`.
pub open spec fn table_within(best: Seq<(u32, u32)>, w: int) -> bool {
    forall|p: int| 0 <= p < best.len() ==> (#[trigger] best[p]).1 <= w
}

/// No offset of a list is above `w`.
pub open spec fn pairs_within(list: Seq<(u32, u32)>, w: int) -> bool {
    forall|k: int| 0 <= k < list.len() ==> (#[trigger] list[k]).0 <= w
}

pub open spec fn rows_within(rows: Seq<Seq<(u32, u32)>>, w: int) -> bool {
    forall|p: int| 0 <= p < rows.len() ==> pairs_within(#[trigger] rows[p], w)
}

pub open spec fn extra_within(extra: Option<Seq<Vec<(u32, u32)>>>, n: int, w: int) -> bool {
    match extra {
        None => true,
        Some(t) => lists_of_within(t, n, w),
    }
}

pub open spec fn lists_of_within(t: Seq<Vec<(u32, u32)>>, n: int, w: int) -> bool {
    forall|p: int| 0 <= p < n ==> pairs_within((#[trigger] t[p])@, w)
}

pub open spec fn lists_within(ms: &MatchSet, n: int, w: int) -> bool {
    forall|p: int, k: int|
        0 <= p < n && 0 <= k < ms.list(p).len() ==> (#[trigger] ms.list(p)[k]).offset <= w
}

// ---------------------------------------------------------------------------
// The dynamic program
// ---------------------------------------------------------------------------
/// The recent offsets of an arrival.
spec fn reps_within(a: ZxArr, w: int) -> bool {
    forall|r: int| 0 <= r < 4 ==> (#[trigger] a.reps@[r]) <= w
}

/// The arrival at `pos` comes out of a live one before it.
spec fn comes_from(arr: Seq<ZxArr>, pos: int, c: ZxArr) -> bool {
    &&& c.from_pos < pos
    &&& c.from_slot < 64
    &&& zxdp::row_of(arr, c.from_pos as int)[c.from_slot as int].cost < ZX_INF
}

spec fn row_within(row: Seq<ZxArr>, w: int) -> bool {
    forall|k: int| 0 <= k < 64 && (#[trigger] row[k]).cost < ZX_INF ==> reps_within(row[k], w)
}

/// What a row offers has no new offset above `w`.
proof fn lemma_offer_within(
    input: Seq<u8>,
    ms: &MatchSet,
    extra: Option<Seq<Vec<(u32, u32)>>>,
    se: Search,
    row: Seq<ZxArr>,
    i: int,
    w: int,
    p: (int, ZxArr),
)
    requires
        !se.near,
        !se.am,
        1 <= se.width <= 64,
        1 <= se.slots <= 4,
        1 <= w,
        0 <= i < input.len(),
        lists_within(ms, input.len() as int, w),
        extra_within(extra, input.len() as int, w),
        row.len() == 64,
        row_within(row, w),
        zxsearch::step_offers(input, ms, extra, se, row, i).contains(p),
    ensures
        i < p.0,
        reps_within(p.1, w),
        p.1.from_pos == i,
        p.1.from_slot < 64,
        row[p.1.from_slot as int].cost < ZX_INF,
{
    reveal(zxsearch::step_offers);
    let marks = zxsearch::offset_marks(row, se.width, se.slots, se.am);
    let lit = zxsearch::state_marks(row, false, 64);
    let list = ms.list(i);
    let cap = zxdp::probe_cap_of(input.len() as int, i, se.probe);
    if zxdp::literal_offers(row, i, se.width).contains(p) {
        let s = choose|s: int|
            0 <= s < se.width && row[s].cost < ZX_INF && #[trigger] zxdp::literal_after(
                row[s],
                i,
                s,
                p.1,
            );
        assert(zxdp::literal_after(row[s], i, s, p.1));
        assert(reps_within(row[s], w));
    } else if zxdp::front_offers(
        row,
        i,
        list,
        se.width,
        se.slots,
        se.am,
        marks,
        se.span,
        list.len() as int,
    ).contains(p) {
        let c = choose|c: int|
            0 <= c < list.len() && zxdp::front_tried(list, c) && #[trigger] zxdp::new_offset_offers(
                row,
                i,
                se.slots,
                se.am,
                marks,
                list[c].offset,
                zxdp::front_lo(list, c),
                list[c].length as int,
                se.span,
                se.width,
            ).contains(p);
        assert(ms.list(i)[c].offset <= w);
        lemma_new_offset_within(
            row,
            i,
            se,
            marks,
            list[c].offset,
            zxdp::front_lo(list, c),
            list[c].length as int,
            w,
            p,
        );
    } else if extra matches Some(t) && zxdp::extra_offers(
        row,
        i,
        t[i]@,
        se.width,
        se.slots,
        se.am,
        marks,
        se.span,
        t[i]@.len() as int,
    ).contains(p) {
        let t = extra->0;
        let more = t[i]@;
        let c = choose|c: int|
            0 <= c < more.len() && more[c].0 <= zx::MAX_OFFSET && #[trigger] zxdp::new_offset_offers(
                row,
                i,
                se.slots,
                se.am,
                marks,
                more[c].0,
                2,
                more[c].1 as int,
                se.span,
                se.width,
            ).contains(p);
        assert(pairs_within(t[i]@, w));
        lemma_new_offset_within(row, i, se, marks, more[c].0, 2, more[c].1 as int, w, p);
    } else {
        assert(zxdp::rep_offers(input, row, i, se.slots, se.near, cap, lit, se.width).contains(p));
        let s = choose|s: int|
            0 <= s < se.width && row[s].cost < ZX_INF && lit[s] && #[trigger] zxdp::rep_slot_offers(
                input,
                row,
                i,
                s,
                se.slots,
                se.near,
                cap,
                se.slots,
            ).contains(p);
        assert(reps_within(row[s], w));
        let r = choose|r: int|
            0 <= r < se.slots && 1 <= row[s].reps@[r] <= i && #[trigger] zxdp::span_offers(
                zxdp::rep_step(row, i, s, se.slots, se.near, r),
                1,
                zxdp::capped_run(input, i, row[s].reps@[r] as int, cap),
                0xffff_ffff,
                zxdp::capped_run(input, i, row[s].reps@[r] as int, cap) + 1,
            ).contains(p);
        let st = zxdp::rep_step(row, i, s, se.slots, se.near, r);
        assert(zxdp::match_after(st, p.0 - st.i, p.1));
        assert(p.1.reps@ == st.reps);
        assert forall|q: int| 0 <= q < 4 implies (#[trigger] p.1.reps@[q]) <= w by {
            let a = row[s].reps@;
            assert(st.reps == a.remove(r).insert(0, a[r]));
            assert(st.reps[q] == if q == 0 {
                a[r]
            } else if q - 1 < r {
                a[q - 1]
            } else {
                a[q]
            });
        }
    }
}

proof fn lemma_new_offset_within(
    row: Seq<ZxArr>,
    i: int,
    se: Search,
    marks: Seq<bool>,
    off: u32,
    lo: int,
    hi: int,
    w: int,
    p: (int, ZxArr),
)
    requires
        1 <= se.width <= 64,
        1 <= w,
        off <= w,
        lo >= 1,
        row.len() == 64,
        row_within(row, w),
        zxdp::new_offset_offers(row, i, se.slots, se.am, marks, off, lo, hi, se.span, se.width).contains(p),
    ensures
        i < p.0,
        reps_within(p.1, w),
        p.1.from_pos == i,
        p.1.from_slot < 64,
        row[p.1.from_slot as int].cost < ZX_INF,
{
    let s = choose|s: int|
        0 <= s < se.width && row[s].cost < ZX_INF && marks[s] && #[trigger] zxdp::span_offers(
            zxdp::new_offset_step(row, i, s, se.slots, se.am, off),
            lo,
            hi,
            se.span,
            hi + 1,
        ).contains(p);
    let st = zxdp::new_offset_step(row, i, s, se.slots, se.am, off);
    assert(zxdp::match_after(st, p.0 - st.i, p.1));
    assert(reps_within(row[s], w));
    assert(p.1.reps@ == st.reps);
    let a = row[s].reps@;
    assert(a[0] <= w && a[1] <= w && a[2] <= w);
}

/// The rows of a table stay within `w`, and every live arrival comes out of a live
/// one.
proof fn lemma_rows_within(
    input: Seq<u8>,
    ms: &MatchSet,
    extra: Option<Seq<Vec<(u32, u32)>>>,
    se: Search,
    arr: Seq<ZxArr>,
    w: int,
    pos: int,
)
    requires
        zxsearch::searched(input, ms, extra, se, arr, input.len() as int),
        !se.near,
        !se.am,
        1 <= se.width <= 64,
        1 <= se.slots <= 4,
        1 <= w,
        lists_within(ms, input.len() as int, w),
        extra_within(extra, input.len() as int, w),
        0 <= pos <= input.len(),
    ensures
        row_within(zxdp::row_of(arr, pos), w),
        pos > 0 ==> forall|k: int|
            0 <= k < 64 && (#[trigger] zxdp::row_of(arr, pos)[k]).cost < ZX_INF ==> comes_from(
                arr,
                pos,
                zxdp::row_of(arr, pos)[k],
            ),
    decreases pos,
{
    let row = zxdp::row_of(arr, pos);
    if pos == 0 {
        assert forall|k: int| 0 <= k < 64 && (#[trigger] row[k]).cost < ZX_INF implies reps_within(
            row[k],
            w,
        ) by {
            assert(row[k] == arr[k]);
        }
    } else {
        assert forall|k: int| 0 <= k < 64 && (#[trigger] row[k]).cost < ZX_INF implies reps_within(
            row[k],
            w,
        ) && comes_from(arr, pos, row[k]) by {
            let c = zxdp::row_of(arr, pos)[k];
            assert(zxsearch::was_offered(
                input,
                ms,
                extra,
                se,
                arr,
                input.len() as int,
                pos,
                c,
            ));
            let i = choose|i: int|
                0 <= i < input.len() && #[trigger] zxsearch::step_offers(
                    input,
                    ms,
                    extra,
                    se,
                    zxdp::row_of(arr, i),
                    i,
                ).contains((pos, c));
            lemma_offer_before(input, ms, extra, se, arr, w, i, (pos, c), pos);
        }
    }
}

proof fn lemma_offer_before(
    input: Seq<u8>,
    ms: &MatchSet,
    extra: Option<Seq<Vec<(u32, u32)>>>,
    se: Search,
    arr: Seq<ZxArr>,
    w: int,
    i: int,
    p: (int, ZxArr),
    pos: int,
)
    requires
        zxsearch::searched(input, ms, extra, se, arr, input.len() as int),
        !se.near,
        !se.am,
        1 <= se.width <= 64,
        1 <= se.slots <= 4,
        1 <= w,
        lists_within(ms, input.len() as int, w),
        extra_within(extra, input.len() as int, w),
        0 <= i < input.len(),
        0 < pos <= input.len(),
        p.0 == pos,
        zxsearch::step_offers(input, ms, extra, se, zxdp::row_of(arr, i), i).contains(p),
    ensures
        reps_within(p.1, w),
        comes_from(arr, pos, p.1),
    decreases pos, 0int,
{
    assert(zxdp::row_of(arr, i).len() == 64);
    lemma_offer_forward(input, ms, extra, se, zxdp::row_of(arr, i), i, p);
    lemma_rows_within(input, ms, extra, se, arr, w, i);
    lemma_offer_within(input, ms, extra, se, zxdp::row_of(arr, i), i, w, p);
}

/// An offer leads forward.
proof fn lemma_offer_forward(
    input: Seq<u8>,
    ms: &MatchSet,
    extra: Option<Seq<Vec<(u32, u32)>>>,
    se: Search,
    row: Seq<ZxArr>,
    i: int,
    p: (int, ZxArr),
)
    requires
        !se.near,
        !se.am,
        0 <= i < input.len(),
        zxsearch::step_offers(input, ms, extra, se, row, i).contains(p),
    ensures
        i < p.0,
{
    reveal(zxsearch::step_offers);
    let marks = zxsearch::offset_marks(row, se.width, se.slots, se.am);
    let lit = zxsearch::state_marks(row, false, 64);
    let list = ms.list(i);
    let cap = zxdp::probe_cap_of(input.len() as int, i, se.probe);
    if zxdp::front_offers(
        row,
        i,
        list,
        se.width,
        se.slots,
        se.am,
        marks,
        se.span,
        list.len() as int,
    ).contains(p) {
        let c = choose|c: int|
            0 <= c < list.len() && zxdp::front_tried(list, c) && #[trigger] zxdp::new_offset_offers(
                row,
                i,
                se.slots,
                se.am,
                marks,
                list[c].offset,
                zxdp::front_lo(list, c),
                list[c].length as int,
                se.span,
                se.width,
            ).contains(p);
        assert(zxdp::new_offset_offers(
            row,
            i,
            se.slots,
            se.am,
            marks,
            list[c].offset,
            zxdp::front_lo(list, c),
            list[c].length as int,
            se.span,
            se.width,
        ).contains(p));
    } else if zxdp::rep_offers(input, row, i, se.slots, se.near, cap, lit, se.width).contains(p) {
        let s = choose|s: int|
            0 <= s < se.width && row[s].cost < ZX_INF && lit[s] && #[trigger] zxdp::rep_slot_offers(
                input,
                row,
                i,
                s,
                se.slots,
                se.near,
                cap,
                se.slots,
            ).contains(p);
        assert(zxdp::rep_slot_offers(input, row, i, s, se.slots, se.near, cap, se.slots).contains(p));
    }
}

// ---------------------------------------------------------------------------
// Reading off
// ---------------------------------------------------------------------------
proof fn lemma_read_off_within(
    input: Seq<u8>,
    ms: &MatchSet,
    extra: Option<Seq<Vec<(u32, u32)>>>,
    se: Search,
    arr: Seq<ZxArr>,
    w: int,
    pos: int,
    slot: int,
    best: Seq<(u32, u32)>,
    ri: Seq<i8>,
)
    requires
        zxsearch::searched(input, ms, extra, se, arr, input.len() as int),
        !se.near,
        !se.am,
        1 <= se.width <= 64,
        1 <= se.slots <= 4,
        1 <= w,
        lists_within(ms, input.len() as int, w),
        extra_within(extra, input.len() as int, w),
        0 <= pos <= input.len(),
        0 <= slot < 64,
        zxdp::row_of(arr, pos)[slot].cost < ZX_INF,
        best.len() == input.len(),
        table_within(best, w),
    ensures
        table_within(zxsearch::read_off(arr, pos, slot, best, ri).0, w),
        zxsearch::read_off(arr, pos, slot, best, ri).0.len() == input.len(),
    decreases pos,
{
    let a = arr[pos * 64 + slot];
    assert(zxdp::row_of(arr, pos)[slot] == a);
    if !(pos <= 0 || a.from_pos >= pos) {
        lemma_rows_within(input, ms, extra, se, arr, w, pos);
        assert(comes_from(arr, pos, zxdp::row_of(arr, pos)[slot]));
        assert(reps_within(zxdp::row_of(arr, pos)[slot], w));
        assert(a.reps@[0] <= w);
        let next = if a.step_kind != 0 {
            best.update(a.from_pos as int, ((pos - a.from_pos) as u32, a.reps@[0]))
        } else {
            best
        };
        let next_ri = if a.step_kind == 3 {
            ri.update(a.from_pos as int, a.step_ri)
        } else {
            ri
        };
        assert(table_within(next, w));
        lemma_read_off_within(
            input,
            ms,
            extra,
            se,
            arr,
            w,
            a.from_pos as int,
            a.from_slot as int,
            next,
            next_ri,
        );
    }
}

/// A parse of the dynamic program reaches no further back than its candidates.
proof fn lemma_dp_within(
    input: Seq<u8>,
    ms: &MatchSet,
    extra: Option<Seq<Vec<(u32, u32)>>>,
    se: Search,
    w: int,
    best: Seq<(u32, u32)>,
    ri: Seq<i8>,
)
    requires
        zxsearch::dp_parse(input, ms, extra, se, best, ri),
        input.len() <= 0x3fff_ffff,
        !se.near,
        !se.am,
        1 <= se.width <= 64,
        1 <= se.slots <= 4,
        1 <= w,
        lists_within(ms, input.len() as int, w),
        extra_within(extra, input.len() as int, w),
    ensures
        table_within(best, w),
        best.len() == input.len(),
{
    let n = input.len() as int;
    let none = Seq::new(input.len(), |p: int| (0u32, 0u32));
    let plain = Seq::new(input.len(), |p: int| -1i8);
    let arr = choose|arr: Seq<ZxArr>| #[trigger]
        zxsearch::searched(input, ms, extra, se, arr, n) && (best, ri) == zxsearch::read_off(
            arr,
            n,
            0,
            none,
            plain,
        );
    assert(zxdp::row_of(arr, n)[0].cost <= 12 * n);
    lemma_read_off_within(input, ms, extra, se, arr, w, n, 0, none, plain);
}

// ---------------------------------------------------------------------------
// The seeding pass
// ---------------------------------------------------------------------------
proof fn lemma_with_pair_within(list: Seq<(u32, u32)>, pair: (u32, u32), cap: int, w: int)
    requires
        0 <= cap,
        pairs_within(list, w),
        pair.0 <= w,
    ensures
        pairs_within(matchfinder::with_pair(list, pair, cap), w),
{
    lemma_place_in(list, pair.1, 0);
    let all = list.insert(matchfinder::place_of(list, pair.1, 0), pair);
    assert(pairs_within(all, w));
}

proof fn lemma_place_in(list: Seq<(u32, u32)>, len: u32, k: int)
    requires
        0 <= k <= list.len(),
    ensures
        k <= matchfinder::place_of(list, len, k) <= list.len(),
    decreases list.len() - k,
{
    if !(k >= list.len() || list[k].1 < len) {
        lemma_place_in(list, len, k + 1);
    }
}

proof fn lemma_longest_within(list: Seq<(u32, u32)>, cap: int, k: int, w: int)
    requires
        pairs_within(list, w),
        0 <= cap,
        0 <= k <= list.len(),
    ensures
        pairs_within(matchfinder::longest_pairs(list, cap, k), w),
    decreases k,
{
    if k > 0 {
        lemma_longest_within(list, cap, k - 1, w);
        lemma_with_pair_within(matchfinder::longest_pairs(list, cap, k - 1), list[k - 1], cap, w);
    }
}

proof fn lemma_joined_within(list: Seq<(u32, u32)>, pair: (u32, u32), w: int)
    requires
        pairs_within(list, w),
        pair.0 <= w,
    ensures
        pairs_within(zxseed::joined(list, pair), w),
{
    lemma_pair_with(list, pair.0, 0);
}

proof fn lemma_pair_with(list: Seq<(u32, u32)>, off: u32, k: int)
    requires
        0 <= k <= list.len(),
    ensures
        k <= zxseed::pair_with(list, off, k) <= list.len(),
    decreases list.len() - k,
{
    if !(k >= list.len() || list[k].0 == off) {
        lemma_pair_with(list, off, k + 1);
    }
}

proof fn lemma_joined_all_within(list: Seq<(u32, u32)>, other: Seq<(u32, u32)>, j: int, w: int)
    requires
        pairs_within(list, w),
        pairs_within(other, w),
        0 <= j <= other.len(),
    ensures
        pairs_within(zxseed::joined_all(list, other, j), w),
    decreases j,
{
    if j > 0 {
        lemma_joined_all_within(list, other, j - 1, w);
        lemma_joined_within(zxseed::joined_all(list, other, j - 1), other[j - 1], w);
    }
}

/// What was handed back is for the `n` positions of the input, and within `w`.
spec fn handed_within(st: Handed, n: int, w: int) -> bool {
    st.extra.len() == n && rows_within(st.extra, w)
}

/// The heads of every position stand before it.
spec fn heads_before(heads: Seq<Vec<(u32, u32)>>, n: int) -> bool {
    forall|p: int| 0 <= p < heads.len() ==> zxseed::heads_ok((#[trigger] heads[p])@, p) && p < n
}

proof fn lemma_handed_one(input: Seq<u8>, ms: &MatchSet, st: Handed, head: (u32, u32), off: u32, probe_cap: int, w: int)
    requires
        handed_within(st, input.len() as int, w),
        head.0 < input.len(),
        off <= w,
    ensures
        handed_within(
            zxseed::handed_one(input, ms, st, head, off, probe_cap),
            input.len() as int,
            w,
        ),
{
    let pos = head.0 as int;
    let row = st.extra[pos];
    assert(pairs_within(row, w));
    let len = zxseed::probed_len(input, pos, off, probe_cap) as u32;
    lemma_joined_within(row, (off, len), w);
    assert(pairs_within(zxseed::row_handed(input, ms, st, pos, off, probe_cap), w));
}

proof fn lemma_handed_back(
    input: Seq<u8>,
    ms: &MatchSet,
    heads: Seq<Vec<(u32, u32)>>,
    st: Handed,
    at: int,
    off: u32,
    depth: int,
    probe_cap: int,
    j: int,
    w: int,
)
    requires
        handed_within(st, input.len() as int, w),
        heads_before(heads, input.len() as int),
        0 <= at < heads.len(),
        off <= w,
    ensures
        handed_within(
            zxseed::handed_back(input, ms, heads, st, at, off, depth, probe_cap, j),
            input.len() as int,
            w,
        ),
    decreases zxseed::ZX_FWD_MAX_DEPTH - depth, heads[at]@.len() - j,
{
    if !(j < 0 || j >= heads[at]@.len() || depth > zxseed::ZX_FWD_MAX_DEPTH) {
        let head = heads[at]@[j];
        assert(zxseed::heads_ok(heads[at]@, at));
        assert(head.0 <= at);
        let one = zxseed::handed_one(input, ms, st, head, off, probe_cap);
        lemma_handed_one(input, ms, st, head, off, probe_cap, w);
        if zxseed::goes_on(input, ms, st, head, off, probe_cap) && depth < zxseed::ZX_FWD_MAX_DEPTH {
            let on = zxseed::handed_back(
                input,
                ms,
                heads,
                one,
                head.0 as int,
                off,
                depth + 1,
                probe_cap,
                0,
            );
            lemma_handed_back(
                input,
                ms,
                heads,
                one,
                head.0 as int,
                off,
                depth + 1,
                probe_cap,
                0,
                w,
            );
            lemma_handed_back(input, ms, heads, on, at, off, depth, probe_cap, j + 1, w);
        } else {
            lemma_handed_back(input, ms, heads, one, at, off, depth, probe_cap, j + 1, w);
        }
    }
}

proof fn lemma_gathered(
    input: Seq<u8>,
    ms: &MatchSet,
    heads: Seq<Vec<(u32, u32)>>,
    st: Handed,
    i: int,
    mp: u32,
    left: int,
    supp_cap: int,
    probe_cap: int,
    w: int,
)
    requires
        handed_within(st, input.len() as int, w),
        heads_before(heads, input.len() as int),
        0 <= i < heads.len(),
        heads.len() <= input.len(),
        supp_cap <= w,
    ensures
        handed_within(
            zxseed::gathered(input, ms, heads, st, i, mp, left, supp_cap, probe_cap),
            input.len() as int,
            w,
        ),
    decreases
            if mp == 0xffff_ffff {
                0int
            } else {
                mp + 1
            },
{
    if !(mp == 0xffff_ffff || left <= 0 || mp >= i) {
        let off = (i - mp) as u32;
        let next = zxseed::chain_of(input, mp as int);
        if next != 0xffff_ffff && next >= mp {
        } else if zxseed::is_gathered(input, ms, i, off, supp_cap) {
            let len = zxseed::probed_len(input, i, off, probe_cap);
            let row = st.extra[i];
            assert(pairs_within(row, w));
            let own = if len >= 2 && zxseed::pair_with(row, off, 0) >= row.len() {
                Handed { extra: st.extra.update(i, row.push((off, len as u32))), ..st }
            } else {
                st
            };
            assert(handed_within(own, input.len() as int, w));
            lemma_handed_back(input, ms, heads, own, i, off, 0, probe_cap, 0, w);
            let one = zxseed::gathered_one(input, ms, heads, st, i, off, probe_cap);
            lemma_gathered(input, ms, heads, one, i, next, left - 1, supp_cap, probe_cap, w);
        } else {
            lemma_gathered(input, ms, heads, st, i, next, left, supp_cap, probe_cap, w);
        }
    }
}

proof fn lemma_front_handed(
    input: Seq<u8>,
    ms: &MatchSet,
    heads: Seq<Vec<(u32, u32)>>,
    st: Handed,
    i: int,
    probe_cap: int,
    c: int,
    w: int,
)
    requires
        handed_within(st, input.len() as int, w),
        heads_before(heads, input.len() as int),
        0 <= i < heads.len(),
        i < input.len(),
        0 <= c <= ms.list(i).len(),
        lists_within(ms, input.len() as int, w),
    ensures
        handed_within(
            zxseed::front_handed(input, ms, heads, st, i, probe_cap, c),
            input.len() as int,
            w,
        ),
    decreases c,
{
    if c > 0 {
        lemma_front_handed(input, ms, heads, st, i, probe_cap, c - 1, w);
        let before = zxseed::front_handed(input, ms, heads, st, i, probe_cap, c - 1);
        let off = ms.list(i)[c - 1].offset;
        assert(off <= w);
        lemma_handed_back(input, ms, heads, before, i, off, 0, probe_cap, 0, w);
    }
}

proof fn lemma_all_handed(
    input: Seq<u8>,
    ms: &MatchSet,
    heads: Seq<Vec<(u32, u32)>>,
    probe_cap: int,
    supp_max: int,
    i: int,
    w: int,
)
    requires
        heads_before(heads, input.len() as int),
        heads.len() == input.len(),
        0 <= i <= input.len(),
        lists_within(ms, input.len() as int, w),
        ms.max_offset() <= w,
    ensures
        handed_within(
            zxseed::all_handed(input, ms, heads, probe_cap, supp_max, i),
            input.len() as int,
            w,
        ),
    decreases i,
{
    if i > 0 {
        lemma_all_handed(input, ms, heads, probe_cap, supp_max, i - 1, w);
        let st = zxseed::all_handed(input, ms, heads, probe_cap, supp_max, i - 1);
        let known = heads.take(i);
        assert forall|p: int| 0 <= p < known.len() implies zxseed::heads_ok((#[trigger] known[p])@, p)
            && p < input.len() by {
            assert(known[p] == heads[p]);
        }
        let supp_cap = if ms.max_offset() < zx::MAX_OFFSET {
            ms.max_offset()
        } else {
            zx::MAX_OFFSET as int
        };
        let first = zxseed::chain_of(input, i - 1);
        lemma_gathered(input, ms, known, st, i - 1, first, supp_max, supp_cap, probe_cap, w);
        let off_front = if i < input.len() && supp_max > 0 {
            zxseed::gathered(input, ms, known, st, i - 1, first, supp_max, supp_cap, probe_cap)
        } else {
            st
        };
        lemma_front_handed(
            input,
            ms,
            known,
            off_front,
            i - 1,
            probe_cap,
            ms.list(i - 1).len() as int,
            w,
        );
    }
}

proof fn lemma_heads_from(row: Seq<ZxArr>, i: int, j: int, heads: Seq<(u32, u32)>)
    requires
        zxseed::heads_ok(heads, i),
    ensures
        zxseed::heads_ok(zxseed::heads_from(row, i, j, heads), i),
    decreases 40 - j,
{
    if !(j >= 40 || row[j].cost >= ZX_INF) {
        let a = row[j];
        let pair = (a.rep_pos, a.reps@[0]);
        lemma_heads_from(
            row,
            i,
            j + 1,
            if a.num_lits > 0 && 0 < a.rep_pos <= i && !heads.contains(pair) {
                heads.push(pair)
            } else {
                heads
            },
        );
    }
}

/// The seeds reach no further back than the matches.
proof fn lemma_seeds_within(
    input: Seq<u8>,
    ms: &MatchSet,
    slots: int,
    cap: int,
    probe_cap: int,
    supp_max: int,
    seeds: Seq<Vec<(u32, u32)>>,
    w: int,
)
    requires
        zxseed::seeds_of(input, ms, slots, cap, probe_cap, supp_max, seeds),
        lists_within(ms, input.len() as int, w),
        ms.max_offset() <= w,
        0 <= cap,
    ensures
        extra_within(Some(seeds), input.len() as int, w),
{
    let n = input.len() as int;
    let (arr, heads) = choose|arr: Seq<ZxArr>, heads: Seq<Vec<(u32, u32)>>|
        {
            &&& #[trigger] zxsearch::searched(
                input,
                ms,
                None,
                zxseed::seed_search(ms, n, slots),
                arr,
                n,
            )
            &&& heads.len() == n
            &&& #[trigger] zxseed::heads_in(arr, heads)
            &&& seeds.len() == n
            &&& forall|p: int|
                0 <= p < n ==> (#[trigger] seeds[p])@ == zxseed::trimmed(
                    zxseed::all_handed(input, ms, heads, probe_cap, supp_max, n).extra[p],
                    cap,
                )
        };
    assert forall|p: int| 0 <= p < heads.len() implies zxseed::heads_ok((#[trigger] heads[p])@, p)
        && p < n by {
        lemma_heads_from(zxdp::row_of(arr, p), p, 0, Seq::empty());
    }
    lemma_all_handed(input, ms, heads, probe_cap, supp_max, n, w);
    let rows = zxseed::all_handed(input, ms, heads, probe_cap, supp_max, n).extra;
    assert forall|p: int| 0 <= p < n implies pairs_within((#[trigger] seeds[p])@, w) by {
        assert(pairs_within(rows[p], w));
        lemma_longest_within(rows[p], cap, rows[p].len() as int, w);
    }
}

// ---------------------------------------------------------------------------
// Further rounds
// ---------------------------------------------------------------------------
proof fn lemma_used_within(best: Seq<(u32, u32)>, off: u32, p: int, w: int)
    requires
        table_within(best, w),
        zxseed::used_count(best, off, p) > 0,
    ensures
        off <= w,
    decreases
            if p < best.len() {
                best.len() - p
            } else {
                0
            },
{
    if !(p < 0 || p >= best.len()) {
        if best[p].0 == 0 {
            lemma_used_within(best, off, p + 1, w);
        } else if best[p].1 != off {
            lemma_used_within(best, off, p + best[p].0, w);
        }
    }
}

proof fn lemma_used_pairs_within(best: Seq<(u32, u32)>, min_count: int, cap: int, o: int, w: int)
    requires
        table_within(best, w),
        0 <= cap,
        o <= 65536,
    ensures
        pairs_within(zxseed::used_pairs(best, min_count, cap, o), w),
    decreases o,
{
    if o > 1 {
        lemma_used_pairs_within(best, min_count, cap, o - 1, w);
        let count = zxseed::used_count(best, (o - 1) as u32, 0);
        if count > 0 && count >= min_count {
            lemma_used_within(best, (o - 1) as u32, 0, w);
            lemma_with_pair_within(
                zxseed::used_pairs(best, min_count, cap, o - 1),
                ((o - 1) as u32, count as u32),
                cap,
                w,
            );
        }
    }
}

proof fn lemma_matching_within(input: Seq<u8>, used: Seq<u32>, p: int, lim: int, k: int, w: int)
    requires
        forall|j: int| 0 <= j < used.len() ==> (#[trigger] used[j]) <= w,
        0 <= k <= used.len(),
    ensures
        pairs_within(zxseed::matching(input, used, p, lim, k), w),
    decreases k,
{
    if k > 0 {
        lemma_matching_within(input, used, p, lim, k - 1, w);
        assert(used[k - 1] <= w);
    }
}

/// The candidates of a further round reach no further back than those before it.
proof fn lemma_round_row_within(
    input: Seq<u8>,
    m: zx::ZxMode,
    tuning: &ZxTuning,
    seeds: Seq<Vec<(u32, u32)>>,
    prev: Seq<(u32, u32)>,
    p: int,
    w: int,
)
    requires
        !tuning.old_seed,
        table_within(prev, w),
        0 <= p < input.len(),
        parse::seeds_first(input.len() as int, false, tuning) ==> extra_within(
            Some(seeds),
            input.len() as int,
            w,
        ),
    ensures
        pairs_within(parse::round_row(input, m, tuning, seeds, prev, p), w),
{
    let min_count = tuning.min_seed_count as int;
    let most = tuning.max_seed_offsets as int;
    let cap = tuning.max_extra_per_pos as int;
    let used = zxseed::used_offsets(prev, min_count, most);
    lemma_used_pairs_within(prev, min_count, most, 65536, w);
    let pairs = zxseed::used_pairs(prev, min_count, most, 65536);
    assert forall|j: int| 0 <= j < used.len() implies (#[trigger] used[j]) <= w by {
        assert(pairs[j].0 <= w);
    }
    let all = zxseed::matching(input, used, p, tuning.seed_probe as int, used.len() as int);
    lemma_matching_within(input, used, p, tuning.seed_probe as int, used.len() as int, w);
    lemma_longest_within(all, cap, all.len() as int, w);
    let own = zxseed::at_most(all, cap);
    if parse::seeds_first(input.len() as int, false, tuning) {
        assert(lists_of_within(seeds, input.len() as int, w));
        let more = seeds[p]@;
        assert(pairs_within(seeds[p]@, w));
        lemma_joined_all_within(own, more, more.len() as int, w);
        let both = zxseed::joined_all(own, more, more.len() as int);
        lemma_longest_within(both, cap, both.len() as int, w);
    }
}

// ---------------------------------------------------------------------------
// Reduction
// ---------------------------------------------------------------------------
spec fn pass_within(s: zxbest::Pass, n: int, w: int) -> bool {
    s.best.len() == n && table_within(s.best, w) && s.rep <= w && s.i >= 0
}

proof fn lemma_next_used(best: Seq<(u32, u32)>, from: int)
    requires
        0 <= from,
    ensures
        zxbest::next_used(best, from) >= from,
    decreases
            if from < best.len() {
                best.len() - from
            } else {
                0
            },
{
    if from < best.len() && best[from].0 == 0 {
        lemma_next_used(best, from + 1);
    }
}

proof fn lemma_match_reduced_within(
    input: Seq<u8>,
    best: Seq<(u32, u32)>,
    i: int,
    lits: int,
    rep: u32,
    w: int,
)
    requires
        table_within(best, w),
        rep <= w,
        0 <= i < best.len(),
    ensures
        table_within(zxbest::match_reduced(input, best, i, lits, rep).0, w),
        zxbest::match_reduced(input, best, i, lits, rep).0.len() == best.len(),
{
    let end = i + best[i].0;
    let next = zxbest::next_used(best, end);
    lemma_next_used(best, end);
    let (b, did) = zxbest::towards_next(input, best, i, lits, rep);
    if end < best.len() && next < best.len() && best[next].0 >= 2 {
        let back = zxbest::back_rep(input, best, i, lits, rep, next - end, best[next].1);
        let b1 = zxbest::after_rule(best, back);
        assert(b1.len() == best.len() && table_within(b1, w));
    }
    assert(b.len() == best.len() && table_within(b, w));
    let bj = i + b[i].0;
    let after = zxbest::next_used(b, i + 2);
    lemma_next_used(b, i + 2);
    if let Some(b2) = zxbest::joined(input, b, i, lits, rep) {
        assert(b2.len() == b.len() && table_within(b2, w));
    }
    if let Some(b3) = zxbest::dissolved(b, i, lits, rep) {
        assert(b3.len() == b.len() && table_within(b3, w));
    }
}

proof fn lemma_pass_within(input: Seq<u8>, s: zxbest::Pass, steps: nat, n: int, w: int)
    requires
        pass_within(s, n, w),
    ensures
        pass_within(zxbest::pass_after(input, s, steps), n, w),
    decreases steps,
{
    if steps > 0 {
        lemma_pass_within(input, s, (steps - 1) as nat, n, w);
        let a = zxbest::pass_after(input, s, (steps - 1) as nat);
        if a.i < a.best.len() {
            if zxbest::extended_back(input, a.best, a.i, a.lits, a.rep) is None && a.best[a.i].0 >= 2 {
                lemma_match_reduced_within(input, a.best, a.i, a.lits, a.rep, w);
            }
        }
    }
}

/// The rules reach no further back than the table did.
proof fn lemma_passes_within(input: Seq<u8>, a: Seq<(u32, u32)>, b: Seq<(u32, u32)>, k: nat, w: int)
    requires
        zxbest::passes_lead(input, a, b, k),
        table_within(a, w),
        1 <= w,
    ensures
        table_within(b, w),
        b.len() == a.len(),
    decreases k,
{
    if k > 0 {
        let (m, did) = choose|m: Seq<(u32, u32)>, did: bool| #[trigger]
            zxbest::pass_leads(input, a, m, did) && if did {
                zxbest::passes_lead(input, m, b, (k - 1) as nat)
            } else {
                m == b
            };
        let steps = choose|steps: nat| #[trigger]
            zxbest::pass_ends(input, zxbest::pass_start(a), steps, m, did);
        lemma_pass_within(input, zxbest::pass_start(a), steps, a.len() as int, w);
        if did {
            lemma_passes_within(input, m, b, (k - 1) as nat, w);
        }
    }
}

proof fn lemma_finished_within(
    input: Seq<u8>,
    m: zx::ZxMode,
    do_reduce: bool,
    raw: (Seq<(u32, u32)>, Seq<i8>),
    r: (Seq<(u32, u32)>, Seq<i8>),
    w: int,
)
    requires
        parse::finished(input, m, do_reduce, raw, r),
        table_within(raw.0, w),
        1 <= w,
    ensures
        table_within(r.0, w),
        r.0.len() == raw.0.len(),
{
    if do_reduce {
        let red = choose|red: Seq<(u32, u32)>| #[trigger]
            zxbest::reduces_to(input, raw.0, red) && r == if zxbest::table_count(raw.0, raw.1, m)
                < zxbest::table_count(red, parse::no_near(red.len() as int), m) {
                raw
            } else {
                (red, parse::no_near(red.len() as int))
            };
        lemma_passes_within(input, raw.0, red, 30, w);
    }
}

// ---------------------------------------------------------------------------
// All rounds
// ---------------------------------------------------------------------------
proof fn lemma_rounds_to_within(
    input: Seq<u8>,
    ms: &MatchSet,
    m: zx::ZxMode,
    tuning: &ZxTuning,
    seeds: Seq<Vec<(u32, u32)>>,
    left: int,
    top: (Seq<(u32, u32)>, Seq<i8>),
    prev: Seq<(u32, u32)>,
    used_before: Seq<u32>,
    res: (Seq<(u32, u32)>, Seq<i8>),
    w: int,
)
    requires
        parse::rounds_to(input, ms, m, tuning, seeds, left, top, prev, used_before, res),
        input.len() <= 0x3fff_ffff,
        !m.near,
        !m.am,
        1 <= m.slots <= 4,
        !tuning.old_seed,
        1 <= w,
        lists_within(ms, input.len() as int, w),
        parse::seeds_first(input.len() as int, false, tuning) ==> extra_within(
            Some(seeds),
            input.len() as int,
            w,
        ),
        table_within(top.0, w),
        table_within(prev, w),
    ensures
        table_within(res.0, w),
    decreases left,
{
    let used = zxseed::used_offsets(
        prev,
        tuning.min_seed_count as int,
        tuning.max_seed_offsets as int,
    );
    if !(left <= 0 || used.len() == 0 || used == used_before) {
        let (extra, raw, fin) = choose|
            extra: Seq<Vec<(u32, u32)>>,
            raw: (Seq<(u32, u32)>, Seq<i8>),
            fin: (Seq<(u32, u32)>, Seq<i8>),
        |
            #[trigger] parse::one_round(input, ms, m, tuning, seeds, prev, extra, raw, fin) && if raw.0
                == prev {
                res == top
            } else {
                parse::rounds_to(
                    input,
                    ms,
                    m,
                    tuning,
                    seeds,
                    left - 1,
                    parse::less_of(top, fin, m),
                    raw.0,
                    used,
                    res,
                )
            };
        if raw.0 != prev {
            assert forall|p: int| 0 <= p < input.len() implies pairs_within((#[trigger] extra[p])@, w) by {
                lemma_round_row_within(input, m, tuning, seeds, prev, p, w);
            }
            lemma_dp_within(
                input,
                ms,
                Some(extra),
                zxsearch::search_of(ms, input.len() as int, m.slots, m.near, m.am),
                w,
                raw.0,
                raw.1,
            );
            lemma_finished_within(input, m, m.slots == 1 && tuning.reduce, raw, fin, w);
            lemma_rounds_to_within(
                input,
                ms,
                m,
                tuning,
                seeds,
                left - 1,
                parse::less_of(top, fin, m),
                raw.0,
                used,
                res,
                w,
            );
        }
    }
}

proof fn lemma_built_within(
    best: Seq<(u32, u32)>,
    ri: Seq<i8>,
    m: zx::ZxMode,
    max_off: int,
    p: int,
    run: nat,
    cmds: Seq<ZxCommand>,
    w: int,
)
    requires
        table_within(best, w),
        zx0opt::cmds_within(cmds, w),
        0 <= w,
    ensures
        zx0opt::cmds_within(zxbest::built_from(best, ri, m, max_off, p, run, cmds), w),
    decreases
            if p < best.len() {
                best.len() - p
            } else {
                0
            },
{
    if p < 0 || p >= best.len() {
    } else if best[p].0 == 0 {
        lemma_built_within(best, ri, m, max_off, p + 1, run + 1, cmds, w);
    } else {
        let reps = zx::zx_reps(cmds, m, cmds.len() as int);
        let c = zxbest::match_cmd(best, ri, m, p, run, reps);
        assert(c.match_off == best[p].1);
        if zx::zx_codable(zx::zx_sel(c, reps, m), reps, c.match_off, c.match_len, m) && c.match_off
            <= max_off {
            assert(zx0opt::cmds_within(cmds.push(c), w));
            lemma_built_within(best, ri, m, max_off, p + best[p].0, 0, cmds.push(c), w);
        } else {
            lemma_built_within(best, ri, m, max_off, p + 1, run + 1, cmds, w);
        }
    }
}

/// A parse reaches no further back than the matches that it chooses from.
pub proof fn lemma_parse_within(
    input: Seq<u8>,
    cmds: Seq<ZxCommand>,
    ms: &MatchSet,
    rep_slots: usize,
    fast: bool,
    tuning: &ZxTuning,
    w: int,
)
    requires
        parse::zx_parsed(input, cmds, ms, rep_slots, false, false, fast, tuning),
        ms.of(input),
        ms.max_offset() <= w,
        1 <= w,
        1 <= rep_slots <= 4,
        !tuning.old_seed,
        input.len() <= 0x3fff_ffff,
    ensures
        zx0opt::cmds_within(cmds, w),
{
    let m = zx::zx_mode(rep_slots, false, false);
    let n = input.len() as int;
    let (seeds, first, fin, res) = choose|
        seeds: Seq<Vec<(u32, u32)>>,
        first: (Seq<(u32, u32)>, Seq<i8>),
        fin: (Seq<(u32, u32)>, Seq<i8>),
        res: (Seq<(u32, u32)>, Seq<i8>),
    |
        {
            &&& #[trigger] parse::rounds_parse(input, ms, m, fast, tuning, seeds, first, fin, res)
            &&& cmds == zxbest::built(res.0, res.1, m, u32::MAX as int)
            &&& parse::no_larger(parse::bits_of(cmds, m), first.0, first.1, m)
        };
    assert forall|p: int, k: int| 0 <= p < n && 0 <= k < ms.list(p).len() implies (
    #[trigger] ms.list(p)[k]).offset <= w by {
        assert(matchfinder::candidates_ok(input, p, ms.list(p), ms.max_offset()));
    }
    let seeded = parse::seeds_first(n, fast, tuning);
    if seeded {
        lemma_seeds_within(
            input,
            ms,
            m.slots,
            tuning.forward_cap as int,
            tuning.seed_probe as int,
            tuning.supplement as int,
            seeds,
            w,
        );
    }
    lemma_dp_within(
        input,
        ms,
        if seeded {
            Some(seeds)
        } else {
            None
        },
        zxsearch::search_of(ms, n, m.slots, m.near, m.am),
        w,
        first.0,
        first.1,
    );
    lemma_finished_within(input, m, !fast && m.slots == 1 && tuning.reduce, first, fin, w);
    if parse::runs_rounds(n, fast, first.0) {
        lemma_rounds_to_within(
            input,
            ms,
            m,
            tuning,
            seeds,
            tuning.seed_rounds as int,
            fin,
            first.0,
            Seq::empty(),
            res,
            w,
        );
    }
    lemma_built_within(res.0, res.1, m, u32::MAX as int, 0, 0, Seq::empty(), w);
}

} // verus!
