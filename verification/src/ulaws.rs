//! What the search of upkr makes of repeats: a place whose bytes occur earlier for
//! long enough is coded by a match that is as long.
use crate::lz;
use crate::suffix;
use crate::uparse;
use crate::uparse::{Found, MatchFinder};
use crate::upkrenc;
use crate::upkrenc::Op;
use crate::upkrstream;
use crate::upkrstream::Config;
use crate::usearch;
use crate::usearch::{Scene, Way};
use vstd::prelude::*;

verus! {

// ---------------------------------------------------------------------------
// What holds of every way
// ---------------------------------------------------------------------------
/// A token at `p` where the first match is long is that match, cut to the longest
/// that there is.
spec fn is_forced(s: Scene, found: spec_fn(int) -> Seq<Found>, p: int, op: Op) -> bool {
    found(p).len() > 0 && found(p)[0].len >= s.pc.greedy_size && p - found(p)[0].pos
        <= s.c.max_offset ==> (op matches Op::Match { offset, len } && len == if found(p)[0].len
        < s.c.max_length {
        found(p)[0].len as int
    } else {
        s.c.max_length as int
    })
}

/// The way leads to `p`, by forced tokens where there are such.
spec fn way_good(s: Scene, found: spec_fn(int) -> Seq<Found>, p: int, w: Way) -> bool {
    &&& upkrenc::ops_pos(w.ops, w.ops.len() as int) == p
    &&& forall|k: int|
        0 <= k < w.ops.len() ==> is_forced(s, found, upkrenc::ops_pos(w.ops, k), #[trigger] w.ops[k])
}

spec fn list_good(s: Scene, found: spec_fn(int) -> Seq<Found>, p: int, list: Seq<Way>) -> bool {
    &&& forall|k: int| 0 <= k < list.len() ==> way_good(s, found, p, #[trigger] list[k])
    &&& list.len() <= 2 * s.pc.max_arrivals || list.len() <= 1
}

spec fn lists_good(s: Scene, found: spec_fn(int) -> Seq<Found>, lists: Seq<Seq<Way>>) -> bool {
    &&& lists.len() == s.d.len() + 1
    &&& forall|p: int| 0 <= p <= s.d.len() ==> list_good(s, found, p, #[trigger] lists[p])
}

/// There is a way to a position from `p` on.
spec fn some_from(s: Scene, lists: Seq<Seq<Way>>, p: int) -> bool {
    exists|q: int| p <= q <= s.d.len() && (#[trigger] lists[q]).len() > 0
}

/// The limits of the search, and matches that lie within the input.
spec fn scene_ok(s: Scene, found: spec_fn(int) -> Seq<Found>) -> bool {
    &&& s.d.len() <= 0x7fff_ffff
    &&& s.pc.max_arrivals <= 0x1000_0000
    &&& 1 <= upkrstream::min_len(s.c) <= s.c.max_length
    &&& upkrstream::min_len(s.c) <= s.pc.greedy_size
    &&& forall|p: int, k: int|
        0 <= p < s.d.len() && 0 <= k < found(p).len() ==> p + (#[trigger] found(p)[k]).len
            <= s.d.len()
}

proof fn lemma_pos_prefix(ops: Seq<Op>, x: Op, k: int)
    requires
        0 <= k <= ops.len(),
    ensures
        upkrenc::ops_pos(ops.push(x), k) == upkrenc::ops_pos(ops, k),
    decreases k,
{
    if k > 0 {
        lemma_pos_prefix(ops, x, k - 1);
        assert(ops.push(x)[k - 1] == ops[k - 1]);
    }
}

proof fn lemma_way_push(s: Scene, found: spec_fn(int) -> Seq<Found>, p: int, w: Way, v: Way, x: Op)
    requires
        way_good(s, found, p, w),
        v.ops == w.ops.push(x),
        is_forced(s, found, p, x),
    ensures
        way_good(s, found, p + upkrenc::op_len(x), v),
{
    let n = w.ops.len() as int;
    lemma_pos_prefix(w.ops, x, n);
    assert(v.ops[n] == x);
    assert forall|k: int| 0 <= k < v.ops.len() implies is_forced(
        s,
        found,
        upkrenc::ops_pos(v.ops, k),
        #[trigger] v.ops[k],
    ) by {
        lemma_pos_prefix(w.ops, x, k);
        if k < n {
            assert(v.ops[k] == w.ops[k]);
        }
    }
}

// ---------------------------------------------------------------------------
// Lists
// ---------------------------------------------------------------------------
spec fn all_under(s: Seq<usize>, top: int) -> bool {
    forall|j: int| 0 <= j < s.len() ==> #[trigger] s[j] < top
}

proof fn lemma_picks_inside(list: Seq<Way>, order: Seq<usize>, k: int, max: int, top: int)
    requires
        0 <= k <= order.len(),
        0 <= max,
        all_under(order, top),
    ensures
        usearch::firsts(list, order, k, max).len() <= max,
        all_under(usearch::firsts(list, order, k, max), top),
        all_under(usearch::seconds(list, order, k), top),
    decreases k,
{
    if k > 0 {
        lemma_picks_inside(list, order, k - 1, max, top);
        assert(order[k - 1] < top);
        let a = usearch::firsts(list, order, k - 1, max);
        let b = usearch::seconds(list, order, k - 1);
        assert(all_under(a.push(order[k - 1]), top));
        assert(all_under(b.push(order[k - 1]), top));
    }
}

proof fn lemma_cut_good(s: Scene, found: spec_fn(int) -> Seq<Found>, p: int, list: Seq<Way>, max: int)
    requires
        forall|k: int| 0 <= k < list.len() ==> way_good(s, found, p, #[trigger] list[k]),
        0 < list.len() <= usize::MAX,
        max >= 1,
    ensures
        forall|k: int|
            0 <= k < usearch::cut(list, max).len() ==> way_good(
                s,
                found,
                p,
                #[trigger] usearch::cut(list, max)[k],
            ),
        0 < usearch::cut(list, max).len() <= max,
{
    let n = list.len() as int;
    let order = usearch::price_order(list, n);
    usearch::lemma_price_order(list, n);
    assert(all_under(order, n));
    lemma_picks_inside(list, order, n, max, n);
    usearch::lemma_first_kept(list, order, n, max);
    let a = usearch::firsts(list, order, n, max);
    let b = usearch::seconds(list, order, n);
    let picks = usearch::topped_up(a, b, max);
    let c = usearch::cut(list, max);
    assert forall|k: int| 0 <= k < c.len() implies way_good(s, found, p, #[trigger] c[k]) by {
        assert(picks[k] < n) by {
            if k < a.len() {
                assert(picks[k] == a[k]);
            } else {
                assert(picks[k] == b[k - a.len()]);
            }
        }
        assert(c[k] == list[picks[k] as int]);
    }
}

proof fn lemma_put(
    s: Scene,
    found: spec_fn(int) -> Seq<Found>,
    lists: Seq<Seq<Way>>,
    p: int,
    w: Way,
    from: int,
)
    requires
        scene_ok(s, found),
        lists_good(s, found, lists),
        0 <= from <= p <= s.d.len(),
        way_good(s, found, p, w),
    ensures
        lists_good(s, found, usearch::put_at(s, lists, p, w)),
        some_from(s, usearch::put_at(s, lists, p, w), from),
{
    let max = s.pc.max_arrivals as int;
    let l = lists[p];
    assert(list_good(s, found, p, l));
    let r = usearch::listed(l, w, max, s.pc.max_cost_delta);
    let more = l.push(w);
    assert forall|k: int| 0 <= k < more.len() implies way_good(s, found, p, #[trigger] more[k]) by {
        if k < l.len() {
            assert(more[k] == l[k]);
        }
    }
    if max > 0 && l.len() + 1 > 2 * max {
        lemma_cut_good(s, found, p, more, max);
    }
    assert(r.len() > 0);
    assert(list_good(s, found, p, r)) by {
        assert forall|k: int| 0 <= k < r.len() implies way_good(s, found, p, #[trigger] r[k]) by {
            if max == 0 {
                if k == 0 && r[0] == w {
                } else {
                    assert(r[k] == l[k]);
                }
            }
        }
    }
    let after = usearch::put_at(s, lists, p, w);
    assert(after[p].len() > 0);
    assert forall|q: int| 0 <= q <= s.d.len() implies list_good(s, found, q, #[trigger] after[q]) by {
        if q != p {
            assert(after[q] == lists[q]);
        }
    }
}

// ---------------------------------------------------------------------------
// One way goes on
// ---------------------------------------------------------------------------
/// No match is long at `pos`.
spec fn is_free(s: Scene, found: spec_fn(int) -> Seq<Found>, pos: int) -> bool {
    !(found(pos).len() > 0 && found(pos)[0].len >= s.pc.greedy_size && pos - found(pos)[0].pos
        <= s.c.max_offset)
}

proof fn lemma_try(
    s: Scene,
    found: spec_fn(int) -> Seq<Found>,
    lists: Seq<Seq<Way>>,
    pos: int,
    w: Way,
    offset: int,
    length: int,
)
    requires
        scene_ok(s, found),
        lists_good(s, found, lists),
        0 <= pos < s.d.len(),
        way_good(s, found, pos, w),
        length <= s.d.len() - pos,
        is_free(s, found, pos) || length == found(pos)[0].len,
    ensures
        lists_good(s, found, usearch::try_match(s, lists, pos, w, offset, length)),
        length >= upkrstream::min_len(s.c) || some_from(s, lists, pos + 1) ==> some_from(
            s,
            usearch::try_match(s, lists, pos, w, offset, length),
            pos + 1,
        ),
{
    let len = if length < s.c.max_length {
        length
    } else {
        s.c.max_length as int
    };
    if length >= upkrstream::min_len(s.c) {
        let v = usearch::matched(s, pos, w, offset as u32, len as u32);
        let x = Op::Match { offset: offset as u32, len: len as u32 };
        assert(v.ops == w.ops.push(x));
        assert(upkrenc::op_len(x) == len);
        lemma_way_push(s, found, pos, w, v, x);
        lemma_put(s, found, lists, pos + len, v, pos + 1);
    }
}

proof fn lemma_found_on(
    s: Scene,
    found: spec_fn(int) -> Seq<Found>,
    lists: Seq<Seq<Way>>,
    pos: int,
    w: Way,
    k: int,
    same: bool,
)
    requires
        scene_ok(s, found),
        lists_good(s, found, lists),
        0 <= pos < s.d.len(),
        way_good(s, found, pos, w),
        0 <= k,
        is_free(s, found, pos) || k == 0,
    ensures
        ({
            let r = usearch::with_found(s, lists, pos, w, found(pos), k, same);
            &&& lists_good(s, found, r.0)
            &&& r.2 || some_from(s, lists, pos + 1) ==> some_from(s, r.0, pos + 1)
            &&& !is_free(s, found, pos) ==> r.2
        }),
    decreases found(pos).len() - k,
{
    let list = found(pos);
    if k < list.len() {
        let f = list[k];
        let offset = pos - f.pos;
        assert(pos + found(pos)[k].len <= s.d.len());
        if offset <= s.c.max_offset {
            lemma_try(s, found, lists, pos, w, offset, f.len as int);
            let more = usearch::try_match(s, lists, pos, w, offset, f.len as int);
            if f.len < s.pc.greedy_size {
                lemma_found_on(s, found, more, pos, w, k + 1, same || offset == w.last);
            }
        } else {
            lemma_found_on(s, found, lists, pos, w, k + 1, same);
        }
    }
}

proof fn lemma_run_inside(d: Seq<u8>, a: int, b: int, l: int)
    requires
        0 <= b,
        0 <= l,
        b + l <= d.len(),
    ensures
        b + usearch::run_from(d, a, b, l) <= d.len(),
    decreases d.len() - b - l,
{
    if 0 <= b + l < d.len() && d[a + l] == d[b + l] {
        lemma_run_inside(d, a, b, l + 1);
    }
}

proof fn lemma_near_on(
    s: Scene,
    found: spec_fn(int) -> Seq<Found>,
    lists: Seq<Seq<Way>>,
    pos: int,
    w: Way,
    back: Seq<usize>,
    far: int,
    at: usize,
    left: int,
    same: bool,
)
    requires
        scene_ok(s, found),
        lists_good(s, found, lists),
        0 <= pos < s.d.len(),
        way_good(s, found, pos, w),
        is_free(s, found, pos),
    ensures
        lists_good(s, found, usearch::with_near(s, lists, pos, w, back, far, at, left, same).0),
    decreases left,
{
    let offset = pos - at;
    if !(left <= 0 || at == usearch::NOWHERE || at <= far || offset > s.c.max_offset) {
        let length = usearch::run_from(s.d, at as int, pos, 0);
        lemma_run_inside(s.d, at as int, pos, 0);
        lemma_try(s, found, lists, pos, w, offset, length);
        lemma_near_on(
            s,
            found,
            usearch::try_match(s, lists, pos, w, offset, length),
            pos,
            w,
            back,
            far,
            if offset < usearch::NEAR_SIZE {
                back[at as int % usearch::NEAR_SIZE as int]
            } else {
                at
            },
            left - 1,
            same || (length > 0 && offset == w.last),
        );
    }
}

proof fn lemma_gone_on(
    s: Scene,
    found: spec_fn(int) -> Seq<Found>,
    lists: Seq<Seq<Way>>,
    pos: int,
    w: Way,
    back: Seq<usize>,
    last: Seq<usize>,
)
    requires
        scene_ok(s, found),
        lists_good(s, found, lists),
        0 <= pos < s.d.len(),
        way_good(s, found, pos, w),
    ensures
        ({
            let r = usearch::gone_on(s, lists, pos, w, found(pos), back, last);
            lists_good(s, found, r.0) && some_from(s, r.0, pos + 1)
        }),
{
    let list = found(pos);
    lemma_found_on(s, found, lists, pos, w, 0, false);
    let (a, a_same, stop) = usearch::with_found(s, lists, pos, w, list, 0, false);
    if !stop {
        let far = usearch::nearest(list, list.len() as int);
        let at = last[s.d[pos] as int];
        let left = s.pc.num_near_matches as int;
        lemma_near_on(s, found, a, pos, w, back, far, at, left, a_same);
        let (b, b_same) = usearch::with_near(s, a, pos, w, back, far, at, left, a_same);
        lemma_run_inside(s.d, pos - w.last, pos, 0);
        if !(b_same || w.last == 0) {
            lemma_try(
                s,
                found,
                b,
                pos,
                w,
                w.last as int,
                usearch::run_from(s.d, pos - w.last, pos, 0),
            );
        }
        let e = usearch::with_last(s, b, pos, w, b_same);
        let v = usearch::lettered(s, pos, w);
        lemma_way_push(s, found, pos, w, v, Op::Literal(s.d[pos]));
        lemma_put(s, found, e, pos + 1, v, pos + 1);
    }
}

// ---------------------------------------------------------------------------
// The search
// ---------------------------------------------------------------------------
proof fn lemma_all_on(
    s: Scene,
    found: spec_fn(int) -> Seq<Found>,
    lists: Seq<Seq<Way>>,
    pos: int,
    here: Seq<Way>,
    k: int,
    back: Seq<usize>,
    last: Seq<usize>,
)
    requires
        scene_ok(s, found),
        lists_good(s, found, lists),
        0 <= pos < s.d.len(),
        0 <= k,
        forall|j: int| 0 <= j < here.len() ==> way_good(s, found, pos, #[trigger] here[j]),
    ensures
        ({
            let r = usearch::all_gone_on(s, lists, pos, here, k, found(pos), back, last);
            &&& lists_good(s, found, r)
            &&& some_from(s, lists, pos + 1) || (exists|j: int|
                k <= j < here.len() && #[trigger] usearch::goes_on(s, here, j)) ==> some_from(
                s,
                r,
                pos + 1,
            )
        }),
    decreases here.len() - k,
{
    if k < here.len() {
        if usearch::goes_on(s, here, k) {
            lemma_gone_on(s, found, lists, pos, here[k], back, last);
            let (more, stop) = usearch::gone_on(s, lists, pos, here[k], found(pos), back, last);
            if !stop {
                lemma_all_on(s, found, more, pos, here, k + 1, back, last);
            }
        } else {
            lemma_all_on(s, found, lists, pos, here, k + 1, back, last);
        }
    }
}

/// The cheapest way goes on.
proof fn lemma_one_goes_on(s: Scene, list: Seq<Way>)
    requires
        list.len() > 0,
    ensures
        exists|j: int| 0 <= j < list.len() && #[trigger] usearch::goes_on(s, list, j),
{
    let n = list.len() as int;
    usearch::lemma_least(list, n);
    let j = choose|j: int| 0 <= j < n && (#[trigger] list[j]).price == usearch::least(list, n);
    usearch::lemma_least_with(list, list[j].last, n);
    assert(usearch::goes_on(s, list, j));
}

proof fn lemma_search(
    s: Scene,
    found: spec_fn(int) -> Seq<Found>,
    lists: Seq<Seq<Way>>,
    back: Seq<usize>,
    last: Seq<usize>,
    pos: int,
)
    requires
        scene_ok(s, found),
        lists_good(s, found, lists),
        0 <= pos <= s.d.len(),
        some_from(s, lists, pos),
    ensures
        ({
            let r = usearch::search(s, found, lists, back, last, pos);
            lists_good(s, found, r) && r[s.d.len() as int].len() > 0
        }),
    decreases s.d.len() - pos,
{
    if pos < s.d.len() {
        if lists[pos].len() == 0 {
            let q = choose|q: int| pos <= q <= s.d.len() && (#[trigger] lists[q]).len() > 0;
            assert(pos + 1 <= q && lists[q].len() > 0);
            lemma_search(s, found, lists, back, last, pos + 1);
        } else {
            let here = usearch::taken(s, lists[pos]);
            assert(list_good(s, found, pos, lists[pos]));
            if s.pc.max_arrivals > 0 {
                lemma_cut_good(s, found, pos, lists[pos], s.pc.max_arrivals as int);
            }
            lemma_one_goes_on(s, here);
            let rest = lists.update(pos, Seq::empty());
            assert forall|p: int| 0 <= p <= s.d.len() implies list_good(
                s,
                found,
                p,
                #[trigger] rest[p],
            ) by {
                if p != pos {
                    assert(rest[p] == lists[p]);
                }
            }
            lemma_all_on(s, found, rest, pos, here, 0, back, last);
            let byte = s.d[pos] as int;
            lemma_search(
                s,
                found,
                usearch::all_gone_on(s, rest, pos, here, 0, found(pos), back, last),
                back.update(pos % usearch::NEAR_SIZE as int, last[byte]),
                last.update(byte, pos as usize),
                pos + 1,
            );
        }
    } else {
        let q = choose|q: int| pos <= q <= s.d.len() && (#[trigger] lists[q]).len() > 0;
        assert(lists[q].len() > 0);
    }
}

proof fn lemma_tokens_forced(s: Scene, found: spec_fn(int) -> Seq<Found>, k: int)
    requires
        scene_ok(s, found),
        0 <= k < usearch::found_tokens(s, found).len(),
    ensures
        is_forced(
            s,
            found,
            upkrenc::ops_pos(usearch::found_tokens(s, found), k),
            usearch::found_tokens(s, found)[k],
        ),
{
    let start = Seq::new(s.d.len() + 1, |p: int| Seq::<Way>::empty()).update(
        0,
        seq![usearch::first_way(s.c)],
    );
    assert forall|p: int| 0 <= p <= s.d.len() implies list_good(s, found, p, #[trigger] start[p]) by {
        if p == 0 {
            assert(start[0] == seq![usearch::first_way(s.c)]);
        }
    }
    assert(start[0].len() > 0);
    let back = Seq::new(usearch::NEAR_SIZE as nat, |k: int| usearch::NOWHERE);
    let last = Seq::new(256, |k: int| usearch::NOWHERE);
    lemma_search(s, found, start, back, last, 0);
    let n = s.d.len() as int;
    let r = usearch::search(s, found, start, back, last, 0);
    assert(list_good(s, found, n, r[n]));
    assert(way_good(s, found, n, r[n][0]));
    assert(usearch::found_tokens(s, found) == r[n][0].ops);
}

/// A stream of a level of the search, from 1 on, codes a place whose bytes occur
/// earlier for at least 4 + 3 * level * level bytes by a match that is as long, if
/// fewer than 100 times the level later places have them too.
pub proof fn lemma_long_repeats_are_matches(
    input: Seq<u8>,
    level: u8,
    c: Config,
    ops: Seq<Op>,
    k: int,
    q: int,
    len: int,
)
    requires
        1 <= level <= 9,
        input.len() <= 0x7fff_fffe,
        c.max_offset >= input.len(),
        c.max_length >= input.len(),
        c.max_length >= 2,
        uparse::found_ops(input, uparse::config_of(level), c, ops),
        0 <= k < ops.len(),
        0 <= q < upkrenc::ops_pos(ops, k) < input.len(),
        len >= 4 + 3 * level * level,
        ({
            let p = upkrenc::ops_pos(ops, k);
            &&& lz::is_match(input, p, p - q, len)
            &&& suffix::later_places(input, p, len).len() < 100 * level
        }),
    ensures
        ops[k] matches Op::Match { offset, len: l } && l >= len,
{
    let pc = uparse::config_of(level);
    let f = choose|f: MatchFinder| #[trigger]
        f.is_for(input, pc) && ops == usearch::found_tokens(
            Scene { d: input, c, t: uparse::info_table(), pc },
            |p: int| f.found_at(p),
        );
    let s = Scene { d: input, c, t: uparse::info_table(), pc };
    let found = |p: int| f.found_at(p);
    let p = upkrenc::ops_pos(ops, k);
    assert(3 * level * level == 3 * (level * level)) by (nonlinear_arith);
    assert(level * level <= 81) by (nonlinear_arith)
        requires
            1 <= level <= 9,
    ;
    assert(pc.greedy_size == 4 + 3 * (level * level));
    assert(pc.patience == 100 * level && pc.max_queue_size == 100 * level);
    assert forall|x: int, j: int| 0 <= x < s.d.len() && 0 <= j < found(x).len() implies x + (
    #[trigger] found(x)[j]).len <= s.d.len() by {
        uparse::lemma_found_inside(&f, input, pc, x, j);
    }
    uparse::lemma_repeats_are_found(&f, input, pc, p, q, len);
    uparse::lemma_found_inside(&f, input, pc, p, 0);
    lemma_tokens_forced(s, found, k);
    assert(found(p)[0].len >= len);
}

} // verus!
