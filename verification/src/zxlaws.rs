//! What the LZAN compressors are offered and make use of: repeats of the input.
use crate::bitio;
use crate::lz;
use crate::matchfinder;
use crate::matchfinder::{Match, MatchSet};
use crate::pucrunch;
use crate::parse;
use crate::parse::ZxTuning;
use crate::zx;
use crate::zx::ZxCommand;
use crate::zxbest;
use crate::zxcost;
use crate::zxdp;
use crate::zxdp::{ZxArr, ZX_INF};
use crate::zxpack;
use crate::zxrows;
use crate::zxsearch;
use crate::zxsearch::Search;
use crate::zxseed;
use vstd::prelude::*;

verus! {

// ---------------------------------------------------------------------------
// Matches
// ---------------------------------------------------------------------------
/// The two bytes at `j` are those at `p`.
pub open spec fn same_pair(d: Seq<u8>, p: int, j: int) -> bool {
    d[j] == d[p] && d[j + 1] == d[p + 1]
}

/// How many places between `a` and `b` have the two bytes at `p`.
pub open spec fn pairs_between(d: Seq<u8>, p: int, a: int, b: int) -> int
    decreases b - a,
{
    if b <= a + 1 {
        0
    } else {
        pairs_between(d, p, a, b - 1) + if same_pair(d, p, b - 1) {
            1int
        } else {
            0
        }
    }
}

/// A list has a match that is as near and as long.
pub open spec fn offers_as_good(list: Seq<Match>, off: int, len: int) -> bool {
    exists|k: int|
        0 <= k < list.len() && (#[trigger] list[k]).offset <= off && list[k].length >= len
}

proof fn lemma_pairs_least(d: Seq<u8>, p: int, a: int, b: int)
    ensures
        pairs_between(d, p, a, b) >= 0,
    decreases b - a,
{
    if b > a + 1 {
        lemma_pairs_least(d, p, a, b - 1);
    }
}

/// Where there is an earlier place with the same two bytes, the last before `b` is
/// found, and is the only one between.
proof fn lemma_pair_before(d: Seq<u8>, p: int, q: int, b: int)
    requires
        0 <= q < b,
        b + 1 <= d.len() <= 0x7fff_ffff,
        same_pair(d, p, q),
    ensures
        ({
            let r = zxseed::pair_before(d, p, b);
            &&& q <= r < b
            &&& same_pair(d, p, r as int)
            &&& r > q ==> pairs_between(d, p, q, r as int) + 1 == pairs_between(d, p, q, b)
        }),
    decreases b,
{
    if !(d[b - 1] == d[p] && d[b] == d[p + 1]) {
        lemma_pair_before(d, p, q, b - 1);
    }
}

proof fn lemma_pair_alike(d: Seq<u8>, p: int, c: int, b: int)
    requires
        same_pair(d, p, c),
    ensures
        zxseed::pair_before(d, c, b) == zxseed::pair_before(d, p, b),
    decreases b,
{
    if b > 0 {
        lemma_pair_alike(d, p, c, b - 1);
    }
}

pub proof fn lemma_run_at_least(d: Seq<u8>, p: int, off: int, len: int)
    requires
        lz::is_match(d, p, off, len),
    ensures
        matchfinder::run_at(d, p, off) >= len,
    decreases len,
{
    if len > 0 {
        assert(d[p + 0] == d[p + 0 - off]);
        assert forall|k: int| 0 <= k < len - 1 implies #[trigger] d[(p + 1) + k] == d[(p + 1) + k
            - off] by {
            assert(d[p + (k + 1)] == d[p + (k + 1) - off]);
        }
        lemma_run_at_least(d, p + 1, off, len - 1);
    }
}

/// A front only grows.
proof fn lemma_front_grows(
    d: Seq<u8>,
    i: int,
    cand: u32,
    left: int,
    win: int,
    cap: int,
    best: int,
    list: Seq<Match>,
    off: int,
    len: int,
)
    requires
        offers_as_good(list, off, len),
    ensures
        offers_as_good(
            matchfinder::chain_front(d, i, cand, left, win, cap, best, list),
            off,
            len,
        ),
    decreases
            if cand == 0xffff_ffff {
                0int
            } else {
                cand + 1
            },
{
    let next = zxseed::chain_of(d, cand as int);
    if !(cand == 0xffff_ffff || left <= 0 || cand >= i || i - cand > win) {
        let l = zxdp::capped_run(d, i, i - cand, cap);
        let (b, more) = if l > best {
            (l, list.push(Match { offset: (i - cand) as u32, length: l as u32 }))
        } else {
            (best, list)
        };
        let k = choose|k: int|
            0 <= k < list.len() && (#[trigger] list[k]).offset <= off && list[k].length >= len;
        assert(more[k] == list[k]);
        if !(next != 0xffff_ffff && next >= cand) {
            lemma_front_grows(d, i, next, left - 1, win, cap, b, more, off, len);
        }
    }
}

/// A chain that is long enough comes to a place with the same bytes.
proof fn lemma_front_comes(
    d: Seq<u8>,
    i: int,
    cand: u32,
    left: int,
    win: int,
    cap: int,
    best: int,
    list: Seq<Match>,
    off: int,
    len: int,
)
    requires
        0 < i < d.len() <= 0x7fff_ffff,
        1 <= off <= i,
        off <= win,
        2 <= len <= cap <= d.len(),
        lz::is_match(d, i, off, len),
        i - off <= cand < i,
        same_pair(d, i, cand as int),
        left > pairs_between(d, i, i - off, cand as int) + if cand > i - off {
            1int
        } else {
            0
        },
        best <= 1 || offers_as_good(list, off, best),
    ensures
        offers_as_good(
            matchfinder::chain_front(d, i, cand, left, win, cap, best, list),
            off,
            len,
        ),
    decreases cand,
{
    let q = i - off;
    lemma_pairs_least(d, i, q, cand as int);
    let l = zxdp::capped_run(d, i, i - cand, cap);
    matchfinder::lemma_run_short(d, i, i - cand);
    let one = Match { offset: (i - cand) as u32, length: l as u32 };
    let (b, more) = if l > best {
        (l, list.push(one))
    } else {
        (best, list)
    };
    assert(b <= 1 || offers_as_good(more, off, b)) by {
        if l > best {
            assert(more[list.len() as int] == one);
        }
    }
    let next = zxseed::chain_of(d, cand as int);
    if cand == q {
        lemma_run_at_least(d, i, off, len);
        assert(l >= len);
        let j = choose|j: int|
            0 <= j < more.len() && (#[trigger] more[j]).offset <= off && more[j].length >= b;
        assert(more[j].length >= len);
        assert(offers_as_good(more, off, len));
        if !(next != 0xffff_ffff && next >= cand) {
            lemma_front_grows(d, i, next, left - 1, win, cap, b, more, off, len);
        }
    } else {
        assert(d[i + 0] == d[i + 0 - off] && d[i + 1] == d[i + 1 - off]);
        assert(same_pair(d, i, q));
        lemma_pair_alike(d, i, cand as int, cand as int);
        lemma_pair_before(d, i, q, cand as int);
        lemma_front_comes(d, i, next, left - 1, win, cap, b, more, off, len);
    }
}

/// Of the matches from chains of `chain` places, up to `max_len` long: where fewer
/// places between have the same two bytes, a match that is as near and as long is
/// there.
pub proof fn lemma_chains_find(
    d: Seq<u8>,
    ms: &MatchSet,
    window: int,
    max_len: int,
    chain: int,
    p: int,
    off: int,
    len: int,
)
    requires
        ms.chained(d, 2, window, max_len, chain),
        d.len() <= 0x7fff_ffff,
        0 <= p < d.len(),
        1 <= off <= window,
        2 <= len <= max_len,
        lz::is_match(d, p, off, len),
        pairs_between(d, p, p - off, p) < chain,
    ensures
        offers_as_good(ms.list(p), off, len),
{
    let q = p - off;
    assert(d[p + 0] == d[p + 0 - off] && d[p + 1] == d[p + 1 - off]);
    assert(same_pair(d, p, q));
    lemma_pair_before(d, p, q, p);
    let cand = zxseed::chain_of(d, p);
    let cap = matchfinder::len_cap(d.len() as int, p, max_len);
    let win = matchfinder::window_of(window);
    lemma_pairs_least(d, p, q, p);
    lemma_front_comes(d, p, cand, chain, win, cap, 1, Seq::empty(), off, len);
}

/// Wherever the bytes of an input occur earlier within the window, the LZAN parse is
/// offered a match that is as near and as long: for inputs of up to 33000 bytes always,
/// of up to 65536 bytes where fewer than 8192 places between have the same two bytes,
/// and for longer inputs where fewer than 4096 have, for up to 1024 bytes.
pub proof fn lemma_repeats_are_offered(
    d: Seq<u8>,
    window: int,
    ms: &MatchSet,
    p: int,
    off: int,
    len: int,
)
    requires
        zxpack::zx_matches(d, window, ms),
        d.len() <= 0x7fff_ffff,
        0 <= p < d.len(),
        1 <= off <= window,
        2 <= len <= 0x2_0000,
        lz::is_match(d, p, off, len),
    ensures
        d.len() <= 33000 ==> offers_as_good(ms.list(p), off, len),
        d.len() <= 65536 && pairs_between(d, p, p - off, p) < 8192 ==> offers_as_good(
            ms.list(p),
            off,
            len,
        ),
        pairs_between(d, p, p - off, p) < 4096 ==> offers_as_good(
            ms.list(p),
            off,
            if len < 1024 {
                len
            } else {
                1024
            },
        ),
{
    let short = if len < 1024 {
        len
    } else {
        1024
    };
    zxdp::lemma_shorter_match(d, p, off, len, short);
    if d.len() <= 33000 {
        assert(matchfinder::front_of(d, p, ms.list(p), window, 2, 0x2_0000));
        assert(matchfinder::has_as_near(ms.list(p), off, len));
        assert(offers_as_good(ms.list(p), off, len));
        lemma_shorter_offer(ms.list(p), off, len, short);
    } else if d.len() <= 65536 {
        if pairs_between(d, p, p - off, p) < 8192 {
            lemma_chains_find(d, ms, window, 65536, 8192, p, off, len);
            lemma_shorter_offer(ms.list(p), off, len, short);
        }
    } else if pairs_between(d, p, p - off, p) < 4096 {
        lemma_chains_find(d, ms, window, 1024, 4096, p, off, short);
    }
}

proof fn lemma_shorter_offer(list: Seq<Match>, off: int, len: int, short: int)
    requires
        offers_as_good(list, off, len),
        short <= len,
    ensures
        offers_as_good(list, off, short),
{
    let k = choose|k: int|
        0 <= k < list.len() && (#[trigger] list[k]).offset <= off && list[k].length >= len;
    assert(list[k].length >= short);
}

/// The same of the matches that PuCrunch chooses from, which are up to 256 bytes long
/// and up to 65535 back: of data of up to 16384 bytes always, else where fewer than 8192
/// places between have the same two bytes.
pub proof fn lemma_pu_repeats_are_offered(d: Seq<u8>, ms: &MatchSet, p: int, off: int, len: int)
    requires
        pucrunch::matches_of(d, ms),
        d.len() <= 0x7fff_ffff,
        0 <= p < d.len(),
        1 <= off <= 65535,
        2 <= len <= 256,
        lz::is_match(d, p, off, len),
    ensures
        d.len() <= 16384 || pairs_between(d, p, p - off, p) < 8192 ==> offers_as_good(
            ms.list(p),
            off,
            len,
        ),
{
    if d.len() <= 16384 {
        assert(matchfinder::front_of(d, p, ms.list(p), 65535, 2, 256));
        assert(matchfinder::has_as_near(ms.list(p), off, len));
    } else if pairs_between(d, p, p - off, p) < 8192 {
        lemma_chains_find(d, ms, 65535, 256, 8192, p, off, len);
    }
}

// ---------------------------------------------------------------------------
// The dynamic program
// ---------------------------------------------------------------------------
/// What a row covers costs no less than its first place.
proof fn lemma_first_is_least(row: Seq<ZxArr>, width: int, c: ZxArr)
    requires
        1 <= width <= 64,
        row.len() == 64,
        zxrows::row_in_order(row, width),
        zxrows::covers(row, width, c),
        c.cost < ZX_INF,
    ensures
        row[0].cost <= c.cost,
{
    if zxrows::no_better(c.cost, c.score, row[width - 1]) {
        if width > 1 {
            assert(zxrows::no_better(row[width - 1].cost, row[width - 1].score, row[0]));
        }
    } else {
        let k = choose|k: int|
            0 <= k < width && #[trigger] zxrows::stands_for(
                row[k],
                c.num_lits,
                c.last_is_match,
                c.reps@,
                c.cost,
                c.score,
            );
        if k > 0 {
            assert(zxrows::no_better(row[k].cost, row[k].score, row[0]));
        }
    }
}

/// The arrival by the step from `slot` with the new offset `off`.
proof fn lemma_arrival(row: Seq<ZxArr>, i: int, slot: u8, slots: int, off: u32, l: int) -> (c: ZxArr)
    requires
        row.len() == 64,
        slot < 64,
        0 <= i <= u32::MAX,
        2 <= l,
        row[slot as int].cost + zx::off_len(off as int) + 1 + bitio::gamma_len((l - 1) as nat)
            < ZX_INF,
    ensures
        zxdp::match_after(
            zxdp::new_offset_step(row, i, slot as int, slots, false, off),
            l,
            c,
        ),
        c.cost == row[slot as int].cost + zx::off_len(off as int) + 1 + bitio::gamma_len(
            (l - 1) as nat,
        ),
{
    let a = row[slot as int];
    let reps: [u32; 4] = if slots == 1 {
        [off, 1, 1, 1]
    } else {
        [off, a.reps@[0], a.reps@[1], a.reps@[2]]
    };
    let st = zxdp::new_offset_step(row, i, slot as int, slots, false, off);
    assert(reps@ =~= st.reps);
    ZxArr {
        cost: (st.base + zxdp::span_bits_of(1, l)) as u64,
        reps,
        num_lits: 0,
        last_is_match: true,
        from_pos: i as u32,
        from_slot: slot,
        step_kind: 1,
        step_ri: -1i8,
        rep_pos: i as u32,
        score: st.score,
    }
}

/// The cheapest arrival behind a candidate costs no more than the cheapest before it
/// and the code of the match: a bit, the offset and the length.
pub proof fn lemma_candidates_are_taken(
    input: Seq<u8>,
    ms: &MatchSet,
    extra: Option<Seq<Vec<(u32, u32)>>>,
    se: Search,
    arr: Seq<ZxArr>,
    i: int,
    k: int,
)
    requires
        zxsearch::searched(input, ms, extra, se, arr, input.len() as int),
        ms.of(input),
        !se.am,
        1 <= se.width <= 64,
        input.len() <= 0x3fff_ffff,
        0 <= i < input.len(),
        0 <= k < ms.list(i).len(),
        ms.list(i)[k].offset <= zx::MAX_OFFSET,
    ensures
        ({
            let c = ms.list(i)[k];
            zxdp::row_of(arr, i + c.length)[0].cost <= zxdp::row_of(arr, i)[0].cost + 1
                + zx::off_len(c.offset as int) + bitio::gamma_len((c.length - 1) as nat)
        }),
{
    let row = zxdp::row_of(arr, i);
    let list = ms.list(i);
    let l = list[k].length as int;
    let off = list[k].offset;
    let marks = zxsearch::offset_marks(row, se.width, se.slots, se.am);
    assert(matchfinder::candidates_ok(input, i, list, ms.max_offset()));
    assert(lz::is_match(input, i, off as int, l));
    assert(row[0].cost <= 12 * i);
    vstd::arithmetic::power2::lemma2_to64();
    lemma_gamma_small((l - 1) as nat, 31);
    lemma_gamma_small(zx::off_msb(off as int) as nat, 31);
    let c = lemma_arrival(row, i, 0, se.slots, off, l);
    if k > 0 {
        assert(list[k - 1].length < list[k].length);
    }
    assert(zxdp::span_offers(
        zxdp::new_offset_step(row, i, 0, se.slots, se.am, off),
        zxdp::front_lo(list, k),
        l,
        se.span,
        l + 1,
    ).contains((i + l, c)));
    assert(zxdp::new_offset_offers(
        row,
        i,
        se.slots,
        se.am,
        marks,
        off,
        zxdp::front_lo(list, k),
        l,
        se.span,
        se.width,
    ).contains((i + l, c)));
    assert(zxsearch::step_offers(input, ms, extra, se, row, i).contains((i + l, c))) by {
        reveal(zxsearch::step_offers);
        assert(zxdp::front_offers(
            row,
            i,
            list,
            se.width,
            se.slots,
            se.am,
            marks,
            se.span,
            list.len() as int,
        ).contains((i + l, c)));
    }
    assert(zxsearch::all_taken(input, ms, extra, se, arr, i));
    assert(zxdp::row_of(arr, i + l).len() == 64);
    assert(zxrows::row_in_order(zxdp::row_of(arr, i + l), se.width));
    lemma_first_is_least(zxdp::row_of(arr, i + l), se.width, c);
}

/// A place behind literals is marked, or an earlier one with its recent offsets is.
proof fn lemma_marked_or_earlier(row: Seq<ZxArr>, k: nat, s: int) -> (j: int)
    requires
        0 <= s < k,
        row[s].cost < ZX_INF,
        row[s].num_lits > 0,
    ensures
        zxsearch::state_marks(row, false, k).len() == k,
        0 <= j <= s,
        zxsearch::state_marks(row, false, k)[j],
        row[j].reps@ == row[s].reps@,
    decreases k,
{
    let before = zxsearch::state_marks(row, false, (k - 1) as nat);
    lemma_marks_len(row, (k - 1) as nat);
    lemma_marks_len(row, k);
    if s < k - 1 {
        lemma_marked_or_earlier(row, (k - 1) as nat, s)
    } else if zxsearch::state_marks(row, false, k)[s] {
        s
    } else {
        choose|j: int| 0 <= j < k - 1 && #[trigger] before[j] && row[j].reps@ == row[s].reps@
    }
}

proof fn lemma_marks_len(row: Seq<ZxArr>, k: nat)
    ensures
        zxsearch::state_marks(row, false, k).len() == k,
    decreases k,
{
    if k > 0 {
        lemma_marks_len(row, (k - 1) as nat);
    }
}

proof fn lemma_recent_arrival(row: Seq<ZxArr>, i: int, slot: u8, slots: int, r: int, l: int) -> (c: ZxArr)
    requires
        row.len() == 64,
        slot < 64,
        0 <= i <= u32::MAX,
        1 <= l,
        0 <= r < slots <= 4,
        row[slot as int].cost + 4 + bitio::gamma_len(l as nat) < ZX_INF,
    ensures
        zxdp::match_after(zxdp::rep_step(row, i, slot as int, slots, false, r), l, c),
        c.cost <= row[slot as int].cost + (if slots == 1 {
            1int
        } else if r == 0 {
            2
        } else if r == 1 {
            3
        } else {
            4
        }) + bitio::gamma_len(l as nat),
{
    let a = row[slot as int].reps@;
    let reps: [u32; 4] = if r == 0 {
        [a[0], a[1], a[2], a[3]]
    } else if r == 1 {
        [a[1], a[0], a[2], a[3]]
    } else if r == 2 {
        [a[2], a[0], a[1], a[3]]
    } else {
        [a[3], a[0], a[1], a[2]]
    };
    let st = zxdp::rep_step(row, i, slot as int, slots, false, r);
    assert(reps@ =~= st.reps);
    ZxArr {
        cost: (st.base + zxdp::span_bits_of(2, l)) as u64,
        reps,
        num_lits: 0,
        last_is_match: true,
        from_pos: i as u32,
        from_slot: slot,
        step_kind: 2,
        step_ri: -1i8,
        rep_pos: i as u32,
        score: st.score,
    }
}

/// Behind literals, the cheapest arrival behind a repeat with one of the recent offsets of
/// a place costs no more than the place and the code of the match: at most four bits and
/// the length. That is said of up to 64 bytes, and of up to 4096 where the input has no
/// more than 65536 bytes and does not repeat itself all over.
pub proof fn lemma_recents_are_taken(
    input: Seq<u8>,
    ms: &MatchSet,
    extra: Option<Seq<Vec<(u32, u32)>>>,
    slots: int,
    arr: Seq<ZxArr>,
    i: int,
    s: int,
    r: int,
    l: int,
)
    requires
        zxsearch::searched(
            input,
            ms,
            extra,
            zxsearch::search_of(ms, input.len() as int, slots, false, false),
            arr,
            input.len() as int,
        ),
        input.len() <= 0x3fff_ffff,
        0 <= i < input.len(),
        0 <= s < 64,
        0 <= r < slots <= 4,
        zxdp::row_of(arr, i)[s].cost < ZX_INF,
        zxdp::row_of(arr, i)[s].num_lits > 0,
        1 <= l <= 64 || (1 <= l <= 4096 && input.len() <= 65536 && !zxseed::is_repetitive(
            ms,
            input.len() as int,
        )),
        lz::is_match(input, i, zxdp::row_of(arr, i)[s].reps@[r] as int, l),
    ensures
        zxdp::row_of(arr, i + l)[0].cost <= zxdp::row_of(arr, i)[s].cost + (if slots == 1 {
            1int
        } else if r == 0 {
            2
        } else if r == 1 {
            3
        } else {
            4
        }) + bitio::gamma_len(l as nat),
{
    let n = input.len() as int;
    let se = zxsearch::search_of(ms, n, slots, false, false);
    let row = zxdp::row_of(arr, i);
    let j = lemma_marked_or_earlier(row, 64, s);
    assert(zxrows::row_in_order(row, se.width));
    assert(row[j].cost <= row[s].cost);
    assert(zxdp::row_of(arr, i + l)[0].cost <= 12 * (i + l));
    if row[j].cost + 4 + bitio::gamma_len(l as nat) < ZX_INF {
        let off = row[s].reps@[r] as int;
        let c = lemma_recent_arrival(row, i, j as u8, slots, r, l);
        lemma_run_at_least(input, i, off, l);
        let cap = zxdp::probe_cap_of(n, i, se.probe);
        let lit = zxsearch::state_marks(row, false, 64);
        assert(zxdp::span_offers(
            zxdp::rep_step(row, i, j, slots, false, r),
            1,
            zxdp::capped_run(input, i, off, cap),
            0xffff_ffff,
            zxdp::capped_run(input, i, off, cap) + 1,
        ).contains((i + l, c)));
        assert(zxdp::rep_slot_offers(input, row, i, j, slots, false, cap, slots).contains(
            (i + l, c),
        ));
        assert(zxdp::rep_offers(input, row, i, slots, false, cap, lit, se.width).contains(
            (i + l, c),
        ));
        assert(zxsearch::step_offers(input, ms, extra, se, row, i).contains((i + l, c))) by {
            reveal(zxsearch::step_offers);
        }
        assert(zxsearch::all_taken(input, ms, extra, se, arr, i));
        assert(zxdp::row_of(arr, i + l).len() == 64);
        assert(zxrows::row_in_order(zxdp::row_of(arr, i + l), se.width));
        lemma_first_is_least(zxdp::row_of(arr, i + l), se.width, c);
    }
}

/// Numbers of `e` bits or less.
pub proof fn lemma_gamma_small(v: nat, e: nat)
    requires
        v < vstd::arithmetic::power2::pow2(e),
        e >= 1,
    ensures
        bitio::gamma_len(v) <= 2 * e - 1,
    decreases e,
{
    vstd::arithmetic::power2::lemma_pow2_unfold(e);
    vstd::arithmetic::power2::lemma2_to64();
    if v > 1 {
        lemma_gamma_small(v / 2, (e - 1) as nat);
    }
}

/// A parse of an input that ends in a repeat, in a mode without near offsets.
proof fn lemma_parse_of_repeat(
    input: Seq<u8>,
    cmds: Seq<ZxCommand>,
    ms: &MatchSet,
    slots: usize,
    fast: bool,
    tuning: &ZxTuning,
    p: int,
    off: int,
)
    requires
        zxpack::zx_matches(input, zxpack::full_window(input.len() as int), ms),
        parse::zx_parsed(input, cmds, ms, slots, false, false, fast, tuning),
        1 <= slots <= 4,
        ends_in_repeat(input, p, off),
    ensures
        parse::bits_of(cmds, zx::zx_mode(slots, false, false)) <= 12 * p + 58,
{
    let n = input.len() as int;
    let m = zx::zx_mode(slots, false, false);
    let (seeds, first, fin, res) = choose|
        seeds: Seq<Vec<(u32, u32)>>,
        first: (Seq<(u32, u32)>, Seq<i8>),
        fin: (Seq<(u32, u32)>, Seq<i8>),
        res: (Seq<(u32, u32)>, Seq<i8>),
    |
        {
            &&& #[trigger] parse::rounds_parse(input, ms, m, fast, tuning, seeds, first, fin, res)
            &&& cmds == zxbest::built(res.0, res.1, m, u32::MAX as int)
            &&& parse::no_larger(parse::bits_of(cmds, m), first.0, first.1, m)
            &&& zxbest::best_ok(input, first.0)
        };
    let extra = if parse::seeds_first(n, fast, tuning) {
        Some(seeds)
    } else {
        None
    };
    let se = zxsearch::search_of(ms, n, m.slots, m.near, m.am);
    assert(zxsearch::dp_parse(input, ms, extra, se, first.0, first.1));
    let arr = choose|arr: Seq<ZxArr>| #[trigger]
        zxsearch::searched(input, ms, extra, se, arr, n) && first == zxsearch::read_off(
            arr,
            n,
            0,
            Seq::new(input.len(), |p: int| (0u32, 0u32)),
            Seq::new(input.len(), |p: int| -1i8),
        );
    zxcost::lemma_parse_costs(input, ms, extra, se, arr, first.0, first.1);
    lemma_repeats_are_offered(input, zxpack::full_window(n), ms, p, off, n - p);
    let list = ms.list(p);
    let k = choose|k: int|
        0 <= k < list.len() && (#[trigger] list[k]).offset <= off && list[k].length >= n - p;
    assert(matchfinder::candidates_ok(input, p, list, ms.max_offset()));
    assert(lz::is_match(input, p, list[k].offset as int, list[k].length as int));
    lemma_candidates_are_taken(input, ms, extra, se, arr, p, k);
    vstd::arithmetic::power2::lemma2_to64();
    lemma_gamma_small((n - p - 1) as nat, 16);
    lemma_gamma_small(zx::off_msb(list[k].offset as int) as nat, 10);
    assert(zxdp::row_of(arr, p)[0].cost <= 12 * p);
}

/// From `p` on the bytes are those from `off` bytes before, up to the end of at most
/// 65536 bytes. In an input of more than 33000, fewer than 8192 places between have
/// the same two bytes.
pub open spec fn ends_in_repeat(input: Seq<u8>, p: int, off: int) -> bool {
    &&& input.len() <= 65536
    &&& 1 <= off <= p <= input.len() - 2
    &&& off <= 65535
    &&& forall|j: int| p <= j < input.len() ==> #[trigger] input[j] == input[j - off]
    &&& input.len() > 33000 ==> pairs_between(input, p, p - off, p) < 8192
}

/// Whatever an LZAN stream without near offsets repeats at its end costs a few bytes:
/// at most nine bytes come on top of one and a half for each byte before the repeat.
pub proof fn lemma_repeat_is_short(
    input: Seq<u8>,
    slots: usize,
    effort: u8,
    tuning: &ZxTuning,
    blob: Seq<u8>,
    p: int,
    off: int,
)
    requires
        zxpack::zx_packed_by(input, slots, false, false, effort, tuning, blob),
        1 <= slots <= 4,
        ends_in_repeat(input, p, off),
    ensures
        8 * blob.len() <= 12 * p + 73,
{
    let w = zxpack::full_window(input.len() as int);
    let m = zx::zx_mode(slots, false, false);
    assert(lz::is_match(input, p, off, input.len() - p));
    let cmds = choose|cmds: Seq<ZxCommand>| #[trigger]
        zx::zx_encoded(input, cmds, slots, false, false, blob) && zxpack::zx_effort(
            input,
            cmds,
            slots,
            false,
            false,
            effort,
            w,
            tuning,
        );
    let (ms, extra) = choose|ms: MatchSet, extra: Seq<Vec<(u32, u32)>>| #[trigger]
        zxpack::zx_effort_with(input, cmds, slots, false, false, effort, w, tuning, &ms, extra);
    if effort == 1 || effort == 2 || input.len() > zxpack::EXHAUSTIVE_MAX {
        lemma_parse_of_repeat(input, cmds, &ms, slots, effort == 1, tuning, p, off);
    } else {
        let balanced = choose|balanced: Seq<ZxCommand>|
            #[trigger] parse::zx_parsed(input, balanced, &ms, slots, false, false, false, tuning)
                && parse::bits_of(cmds, m) <= parse::bits_of(balanced, m);
        lemma_parse_of_repeat(input, balanced, &ms, slots, false, tuning, p, off);
    }
}

/// A block of 19 bytes or more, said twice, is coded in fewer bytes than it has.
pub proof fn lemma_twice_is_shorter(
    block: Seq<u8>,
    slots: usize,
    effort: u8,
    tuning: &ZxTuning,
    blob: Seq<u8>,
)
    requires
        zxpack::zx_packed_by(block + block, slots, false, false, effort, tuning, blob),
        1 <= slots <= 4,
        19 <= block.len() <= 32768,
        block.len() > 16500 ==> pairs_between(
            block + block,
            block.len() as int,
            0,
            block.len() as int,
        ) < 8192,
    ensures
        blob.len() < 2 * block.len(),
{
    let n = block.len() as int;
    assert(ends_in_repeat(block + block, n, n));
    lemma_repeat_is_short(block + block, slots, effort, tuning, blob, n, n);
}

} // verus!
