//! What a parse of the dynamic program costs in the stream: no more than the arrival
//! that it was read off from.
use crate::bitio;
use crate::matchfinder;
use crate::matchfinder::MatchSet;
use crate::zx;
use crate::zx::{St, ZxCommand, ZxMode};
use crate::zxbest;
use crate::zxdp;
use crate::zxdp::{ZxArr, ZX_INF};
use crate::zxsearch;
use crate::zxsearch::Search;
use vstd::prelude::*;

verus! {

// ---------------------------------------------------------------------------
// Recent offsets
// ---------------------------------------------------------------------------
/// Every one of the first `slots` recent offsets `d` is among `a`, no further back.
spec fn no_later(a: Seq<u32>, d: Seq<u32>, slots: int) -> bool {
    &&& a.len() == 4
    &&& d.len() == 4
    &&& slots > 0 ==> a[0] == d[0]
    &&& slots > 1 ==> a[0] == d[1] || a[1] == d[1]
    &&& slots > 2 ==> a[0] == d[2] || a[1] == d[2] || a[2] == d[2]
    &&& slots > 3 ==> a[0] == d[3] || a[1] == d[3] || a[2] == d[3] || a[3] == d[3]
}

/// The recent offsets of a stream behind a match.
spec fn coded_next(a: Seq<u32>, off: u32, slots: int, lits: bool) -> Seq<u32> {
    match zx::reps_find(a, off, slots) {
        Some(i) => if lits {
            zx::reps_mtf(a, i as int)
        } else {
            zx::reps_insert(a, off)
        },
        None => zx::reps_insert(a, off),
    }
}

proof fn lemma_new_offset(a: Seq<u32>, d: Seq<u32>, e: Seq<u32>, off: u32, slots: int, lits: bool)
    requires
        no_later(a, d, slots),
        1 <= slots <= 4,
        e.len() == 4,
        e[0] == off,
        slots > 1 ==> e[1] == d[0] && e[2] == d[1] && e[3] == d[2],
    ensures
        no_later(coded_next(a, off, slots, lits), e, slots),
{
}

proof fn lemma_old_offset(a: Seq<u32>, d: Seq<u32>, r: int, slots: int)
    requires
        no_later(a, d, slots),
        1 <= slots <= 4,
        0 <= r < slots,
    ensures
        zx::reps_find(a, d[r], slots) matches Some(i) && i <= r,
        no_later(coded_next(a, d[r], slots, true), d.remove(r).insert(0, d[r]), slots),
{
    let e = d.remove(r).insert(0, d[r]);
    assert(e.len() == 4);
    assert(e[0] == d[r]);
    assert(e[1] == if r >= 1 {
        d[0]
    } else {
        d[1]
    });
    assert(e[2] == if r >= 2 {
        d[1]
    } else {
        d[2]
    });
    assert(e[3] == if r >= 3 {
        d[2]
    } else {
        d[3]
    });
    assert(r == 0 || r == 1 || r == 2 || r == 3);
}

// ---------------------------------------------------------------------------
// Where arrivals come from
// ---------------------------------------------------------------------------
/// By the new offset `off`.
spec fn by_offset(row: Seq<ZxArr>, i: int, s: int, slots: int, off: u32, pos: int, c: ZxArr) -> bool {
    &&& zxdp::match_after(zxdp::new_offset_step(row, i, s, slots, false, off), pos - i, c)
    &&& pos - i >= 2
    &&& off <= zx::MAX_OFFSET
}

/// By the recent offset in place `r`.
spec fn by_recent(row: Seq<ZxArr>, i: int, s: int, slots: int, r: int, pos: int, c: ZxArr) -> bool {
    &&& zxdp::match_after(zxdp::rep_step(row, i, s, slots, false, r), pos - i, c)
    &&& pos - i >= 1
    &&& 0 <= r < slots
    &&& row[s].num_lits > 0
}

/// The arrival `c` at `pos` comes from place `s` of the row of `i`.
spec fn arrived(row: Seq<ZxArr>, i: int, s: int, slots: int, pos: int, c: ZxArr) -> bool {
    &&& 0 <= s < 64
    &&& i < pos
    &&& row[s].cost < ZX_INF
    &&& c.from_pos == i
    &&& c.from_slot == s
    &&& {
        ||| pos == i + 1 && zxdp::literal_after(row[s], i, s, c)
        ||| exists|off: u32| #[trigger] by_offset(row, i, s, slots, off, pos, c)
        ||| exists|r: int| #[trigger] by_recent(row, i, s, slots, r, pos, c)
    }
}

proof fn lemma_marked(row: Seq<ZxArr>, k: nat, s: int)
    requires
        0 <= s < k,
    ensures
        zxsearch::state_marks(row, false, k).len() == k,
        zxsearch::state_marks(row, false, k)[s] ==> row[s].num_lits > 0,
    decreases k,
{
    reveal_with_fuel(zxsearch::state_marks, 2);
    if s < k - 1 {
        lemma_marked(row, (k - 1) as nat, s);
    } else if k > 1 {
        lemma_marked(row, (k - 1) as nat, 0);
    }
}

proof fn lemma_by_new(
    row: Seq<ZxArr>,
    i: int,
    se: Search,
    marks: Seq<bool>,
    off: u32,
    lo: int,
    hi: int,
    p: (int, ZxArr),
)
    requires
        1 <= se.width <= 64,
        !se.am,
        off <= zx::MAX_OFFSET,
        lo >= 2,
        zxdp::new_offset_offers(row, i, se.slots, se.am, marks, off, lo, hi, se.span, se.width).contains(p),
    ensures
        arrived(row, i, p.1.from_slot as int, se.slots, p.0, p.1),
{
    let s = choose|s: int|
        0 <= s < se.width && row[s].cost < ZX_INF && marks[s] && #[trigger] zxdp::span_offers(
            zxdp::new_offset_step(row, i, s, se.slots, se.am, off),
            lo,
            hi,
            se.span,
            hi + 1,
        ).contains(p);
    assert(by_offset(row, i, s, se.slots, off, p.0, p.1));
}

/// What a row offers came by a literal, a new offset or a recent one.
proof fn lemma_offer_kind(
    input: Seq<u8>,
    ms: &MatchSet,
    extra: Option<Seq<Vec<(u32, u32)>>>,
    se: Search,
    row: Seq<ZxArr>,
    i: int,
    p: (int, ZxArr),
)
    requires
        ms.of(input),
        !se.near,
        !se.am,
        1 <= se.width <= 64,
        1 <= se.slots <= 4,
        0 <= i < input.len(),
        row.len() == 64,
        zxsearch::step_offers(input, ms, extra, se, row, i).contains(p),
    ensures
        arrived(row, i, p.1.from_slot as int, se.slots, p.0, p.1),
{
    reveal(zxsearch::step_offers);
    let marks = zxsearch::offset_marks(row, se.width, se.slots, se.am);
    let lit = zxsearch::state_marks(row, false, 64);
    let list = ms.list(i);
    let cap = zxdp::probe_cap_of(input.len() as int, i, se.probe);
    if zxdp::literal_offers(row, i, se.width).contains(p) {
        let s = choose|s: int|
            0 <= s < se.width && row[s].cost < ZX_INF && #[trigger] zxdp::literal_after(
                row[s],
                i,
                s,
                p.1,
            );
        assert(zxdp::literal_after(row[s], i, s, p.1));
    } else if zxdp::front_offers(
        row,
        i,
        list,
        se.width,
        se.slots,
        se.am,
        marks,
        se.span,
        list.len() as int,
    ).contains(p) {
        let c = choose|c: int|
            0 <= c < list.len() && zxdp::front_tried(list, c) && #[trigger] zxdp::new_offset_offers(
                row,
                i,
                se.slots,
                se.am,
                marks,
                list[c].offset,
                zxdp::front_lo(list, c),
                list[c].length as int,
                se.span,
                se.width,
            ).contains(p);
        assert(matchfinder::candidates_ok(input, i, list, ms.max_offset()));
        if c > 0 {
            assert(list[c - 1].length >= 2);
        }
        lemma_by_new(
            row,
            i,
            se,
            marks,
            list[c].offset,
            zxdp::front_lo(list, c),
            list[c].length as int,
            p,
        );
    } else if extra matches Some(t) && zxdp::extra_offers(
        row,
        i,
        t[i]@,
        se.width,
        se.slots,
        se.am,
        marks,
        se.span,
        t[i]@.len() as int,
    ).contains(p) {
        let more = extra->0[i]@;
        let c = choose|c: int|
            0 <= c < more.len() && more[c].0 <= zx::MAX_OFFSET && #[trigger] zxdp::new_offset_offers(
                row,
                i,
                se.slots,
                se.am,
                marks,
                more[c].0,
                2,
                more[c].1 as int,
                se.span,
                se.width,
            ).contains(p);
        lemma_by_new(row, i, se, marks, more[c].0, 2, more[c].1 as int, p);
    } else {
        assert(zxdp::rep_offers(input, row, i, se.slots, se.near, cap, lit, se.width).contains(p));
        let s = choose|s: int|
            0 <= s < se.width && row[s].cost < ZX_INF && lit[s] && #[trigger] zxdp::rep_slot_offers(
                input,
                row,
                i,
                s,
                se.slots,
                se.near,
                cap,
                se.slots,
            ).contains(p);
        let r = choose|r: int|
            0 <= r < se.slots && 1 <= row[s].reps@[r] <= i && #[trigger] zxdp::span_offers(
                zxdp::rep_step(row, i, s, se.slots, se.near, r),
                1,
                zxdp::capped_run(input, i, row[s].reps@[r] as int, cap),
                0xffff_ffff,
                zxdp::capped_run(input, i, row[s].reps@[r] as int, cap) + 1,
            ).contains(p);
        lemma_marked(row, 64, s);
        assert(by_recent(row, i, s, se.slots, r, p.0, p.1));
    }
}

/// A table that the dynamic program has filled, in a mode without near offsets.
spec fn filled(
    input: Seq<u8>,
    ms: &MatchSet,
    extra: Option<Seq<Vec<(u32, u32)>>>,
    se: Search,
    arr: Seq<ZxArr>,
) -> bool {
    &&& zxsearch::searched(input, ms, extra, se, arr, input.len() as int)
    &&& ms.of(input)
    &&& !se.near
    &&& !se.am
    &&& 1 <= se.width <= 64
    &&& 1 <= se.slots <= 4
    &&& input.len() <= 0x3fff_ffff
}

proof fn lemma_came(
    input: Seq<u8>,
    ms: &MatchSet,
    extra: Option<Seq<Vec<(u32, u32)>>>,
    se: Search,
    arr: Seq<ZxArr>,
    pos: int,
    slot: int,
)
    requires
        filled(input, ms, extra, se, arr),
        0 < pos <= input.len(),
        0 <= slot < 64,
        arr[pos * 64 + slot].cost < ZX_INF,
    ensures
        ({
            let a = arr[pos * 64 + slot];
            let i = a.from_pos as int;
            &&& 0 <= i < input.len()
            &&& arrived(zxdp::row_of(arr, i), i, a.from_slot as int, se.slots, pos, a)
            &&& zxdp::row_of(arr, i)[a.from_slot as int] == arr[i * 64 + a.from_slot]
        }),
{
    let a = arr[pos * 64 + slot];
    assert(zxdp::row_of(arr, pos)[slot] == a);
    assert(zxsearch::was_offered(
        input,
        ms,
        extra,
        se,
        arr,
        input.len() as int,
        pos,
        zxdp::row_of(arr, pos)[slot],
    ));
    let i = choose|i: int|
        0 <= i < input.len() && #[trigger] zxsearch::step_offers(
            input,
            ms,
            extra,
            se,
            zxdp::row_of(arr, i),
            i,
        ).contains((pos, a));
    assert(zxdp::row_of(arr, i).len() == 64);
    lemma_offer_kind(input, ms, extra, se, zxdp::row_of(arr, i), i, (pos, a));
}

// ---------------------------------------------------------------------------
// The table of a parse
// ---------------------------------------------------------------------------
/// The table `t` holds the steps that lead to place `slot` of `pos`.
spec fn leads(arr: Seq<ZxArr>, t: Seq<(u32, u32)>, pos: int, slot: int) -> bool
    decreases pos,
{
    let a = arr[pos * 64 + slot];
    pos <= 0 || {
        &&& a.from_pos < pos
        &&& a.step_kind == 0 ==> t[a.from_pos as int].0 == 0
        &&& a.step_kind != 0 ==> t[a.from_pos as int] == ((pos - a.from_pos) as u32, a.reps@[0])
        &&& leads(arr, t, a.from_pos as int, a.from_slot as int)
    }
}

proof fn lemma_read_off_leads(
    input: Seq<u8>,
    ms: &MatchSet,
    extra: Option<Seq<Vec<(u32, u32)>>>,
    se: Search,
    arr: Seq<ZxArr>,
    pos: int,
    slot: int,
    best: Seq<(u32, u32)>,
    ri: Seq<i8>,
)
    requires
        filled(input, ms, extra, se, arr),
        0 <= pos <= input.len(),
        0 <= slot < 64,
        arr[pos * 64 + slot].cost < ZX_INF,
        best.len() == input.len(),
        ri.len() == input.len(),
        forall|q: int| 0 <= q < pos ==> (#[trigger] best[q]).0 == 0,
    ensures
        zxsearch::read_off(arr, pos, slot, best, ri).1.len() == input.len(),
        ({
            let t = zxsearch::read_off(arr, pos, slot, best, ri).0;
            &&& t.len() == input.len()
            &&& leads(arr, t, pos, slot)
            &&& forall|q: int| pos <= q < input.len() ==> #[trigger] t[q] == best[q]
        }),
    decreases pos,
{
    if pos > 0 {
        lemma_came(input, ms, extra, se, arr, pos, slot);
        let a = arr[pos * 64 + slot];
        let i = a.from_pos as int;
        let next = if a.step_kind != 0 {
            best.update(i, ((pos - i) as u32, a.reps@[0]))
        } else {
            best
        };
        let next_ri = if a.step_kind == 3 {
            ri.update(i, a.step_ri)
        } else {
            ri
        };
        lemma_read_off_leads(input, ms, extra, se, arr, i, a.from_slot as int, next, next_ri);
        let t = zxsearch::read_off(arr, pos, slot, best, ri).0;
        assert(t[i] == next[i]);
        assert forall|q: int| pos <= q < input.len() implies #[trigger] t[q] == best[q] by {
            assert(t[q] == next[q]);
        }
    }
}

// ---------------------------------------------------------------------------
// Bits
// ---------------------------------------------------------------------------
spec fn mode_of(slots: int) -> ZxMode {
    ZxMode { slots, near: false, am: false, eof: false, style: zx::ZxStyle::Zx }
}

/// Commands that all have a match and can be written.
spec fn full_cmds(cmds: Seq<ZxCommand>, m: ZxMode) -> bool {
    &&& zx::zx_all_codable(cmds, m)
    &&& forall|k: int| 0 <= k < cmds.len() ==> (#[trigger] cmds[k]).match_off != 0
}

/// Reading the table up to the place of an arrival gives commands and pending
/// literals that cost no more.
spec fn read_to(
    t: Seq<(u32, u32)>,
    ri: Seq<i8>,
    m: ZxMode,
    pos: int,
    a: ZxArr,
    run: nat,
    cmds: Seq<ZxCommand>,
) -> bool {
    &&& zxbest::best_cmds(t, ri) == zxbest::best_cmds_from(t, ri, pos, run, cmds)
    &&& run == a.num_lits
    &&& run <= pos
    &&& full_cmds(cmds, m)
    &&& no_later(zx::zx_reps(cmds, m, cmds.len() as int), a.reps@, m.slots)
    &&& zx::zx_bits(cmds, m, cmds.len() as int) + zx::zx_lit_bits(run as u32, cmds.len() == 0)
        <= a.cost
    &&& run == 0 ==> a.last_is_match == (cmds.len() > 0)
    &&& pos > 0 ==> run > 0 || cmds.len() > 0
    &&& pos == 0 ==> run == 0 && cmds.len() == 0
}

pub proof fn lemma_gamma_one_more(n: nat)
    requires
        n >= 1,
    ensures
        bitio::gamma_len(n + 1) <= bitio::gamma_len(n) + 2,
        bitio::gamma_len(1) == 1,
        bitio::gamma_len(n) >= 1,
        bitio::gamma_len(n + 1) >= bitio::gamma_len(n),
    decreases n,
{
    reveal_with_fuel(bitio::floor_log2, 2);
    bitio::lemma_gamma_monotone(n, n + 1);
    if n > 1 {
        let h = n / 2;
        if n % 2 == 1 {
            assert((n + 1) / 2 == h + 1);
            lemma_gamma_one_more(h);
        } else {
            assert((n + 1) / 2 == h);
        }
    }
}

/// One more command.
pub proof fn lemma_cmd_bits(cmds: Seq<ZxCommand>, c: ZxCommand, m: ZxMode)
    ensures
        ({
            let n = cmds.len() as int;
            let reps = zx::zx_reps(cmds, m, n);
            let ph = zx::zx_sel(c, reps, m);
            &&& zx::zx_bits(cmds.push(c), m, n + 1) == zx::zx_bits(cmds, m, n) + zx::zx_lit_bits(
                c.lit_len,
                n == 0,
            ) + if c.match_off == 0 {
                0
            } else {
                zx::zx_sel_bits(ph, c.lit_len > 0, m) + zx::zx_body_bits(
                    ph,
                    reps,
                    c.match_off,
                    c.match_len,
                )
            }
            &&& zx::zx_reps(cmds.push(c), m, n + 1) == if c.match_off == 0 {
                reps
            } else {
                zx::reps_next(ph, reps, c.match_off)
            }
        }),
{
    let n = cmds.len() as int;
    zx::lemma_zx_prefix(cmds, cmds.push(c), m, n);
}

/// A match from place `i` with `run` literals before it.
proof fn lemma_match_read(
    t: Seq<(u32, u32)>,
    ri: Seq<i8>,
    m: ZxMode,
    i: int,
    b: ZxArr,
    run: nat,
    cmds: Seq<ZxCommand>,
    pos: int,
    a: ZxArr,
    input: Seq<u8>,
) -> (next: Seq<ZxCommand>)
    requires
        read_to(t, ri, m, i, b, run, cmds),
        1 <= m.slots <= 4,
        m == mode_of(m.slots),
        0 <= i < pos <= t.len() <= 0x3fff_ffff,
        ri.len() == t.len(),
        ri[i] == -1,
        zxbest::best_ok(input, t),
        t[i] == ((pos - i) as u32, a.reps@[0]),
        a.num_lits == 0,
        a.last_is_match,
        a.reps@.len() == 4,
        b.reps@.len() == 4,
        ({
            let off = a.reps@[0];
            let l = (pos - i) as nat;
            ||| {
                &&& l >= 2
                &&& off <= zx::MAX_OFFSET
                &&& a.cost == b.cost + zx::off_len(off as int) + 1 + bitio::gamma_len((l - 1) as nat)
                &&& m.slots > 1 ==> a.reps@ == seq![off, b.reps@[0], b.reps@[1], b.reps@[2]]
            }
            ||| {
                &&& run > 0
                &&& exists|r: int|
                    #![trigger b.reps@[r]]
                    0 <= r < m.slots && off == b.reps@[r] && a.reps@ == b.reps@.remove(r).insert(
                        0,
                        b.reps@[r],
                    ) && a.cost == b.cost + zxdp::rep_prefix(false, m.slots, r) + bitio::gamma_len(l)
            }
        }),
    ensures
        read_to(t, ri, m, pos, a, 0, next),
{
    let off = a.reps@[0];
    let l = (pos - i) as u32;
    let n = cmds.len() as int;
    let reps = zx::zx_reps(cmds, m, n);
    let c = ZxCommand {
        lit_len: run as u32,
        lit_start: (i - run) as usize,
        match_off: off,
        match_len: l,
        near_rep_ri: ri[i],
    };
    let ph = zx::zx_sel(c, reps, m);
    let next = cmds.push(c);
    assert(t[i].0 > 0);
    assert(crate::lz::is_match(input, i, off as int, l as int));
    lemma_cmd_bits(cmds, c, m);
    assert(zx::reps_next(ph, reps, off) == coded_next(reps, off, m.slots, run > 0)) by {
        if run > 0 {
            assert(ph == match zx::reps_find(reps, off, m.slots) {
                Some(j) => St::Rep(j),
                None => St::NewOffset,
            });
        }
    }
    lemma_gamma_one_more(l as nat);
    if l >= 2 {
        lemma_gamma_one_more((l - 1) as nat);
    }
    bitio::lemma_gamma_monotone(1, zx::off_msb(off as int) as nat);
    let fresh = l >= 2 && off <= zx::MAX_OFFSET && a.cost == b.cost + zx::off_len(off as int) + 1
        + bitio::gamma_len((l - 1) as nat) && (m.slots > 1 ==> a.reps@ == seq![
        off,
        b.reps@[0],
        b.reps@[1],
        b.reps@[2],
    ]);
    if fresh {
        lemma_new_offset(reps, b.reps@, a.reps@, off, m.slots, run > 0);
    } else {
        let r = choose|r: int|
            #![trigger b.reps@[r]]
            0 <= r < m.slots && off == b.reps@[r] && a.reps@ == b.reps@.remove(r).insert(
                0,
                b.reps@[r],
            ) && a.cost == b.cost + zxdp::rep_prefix(false, m.slots, r) + bitio::gamma_len(
                l as nat,
            );
        lemma_old_offset(reps, b.reps@, r, m.slots);
    }
    assert(zx::zx_codable(ph, reps, off, l, m));
    zxbest::lemma_codable_push(cmds, c, m);
    next
}

/// The parse of an arrival costs no more than the arrival says.
proof fn lemma_path(
    input: Seq<u8>,
    ms: &MatchSet,
    extra: Option<Seq<Vec<(u32, u32)>>>,
    se: Search,
    arr: Seq<ZxArr>,
    t: Seq<(u32, u32)>,
    ri: Seq<i8>,
    pos: int,
    slot: int,
) -> (r: (nat, Seq<ZxCommand>))
    requires
        filled(input, ms, extra, se, arr),
        0 <= pos <= input.len(),
        0 <= slot < 64,
        arr[pos * 64 + slot].cost < ZX_INF,
        t.len() == input.len(),
        ri.len() == t.len(),
        zxsearch::no_near_taken(ri),
        zxbest::best_ok(input, t),
        leads(arr, t, pos, slot),
    ensures
        read_to(t, ri, mode_of(se.slots), pos, arr[pos * 64 + slot], r.0, r.1),
    decreases pos,
{
    let a = arr[pos * 64 + slot];
    let m = mode_of(se.slots);
    if pos == 0 {
        assert(slot == 0);
        let none = Seq::<ZxCommand>::empty();
        assert(read_to(t, ri, m, 0, a, 0, none));
        (0, none)
    } else {
        lemma_came(input, ms, extra, se, arr, pos, slot);
        let i = a.from_pos as int;
        let s = a.from_slot as int;
        let b = arr[i * 64 + s];
        let (run, cmds) = lemma_path(input, ms, extra, se, arr, t, ri, i, s);
        let row = zxdp::row_of(arr, i);
        assert(row[s] == b);
        if pos == i + 1 && zxdp::literal_after(b, i, s, a) {
            assert(t[i].0 == 0);
            assert(zxbest::best_cmds_from(t, ri, i, run, cmds) == zxbest::best_cmds_from(
                t,
                ri,
                i + 1,
                run + 1,
                cmds,
            ));
            lemma_gamma_one_more(if run > 0 {
                run
            } else {
                1
            });
            assert(read_to(t, ri, m, pos, a, run + 1, cmds));
            (run + 1, cmds)
        } else if exists|off: u32| #[trigger] by_offset(row, i, s, se.slots, off, pos, a) {
            let off = choose|off: u32| #[trigger] by_offset(row, i, s, se.slots, off, pos, a);
            let st = zxdp::new_offset_step(row, i, s, se.slots, false, off);
            assert(a.reps@ == st.reps);
            let next = lemma_match_read(t, ri, m, i, b, run, cmds, pos, a, input);
            (0, next)
        } else {
            let r = choose|r: int| #[trigger] by_recent(row, i, s, se.slots, r, pos, a);
            let st = zxdp::rep_step(row, i, s, se.slots, false, r);
            assert(a.reps@ == st.reps);
            assert(a.reps@[0] == b.reps@[r]);
            let next = lemma_match_read(t, ri, m, i, b, run, cmds, pos, a, input);
            (0, next)
        }
    }
}

/// A parse that is read off can be written, in no more bits than the cheapest arrival
/// at the end costs.
pub proof fn lemma_parse_costs(
    input: Seq<u8>,
    ms: &MatchSet,
    extra: Option<Seq<Vec<(u32, u32)>>>,
    se: Search,
    arr: Seq<ZxArr>,
    t: Seq<(u32, u32)>,
    ri: Seq<i8>,
)
    requires
        zxsearch::searched(input, ms, extra, se, arr, input.len() as int),
        ms.of(input),
        !se.near,
        !se.am,
        1 <= se.width <= 64,
        1 <= se.slots <= 4,
        0 < input.len() <= 0x3fff_ffff,
        zxbest::best_ok(input, t),
        zxsearch::no_near_taken(ri),
        (t, ri) == zxsearch::read_off(
            arr,
            input.len() as int,
            0,
            Seq::new(input.len(), |p: int| (0u32, 0u32)),
            Seq::new(input.len(), |p: int| -1i8),
        ),
    ensures
        ({
            let m = ZxMode {
                slots: se.slots,
                near: false,
                am: false,
                eof: false,
                style: zx::ZxStyle::Zx,
            };
            let cmds = zxbest::best_cmds(t, ri);
            &&& zxbest::best_codable(t, ri, m)
            &&& zx::zx_bits(cmds, m, cmds.len() as int) <= zxdp::row_of(
                arr,
                input.len() as int,
            )[0].cost
        }),
{
    let n = input.len() as int;
    let m = mode_of(se.slots);
    let zeros = Seq::new(input.len(), |p: int| (0u32, 0u32));
    let none = Seq::new(input.len(), |p: int| -1i8);
    assert(zxdp::row_of(arr, n)[0] == arr[n * 64]);
    assert(arr[n * 64].cost <= 12 * n);
    lemma_read_off_leads(input, ms, extra, se, arr, n, 0, zeros, none);
    let (run, cmds) = lemma_path(input, ms, extra, se, arr, t, ri, n, 0);
    if run > 0 {
        let c = ZxCommand {
            lit_len: run as u32,
            lit_start: (n - run) as usize,
            match_off: 0,
            match_len: 0,
            near_rep_ri: -1i8,
        };
        lemma_cmd_bits(cmds, c, m);
        zxbest::lemma_codable_push(cmds, c, m);
    }
}

} // verus!
