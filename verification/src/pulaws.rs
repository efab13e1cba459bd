//! PuCrunch writes one container for an input: every choice of its search is
//! determined.
use crate::lz;
use crate::matchfinder;
use crate::matchfinder::{Match, MatchSet};
use crate::pucrunch;
use crate::pucrunch::Choice;
use crate::puparse;
use crate::puparse::{Scene, Solution};
use crate::pustream::PuError;
use crate::putoken;
use crate::putoken::{Plan, Tok};
use crate::zxdp;
use vstd::arithmetic::power2::pow2;
use vstd::prelude::*;

verus! {

// ---------------------------------------------------------------------------
// What the search works on
// ---------------------------------------------------------------------------
proof fn lemma_same_runs(data: Seq<u8>, a: Seq<u32>, b: Seq<u32>)
    requires
        puparse::runs_ok(data, a),
        puparse::runs_ok(data, b),
    ensures
        a == b,
{
    assert forall|i: int| 0 <= i < data.len() implies a[i] == b[i] by {
        if a[i] < b[i] {
            assert(data[i + a[i]] == data[i]);
        } else if b[i] < a[i] {
            assert(data[i + b[i]] == data[i]);
        }
    }
    assert(a =~= b);
}

/// Two scenes of the same data, ranks and widths, with match sets of the same
/// kind.
pub open spec fn same_scene(a: &Scene, b: &Scene) -> bool {
    &&& a.wf()
    &&& b.wf()
    &&& a.data@ == b.data@
    &&& a.rank_of@ == b.rank_of@
    &&& a.esc_bits == b.esc_bits
    &&& a.extra == b.extra
    &&& pucrunch::matches_of(a.data@, a.ms)
    &&& pucrunch::matches_of(b.data@, b.ms)
}

proof fn lemma_first_long(list: Seq<Match>, len: int, k: int) -> (c: int)
    requires
        0 <= k < list.len(),
        list[k].length >= len,
    ensures
        0 <= c <= k,
        list[c].length >= len,
        forall|j: int| 0 <= j < c ==> (#[trigger] list[j]).length < len,
    decreases k,
{
    if forall|j: int| 0 <= j < k ==> (#[trigger] list[j]).length < len {
        k
    } else {
        let j = choose|j: int| 0 <= j < k && (#[trigger] list[j]).length >= len;
        lemma_first_long(list, len, j)
    }
}

/// In a list without gaps the first match that is long enough is the nearest.
proof fn lemma_nearest_is_on_offer(sc: &Scene, i: int, len: int, dist: int) -> (near: int)
    requires
        sc.wf(),
        sc.ms.complete(sc.data@, 2, 65535, 256),
        0 <= i < sc.data@.len() <= 16384,
        2 <= len <= 256,
        lz::is_match(sc.data@, i, dist, len),
    ensures
        near <= dist,
        puparse::nearest_of(sc.ms.list(i), len, near),
{
    let list = sc.ms.list(i);
    assert(matchfinder::front_of(sc.data@, i, list, 65535, 2, 256));
    assert(matchfinder::has_as_near(list, dist, len));
    let k = choose|k: int|
        0 <= k < list.len() && (#[trigger] list[k]).offset <= dist && list[k].length >= len;
    let c = lemma_first_long(list, len, k);
    if c < k {
        assert(list[c].offset < list[k].offset);
    }
    assert(list[c].offset <= dist);
    list[c].offset as int
}

/// The first match that is long enough is a match.
proof fn lemma_nearest_matches(sc: &Scene, i: int, len: int, dist: int)
    requires
        sc.wf(),
        0 <= i < sc.data@.len(),
        2 <= len,
        puparse::nearest_of(sc.ms.list(i), len, dist),
    ensures
        lz::is_match(sc.data@, i, dist, len),
{
    let list = sc.ms.list(i);
    let c = choose|c: int|
        #![trigger list[c]]
        0 <= c < list.len() && list[c].offset == dist && list[c].length >= len && forall|j: int|
            0 <= j < c ==> (#[trigger] list[j]).length < len;
    assert(matchfinder::candidates_ok(sc.data@, i, list, sc.ms.max_offset()));
    zxdp::lemma_shorter_match(sc.data@, i, dist, list[c].length as int, len);
}

proof fn lemma_one_nearest(list: Seq<Match>, len: int, a: int, b: int)
    requires
        puparse::nearest_of(list, len, a),
        puparse::nearest_of(list, len, b),
    ensures
        a == b,
{
    let c = choose|c: int|
        #![trigger list[c]]
        0 <= c < list.len() && list[c].offset == a && list[c].length >= len && forall|j: int|
            0 <= j < c ==> (#[trigger] list[j]).length < len;
    let d = choose|d: int|
        #![trigger list[d]]
        0 <= d < list.len() && list[d].offset == b && list[d].length >= len && forall|j: int|
            0 <= j < d ==> (#[trigger] list[j]).length < len;
    if c < d {
        assert(list[c].length < len);
    } else if d < c {
        assert(list[d].length < len);
    }
}

/// The scenes offer the same tokens.
proof fn lemma_same_offers(a: &Scene, b: &Scene, i: int, t: Tok)
    requires
        same_scene(a, b),
        0 <= i < a.data@.len(),
        a.offers(i, t),
    ensures
        b.offers(i, t),
{
    lemma_same_runs(a.data@, a.rle@, b.rle@);
    if let Tok::Lz { len, dist } = t {
        let (l, d) = (len as int, dist as int);
        lemma_nearest_matches(a, i, l, d);
        if a.data@.len() <= 16384 {
            let near = lemma_nearest_is_on_offer(b, i, l, d);
            lemma_nearest_matches(b, i, l, near);
            let back = lemma_nearest_is_on_offer(a, i, l, near);
            lemma_one_nearest(a.ms.list(i), l, d, back);
            assert(near == d);
        } else {
            assert(a.ms.list(i) == b.ms.list(i));
        }
    }
}

// ---------------------------------------------------------------------------
// Plans
// ---------------------------------------------------------------------------
proof fn lemma_flat_choice(a: &Scene, b: &Scene, cost: Seq<u64>, i: int, t: Tok)
    requires
        same_scene(a, b),
        0 <= i < a.data@.len(),
        puparse::flat_choice(a, cost, i, t),
    ensures
        puparse::flat_choice(b, cost, i, t),
{
    lemma_same_offers(a, b, i, t);
    assert(puparse::flat_via(a, cost, i, t) == puparse::flat_via(b, cost, i, t));
    assert forall|u: Tok| #[trigger]
        b.offers(i, u) && putoken::tok_ok(b.data@, i, u, b.extra as nat) implies cost[i]
        < puparse::flat_via(b, cost, i, u) || cost[i] == puparse::flat_via(b, cost, i, u)
        && puparse::pref(u) <= puparse::pref(t) by {
        lemma_same_offers(b, a, i, u);
        assert(puparse::flat_via(a, cost, i, u) == puparse::flat_via(b, cost, i, u));
    }
}

proof fn lemma_flat_found(a: &Scene, b: &Scene, toks: Seq<Tok>)
    requires
        same_scene(a, b),
        puparse::flat_found(a, toks),
    ensures
        puparse::flat_found(b, toks),
{
    let cost = choose|cost: Seq<u64>| #[trigger]
        puparse::flat_costs(a, cost) && forall|k: int|
            0 <= k < toks.len() ==> puparse::flat_choice(
                a,
                cost,
                putoken::tok_pos(toks, k),
                #[trigger] toks[k],
            );
    assert forall|i: int| 0 <= i < b.data@.len() implies #[trigger] puparse::has_flat_choice(
        b,
        cost,
        i,
    ) by {
        assert(puparse::has_flat_choice(a, cost, i));
        let t = choose|t: Tok| #[trigger] puparse::flat_choice(a, cost, i, t);
        lemma_flat_choice(a, b, cost, i, t);
    }
    assert(puparse::flat_costs(b, cost));
    assert forall|k: int| 0 <= k < toks.len() implies puparse::flat_choice(
        b,
        cost,
        putoken::tok_pos(toks, k),
        #[trigger] toks[k],
    ) by {
        lemma_in_data(a.data@, toks, a.extra as nat, k);
        lemma_flat_choice(a, b, cost, putoken::tok_pos(toks, k), toks[k]);
    }
}

proof fn lemma_in_data(data: Seq<u8>, toks: Seq<Tok>, x: nat, k: int)
    requires
        putoken::toks_ok(data, toks, x),
        0 <= k < toks.len(),
    ensures
        0 <= putoken::tok_pos(toks, k) < data.len(),
    decreases k,
{
    assert(putoken::tok_fits(data, toks, x, k));
}

proof fn lemma_joint_choice(a: &Scene, b: &Scene, tab: Seq<Seq<int>>, i: int, s: int, t: Tok)
    requires
        same_scene(a, b),
        0 <= i < a.data@.len(),
        puparse::joint_choice(a, tab, i, s, t),
    ensures
        puparse::joint_choice(b, tab, i, s, t),
{
    lemma_same_offers(a, b, i, t);
    assert(puparse::joint_via(a, tab, i, s, t) == puparse::joint_via(b, tab, i, s, t));
    assert forall|u: Tok| #[trigger]
        b.offers(i, u) && putoken::tok_ok(b.data@, i, u, b.extra as nat) implies tab[i][s]
        < puparse::joint_via(b, tab, i, s, u) || tab[i][s] == puparse::joint_via(b, tab, i, s, u)
        && puparse::pref(u) <= puparse::pref(t) by {
        lemma_same_offers(b, a, i, u);
        assert(puparse::joint_via(a, tab, i, s, u) == puparse::joint_via(b, tab, i, s, u));
    }
}

proof fn lemma_joint_found(a: &Scene, b: &Scene, plan: Plan)
    requires
        same_scene(a, b),
        plan.extra == a.extra,
        puparse::joint_found(a, plan),
    ensures
        puparse::joint_found(b, plan),
{
    let states = pow2(a.esc_bits as nat) as int;
    let toks = plan.tokens@;
    let tab = choose|tab: Seq<Seq<int>>| #[trigger]
        puparse::joint_costs(a, tab) && plan.start_esc == puparse::first_min(tab[0], states)
            && forall|k: int|
            0 <= k < toks.len() ==> #[trigger] puparse::joint_step(
                a,
                tab,
                toks,
                plan.newesc@,
                plan.start_esc as nat,
                k,
            );
    assert forall|i: int, s: int|
        0 <= i < b.data@.len() && 0 <= s < states implies #[trigger] puparse::has_joint_choice(
        b,
        tab,
        i,
        s,
    ) by {
        assert(puparse::has_joint_choice(a, tab, i, s));
        let t = choose|t: Tok| #[trigger] puparse::joint_choice(a, tab, i, s, t);
        lemma_joint_choice(a, b, tab, i, s, t);
    }
    assert(puparse::joint_costs(b, tab));
    assert forall|k: int| 0 <= k < toks.len() implies #[trigger] puparse::joint_step(
        b,
        tab,
        toks,
        plan.newesc@,
        plan.start_esc as nat,
        k,
    ) by {
        assert(puparse::joint_step(a, tab, toks, plan.newesc@, plan.start_esc as nat, k));
        lemma_in_data(a.data@, toks, a.extra as nat, k);
        let esc = putoken::esc_at(
            a.data@,
            toks,
            plan.newesc@,
            plan.start_esc as nat,
            a.esc_bits as nat,
            k,
        );
        lemma_joint_choice(a, b, tab, putoken::tok_pos(toks, k), esc as int, toks[k]);
    }
}

/// The same plan, and as many bits.
pub open spec fn same_solution(a: Solution, b: Solution) -> bool {
    &&& a.plan.tokens@ == b.plan.tokens@
    &&& a.plan.newesc@ == b.plan.newesc@
    &&& a.plan.start_esc == b.plan.start_esc
    &&& a.plan.esc_bits == b.plan.esc_bits
    &&& a.plan.extra == b.plan.extra
    &&& a.total == b.total
}

/// Both scenes have one solution.
proof fn lemma_one_solution(a: &Scene, b: &Scene, joint: bool, s: Solution, r: Solution)
    requires
        same_scene(a, b),
        puparse::solved(a, joint, s),
        puparse::solved(b, joint, r),
    ensures
        same_solution(s, r),
{
    reveal(puparse::solved);
    if joint {
        lemma_joint_found(a, b, s.plan);
    } else {
        lemma_flat_found(a, b, s.plan.tokens@);
    }
    puparse::lemma_one_plan(b, joint, s.plan, r.plan);
}

// ---------------------------------------------------------------------------
// One round
// ---------------------------------------------------------------------------
/// The data with its matches and runs.
pub struct Source<'a> {
    pub d: &'a [u8],
    pub ms: &'a MatchSet,
    pub rle: &'a Vec<u32>,
}

/// Two sources of the same data.
pub open spec fn same_source(a: Source, b: Source) -> bool {
    &&& a.d@ == b.d@
    &&& a.d@.len() <= puparse::MAX_INPUT
    &&& pucrunch::matches_of(a.d@, a.ms)
    &&& pucrunch::matches_of(b.d@, b.ms)
    &&& puparse::runs_ok(a.d@, a.rle@)
    &&& puparse::runs_ok(b.d@, b.rle@)
}

proof fn lemma_source_solution(
    a: Source,
    b: Source,
    ra: &Vec<u8>,
    rb: &Vec<u8>,
    e: u32,
    x: u32,
    joint: bool,
    s: Solution,
    r: Solution,
)
    requires
        same_source(a, b),
        ra@ == rb@,
        puparse::ranks_small(ra@),
        e <= 8,
        x <= 4,
        puparse::solved(&pucrunch::scene(a.d, a.ms, a.rle, ra, e, x), joint, s),
        puparse::solved(&pucrunch::scene(b.d, b.ms, b.rle, rb, e, x), joint, r),
    ensures
        same_solution(s, r),
{
    let p = pucrunch::scene(a.d, a.ms, a.rle, ra, e, x);
    let q = pucrunch::scene(b.d, b.ms, b.rle, rb, e, x);
    assert(same_scene(&p, &q));
    lemma_one_solution(&p, &q, joint, s, r);
}

/// What is the best for widths tried later cannot beat what was tried before it.
proof fn lemma_not_earlier(a: Source, b: Source, ra: &Vec<u8>, rb: &Vec<u8>, s: Solution, r: Solution)
    requires
        same_source(a, b),
        ra@ == rb@,
        puparse::ranks_small(ra@),
        pucrunch::first_separate(a.d, a.ms, a.rle, ra, s),
        pucrunch::first_separate(b.d, b.ms, b.rle, rb, r),
    ensures
        !pucrunch::tried(
            s.plan.esc_bits,
            s.plan.extra,
            r.plan.esc_bits as int,
            r.plan.extra as int,
        ),
{
    let (e, x) = (s.plan.esc_bits, s.plan.extra);
    let (f, y) = (r.plan.esc_bits, r.plan.extra);
    if pucrunch::tried(e, x, f as int, y as int) {
        assert(pucrunch::above(b.d, b.ms, b.rle, rb, e, x, r.total as int));
        let u = choose|u: Solution| #[trigger]
            puparse::solved(&pucrunch::scene(b.d, b.ms, b.rle, rb, e, x), false, u) && r.total
                < u.total;
        lemma_source_solution(a, b, ra, rb, e, x, false, s, u);
        assert(pucrunch::not_below(a.d, a.ms, a.rle, ra, f, y, false, s.total as int));
        let v = choose|v: Solution| #[trigger]
            puparse::solved(&pucrunch::scene(a.d, a.ms, a.rle, ra, f, y), false, v) && s.total
                <= v.total;
        lemma_source_solution(a, b, ra, rb, f, y, false, v, r);
    }
}

proof fn lemma_one_first(a: Source, b: Source, ra: &Vec<u8>, rb: &Vec<u8>, s: Solution, r: Solution)
    requires
        same_source(a, b),
        ra@ == rb@,
        puparse::ranks_small(ra@),
        pucrunch::first_separate(a.d, a.ms, a.rle, ra, s),
        pucrunch::first_separate(b.d, b.ms, b.rle, rb, r),
    ensures
        same_solution(s, r),
{
    lemma_not_earlier(a, b, ra, rb, s, r);
    assert(same_source(b, a));
    lemma_not_earlier(b, a, rb, ra, r, s);
    assert(s.plan.esc_bits == r.plan.esc_bits && s.plan.extra == r.plan.extra);
    lemma_source_solution(a, b, ra, rb, s.plan.esc_bits, s.plan.extra, false, s, r);
}

proof fn lemma_one_joined(
    a: Source,
    b: Source,
    ra: &Vec<u8>,
    rb: &Vec<u8>,
    e: int,
    x: int,
    s: Solution,
    s2: Solution,
    r: Solution,
    r2: Solution,
)
    requires
        same_source(a, b),
        ra@ == rb@,
        puparse::ranks_small(ra@),
        same_solution(s, r),
        pucrunch::joined(a.d, a.ms, a.rle, ra, e, x, s, s2),
        pucrunch::joined(b.d, b.ms, b.rle, rb, e, x, r, r2),
    ensures
        same_solution(s2, r2),
{
    if 0 <= e <= 8 && 0 <= x <= 4 && pucrunch::affords_joint(a.d@.len() as int, e as u32) {
        let u = choose|u: Solution| #[trigger]
            puparse::solved(
                &pucrunch::scene(a.d, a.ms, a.rle, ra, e as u32, x as u32),
                true,
                u,
            ) && s2 == if u.total < s.total {
                u
            } else {
                s
            };
        let v = choose|v: Solution| #[trigger]
            puparse::solved(
                &pucrunch::scene(b.d, b.ms, b.rle, rb, e as u32, x as u32),
                true,
                v,
            ) && r2 == if v.total < r.total {
                v
            } else {
                r
            };
        lemma_source_solution(a, b, ra, rb, e as u32, x as u32, true, u, v);
    }
}

proof fn lemma_all_joined(
    a: Source,
    b: Source,
    ra: &Vec<u8>,
    rb: &Vec<u8>,
    be: int,
    bx: int,
    k: nat,
    s: Solution,
    s2: Solution,
    r: Solution,
    r2: Solution,
)
    requires
        same_source(a, b),
        ra@ == rb@,
        puparse::ranks_small(ra@),
        same_solution(s, r),
        pucrunch::all_joined(a.d, a.ms, a.rle, ra, be, bx, k, s, s2),
        pucrunch::all_joined(b.d, b.ms, b.rle, rb, be, bx, k, r, r2),
    ensures
        same_solution(s2, r2),
    decreases k,
{
    if k > 0 {
        let (e, x) = pucrunch::joint_widths(be, bx, k - 1);
        let j = (k - 1) as nat;
        let m = choose|m: Solution| #[trigger]
            pucrunch::joined(a.d, a.ms, a.rle, ra, e, x, m, s2) && pucrunch::all_joined(
                a.d,
                a.ms,
                a.rle,
                ra,
                be,
                bx,
                j,
                s,
                m,
            );
        let n = choose|n: Solution| #[trigger]
            pucrunch::joined(b.d, b.ms, b.rle, rb, e, x, n, r2) && pucrunch::all_joined(
                b.d,
                b.ms,
                b.rle,
                rb,
                be,
                bx,
                j,
                r,
                n,
            );
        lemma_all_joined(a, b, ra, rb, be, bx, j, s, m, r, n);
        lemma_one_joined(a, b, ra, rb, e, x, m, s2, n, r2);
    }
}

proof fn lemma_one_round(a: Source, b: Source, ra: &Vec<u8>, rb: &Vec<u8>, s: Solution, r: Solution)
    requires
        same_source(a, b),
        ra@ == rb@,
        puparse::ranks_small(ra@),
        pucrunch::round_found(a.d, a.ms, a.rle, ra, s),
        pucrunch::round_found(b.d, b.ms, b.rle, rb, r),
    ensures
        same_solution(s, r),
{
    let u = choose|u: Solution| #[trigger]
        pucrunch::first_separate(a.d, a.ms, a.rle, ra, u) && pucrunch::all_joined(
            a.d,
            a.ms,
            a.rle,
            ra,
            u.plan.esc_bits as int,
            u.plan.extra as int,
            5,
            u,
            s,
        );
    let v = choose|v: Solution| #[trigger]
        pucrunch::first_separate(b.d, b.ms, b.rle, rb, v) && pucrunch::all_joined(
            b.d,
            b.ms,
            b.rle,
            rb,
            v.plan.esc_bits as int,
            v.plan.extra as int,
            5,
            v,
            r,
        );
    lemma_one_first(a, b, ra, rb, u, v);
    lemma_all_joined(
        a,
        b,
        ra,
        rb,
        u.plan.esc_bits as int,
        u.plan.extra as int,
        5,
        u,
        s,
        v,
        r,
    );
}

// ---------------------------------------------------------------------------
// Tables
// ---------------------------------------------------------------------------
/// Counts rank bytes in one way.
proof fn lemma_one_ranking(counts: Seq<u32>, a: Seq<u8>, b: Seq<u8>, k: int)
    requires
        pucrunch::ranked(counts, a),
        pucrunch::ranked(counts, b),
        0 <= k <= a.len(),
        k <= b.len(),
        forall|i: int| 0 <= i < k ==> a[i] == b[i],
    ensures
        a == b,
    decreases a.len() - k,
{
    if k < a.len() && k < b.len() {
        if a[k] != b[k] {
            lemma_not_before(counts, a, b, k);
            lemma_not_before(counts, b, a, k);
        }
        lemma_one_ranking(counts, a, b, k + 1);
    } else if k < b.len() {
        lemma_no_more(counts, a, b);
    } else if k < a.len() {
        lemma_no_more(counts, b, a);
    } else {
        assert(a =~= b);
    }
}

/// What comes before the first entry that differs is in the other table too.
proof fn lemma_not_before(counts: Seq<u32>, a: Seq<u8>, b: Seq<u8>, k: int)
    requires
        pucrunch::ranked(counts, a),
        pucrunch::ranked(counts, b),
        0 <= k < a.len(),
        k < b.len(),
        forall|i: int| 0 <= i < k ==> a[i] == b[i],
        a[k] != b[k],
    ensures
        !pucrunch::ranks_before(counts, a[k] as int, b[k] as int),
{
    let y = a[k];
    assert(counts[a[k] as int] > 0);
    if b.contains(y) {
        let j = choose|j: int| 0 <= j < b.len() && b[j] == y;
        if j < k {
            assert(a[j] == b[j]);
            assert(pucrunch::ranks_before(counts, a[j] as int, a[k] as int));
        } else if j > k {
            assert(pucrunch::ranks_before(counts, b[k] as int, b[j] as int));
        }
    } else {
        assert(y as int as u8 == y);
        assert(pucrunch::ranks_before(counts, b[k] as int, y as int));
    }
}

/// A ranking that begins with another is no longer.
proof fn lemma_no_more(counts: Seq<u32>, a: Seq<u8>, b: Seq<u8>)
    requires
        pucrunch::ranked(counts, a),
        pucrunch::ranked(counts, b),
        a.len() <= b.len(),
        forall|i: int| 0 <= i < a.len() ==> a[i] == b[i],
    ensures
        a.len() == b.len(),
{
    if a.len() < b.len() {
        let n = a.len() as int;
        let y = b[n];
        assert(counts[b[n] as int] > 0);
        assert(a.contains((y as int) as u8));
        let j = choose|j: int| 0 <= j < a.len() && a[j] == y;
        assert(pucrunch::ranks_before(counts, b[j] as int, b[n] as int));
    }
}

/// A table gives every byte its rank.
proof fn lemma_one_ranks(table: Seq<u8>, a: Seq<u8>, b: Seq<u8>)
    requires
        pucrunch::full_ranks(table, a),
        pucrunch::full_ranks(table, b),
    ensures
        a == b,
{
    assert forall|y: int| 0 <= y < 256 implies a[y] == b[y] by {
        if a[y] > 0 {
            assert(table[a[y] - 1] == y);
            assert(b[table[a[y] - 1] as int] == a[y] - 1 + 1);
        } else if b[y] > 0 {
            assert(table[b[y] - 1] == y);
            assert(a[table[b[y] - 1] as int] == b[y] - 1 + 1);
        }
    }
    assert(a =~= b);
}

// ---------------------------------------------------------------------------
// The whole search
// ---------------------------------------------------------------------------
/// The same plan with the same table.
pub open spec fn same_choice(a: Choice, b: Choice) -> bool {
    &&& same_solution(a.sol, b.sol)
    &&& a.table@ == b.table@
    &&& a.rank_of@ == b.rank_of@
}

proof fn lemma_one_is_round(a: Source, b: Source, c: Choice, e: Choice)
    requires
        same_source(a, b),
        c.is_round(a.d, a.ms, a.rle),
        e.is_round(b.d, b.ms, b.rle),
        c.table@ == e.table@,
    ensures
        same_choice(c, e),
{
    lemma_one_ranks(c.table@, c.rank_of@, e.rank_of@);
    lemma_one_round(a, b, &c.rank_of, &e.rank_of, c.sol, e.sol);
}

proof fn lemma_one_rounds(
    a: Source,
    b: Source,
    bits: int,
    left: int,
    c: Choice,
    c2: Choice,
    e: Choice,
    e2: Choice,
)
    requires
        same_source(a, b),
        same_choice(c, e),
        pucrunch::rounds_to(a.d, a.ms, a.rle, bits, left, c, c2),
        pucrunch::rounds_to(b.d, b.ms, b.rle, bits, left, e, e2),
    ensures
        same_choice(c2, e2),
    decreases left,
{
    if left > 0 {
        let (t, x) = choose|table: Seq<u8>, x: Choice| #[trigger]
            pucrunch::ranked_anew(a.d, a.ms, a.rle, c, table, x) && if table != c.table@
                && x.header_bits(bits) < c.header_bits(bits) {
                pucrunch::rounds_to(a.d, a.ms, a.rle, bits, left - 1, x, c2)
            } else {
                c2 == c
            };
        let (u, y) = choose|table: Seq<u8>, y: Choice| #[trigger]
            pucrunch::ranked_anew(b.d, b.ms, b.rle, e, table, y) && if table != e.table@
                && y.header_bits(bits) < e.header_bits(bits) {
                pucrunch::rounds_to(b.d, b.ms, b.rle, bits, left - 1, y, e2)
            } else {
                e2 == e
            };
        lemma_one_next_table(a.d@, c.sol.plan.tokens@, t, u);
        if t != c.table@ {
            lemma_one_is_round(a, b, x, y);
            if x.header_bits(bits) < c.header_bits(bits) {
                lemma_one_rounds(a, b, bits, left - 1, x, c2, y, e2);
            }
        }
    }
}

proof fn lemma_one_next_table(data: Seq<u8>, toks: Seq<Tok>, t: Seq<u8>, u: Seq<u8>)
    requires
        pucrunch::next_table(data, toks, t),
        pucrunch::next_table(data, toks, u),
    ensures
        t == u,
{
    let c = choose|c: Seq<u32>| #[trigger]
        pucrunch::ranked(c, t) && c.len() == 256 && forall|b: int|
            0 <= b < 256 ==> #[trigger] c[b] == pucrunch::run_tokens(
                data,
                toks,
                toks.len() as int,
                b,
            );
    let e = choose|e: Seq<u32>| #[trigger]
        pucrunch::ranked(e, u) && e.len() == 256 && forall|b: int|
            0 <= b < 256 ==> #[trigger] e[b] == pucrunch::run_tokens(
                data,
                toks,
                toks.len() as int,
                b,
            );
    assert(c =~= e);
    lemma_one_ranking(c, t, u, 0);
}

proof fn lemma_one_first_table(data: Seq<u8>, rle: Seq<u32>, t: Seq<u8>, u: Seq<u8>)
    requires
        pucrunch::first_table(data, rle, t),
        pucrunch::first_table(data, rle, u),
    ensures
        t == u,
{
    let c = choose|c: Seq<u32>| #[trigger]
        pucrunch::ranked(c, t) && c.len() == 256 && forall|b: int|
            0 <= b < 256 ==> #[trigger] c[b] == pucrunch::run_starts(data, rle, 0, b);
    let e = choose|e: Seq<u32>| #[trigger]
        pucrunch::ranked(e, u) && e.len() == 256 && forall|b: int|
            0 <= b < 256 ==> #[trigger] e[b] == pucrunch::run_starts(data, rle, 0, b);
    assert(c =~= e);
    lemma_one_ranking(c, t, u, 0);
}

proof fn lemma_one_pruned(
    a: Source,
    b: Source,
    bits: int,
    c: Choice,
    c2: Choice,
    e: Choice,
    e2: Choice,
)
    requires
        same_source(a, b),
        same_choice(c, e),
        c.sol.plan.esc_bits <= 8,
        c.sol.plan.extra <= 4,
        pucrunch::prunes_to(a.d, a.ms, a.rle, bits, c, c2),
        pucrunch::prunes_to(b.d, b.ms, b.rle, bits, e, e2),
    ensures
        same_choice(c2, e2),
    decreases c.table@.len(),
{
    if !(bits == 0 || c.table@.len() == 0) {
        let x = choose|x: Choice| #[trigger]
            pucrunch::one_less(a.d, a.ms, a.rle, c, x) && if x.table@.len() < c.table@.len()
                && x.header_bits(bits) < c.header_bits(bits) {
                pucrunch::prunes_to(a.d, a.ms, a.rle, bits, x, c2)
            } else {
                c2 == c
            };
        let y = choose|y: Choice| #[trigger]
            pucrunch::one_less(b.d, b.ms, b.rle, e, y) && if y.table@.len() < e.table@.len()
                && y.header_bits(bits) < e.header_bits(bits) {
                pucrunch::prunes_to(b.d, b.ms, b.rle, bits, y, e2)
            } else {
                e2 == e
            };
        lemma_one_ranks(x.table@, x.rank_of@, y.rank_of@);
        lemma_source_solution(
            a,
            b,
            &x.rank_of,
            &y.rank_of,
            c.sol.plan.esc_bits,
            c.sol.plan.extra,
            pucrunch::affords_joint(a.d@.len() as int, c.sol.plan.esc_bits),
            x.sol,
            y.sol,
        );
        if x.table@.len() < c.table@.len() && x.header_bits(bits) < c.header_bits(bits) {
            lemma_one_pruned(a, b, bits, x, c2, y, e2);
        }
    }
}

/// The search ends with one choice.
proof fn lemma_one_search(
    a: Source,
    b: Source,
    bits: int,
    c: (Choice, Choice, Choice),
    e: (Choice, Choice, Choice),
)
    requires
        a.d@ == b.d@,
        a.d@.len() <= puparse::MAX_INPUT,
        pucrunch::searched(a.d, a.ms, a.rle, bits, c.0, c.1, c.2),
        pucrunch::searched(b.d, b.ms, b.rle, bits, e.0, e.1, e.2),
    ensures
        same_choice(c.2, e.2),
{
    assert(same_source(a, b));
    lemma_same_runs(a.d@, a.rle@, b.rle@);
    lemma_one_first_table(a.d@, a.rle@, c.0.table@, e.0.table@);
    lemma_one_is_round(a, b, c.0, e.0);
    lemma_one_rounds(a, b, bits, 3, c.0, c.1, e.0, e.1);
    lemma_rounds_ok(a, bits, 3, c.0, c.1);
    lemma_one_pruned(a, b, bits, c.1, c.2, e.1, e.2);
}

/// Rounds end with a plan that can be written.
proof fn lemma_rounds_ok(a: Source, bits: int, left: int, c: Choice, c2: Choice)
    requires
        c.ok(a.d@),
        pucrunch::rounds_to(a.d, a.ms, a.rle, bits, left, c, c2),
    ensures
        c2.ok(a.d@),
    decreases left,
{
    if left > 0 {
        let (t, x) = choose|table: Seq<u8>, x: Choice| #[trigger]
            pucrunch::ranked_anew(a.d, a.ms, a.rle, c, table, x) && if table != c.table@
                && x.header_bits(bits) < c.header_bits(bits) {
                pucrunch::rounds_to(a.d, a.ms, a.rle, bits, left - 1, x, c2)
            } else {
                c2 == c
            };
        if t != c.table@ && x.header_bits(bits) < c.header_bits(bits) {
            lemma_rounds_ok(a, bits, left - 1, x, c2);
        }
    }
}

/// Parameters, table and bytes of a stream are determined.
proof fn lemma_one_core(
    data: Seq<u8>,
    bits: int,
    a: (int, int, int, Seq<u8>, Seq<u8>),
    b: (int, int, int, Seq<u8>, Seq<u8>),
)
    requires
        data.len() <= puparse::MAX_INPUT,
        pucrunch::core_best(data, bits, a.0, a.1, a.2, a.3, a.4),
        pucrunch::core_best(data, bits, b.0, b.1, b.2, b.3, b.4),
    ensures
        a == b,
{
    reveal(pucrunch::core_best);
    let (d, ms, rle, c0, c1, c2) = choose|
        d: &[u8],
        ms: MatchSet,
        rle: Vec<u32>,
        first: Choice,
        mid: Choice,
        last: Choice,
    |
        {
            &&& #[trigger] pucrunch::searched(d, &ms, &rle, bits, first, mid, last)
            &&& d@ == data
            &&& a.0 == last.sol.plan.start_esc
            &&& a.1 == last.sol.plan.esc_bits
            &&& a.2 == last.sol.plan.extra
            &&& a.3 == last.table@
            &&& a.4 == last.bytes(data)
            &&& a.4.len() == crate::zx::bytes_for(last.sol.total as int)
        };
    let (f, mt, run, e0, e1, e2) = choose|
        d: &[u8],
        ms: MatchSet,
        rle: Vec<u32>,
        first: Choice,
        mid: Choice,
        last: Choice,
    |
        {
            &&& #[trigger] pucrunch::searched(d, &ms, &rle, bits, first, mid, last)
            &&& d@ == data
            &&& b.0 == last.sol.plan.start_esc
            &&& b.1 == last.sol.plan.esc_bits
            &&& b.2 == last.sol.plan.extra
            &&& b.3 == last.table@
            &&& b.4 == last.bytes(data)
            &&& b.4.len() == crate::zx::bytes_for(last.sol.total as int)
        };
    lemma_one_search(
        Source { d, ms: &ms, rle: &rle },
        Source { d: f, ms: &mt, rle: &run },
        bits,
        (c0, c1, c2),
        (e0, e1, e2),
    );
}

/// There is one forward container of an input.
pub proof fn lemma_one_container(data: Seq<u8>, a: Seq<u8>, b: Seq<u8>)
    requires
        0 < data.len() <= puparse::MAX_INPUT,
        pucrunch::pu6502_decoded(a) == Ok::<Seq<u8>, PuError>(data),
        pucrunch::pu6502_decoded(b) == Ok::<Seq<u8>, PuError>(data),
        pucrunch::container_best(data, a),
        pucrunch::container_best(data, b),
    ensures
        a == b,
{
    reveal(pucrunch::container_best);
    let i = choose|used: int|
        {
            &&& 0 <= used <= 15
            &&& #[trigger] pucrunch::core_best(
                data,
                0,
                a[0] as int,
                a[1] as int,
                a[3] as int,
                a.subrange(4, 4 + used),
                a.skip(19),
            )
            &&& forall|k: int| 4 + used <= k < 19 ==> #[trigger] a[k] == 0
        };
    let j = choose|used: int|
        {
            &&& 0 <= used <= 15
            &&& #[trigger] pucrunch::core_best(
                data,
                0,
                b[0] as int,
                b[1] as int,
                b[3] as int,
                b.subrange(4, 4 + used),
                b.skip(19),
            )
            &&& forall|k: int| 4 + used <= k < 19 ==> #[trigger] b[k] == 0
        };
    lemma_one_core(
        data,
        0,
        (a[0] as int, a[1] as int, a[3] as int, a.subrange(4, 4 + i), a.skip(19)),
        (b[0] as int, b[1] as int, b[3] as int, b.subrange(4, 4 + j), b.skip(19)),
    );
    assert(a.len() >= 19 && b.len() >= 19 && a[2] == b[2]);
    assert(i == j) by {
        assert(a.subrange(4, 4 + i).len() == i);
        assert(b.subrange(4, 4 + j).len() == j);
    }
    assert(a.len() == b.len()) by {
        assert(a.skip(19).len() == a.len() - 19);
        assert(b.skip(19).len() == b.len() - 19);
    }
    assert forall|k: int| 0 <= k < a.len() implies a[k] == b[k] by {
        if 4 <= k < 4 + i {
            assert(a.subrange(4, 4 + i)[k - 4] == b.subrange(4, 4 + j)[k - 4]);
        } else if k >= 19 {
            assert(a.skip(19)[k - 19] == b.skip(19)[k - 19]);
        }
    }
    assert(a =~= b);
}

/// The backward container of an input is the forward one of the reversed input,
/// with its parts in mirrored order.
pub proof fn lemma_backward_mirrors_forward(input: Seq<u8>, back: Seq<u8>, fwd: Seq<u8>)
    requires
        input.len() <= puparse::MAX_INPUT,
        pucrunch::backward_of(input, back),
        pucrunch::pu6502_decoded(fwd) == Ok::<Seq<u8>, PuError>(input.reverse()),
        input.len() == 0 ==> fwd == pucrunch::empty_container(),
        input.len() > 0 ==> pucrunch::container_best(input.reverse(), fwd),
    ensures
        pucrunch::pu6502_forward(back) == fwd,
{
    if input.len() > 0 {
        assert(input.reverse().len() == input.len());
        lemma_one_container(input.reverse(), pucrunch::pu6502_forward(back), fwd);
    }
}

proof fn lemma_one_word(a: Seq<u8>, b: Seq<u8>, i: int)
    requires
        pucrunch::le16(a, i) == pucrunch::le16(b, i),
    ensures
        a[i] == b[i],
        a[i + 1] == b[i + 1],
{
}

/// There is one standalone file of an input for its addresses.
pub proof fn lemma_one_file(data: Seq<u8>, out_pos: u16, exec_at: u16, a: Seq<u8>, b: Seq<u8>)
    requires
        0 < data.len() <= puparse::MAX_INPUT,
        pucrunch::pu_file(a, data, out_pos, exec_at),
        pucrunch::pu_file(b, data, out_pos, exec_at),
        pucrunch::file_best(data, a),
        pucrunch::file_best(data, b),
    ensures
        a == b,
{
    let (i, j) = (a[15] as int, b[15] as int);
    assert(pucrunch::pu_header(a) is Ok && pucrunch::pu_header(b) is Ok);
    lemma_one_core(
        data,
        8,
        (a[6] as int, a[9] as int, a[12] as int, a.subrange(16, 16 + i), a.skip(16 + i)),
        (b[6] as int, b[9] as int, b[12] as int, b.subrange(16, 16 + j), b.skip(16 + j)),
    );
    assert(i == j) by {
        assert(a.subrange(16, 16 + i).len() == i);
        assert(b.subrange(16, 16 + j).len() == j);
    }
    assert(a.len() == b.len()) by {
        assert(a.skip(16 + i).len() == a.len() - 16 - i);
        assert(b.skip(16 + j).len() == b.len() - 16 - j);
    }
    assert(pucrunch::pu_payload(a) == pucrunch::pu_payload(b));
    lemma_one_word(a, b, 0);
    lemma_one_word(a, b, 4);
    lemma_one_word(a, b, 13);
    lemma_same_place(a, data, out_pos);
    lemma_same_place(b, data, out_pos);
    assert forall|k: int| 0 <= k < a.len() implies a[k] == b[k] by {
        if k >= 16 + i {
            assert(a.skip(16 + i)[k - 16 - i] == b.skip(16 + i)[k - 16 - i]);
        } else if k >= 16 {
            assert(a.subrange(16, 16 + i)[k - 16] == b.subrange(16, 16 + i)[k - 16]);
        }
    }
    assert(a =~= b);
}

/// A file names the address of its output.
proof fn lemma_same_place(file: Seq<u8>, data: Seq<u8>, out_pos: u16)
    requires
        file.len() >= 16,
        pucrunch::pu_decoded(file) == Ok::<Seq<u8>, PuError>(
            seq![(out_pos % 256) as u8, (out_pos / 256) as u8] + data,
        ),
    ensures
        file[7] == (out_pos % 256) as u8,
        file[8] == (out_pos / 256) as u8,
{
    let o = match pucrunch::pu_payload(file) {
        Ok((o, _)) => o,
        Err(_) => Seq::empty(),
    };
    let x = file.subrange(7, 9) + o;
    let y = seq![(out_pos % 256) as u8, (out_pos / 256) as u8] + data;
    assert(x == y);
    assert(x[0] == file[7] && x[1] == file[8]);
    assert(y[0] == (out_pos % 256) as u8 && y[1] == (out_pos / 256) as u8);
}

} // verus!
