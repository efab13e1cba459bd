//! What the search for tokens of an upkr stream finds. At every position there is
//! a list of ways to get there. Each goes on with the matches that the finder
//! lists, with the nearest places of the same byte, with its last offset and with
//! a literal byte; what comes of it is listed where it ends.
use crate::uparse::{
    adapted, bits_price, capped_price, literal_bits, match_bits, Found, ParseConfig,
};
use crate::upkrenc::Op;
use crate::upkrstream;
use crate::upkrstream::Config;
use vstd::prelude::*;

verus! {

/// No place.
pub const NOWHERE: usize = usize::MAX;

/// How far back the places of a byte are remembered.
pub const NEAR_SIZE: usize = 1024;

/// A way to a position: its tokens, their price, the last offset, whether the last
/// token is a match, and what the coder has adapted to.
pub struct Way {
    pub ops: Seq<Op>,
    pub price: u64,
    pub last: u32,
    pub prev: bool,
    pub ctx: Seq<u8>,
}

/// What a search is about: the input, the variant, the price of a bit by its
/// probability and how hard to look.
pub struct Scene {
    pub d: Seq<u8>,
    pub c: Config,
    pub t: Seq<u64>,
    pub pc: ParseConfig,
}

/// Nothing was written.
pub open spec fn first_way(c: Config) -> Way {
    Way { ops: Seq::empty(), price: 0, last: 0, prev: false, ctx: upkrstream::ctx_start(c) }
}

/// A sum that stays at the largest number.
pub open spec fn sum64(a: u64, b: nat) -> u64 {
    if a + b > u64::MAX {
        u64::MAX
    } else {
        (a + b) as u64
    }
}

/// A way with a match behind it.
pub open spec fn matched(s: Scene, pos: int, w: Way, offset: u32, len: u32) -> Way {
    let bits = match_bits(s.c, pos, offset, len, w.last, w.prev);
    Way {
        ops: w.ops.push(Op::Match { offset, len }),
        price: sum64(w.price, capped_price(bits_price(s.t, s.c, w.ctx, bits))),
        last: offset,
        prev: true,
        ctx: adapted(s.c, w.ctx, bits),
    }
}

/// A way with a literal byte behind it.
pub open spec fn lettered(s: Scene, pos: int, w: Way) -> Way {
    let bits = literal_bits(s.c, pos, s.d[pos]);
    Way {
        ops: w.ops.push(Op::Literal(s.d[pos])),
        price: sum64(w.price, capped_price(bits_price(s.t, s.c, w.ctx, bits))),
        last: w.last,
        prev: false,
        ctx: adapted(s.c, w.ctx, bits),
    }
}

// ---------------------------------------------------------------------------
// Lists
// ---------------------------------------------------------------------------
/// The order `s` with `i` behind all that cost no more.
pub open spec fn order_put(list: Seq<Way>, s: Seq<usize>, i: usize) -> Seq<usize>
    decreases s.len(),
{
    if s.len() > 0 && list[s.last() as int].price > list[i as int].price {
        order_put(list, s.drop_last(), i).push(s.last())
    } else {
        s.push(i)
    }
}

/// The first `k` ways in the order of their prices; of one price, in the order of
/// the list.
pub open spec fn price_order(list: Seq<Way>, k: int) -> Seq<usize>
    decreases k,
{
    if k <= 0 {
        Seq::empty()
    } else {
        order_put(list, price_order(list, k - 1), (k - 1) as usize)
    }
}

/// One of the ways from the `j`-th to before the `k`-th has this last offset.
pub open spec fn met(list: Seq<Way>, order: Seq<usize>, j: int, k: int, last: int) -> bool {
    exists|x: int| j <= x < k && list[(#[trigger] order[x]) as int].last == last
}

/// A cheaper way has the same last offset.
pub open spec fn is_second(list: Seq<Way>, order: Seq<usize>, k: int) -> bool {
    met(list, order, 0, k, list[order[k] as int].last as int)
}

/// The cheapest of each last offset, at most `max`, out of the first `k`.
pub open spec fn firsts(list: Seq<Way>, order: Seq<usize>, k: int, max: int) -> Seq<usize>
    decreases k,
{
    if k <= 0 {
        Seq::empty()
    } else {
        let before = firsts(list, order, k - 1, max);
        if !is_second(list, order, k - 1) && before.len() < max {
            before.push(order[k - 1])
        } else {
            before
        }
    }
}

/// The others.
pub open spec fn seconds(list: Seq<Way>, order: Seq<usize>, k: int) -> Seq<usize>
    decreases k,
{
    if k <= 0 {
        Seq::empty()
    } else if is_second(list, order, k - 1) {
        seconds(list, order, k - 1).push(order[k - 1])
    } else {
        seconds(list, order, k - 1)
    }
}

/// `a` and as much of `b` as makes `max`.
pub open spec fn topped_up(a: Seq<usize>, b: Seq<usize>, max: int) -> Seq<usize> {
    if a.len() >= max {
        a
    } else if a.len() + b.len() <= max {
        a + b
    } else {
        a + b.take(max - a.len())
    }
}

/// The ways of a list that stay where at most `max` may: the cheapest of each last
/// offset before the others, each cheapest first.
pub open spec fn cut(list: Seq<Way>, max: int) -> Seq<Way> {
    let order = price_order(list, list.len() as int);
    let n = list.len() as int;
    let picks = topped_up(firsts(list, order, n, max), seconds(list, order, n), max);
    Seq::new(picks.len(), |j: int| list[picks[j] as int])
}

/// A list with one more way. Without room for others the cheapest stays; with room,
/// one that is already too dear to go on is not listed, and a list of twice the
/// room is cut.
pub open spec fn listed(list: Seq<Way>, w: Way, max: int, delta: u64) -> Seq<Way> {
    if max == 0 {
        if list.len() == 0 {
            seq![w]
        } else if list[0].price > w.price {
            list.update(0, w)
        } else {
            list
        }
    } else if list.len() > 0 && w.price > sum64(least(list, list.len() as int), delta as nat) {
        list
    } else if list.len() + 1 > 2 * max {
        cut(list.push(w), max)
    } else {
        list.push(w)
    }
}

/// The lists with one more way to `p`.
pub open spec fn put_at(s: Scene, lists: Seq<Seq<Way>>, p: int, w: Way) -> Seq<Seq<Way>> {
    lists.update(p, listed(lists[p], w, s.pc.max_arrivals as int, s.pc.max_cost_delta))
}

// ---------------------------------------------------------------------------
// One way goes on
// ---------------------------------------------------------------------------
/// With a match, if it is not too short; a long one is cut.
pub open spec fn try_match(
    s: Scene,
    lists: Seq<Seq<Way>>,
    pos: int,
    w: Way,
    offset: int,
    length: int,
) -> Seq<Seq<Way>> {
    let len = if length < s.c.max_length {
        length
    } else {
        s.c.max_length as int
    };
    if length < upkrstream::min_len(s.c) {
        lists
    } else {
        put_at(s, lists, pos + len, matched(s, pos, w, offset as u32, len as u32))
    }
}

/// With the matches of the finder from the `k`-th on: the lists, whether one had
/// the last offset, and whether one was long enough to look no further.
pub open spec fn with_found(
    s: Scene,
    lists: Seq<Seq<Way>>,
    pos: int,
    w: Way,
    found: Seq<Found>,
    k: int,
    same: bool,
) -> (Seq<Seq<Way>>, bool, bool)
    decreases found.len() - k,
{
    if k < 0 || k >= found.len() {
        (lists, same, false)
    } else {
        let f = found[k];
        let offset = pos - f.pos;
        if offset <= s.c.max_offset {
            let more = try_match(s, lists, pos, w, offset, f.len as int);
            let now = same || offset == w.last;
            if f.len >= s.pc.greedy_size {
                (more, now, true)
            } else {
                with_found(s, more, pos, w, found, k + 1, now)
            }
        } else {
            with_found(s, lists, pos, w, found, k + 1, same)
        }
    }
}

/// The nearest place of the first `k` matches, or -1.
pub open spec fn nearest(found: Seq<Found>, k: int) -> int
    decreases k,
{
    if k <= 0 {
        -1
    } else if found[k - 1].pos > nearest(found, k - 1) {
        found[k - 1].pos as int
    } else {
        nearest(found, k - 1)
    }
}

/// How many bytes from `b` on are those from `a` on, the first `l` being so.
pub open spec fn run_from(d: Seq<u8>, a: int, b: int, l: int) -> int
    decreases d.len() - b - l,
{
    if 0 <= b + l < d.len() && d[a + l] == d[b + l] {
        run_from(d, a, b, l + 1)
    } else {
        l
    }
}

/// With `left` of the places of the same byte, from `at` back, that are nearer than
/// `far`. `back` holds for a place the one before it, where that is remembered: if
/// not, the place is tried again.
pub open spec fn with_near(
    s: Scene,
    lists: Seq<Seq<Way>>,
    pos: int,
    w: Way,
    back: Seq<usize>,
    far: int,
    at: usize,
    left: int,
    same: bool,
) -> (Seq<Seq<Way>>, bool)
    decreases left,
{
    let offset = pos - at;
    if left <= 0 || at == NOWHERE || at <= far || offset > s.c.max_offset {
        (lists, same)
    } else {
        let length = run_from(s.d, at as int, pos, 0);
        with_near(
            s,
            try_match(s, lists, pos, w, offset, length),
            pos,
            w,
            back,
            far,
            if offset < NEAR_SIZE {
                back[at as int % NEAR_SIZE as int]
            } else {
                at
            },
            left - 1,
            same || (length > 0 && offset == w.last),
        )
    }
}

/// With the last offset, where no match had it.
pub open spec fn with_last(s: Scene, lists: Seq<Seq<Way>>, pos: int, w: Way, same: bool) -> Seq<
    Seq<Way>,
> {
    if same || w.last == 0 {
        lists
    } else {
        try_match(s, lists, pos, w, w.last as int, run_from(s.d, pos - w.last, pos, 0))
    }
}

/// All that comes of one way at `pos`, and whether to look no further there. `last`
/// holds where each byte was last met.
pub open spec fn gone_on(
    s: Scene,
    lists: Seq<Seq<Way>>,
    pos: int,
    w: Way,
    found: Seq<Found>,
    back: Seq<usize>,
    last: Seq<usize>,
) -> (Seq<Seq<Way>>, bool) {
    let (a, a_same, stop) = with_found(s, lists, pos, w, found, 0, false);
    if stop {
        (a, true)
    } else {
        let (b, b_same) = with_near(
            s,
            a,
            pos,
            w,
            back,
            nearest(found, found.len() as int),
            last[s.d[pos] as int],
            s.pc.num_near_matches as int,
            a_same,
        );
        let e = with_last(s, b, pos, w, b_same);
        (put_at(s, e, pos + 1, lettered(s, pos, w)), false)
    }
}

// ---------------------------------------------------------------------------
// One position
// ---------------------------------------------------------------------------
/// The lowest price of the first `k` ways, or of those with one last offset.
pub open spec fn least(list: Seq<Way>, k: int) -> u64
    decreases k,
{
    if k <= 0 {
        u64::MAX
    } else if list[k - 1].price < least(list, k - 1) {
        list[k - 1].price
    } else {
        least(list, k - 1)
    }
}

pub open spec fn least_with(list: Seq<Way>, last: u32, k: int) -> u64
    decreases k,
{
    if k <= 0 {
        u64::MAX
    } else if list[k - 1].last == last && list[k - 1].price < least_with(list, last, k - 1) {
        list[k - 1].price
    } else {
        least_with(list, last, k - 1)
    }
}

/// The way is not much dearer than the cheapest, nor than the cheapest with its
/// last offset.
pub open spec fn goes_on(s: Scene, list: Seq<Way>, k: int) -> bool {
    let w = list[k];
    &&& w.price <= sum64(least(list, list.len() as int), s.pc.max_cost_delta as nat)
    &&& w.price <= sum64(
        least_with(list, w.last, list.len() as int),
        s.pc.max_offset_cost_delta as nat,
    )
}

/// What comes of the ways at `pos` from the `k`-th on.
pub open spec fn all_gone_on(
    s: Scene,
    lists: Seq<Seq<Way>>,
    pos: int,
    here: Seq<Way>,
    k: int,
    found: Seq<Found>,
    back: Seq<usize>,
    last: Seq<usize>,
) -> Seq<Seq<Way>>
    decreases here.len() - k,
{
    if k < 0 || k >= here.len() {
        lists
    } else if goes_on(s, here, k) {
        let (more, stop) = gone_on(s, lists, pos, here[k], found, back, last);
        if stop {
            more
        } else {
            all_gone_on(s, more, pos, here, k + 1, found, back, last)
        }
    } else {
        all_gone_on(s, lists, pos, here, k + 1, found, back, last)
    }
}

/// The ways that are looked at.
pub open spec fn taken(s: Scene, list: Seq<Way>) -> Seq<Way> {
    if s.pc.max_arrivals == 0 {
        list
    } else {
        cut(list, s.pc.max_arrivals as int)
    }
}

/// The lists at the end of the search, which has come to `pos`. A position without
/// ways is passed over, and its byte not remembered. `found` lists the matches at
/// each position.
pub open spec fn search(
    s: Scene,
    found: spec_fn(int) -> Seq<Found>,
    lists: Seq<Seq<Way>>,
    back: Seq<usize>,
    last: Seq<usize>,
    pos: int,
) -> Seq<Seq<Way>>
    decreases s.d.len() - pos,
{
    if pos < 0 || pos >= s.d.len() {
        lists
    } else if lists[pos].len() == 0 {
        search(s, found, lists, back, last, pos + 1)
    } else {
        let byte = s.d[pos] as int;
        search(
            s,
            found,
            all_gone_on(
                s,
                lists.update(pos, Seq::empty()),
                pos,
                taken(s, lists[pos]),
                0,
                found(pos),
                back,
                last,
            ),
            back.update(pos % NEAR_SIZE as int, last[byte]),
            last.update(byte, pos as usize),
            pos + 1,
        )
    }
}

/// The tokens that the search finds: those of the first way to the end.
pub open spec fn found_tokens(s: Scene, found: spec_fn(int) -> Seq<Found>) -> Seq<Op> {
    let start = Seq::new(s.d.len() + 1, |p: int| Seq::<Way>::empty()).update(
        0,
        seq![first_way(s.c)],
    );
    search(
        s,
        found,
        start,
        Seq::new(NEAR_SIZE as nat, |k: int| NOWHERE),
        Seq::new(256, |k: int| NOWHERE),
        0,
    )[s.d.len() as int][0].ops
}

// ---------------------------------------------------------------------------
// Facts
// ---------------------------------------------------------------------------
pub proof fn lemma_run_from(d: Seq<u8>, a: int, b: int, l: int, len: int)
    requires
        0 <= a < b,
        0 <= l <= len,
        b + len <= d.len(),
        forall|k: int| 0 <= k < len ==> #[trigger] d[b + k] == d[a + k],
        b + len < d.len() ==> d[b + len] != d[a + len],
    ensures
        run_from(d, a, b, l) == len,
    decreases len - l,
{
    if l < len {
        assert(d[b + l] == d[a + l]);
        lemma_run_from(d, a, b, l + 1, len);
    }
}

pub proof fn lemma_order_put(list: Seq<Way>, s: Seq<usize>, i: usize)
    requires
        i < list.len(),
        forall|k: int| 0 <= k < s.len() ==> #[trigger] s[k] < list.len(),
    ensures
        order_put(list, s, i).len() == s.len() + 1,
        forall|k: int|
            0 <= k < order_put(list, s, i).len() ==> #[trigger] order_put(list, s, i)[k]
                < list.len(),
    decreases s.len(),
{
    if s.len() > 0 && list[s.last() as int].price > list[i as int].price {
        lemma_order_put(list, s.drop_last(), i);
    }
}

/// Where all before place `j` cost no more and all from there on more, a way goes
/// there.
pub proof fn lemma_order_at(list: Seq<Way>, s: Seq<usize>, i: usize, j: int)
    requires
        0 <= j <= s.len(),
        forall|k: int|
            0 <= k < j ==> list[(#[trigger] s[k]) as int].price <= list[i as int].price,
        forall|k: int|
            j <= k < s.len() ==> list[(#[trigger] s[k]) as int].price > list[i as int].price,
    ensures
        order_put(list, s, i) == s.insert(j, i),
    decreases s.len(),
{
    if j == s.len() {
        if s.len() > 0 {
            assert(s.last() == s[s.len() - 1]);
        }
        assert(s.insert(j, i) =~= s.push(i));
    } else {
        assert(s.last() == s[s.len() - 1]);
        lemma_order_at(list, s.drop_last(), i, j);
        assert(s.drop_last().insert(j, i).push(s.last()) =~= s.insert(j, i));
    }
}

pub proof fn lemma_met_more(list: Seq<Way>, order: Seq<usize>, k: int, last: int)
    requires
        0 <= k,
    ensures
        met(list, order, 0, k + 1, last) == (met(list, order, 0, k, last)
            || list[order[k] as int].last == last),
{
    if list[order[k] as int].last == last {
        assert(met(list, order, 0, k + 1, last));
    }
    if met(list, order, 0, k + 1, last) {
        let x = choose|x: int| 0 <= x < k + 1 && list[(#[trigger] order[x]) as int].last == last;
        if x < k {
            assert(met(list, order, 0, k, last));
        }
    }
    if met(list, order, 0, k, last) {
        let x = choose|x: int| 0 <= x < k && list[(#[trigger] order[x]) as int].last == last;
        assert(0 <= x < k + 1 && list[order[x] as int].last == last);
    }
}

pub proof fn lemma_met_less(list: Seq<Way>, order: Seq<usize>, k: int, n: int, last: int)
    requires
        met(list, order, k, n, last),
        list[order[k] as int].last != last,
    ensures
        met(list, order, k + 1, n, last),
{
    let x = choose|x: int| k <= x < n && list[(#[trigger] order[x]) as int].last == last;
    assert(k + 1 <= x < n && list[order[x] as int].last == last);
}

pub proof fn lemma_price_order(list: Seq<Way>, k: int)
    requires
        0 <= k <= list.len() <= usize::MAX,
    ensures
        price_order(list, k).len() == k,
        forall|j: int| 0 <= j < k ==> #[trigger] price_order(list, k)[j] < list.len(),
    decreases k,
{
    if k > 0 {
        lemma_price_order(list, k - 1);
        lemma_order_put(list, price_order(list, k - 1), (k - 1) as usize);
    }
}

pub proof fn lemma_least(list: Seq<Way>, k: int)
    requires
        0 <= k <= list.len(),
    ensures
        forall|j: int| 0 <= j < k ==> least(list, k) <= (#[trigger] list[j]).price,
        k > 0 ==> exists|j: int| 0 <= j < k && (#[trigger] list[j]).price == least(list, k),
    decreases k,
{
    if k > 0 {
        lemma_least(list, k - 1);
        if list[k - 1].price < least(list, k - 1) {
            assert(list[k - 1].price == least(list, k));
        } else if k == 1 {
            assert(list[0].price == least(list, 1));
        }
    }
}

/// No price with a last offset is below the lowest.
pub proof fn lemma_least_with(list: Seq<Way>, last: u32, k: int)
    requires
        0 <= k <= list.len(),
    ensures
        least(list, k) <= least_with(list, last, k),
    decreases k,
{
    if k > 0 {
        lemma_least_with(list, last, k - 1);
    }
}

/// The lowest price is one that is there, and none is lower.
pub open spec fn is_least(list: Seq<Way>, p: u64) -> bool {
    &&& exists|k: int| 0 <= k < list.len() && (#[trigger] list[k]).price == p
    &&& forall|k: int| 0 <= k < list.len() ==> p <= (#[trigger] list[k]).price
}

pub proof fn lemma_is_least(list: Seq<Way>, p: u64)
    requires
        list.len() > 0,
    ensures
        is_least(list, p) <==> p == least(list, list.len() as int),
{
    lemma_least(list, list.len() as int);
    let m = least(list, list.len() as int);
    let j = choose|j: int| 0 <= j < list.len() && (#[trigger] list[j]).price == m;
    if is_least(list, p) {
        let k = choose|k: int| 0 <= k < list.len() && (#[trigger] list[k]).price == p;
        assert(p <= list[j].price);
        assert(m <= list[k].price);
    } else {
        assert(is_least(list, m));
    }
}

/// A list with one more way has the lower of the two prices as its lowest.
pub proof fn lemma_least_push(list: Seq<Way>, w: Way)
    ensures
        least(list.push(w), list.len() as int + 1) == if w.price < least(list, list.len() as int) {
            w.price
        } else {
            least(list, list.len() as int)
        },
{
    lemma_least_prefix(list, list.push(w), list.len() as int);
}

proof fn lemma_least_prefix(a: Seq<Way>, b: Seq<Way>, k: int)
    requires
        0 <= k <= a.len(),
        k <= b.len(),
        forall|j: int| 0 <= j < k ==> a[j] == b[j],
    ensures
        least(a, k) == least(b, k),
    decreases k,
{
    if k > 0 {
        lemma_least_prefix(a, b, k - 1);
    }
}

/// The first in the order of prices is the cheapest, and the first that stays.
pub proof fn lemma_first_kept(list: Seq<Way>, order: Seq<usize>, k: int, max: int)
    requires
        1 <= k <= order.len(),
        max >= 1,
    ensures
        firsts(list, order, k, max).len() >= 1,
        firsts(list, order, k, max)[0] == order[0],
    decreases k,
{
    if k > 1 {
        lemma_first_kept(list, order, k - 1, max);
    } else {
        assert(firsts(list, order, 0, max) =~= Seq::empty());
        assert(!is_second(list, order, 0));
    }
}

/// The cheapest way stays.
pub proof fn lemma_cut_least(list: Seq<Way>, max: int)
    requires
        0 < list.len() <= usize::MAX,
        max >= 1,
        forall|a: int, b: int|
            #![trigger price_order(list, list.len() as int)[a], price_order(list, list.len() as int)[b]]
            0 <= a < b < list.len() ==> list[price_order(list, list.len() as int)[a] as int].price
                <= list[price_order(list, list.len() as int)[b] as int].price,
        forall|x: int|
            0 <= x < list.len() ==> price_order(list, list.len() as int).contains(
                #[trigger] (x as usize),
            ),
        forall|k: int|
            0 <= k < cut(list, max).len() ==> list.contains(#[trigger] cut(list, max)[k]),
    ensures
        cut(list, max).len() > 0,
        least(cut(list, max), cut(list, max).len() as int) == least(list, list.len() as int),
{
    let n = list.len() as int;
    let order = price_order(list, n);
    lemma_price_order(list, n);
    lemma_first_kept(list, order, n, max);
    let c = cut(list, max);
    let f = firsts(list, order, n, max);
    assert(topped_up(f, seconds(list, order, n), max)[0] == f[0]);
    assert(c[0] == list[order[0] as int]);
    let p = c[0].price;
    assert forall|x: int| 0 <= x < n implies p <= (#[trigger] list[x]).price by {
        assert(order.contains(x as usize));
        let k = choose|k: int| 0 <= k < order.len() && order[k] == x as usize;
        if k > 0 {
            assert(list[order[0] as int].price <= list[order[k] as int].price);
        }
    }
    assert(order[0] < n);
    assert(list[order[0] as int].price == p);
    assert(is_least(list, p));
    lemma_is_least(list, p);
    assert forall|k: int| 0 <= k < c.len() implies p <= (#[trigger] c[k]).price by {
        assert(list.contains(c[k]));
        let x = choose|x: int| 0 <= x < list.len() && list[x] == c[k];
        assert(p <= list[x].price);
    }
    assert(is_least(c, p));
    lemma_is_least(c, p);
}

} // verus!
