//! The cheapest way through a graph of tokens.
use crate::tsstream;
use crate::tsstream::{tok_size, TsTok, LONGEST_LZ, LZ_OFFSET};
use vstd::multiset::Multiset;
use vstd::prelude::*;

verus! {

// ---------------------------------------------------------------------------
// Costs and ways
// ---------------------------------------------------------------------------
/// Cost of a token: bytes first, and then a preference among tokens of as many
/// bytes.
pub open spec fn cost_of(t: TsTok) -> int {
    match t {
        TsTok::Literal { size } => 2031616 * (size + 1) + 130 - size,
        TsTok::Rle { size } => 2031616 * 2 + 128 - size,
        TsTok::Zerorun => 2031616,
        TsTok::Lz2 { .. } => 2031746,
        TsTok::Lz { size, offset } => if tsstream::ts_is_long(size as int, offset as int) {
            2031616 * 3 + 138 - size
        } else {
            2031616 * 2 + 134 - size
        },
    }
}

pub fn token_cost(t: &TsTok, Ghost(s): Ghost<Seq<u8>>, Ghost(p): Ghost<int>, Ghost(run): Ghost<int>) -> (cost: u64)
    requires
        tsstream::ts_ok(s, p, *t, run),
    ensures
        cost == cost_of(*t),
        1 <= cost <= 0x1000_0000,
{
    match t {
        TsTok::Literal { size } => 2031616 * (*size as u64 + 1) + 130 - *size as u64,
        TsTok::Rle { size } => 2031616 * 2 + 128 - *size as u64,
        TsTok::Zerorun => 2031616,
        TsTok::Lz2 { .. } => 2031616 + 130,
        TsTok::Lz { size, offset } => if *offset >= LZ_OFFSET || *size > LONGEST_LZ {
            2031616 * 3 + 138 - *size as u64
        } else {
            2031616 * 2 + 134 - *size as u64
        },
    }
}

/// Tokens of the graph that lead from `v` to its end.
pub open spec fn way(g: Seq<Vec<TsTok>>, run: int, v: int, s: Seq<TsTok>) -> bool
    decreases s.len(),
{
    if s.len() == 0 {
        v == g.len()
    } else {
        &&& 0 <= v < g.len()
        &&& g[v]@.contains(s[0])
        &&& way(g, run, v + tsstream::ts_len(s[0], run), s.skip(1))
    }
}

pub open spec fn way_cost(s: Seq<TsTok>) -> int
    decreases s.len(),
{
    if s.len() == 0 {
        0
    } else {
        cost_of(s[0]) + way_cost(s.skip(1))
    }
}

/// A way through the whole graph, and none costs less.
pub open spec fn cheapest_way(g: Seq<Vec<TsTok>>, run: int, toks: Seq<TsTok>) -> bool {
    &&& way(g, run, 0, toks)
    &&& forall|q: Seq<TsTok>| #[trigger] way(g, run, 0, q) ==> way_cost(toks) <= way_cost(q)
}

/// Every token stands for the bytes at its place, and at every place the first
/// one stands for one byte.
pub open spec fn graph_ok(src: Seq<u8>, g: Seq<Vec<TsTok>>, run: int) -> bool {
    &&& g.len() == src.len()
    &&& forall|v: int| 0 <= v < g.len() ==> #[trigger] row_ok(src, v, run, g[v]@)
}

pub open spec fn row_ok(src: Seq<u8>, v: int, run: int, row: Seq<TsTok>) -> bool {
    &&& row.len() > 0
    &&& tsstream::ts_len(row[0], run) == 1
    &&& forall|k: int| 0 <= k < row.len() ==> tsstream::ts_ok(src, v, #[trigger] row[k], run)
}

proof fn lemma_cost_positive(src: Seq<u8>, v: int, run: int, t: TsTok)
    requires
        tsstream::ts_ok(src, v, t, run),
    ensures
        1 <= cost_of(t) <= 0x1000_0000,
{
}

/// What holds of every way in a graph.
proof fn lemma_way(src: Seq<u8>, g: Seq<Vec<TsTok>>, run: int, v: int, s: Seq<TsTok>)
    requires
        graph_ok(src, g, run),
        way(g, run, v, s),
        1 <= run,
    ensures
        0 <= way_cost(s) <= 0x1000_0000 * s.len(),
        s.len() <= g.len() - v,
    decreases s.len(),
{
    if s.len() > 0 {
        assert(row_ok(src, v, run, g[v]@));
        let k = choose|k: int| 0 <= k < g[v]@.len() && g[v]@[k] == s[0];
        assert(tsstream::ts_ok(src, v, g[v]@[k], run));
        lemma_cost_positive(src, v, run, s[0]);
        assert(tsstream::ts_len(s[0], run) >= 1);
        lemma_way(src, g, run, v + tsstream::ts_len(s[0], run), s.skip(1));
    }
}

/// A way in steps of one byte.
proof fn lemma_small_steps(src: Seq<u8>, g: Seq<Vec<TsTok>>, run: int, v: int) -> (s: Seq<TsTok>)
    requires
        graph_ok(src, g, run),
        0 <= v <= g.len(),
    ensures
        way(g, run, v, s),
    decreases g.len() - v,
{
    if v == g.len() {
        Seq::empty()
    } else {
        let rest = lemma_small_steps(src, g, run, v + 1);
        assert(row_ok(src, v, run, g[v]@));
        let t = g[v]@[0];
        let s = seq![t] + rest;
        assert(s.skip(1) =~= rest);
        assert(g[v]@.contains(t));
        s
    }
}

/// A token of the same length that costs no more.
pub open spec fn has_as_good(row: Seq<TsTok>, t: TsTok, run: int) -> bool {
    exists|j: int|
        0 <= j < row.len() && tsstream::ts_len(#[trigger] row[j], run) == tsstream::ts_len(t, run)
            && cost_of(row[j]) <= cost_of(t)
}

// ---------------------------------------------------------------------------
// Queue
// ---------------------------------------------------------------------------
/// A vertex and its distance.
#[derive(Clone, Copy)]
pub struct PqItem {
    pub vertex: usize,
    pub dist: u64,
}

pub open spec fn swapped(s: Seq<PqItem>, i: int, j: int) -> Seq<PqItem> {
    s.update(i, s[j]).update(j, s[i])
}

/// A heap whose item at `i` goes up as long as the one above it is farther.
pub open spec fn gone_up(s: Seq<PqItem>, i: int) -> Seq<PqItem>
    decreases i,
{
    if i <= 0 || s[(i - 1) / 2].dist <= s[i].dist {
        s
    } else {
        gone_up(swapped(s, (i - 1) / 2, i), (i - 1) / 2)
    }
}

/// The nearest of the item at `i` and the two below it, the first of them.
pub open spec fn nearest_of(s: Seq<PqItem>, i: int) -> int {
    let a = if 2 * i + 1 < s.len() && s[2 * i + 1].dist < s[i].dist {
        2 * i + 1
    } else {
        i
    };
    if 2 * i + 2 < s.len() && s[2 * i + 2].dist < s[a].dist {
        2 * i + 2
    } else {
        a
    }
}

/// A heap whose item at `i` goes down as long as one below it is nearer.
pub open spec fn gone_down(s: Seq<PqItem>, i: int) -> Seq<PqItem>
    decreases s.len() - i,
{
    let c = nearest_of(s, i);
    if i < 0 || c <= i {
        s
    } else {
        gone_down(swapped(s, i, c), c)
    }
}

/// A heap with one item more.
pub open spec fn with_item(s: Seq<PqItem>, x: PqItem) -> Seq<PqItem> {
    gone_up(s.push(x), s.len() as int)
}

/// A heap without its first item.
pub open spec fn without_first(s: Seq<PqItem>) -> Seq<PqItem> {
    gone_down(s.update(0, s.last()).drop_last(), 0)
}

/// How far a search has come: the distances, the tokens that lead there, which
/// vertices are settled, and what waits.
pub struct Net {
    pub dist: Seq<u64>,
    pub via: Seq<Option<TsTok>>,
    pub done: Seq<bool>,
    pub items: Seq<PqItem>,
}

/// The tokens from `u` are tried from the `k`-th on: each that leads somewhere
/// nearer than before is taken there.
pub open spec fn tried_from(rows: Seq<Seq<TsTok>>, run: int, u: int, k: int, net: Net) -> Net
    decreases rows[u].len() - k,
{
    if k < 0 || k >= rows[u].len() {
        net
    } else {
        let t = rows[u][k];
        let v = u + tsstream::ts_len(t, run);
        let alt = net.dist[u] + cost_of(t);
        tried_from(
            rows,
            run,
            u,
            k + 1,
            if alt < net.dist[v] {
                Net {
                    dist: net.dist.update(v, alt as u64),
                    via: net.via.update(v, Some(t)),
                    done: net.done,
                    items: with_item(net.items, PqItem { vertex: v as usize, dist: alt as u64 }),
                }
            } else {
                net
            },
        )
    }
}

/// The search to its end: the nearest vertex that waits is settled and its tokens
/// are tried, until it is the last one.
pub open spec fn settled_all(rows: Seq<Seq<TsTok>>, run: int, net: Net) -> Net
    decreases open_count(net.done), net.items.len(),
{
    if net.items.len() == 0 {
        net
    } else {
        let x = net.items[0];
        let rest = Net { items: without_first(net.items), ..net };
        let u = x.vertex as int;
        if !net.done[u] && x.dist == net.dist[u] && x.dist < FAR {
            let next = tried_from(
                rows,
                run,
                u,
                0,
                Net { done: net.done.update(u, true), ..rest },
            );
            if u == rows.len() || open_count(next.done) >= open_count(net.done) {
                net
            } else {
                settled_all(rows, run, next)
            }
        } else if rest.items.len() < net.items.len() {
            settled_all(rows, run, rest)
        } else {
            net
        }
    }
}

/// The tokens that lead to `v`.
pub open spec fn led_by(via: Seq<Option<TsTok>>, run: int, v: int) -> Seq<TsTok>
    decreases v,
{
    if v <= 0 || via[v] is None {
        Seq::empty()
    } else {
        let t = via[v]->0;
        let l = tsstream::ts_len(t, run);
        if l <= 0 || l > v {
            Seq::empty()
        } else {
            led_by(via, run, v - l).push(t)
        }
    }
}

/// The tokens that the search ends with.
pub open spec fn path_found(rows: Seq<Seq<TsTok>>, run: int) -> Seq<TsTok> {
    let n = rows.len() as int;
    let start = Net {
        dist: Seq::new((n + 1) as nat, |v: int| FAR).update(0, 0),
        via: Seq::new((n + 1) as nat, |v: int| None),
        done: Seq::new((n + 1) as nat, |v: int| false),
        items: with_item(Seq::empty(), PqItem { vertex: 0, dist: 0 }),
    };
    led_by(settled_all(rows, run, start).via, run, n)
}

pub open spec fn rows_of(g: Seq<Vec<TsTok>>) -> Seq<Seq<TsTok>> {
    Seq::new(g.len(), |v: int| g[v]@)
}

spec fn over_ok(s: Seq<PqItem>, i: int) -> bool {
    i > 0 ==> s[(i - 1) / 2].dist <= s[i].dist
}

spec fn queue_ok(s: Seq<PqItem>) -> bool {
    forall|i: int| 0 <= i < s.len() ==> #[trigger] over_ok(s, i)
}

proof fn lemma_queue_top(s: Seq<PqItem>, i: int)
    requires
        queue_ok(s),
        0 <= i < s.len(),
    ensures
        s[0].dist <= s[i].dist,
    decreases i,
{
    if i > 0 {
        assert(over_ok(s, i));
        lemma_queue_top(s, (i - 1) / 2);
    }
}

proof fn lemma_set_item(s: Seq<PqItem>, i: int, v: PqItem)
    requires
        0 <= i < s.len(),
    ensures
        s.update(i, v).to_multiset() =~= s.to_multiset().remove(s[i]).insert(v),
{
    broadcast use vstd::seq_lib::group_to_multiset_ensures;

    let t = s.update(i, v);
    assert(t.remove(i) =~= s.remove(i));
    assert(t.remove(i).to_multiset() == t.to_multiset().remove(v));
    assert(s.remove(i).to_multiset() == s.to_multiset().remove(s[i]));
    assert(t.contains(t[i]));
    assert(t.to_multiset().count(v) > 0);
    assert(t.to_multiset() =~= t.to_multiset().remove(v).insert(v));
}

proof fn lemma_swap_items(s: Seq<PqItem>, i: int, j: int)
    requires
        0 <= i < s.len(),
        0 <= j < s.len(),
        i != j,
    ensures
        s.update(i, s[j]).update(j, s[i]).to_multiset() =~= s.to_multiset(),
{
    broadcast use vstd::seq_lib::group_to_multiset_ensures;

    let a = s[i];
    let b = s[j];
    lemma_set_item(s, i, b);
    lemma_set_item(s.update(i, b), j, a);
    assert(s.contains(s[i]));
    assert(s.to_multiset().count(a) > 0);
    assert(s.contains(s[j]));
    assert(s.to_multiset().count(b) > 0);
    assert(s.to_multiset().remove(a).insert(b).remove(b).insert(a) =~= s.to_multiset());
}

/// Binary heap with the smallest distance on top.
struct PriorityQueue {
    items: Vec<PqItem>,
}

impl PriorityQueue {
    spec fn held(&self) -> Multiset<PqItem> {
        self.items@.to_multiset()
    }

    spec fn wf(&self) -> bool {
        queue_ok(self.items@)
    }

    fn push(&mut self, vertex: usize, dist: u64)
        requires
            old(self).wf(),
        ensures
            final(self).wf(),
            final(self).held() == old(self).held().insert(PqItem { vertex, dist }),
            final(self).items@ == with_item(old(self).items@, PqItem { vertex, dist }),
    {
        let v: PqItem = PqItem { vertex, dist };
        let ghost d0 = self.items@;
        self.items.push(v);
        proof {
            broadcast use vstd::seq_lib::group_to_multiset_ensures;

            assert(self.items@ == d0.push(v));
            assert forall|j: int| 0 <= j < self.items@.len() && j != d0.len() implies #[trigger] over_ok(
                self.items@,
                j,
            ) by {
                assert(over_ok(d0, j));
            }
        }
        let mut idx: usize = self.items.len() - 1;
        while idx > 0
            invariant_except_break
                0 <= idx < self.items@.len(),
                gone_up(self.items@, idx as int) == with_item(d0, v),
                self.items@.to_multiset() == d0.to_multiset().insert(v),
                forall|j: int|
                    0 <= j < self.items@.len() && j != idx ==> #[trigger] over_ok(self.items@, j),
                idx > 0 ==> forall|j: int|
                    0 < j < self.items@.len() && (j - 1) / 2 == idx ==> self.items@[(idx - 1) / 2].dist
                        <= (#[trigger] self.items@[j]).dist,
            ensures
                queue_ok(self.items@),
                self.items@ == with_item(d0, v),
                self.items@.to_multiset() == d0.to_multiset().insert(v),
            decreases idx,
        {
            let parent: usize = (idx - 1) / 2;
            let a: PqItem = self.items[parent];
            let b: PqItem = self.items[idx];
            if a.dist <= b.dist {
                assert(over_ok(self.items@, idx as int));
                break;
            }
            let ghost s = self.items@;
            self.items.set(parent, b);
            self.items.set(idx, a);
            proof {
                let p = parent as int;
                lemma_swap_items(s, p, idx as int);
                let t = self.items@;
                assert(t =~= s.update(p, s[idx as int]).update(idx as int, s[p]));
                assert forall|j: int| 0 <= j < t.len() && j != p implies #[trigger] over_ok(t, j) by {
                    if j != idx {
                        assert(over_ok(s, j));
                    }
                }
                if p > 0 {
                    assert(over_ok(s, p));
                    assert forall|j: int| 0 < j < t.len() && (j - 1) / 2 == p implies t[(p - 1) / 2].dist
                        <= (#[trigger] t[j]).dist by {
                        if j != idx {
                            assert(over_ok(s, j));
                        }
                    }
                }
            }
            idx = parent;
            if idx == 0 {
                assert(over_ok(self.items@, 0));
            }
        }
    }

    /// Takes the item with the smallest distance.
    fn pop(&mut self) -> (item: Option<PqItem>)
        requires
            old(self).wf(),
        ensures
            final(self).wf(),
            match item {
                None => old(self).held().len() == 0 && final(self).held() == old(self).held()
                    && old(self).items@.len() == 0,
                Some(it) => {
                    &&& old(self).items@.len() > 0
                    &&& it == old(self).items@[0]
                    &&& final(self).items@ == without_first(old(self).items@)
                    &&& final(self).items@.len() == old(self).items@.len() - 1
                    &&& old(self).held().count(it) > 0
                    &&& final(self).held() == old(self).held().remove(it)
                    &&& forall|x: PqItem| old(self).held().count(x) > 0 ==> it.dist <= #[trigger] x.dist
                },
            },
    {
        let ghost d0 = self.items@;
        proof {
            broadcast use vstd::seq_lib::group_to_multiset_ensures;

        }
        let n: usize = self.items.len();
        if n == 0 {
            return None;
        }
        proof {
            broadcast use vstd::seq_lib::group_to_multiset_ensures;

            assert(d0.contains(d0[0]));
            assert forall|x: PqItem| d0.to_multiset().count(x) > 0 implies d0[0].dist <= #[trigger] x.dist by {
                assert(d0.contains(x));
                let i = choose|i: int| 0 <= i < d0.len() && d0[i] == x;
                lemma_queue_top(d0, i);
            }
        }
        let out: PqItem = self.items[0];
        let last: PqItem = self.items[n - 1];
        self.items.set(0, last);
        let ghost d1 = self.items@;
        let _ = self.items.pop();
        let ghost want = d0.to_multiset().remove(d0[0]);
        proof {
            broadcast use vstd::seq_lib::group_to_multiset_ensures;

            lemma_set_item(d0, 0, last);
            assert(self.items@ =~= d1.remove(n - 1));
            assert(d1.remove(n - 1).to_multiset() == d1.to_multiset().remove(d1[n - 1]));
            assert(self.items@.to_multiset() =~= want);
            assert(self.items@ =~= d0.update(0, d0.last()).drop_last());
        }
        let ghost all = without_first(d0);
        let m: usize = n - 1;
        let mut idx: usize = 0;
        assert forall|j: int| 0 <= j < m && (j <= 0 || (j - 1) / 2 != 0) implies #[trigger] over_ok(
            self.items@,
            j,
        ) by {
            if j > 0 {
                assert(over_ok(d0, j));
            }
        }
        while idx < m && idx < m / 2
            invariant_except_break
                m == self.items@.len(),
                idx <= m,
                all == gone_down(self.items@, idx as int),
                self.items@.to_multiset() == want,
                forall|j: int|
                    0 <= j < m && (j <= 0 || (j - 1) / 2 != idx) ==> #[trigger] over_ok(
                        self.items@,
                        j,
                    ),
                idx > 0 ==> forall|j: int|
                    0 < j < m && (j - 1) / 2 == idx ==> self.items@[(idx - 1) / 2].dist
                        <= (#[trigger] self.items@[j]).dist,
            ensures
                queue_ok(self.items@),
                self.items@.len() == m,
                self.items@ == all,
                self.items@.to_multiset() == want,
            decreases m - idx,
        {
            let left: usize = idx * 2 + 1;
            let right: usize = left + 1;
            let mut smallest: usize = idx;
            if left < m && self.items[left].dist < self.items[smallest].dist {
                smallest = left;
            }
            if right < m && self.items[right].dist < self.items[smallest].dist {
                smallest = right;
            }
            let ghost s = self.items@;
            assert(smallest == nearest_of(s, idx as int));
            if smallest == idx {
                assert forall|j: int| 0 <= j < m implies #[trigger] over_ok(s, j) by {
                    if j > 0 && (j - 1) / 2 == idx {
                        assert(j == left || j == right);
                    }
                }
                break;
            }
            let a: PqItem = self.items[idx];
            let b: PqItem = self.items[smallest];
            self.items.set(idx, b);
            self.items.set(smallest, a);
            proof {
                let c = smallest as int;
                lemma_swap_items(s, idx as int, c);
                let t = self.items@;
                assert(t =~= s.update(idx as int, s[c]).update(c, s[idx as int]));
                assert((c - 1) / 2 == idx);
                assert forall|j: int| 0 <= j < m && (j <= 0 || (j - 1) / 2 != c) implies #[trigger] over_ok(
                    t,
                    j,
                ) by {
                    if j > 0 && (j - 1) / 2 == idx {
                        assert(j == left || j == right);
                    } else if j == idx {
                        if idx > 0 {
                            assert(s[(idx - 1) / 2].dist <= s[c].dist);
                        }
                    } else {
                        assert(over_ok(s, j));
                    }
                }
                assert forall|j: int| 0 < j < m && (j - 1) / 2 == c implies t[(c - 1) / 2].dist <= (
                #[trigger] t[j]).dist by {
                    assert(over_ok(s, j));
                }
            }
            idx = smallest;
        }
        Some(out)
    }
}

// ---------------------------------------------------------------------------
// Distances
// ---------------------------------------------------------------------------
/// No way to the vertex is known.
pub const FAR: u64 = 0x1fff_ffff_ffff_ffff;

/// The longest input.
pub const MAX_TOKENS: usize = 0x0fff_ffff;

/// Vertices that are not settled.
pub open spec fn open_count(done: Seq<bool>) -> nat
    decreases done.len(),
{
    if done.len() == 0 {
        0
    } else {
        open_count(done.drop_last()) + if done.last() {
            0nat
        } else {
            1nat
        }
    }
}

proof fn lemma_open_count(done: Seq<bool>, u: int)
    requires
        0 <= u < done.len(),
        !done[u],
    ensures
        open_count(done.update(u, true)) + 1 == open_count(done),
    decreases done.len(),
{
    let d = done.update(u, true);
    if u == done.len() - 1 {
        assert(d.drop_last() =~= done.drop_last());
    } else {
        lemma_open_count(done.drop_last(), u);
        assert(d.drop_last() =~= done.drop_last().update(u, true));
    }
}

/// The best way to every vertex so far: its distance, the token that leads
/// there, and whether all tokens from there have been tried.
struct Reach {
    dist: Vec<u64>,
    via: Vec<Option<TsTok>>,
    done: Vec<bool>,
}

impl Reach {
    /// The search with these items waiting.
    spec fn net(&self, pq: &PriorityQueue) -> Net {
        Net { dist: self.dist@, via: self.via@, done: self.done@, items: pq.items@ }
    }

    spec fn sized(&self, n: int) -> bool {
        &&& self.dist@.len() == n + 1
        &&& self.via@.len() == n + 1
        &&& self.done@.len() == n + 1
    }

    /// The token that leads to `v` comes from a settled vertex, and the
    /// distance is that of the vertex and the cost of the token.
    spec fn came_from(&self, g: Seq<Vec<TsTok>>, run: int, v: int) -> bool {
        if v == 0 {
            self.dist@[0] == 0
        } else {
            self.dist@[v] < FAR ==> {
                &&& self.via@[v] is Some
                &&& {
                    let t = self.via@[v]->0;
                    let u = v - tsstream::ts_len(t, run);
                    &&& 0 <= u < v
                    &&& g[u]@.contains(t)
                    &&& self.done@[u]
                    &&& self.dist@[u] < FAR
                    &&& self.dist@[v] == self.dist@[u] + cost_of(t)
                }
            }
        }
    }

    /// A vertex that is not settled waits in the queue.
    spec fn waits(&self, q: Multiset<PqItem>, v: int) -> bool {
        self.dist@[v] < FAR && !self.done@[v] ==> q.count(
            PqItem { vertex: v as usize, dist: self.dist@[v] },
        ) > 0
    }

    /// Token `k` from `u` has been tried.
    spec fn tried(&self, g: Seq<Vec<TsTok>>, run: int, u: int, k: int) -> bool {
        self.dist@[u + tsstream::ts_len(g[u]@[k], run)] <= self.dist@[u] + cost_of(g[u]@[k])
    }

    spec fn settled(&self, g: Seq<Vec<TsTok>>, run: int, u: int, cur: int) -> bool {
        self.done@[u] ==> {
            &&& u < g.len()
            &&& self.dist@[u] <= cur
            &&& self.dist@[u] < FAR
        }
    }

    spec fn wf(&self, g: Seq<Vec<TsTok>>, run: int, q: Multiset<PqItem>, cur: int) -> bool {
        let n = g.len() as int;
        &&& self.sized(n)
        &&& forall|v: int| 0 <= v <= n ==> #[trigger] self.came_from(g, run, v)
        &&& forall|v: int| 0 <= v <= n ==> #[trigger] self.waits(q, v)
        &&& forall|u: int| 0 <= u <= n ==> #[trigger] self.settled(g, run, u, cur)
        &&& forall|x: PqItem| #[trigger] q.count(x) > 0 ==> x.vertex <= n && cur <= x.dist
        &&& forall|v: int| 0 <= v <= n && #[trigger] self.dist@[v] < FAR ==> self.dist@[v]
            <= 0x1000_0000 * v
    }

    /// All tokens of every settled vertex but `except` have been tried.
    spec fn all_tried(&self, g: Seq<Vec<TsTok>>, run: int, except: int) -> bool {
        forall|u: int, k: int|
            0 <= u < g.len() && u != except && self.done@[u] && 0 <= k < g[u]@.len()
                ==> #[trigger] self.tried(g, run, u, k)
    }
}

/// No way from `v` can beat what waits in the queue.
proof fn lemma_no_shortcut(
    r: Reach,
    src: Seq<u8>,
    g: Seq<Vec<TsTok>>,
    run: int,
    q: Multiset<PqItem>,
    cur: int,
    bound: int,
    v: int,
    s: Seq<TsTok>,
)
    requires
        graph_ok(src, g, run),
        1 <= run,
        r.wf(g, run, q, cur),
        r.all_tried(g, run, -1),
        forall|x: PqItem| #[trigger] q.count(x) > 0 ==> bound <= x.dist,
        g.len() <= MAX_TOKENS,
        0 <= v <= g.len(),
        r.dist@[v] < FAR,
        way(g, run, v, s),
    ensures
        r.dist@[v] + way_cost(s) >= bound,
    decreases s.len(),
{
    lemma_way(src, g, run, v, s);
    assert(r.waits(q, v));
    assert(r.settled(g, run, v, cur));
    if r.done@[v] {
        assert(s.len() > 0);
        assert(row_ok(src, v, run, g[v]@));
        let k = choose|k: int| 0 <= k < g[v]@.len() && g[v]@[k] == s[0];
        assert(tsstream::ts_ok(src, v, g[v]@[k], run));
        assert(r.tried(g, run, v, k));
        let w = v + tsstream::ts_len(s[0], run);
        lemma_cost_positive(src, v, run, s[0]);
        assert(r.dist@[v] <= 0x1000_0000 * v);
        assert(r.dist@[w] < FAR);
        lemma_no_shortcut(r, src, g, run, q, cur, bound, w, s.skip(1));
    } else {
        assert(q.count(PqItem { vertex: v as usize, dist: r.dist@[v] }) > 0);
    }
}

/// Tries all tokens from `u`, which is the vertex just settled.
fn relax(
    reach: &mut Reach,
    pq: &mut PriorityQueue,
    src: &[u8],
    run: usize,
    u: usize,
    graph: &Vec<Vec<TsTok>>,
)
    requires
        graph_ok(src@, graph@, run as int),
        src@.len() <= MAX_TOKENS,
        u < graph@.len(),
        1 <= run <= 256,
        old(pq).wf(),
        old(reach).done@.len() == graph@.len() + 1,
        old(reach).done@[u as int],
        old(reach).dist@.len() == graph@.len() + 1,
        old(reach).wf(graph@, run as int, old(pq).held(), old(reach).dist@[u as int] as int),
        old(reach).dist@[u as int] < FAR,
        old(reach).all_tried(graph@, run as int, u as int),
    ensures
        final(pq).wf(),
        final(reach).done@ == old(reach).done@,
        final(reach).dist@.len() == graph@.len() + 1,
        final(reach).wf(
            graph@,
            run as int,
            final(pq).held(),
            old(reach).dist@[u as int] as int,
        ),
        final(reach).all_tried(graph@, run as int, -1),
        final(reach).net(final(pq)) == tried_from(
            rows_of(graph@),
            run as int,
            u as int,
            0,
            old(reach).net(old(pq)),
        ),
{
    let ghost g = graph@;
    let ghost r = run as int;
    let n: usize = src.len();
    let from: u64 = reach.dist[u];
    let row: &Vec<TsTok> = &graph[u];
    let count: usize = row.len();
    let ghost done0 = reach.done@;
    let ghost rows = rows_of(graph@);
    let ghost goal = tried_from(rows, r, u as int, 0, reach.net(pq));
    assert(row_ok(src@, u as int, r, row@));
    let mut k: usize = 0;
    while k < count
        invariant
            g == graph@,
            r == run,
            n == src@.len(),
            n == g.len(),
            n <= MAX_TOKENS,
            graph_ok(src@, g, r),
            u < n,
            row@ == g[u as int]@,
            row_ok(src@, u as int, r, row@),
            count == row@.len(),
            k <= count,
            1 <= run <= 256,
            from < FAR,
            pq.wf(),
            reach.sized(n as int),
            reach.done@ == done0,
            reach.done@[u as int],
            reach.dist@[u as int] == from,
            reach.wf(g, r, pq.held(), from as int),
            reach.all_tried(g, r, u as int),
            rows == rows_of(g),
            goal == tried_from(rows, r, u as int, k as int, reach.net(pq)),
            forall|j: int| 0 <= j < k ==> #[trigger] reach.tried(g, r, u as int, j),
        decreases count - k,
    {
        let t: TsTok = row[k];
        let size: usize = tok_size(&t, run);
        proof {
            assert(tsstream::ts_ok(src@, u as int, row@[k as int], r));
            assert(reach.dist@[u as int] <= 0x1000_0000 * u);
        }
        let v: usize = u + size;
        let alt: u64 = from + token_cost(&t, Ghost(src@), Ghost(u as int), Ghost(r));
        let ghost r0 = *reach;
        let ghost q0 = pq.held();
        let ghost net0 = reach.net(pq);
        assert(rows[u as int][k as int] == t);
        if alt < reach.dist[v] {
            reach.dist.set(v, alt);
            reach.via.set(v, Some(t));
            pq.push(v, alt);
            proof {
                assert(r0.settled(g, r, v as int, from as int));
                assert(!done0[v as int]);
                let q1 = pq.held();
                assert(row@.contains(t));
                assert forall|x: int| 0 <= x <= n implies #[trigger] reach.came_from(g, r, x) by {
                    assert(r0.came_from(g, r, x));
                }
                assert forall|x: int| 0 <= x <= n implies #[trigger] reach.waits(q1, x) by {
                    assert(r0.waits(q0, x));
                }
                assert forall|x: int| 0 <= x <= n implies #[trigger] reach.settled(
                    g,
                    r,
                    x,
                    from as int,
                ) by {
                    assert(r0.settled(g, r, x, from as int));
                }
                assert forall|x: PqItem| #[trigger] q1.count(x) > 0 implies x.vertex <= n && from
                    <= x.dist by {
                    if x != (PqItem { vertex: v, dist: alt }) {
                        assert(q0.count(x) > 0);
                    }
                }
                assert forall|x: int| 0 <= x <= n && #[trigger] reach.dist@[x] < FAR implies reach.dist@[x]
                    <= 0x1000_0000 * x by {
                    if x != v {
                        assert(r0.dist@[x] == reach.dist@[x]);
                    }
                }
                assert forall|a: int, b: int|
                    0 <= a < g.len() && a != u && reach.done@[a] && 0 <= b < g[a]@.len() implies
                    #[trigger] reach.tried(g, r, a, b) by {
                    assert(r0.tried(g, r, a, b));
                    assert(row_ok(src@, a, r, g[a]@));
                    assert(tsstream::ts_ok(src@, a, g[a]@[b], r));
                }
                assert forall|j: int| 0 <= j < k implies #[trigger] reach.tried(g, r, u as int, j) by {
                    assert(r0.tried(g, r, u as int, j));
                    assert(tsstream::ts_ok(src@, u as int, row@[j], r));
                }
            }
        }
        assert(reach.tried(g, r, u as int, k as int));
        k += 1;
    }
}

/// The vertex of the least item is settled next.
proof fn lemma_settle(
    r0: Reach,
    r1: Reach,
    g: Seq<Vec<TsTok>>,
    run: int,
    q0: Multiset<PqItem>,
    q1: Multiset<PqItem>,
    item: PqItem,
    cur: int,
)
    requires
        g.len() <= MAX_TOKENS,
        r0.wf(g, run, q0, cur),
        r0.all_tried(g, run, -1),
        item.vertex < g.len(),
        !r0.done@[item.vertex as int],
        r0.dist@[item.vertex as int] == item.dist,
        item.dist < FAR,
        q0.count(item) > 0,
        q1 == q0.remove(item),
        forall|x: PqItem| q0.count(x) > 0 ==> item.dist <= #[trigger] x.dist,
        r1.dist == r0.dist,
        r1.via == r0.via,
        r1.done@ == r0.done@.update(item.vertex as int, true),
    ensures
        r1.wf(g, run, q1, item.dist as int),
        r1.all_tried(g, run, item.vertex as int),
{
    let n = g.len() as int;
    let u = item.vertex as int;
    assert(cur <= item.dist);
    assert forall|x: int| 0 <= x <= n implies #[trigger] r1.came_from(g, run, x) by {
        assert(r0.came_from(g, run, x));
    }
    assert forall|x: int| 0 <= x <= n implies #[trigger] r1.waits(q1, x) by {
        assert(r0.waits(q0, x));
        assert(x as usize == x);
    }
    assert forall|x: int| 0 <= x <= n implies #[trigger] r1.settled(g, run, x, item.dist as int) by {
        assert(r0.settled(g, run, x, cur));
    }
    assert forall|x: PqItem| #[trigger] q1.count(x) > 0 implies x.vertex <= n && item.dist <= x.dist by {
        assert(q0.count(x) > 0);
    }
    assert forall|a: int, b: int|
        0 <= a < g.len() && a != u && r1.done@[a] && 0 <= b < g[a]@.len() implies #[trigger] r1.tried(
        g,
        run,
        a,
        b,
    ) by {
        assert(r0.tried(g, run, a, b));
    }
}

/// An item whose distance is out of date is dropped.
proof fn lemma_stale(
    r: Reach,
    g: Seq<Vec<TsTok>>,
    run: int,
    q0: Multiset<PqItem>,
    q1: Multiset<PqItem>,
    item: PqItem,
    cur: int,
)
    requires
        g.len() <= MAX_TOKENS,
        r.wf(g, run, q0, cur),
        q0.count(item) > 0,
        q1 == q0.remove(item),
        r.done@[item.vertex as int] || r.dist@[item.vertex as int] != item.dist || item.dist >= FAR,
    ensures
        r.wf(g, run, q1, cur),
{
    assert forall|x: int| 0 <= x <= g.len() implies #[trigger] r.waits(q1, x) by {
        assert(r.waits(q0, x));
        assert(x as usize == x);
    }
    assert forall|x: PqItem| #[trigger] q1.count(x) > 0 implies x.vertex <= g.len() && cur <= x.dist by {
        assert(q0.count(x) > 0);
    }
}

/// The tokens that led to the end.
fn walk_back(reach: &Reach, src: &[u8], run: usize, graph: &Vec<Vec<TsTok>>) -> (toks: Vec<TsTok>)
    requires
        src@.len() == graph@.len(),
        reach.sized(graph@.len() as int),
        forall|v: int| 0 <= v <= graph@.len() ==> #[trigger] reach.came_from(graph@, run as int, v),
        reach.dist@[graph@.len() as int] < FAR,
    ensures
        way(graph@, run as int, 0, toks@),
        way_cost(toks@) == reach.dist@[graph@.len() as int],
        toks@ == led_by(reach.via@, run as int, graph@.len() as int),
{
    let ghost g = graph@;
    let ghost r = run as int;
    let n: usize = src.len();
    let mut back: Vec<TsTok> = Vec::new();
    let mut v: usize = n;
    let ghost goal = led_by(reach.via@, r, n as int);
    assert(back@.reverse() =~= Seq::<TsTok>::empty());
    assert(goal + back@.reverse() =~= goal);
    while v > 0
        invariant
            g == graph@,
            r == run,
            n == g.len(),
            v <= n,
            reach.sized(n as int),
            forall|v: int| 0 <= v <= n ==> #[trigger] reach.came_from(g, r, v),
            reach.dist@[v as int] < FAR,
            way(g, r, v as int, back@.reverse()),
            way_cost(back@.reverse()) == reach.dist@[n as int] - reach.dist@[v as int],
            goal == led_by(reach.via@, r, v as int) + back@.reverse(),
        decreases v,
    {
        assert(reach.came_from(g, r, v as int));
        match reach.via[v] {
            None => {
                assert(false);
                v = 0;
            },
            Some(t) => {
                let ghost tail = back@.reverse();
                back.push(t);
                let size: usize = tok_size(&t, run);
                proof {
                    let s = back@.reverse();
                    assert(s =~= seq![t] + tail);
                    assert(s.skip(1) =~= tail);
                    let a = led_by(reach.via@, r, v - tsstream::ts_len(t, r));
                    assert(a.push(t) + tail =~= a + s);
                }
                v -= size;
            },
        }
    }
    assert(reach.came_from(g, r, 0));
    let count: usize = back.len();
    let mut toks: Vec<TsTok> = Vec::with_capacity(count);
    let mut k: usize = count;
    while k > 0
        invariant
            k <= count,
            count == back@.len(),
            toks@.len() == count - k,
            forall|j: int| 0 <= j < count - k ==> #[trigger] toks@[j] == back@[count - 1 - j],
        decreases k,
    {
        k -= 1;
        toks.push(back[k]);
    }
    assert(toks@ =~= back@.reverse());
    assert(led_by(reach.via@, r, 0) + back@.reverse() =~= back@.reverse());
    toks
}

/// The cheapest tokens for the input that the graph has.
pub fn cheapest_tokens(src: &[u8], run: usize, graph: &Vec<Vec<TsTok>>) -> (toks: Vec<TsTok>)
    requires
        graph_ok(src@, graph@, run as int),
        src@.len() <= MAX_TOKENS,
        1 <= run <= 256,
    ensures
        cheapest_way(graph@, run as int, toks@),
        toks@ == path_found(rows_of(graph@), run as int),
{
    let n: usize = src.len();
    let ghost g = graph@;
    let ghost r = run as int;
    let mut reach: Reach = Reach {
        dist: vec![FAR; n + 1],
        via: Vec::with_capacity(n + 1),
        done: vec![false; n + 1],
    };
    let mut z: usize = 0;
    while z < n + 1
        invariant
            n < usize::MAX,
            z <= n + 1,
            reach.dist@ == Seq::new((n + 1) as nat, |i: int| FAR),
            reach.done@ == Seq::new((n + 1) as nat, |i: int| false),
            reach.via@.len() == z,
            forall|k: int| 0 <= k < z ==> #[trigger] reach.via@[k] is None,
        decreases n + 1 - z,
    {
        reach.via.push(None);
        z += 1;
    }
    reach.dist.set(0, 0);
    let mut pq: PriorityQueue = PriorityQueue { items: Vec::with_capacity(16) };
    proof {
        broadcast use vstd::seq_lib::group_to_multiset_ensures;

        assert(pq.held() =~= Multiset::empty());
    }
    assert(pq.items@ =~= Seq::<PqItem>::empty());
    pq.push(0, 0);
    let ghost mut cur: int = 0;
    let ghost rows = rows_of(g);
    let ghost goal = settled_all(rows, r, reach.net(&pq));
    proof {
        assert(reach.dist@ =~= Seq::new((n + 1) as nat, |v: int| FAR).update(0, 0));
        assert(reach.via@ =~= Seq::new((n + 1) as nat, |v: int| None));
        assert(path_found(rows, r) == led_by(goal.via, r, n as int));
        assert(pq.held().count(PqItem { vertex: 0, dist: 0 }) > 0);
        assert forall|x: int| 0 <= x <= n implies #[trigger] reach.waits(pq.held(), x) by {}
        assert forall|x: int| 0 <= x <= n implies #[trigger] reach.came_from(g, r, x) by {}
        assert(reach.wf(g, r, pq.held(), 0));
    }
    let mut over: bool = false;
    while !over
        invariant
            g == graph@,
            r == run,
            n == src@.len(),
            n == g.len(),
            n <= MAX_TOKENS,
            graph_ok(src@, g, r),
            1 <= run <= 256,
            pq.wf(),
            reach.sized(n as int),
            forall|v: int| 0 <= v <= n ==> #[trigger] reach.came_from(g, r, v),
            !over ==> reach.wf(g, r, pq.held(), cur) && reach.all_tried(g, r, -1),
            rows == rows_of(g),
            !over ==> goal == settled_all(rows, r, reach.net(&pq)),
            over ==> goal.via == reach.via@,
            over ==> reach.dist@[n as int] < FAR && forall|q: Seq<TsTok>| #[trigger]
                way(g, r, 0, q) ==> reach.dist@[n as int] <= way_cost(q),
        decreases open_count(reach.done@), pq.held().len(), (if over { 0int } else { 1int }),
    {
        let ghost q0 = pq.held();
        let ghost net0 = reach.net(&pq);
        match pq.pop() {
            None => {
                proof {
                    let s = lemma_small_steps(src@, g, r, 0);
                    assert(reach.came_from(g, r, 0));
                    assert forall|x: PqItem| #[trigger] q0.count(x) > 0 implies way_cost(s) + 1 <= x.dist by {
                        assert(q0.contains(x));
                        assert(q0.remove(x).len() == q0.len() - 1);
                    }
                    lemma_no_shortcut(reach, src@, g, r, q0, cur, way_cost(s) + 1, 0, s);
                    assert(false);
                }
                over = true;
            },
            Some(item) => {
                let u: usize = item.vertex;
                proof {
                    assert(q0.count(item) > 0);
                    assert(pq.held().len() == q0.len() - 1);
                }
                if !reach.done[u] && item.dist == reach.dist[u] && item.dist < FAR {
                    if u == n {
                        proof {
                            assert(reach.came_from(g, r, 0));
                            assert forall|q: Seq<TsTok>| #[trigger] way(g, r, 0, q) implies reach.dist@[n as int]
                                <= way_cost(q) by {
                                lemma_no_shortcut(
                                    reach,
                                    src@,
                                    g,
                                    r,
                                    q0,
                                    cur,
                                    item.dist as int,
                                    0,
                                    q,
                                );
                            }
                        }
                        over = true;
                    } else {
                        let ghost r0 = reach;
                        reach.done.set(u, true);
                        proof {
                            lemma_open_count(r0.done@, u as int);
                            lemma_settle(r0, reach, g, r, q0, pq.held(), item, cur);
                            cur = item.dist as int;
                        }
                        relax(&mut reach, &mut pq, src, run, u, graph);
                        assert(goal == settled_all(rows, r, reach.net(&pq)));
                    }
                } else {
                    proof {
                        lemma_stale(reach, g, r, q0, pq.held(), item, cur);
                    }
                }
            },
        }
    }
    walk_back(&reach, src, run, graph)
}

} // verus!
