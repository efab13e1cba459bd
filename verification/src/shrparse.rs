//! The search for cheap tokens of a Shrinkler stream. Every reference is an edge
//! that remembers the reference before it; of the edges with one offset that end
//! at one position the cheapest is kept.
use crate::lz;
use crate::shrcost::SizeMeasurer;
use crate::shrmap::{part_of, CuckooHash, UNUSED};
use crate::shrmatch::MatchFinder;
use crate::shrstream::MAX_INPUT;
use crate::uparse::Found;
use crate::upkrenc::Op;
use crate::uparse;
use crate::upkrenc;
use crate::shrenc;
use vstd::multiset::Multiset;
use vstd::prelude::*;

verus! {

/// No edge.
const NONE: u32 = 0xffff_ffff;

/// A reference in the search: where it stands, what the whole stream costs with
/// it and literals behind it, and the reference before it.
#[derive(Clone, Copy)]
struct RefEdge {
    pos: u32,
    offset: u32,
    length: u32,
    total_size: u64,
    refcount: u32,
    source: u32,
    heap_index: usize,
}

/// Where a reference ends.
spec fn end_of(e: RefEdge) -> int {
    if e.pos + e.length > usize::MAX {
        usize::MAX as int
    } else {
        e.pos + e.length
    }
}

fn target_of(e: &RefEdge) -> (t: usize)
    ensures
        t == end_of(*e),
{
    (e.pos as usize).saturating_add(e.length as usize)
}

/// What stands for an edge where there is none.
spec fn no_edge() -> RefEdge {
    RefEdge {
        pos: 0,
        offset: 0,
        length: 0,
        total_size: u64::MAX,
        refcount: 0,
        source: NONE,
        heap_index: 0,
    }
}

spec fn edge_at(edges: Seq<RefEdge>, id: u32) -> RefEdge {
    if id < edges.len() {
        edges[id as int]
    } else {
        no_edge()
    }
}

/// The edges with another one in place `id`, if there is such a place.
spec fn with_edge(edges: Seq<RefEdge>, id: u32, e: RefEdge) -> Seq<RefEdge> {
    if id < edges.len() {
        edges.update(id as int, e)
    } else {
        edges
    }
}

/// The same reference behind the same one.
spec fn same_ref(a: RefEdge, b: RefEdge) -> bool {
    &&& a.pos == b.pos
    &&& a.offset == b.offset
    &&& a.length == b.length
    &&& a.total_size == b.total_size
    &&& a.source == b.source
}

/// The same references in the same places.
spec fn same_refs(a: Seq<RefEdge>, b: Seq<RefEdge>) -> bool {
    a.len() == b.len() && forall|k: int|
        0 <= k < a.len() ==> same_ref(#[trigger] a[k], b[k]) && same_ref(a[k], #[trigger] b[k])
}

spec fn plus_one(c: u32) -> u32 {
    if c == u32::MAX {
        c
    } else {
        (c + 1) as u32
    }
}

spec fn minus_one(c: u32) -> u32 {
    if c == 0 {
        c
    } else {
        (c - 1) as u32
    }
}

/// The edges and the number of those in use after one user less of the edge
/// `id`. An edge goes with its last user, and is a user less of the edge before
/// it.
spec fn released(edges: Seq<RefEdge>, count: usize, id: u32, left: nat) -> (Seq<RefEdge>, usize)
    decreases left,
{
    if id == NONE || left == 0 {
        (edges, count)
    } else {
        let e = edge_at(edges, id);
        let users = minus_one(e.refcount);
        if users > 0 {
            (with_edge(edges, id, RefEdge { refcount: users, ..e }), count)
        } else {
            released(
                with_edge(edges, id, RefEdge { refcount: users, ..e }),
                if count == 0 {
                    count
                } else {
                    (count - 1) as usize
                },
                e.source,
                (left - 1) as nat,
            )
        }
    }
}

/// The edges without their places in the heap.
spec fn plain(edges: Seq<RefEdge>) -> Seq<RefEdge> {
    Seq::new(edges.len(), |k: int| RefEdge { heap_index: 0, ..edges[k] })
}

/// The same edges stand at the same places of the heap.
spec fn same_places(a: Seq<RefEdge>, b: Seq<RefEdge>) -> bool {
    a.len() == b.len() && forall|k: int|
        0 <= k < a.len() ==> (#[trigger] a[k]).heap_index == b[k].heap_index
}

proof fn lemma_plain_at(edges: Seq<RefEdge>, id: u32, e: RefEdge)
    ensures
        edge_at(plain(edges), id) == (RefEdge { heap_index: 0, ..edge_at(edges, id) }),
        plain(with_edge(edges, id, e)) == with_edge(
            plain(edges),
            id,
            (RefEdge { heap_index: 0, ..e }),
        ),
{
    assert(plain(with_edge(edges, id, e)) =~= with_edge(
        plain(edges),
        id,
        (RefEdge { heap_index: 0, ..e }),
    ));
}

/// Who uses an edge has nothing to do with its place in the heap.
proof fn lemma_plain_released(edges: Seq<RefEdge>, count: usize, id: u32, left: nat)
    ensures
        released(plain(edges), count, id, left) == (
            plain(released(edges, count, id, left).0),
            released(edges, count, id, left).1,
        ),
        released(edges, count, id, left).0.len() == edges.len(),
    decreases left,
{
    if id != NONE && left > 0 {
        let e = edge_at(edges, id);
        let users = minus_one(e.refcount);
        let next = RefEdge { refcount: users, ..e };
        lemma_plain_at(edges, id, next);
        if users == 0 {
            lemma_plain_released(
                with_edge(edges, id, next),
                if count == 0 {
                    count
                } else {
                    (count - 1) as usize
                },
                e.source,
                (left - 1) as nat,
            );
        }
    }
}

/// Every edge of the heap knows its place there.
spec fn placed(heap: Seq<u32>, edges: Seq<RefEdge>) -> bool {
    forall|k: int|
        0 <= k < heap.len() ==> (#[trigger] heap[k]) < edges.len()
            && edges[heap[k] as int].heap_index == k
}

/// The heap is in order, the costliest on top.
#[verifier::opaque]
spec fn rooted(heap: Seq<u32>, edges: Seq<RefEdge>) -> bool {
    placed(heap, edges) && heap_order(weights(heap, edges))
}

proof fn lemma_rooted_empty(heap: Seq<u32>, edges: Seq<RefEdge>)
    requires
        heap.len() == 0,
    ensures
        rooted(heap, edges),
{
    reveal(rooted);
}

proof fn lemma_rooted_same(heap: Seq<u32>, a: Seq<RefEdge>, b: Seq<RefEdge>)
    requires
        rooted(heap, a),
        same_refs(a, b),
        same_places(a, b),
    ensures
        rooted(heap, b),
{
    reveal(rooted);
    lemma_same_weights(heap, a, b);
    assert forall|k: int| 0 <= k < heap.len() implies (#[trigger] heap[k]) < b.len()
        && b[heap[k] as int].heap_index == k by {
        assert(a[heap[k] as int].heap_index == b[heap[k] as int].heap_index);
    }
}

proof fn lemma_rooted_more(heap: Seq<u32>, a: Seq<RefEdge>, b: Seq<RefEdge>)
    requires
        rooted(heap, a),
        b.len() == a.len() + 1,
        same_refs(a, b.drop_last()),
        same_places(a, b.drop_last()),
        a.len() < NONE,
    ensures
        rooted(heap, b),
        !heap.contains(a.len() as u32),
{
    lemma_rooted_same(heap, a, b.drop_last());
    reveal(rooted);
    assert forall|k: int| 0 <= k < heap.len() implies (#[trigger] heap[k]) < b.len()
        && b[heap[k] as int].heap_index == k by {
        assert(b.drop_last()[heap[k] as int] == b[heap[k] as int]);
    }
    assert(weights(heap, b) =~= weights(heap, b.drop_last()));
}

/// The edges and the number of those in use after one user less of the edge
/// `id`.
spec fn let_go(edges: Seq<RefEdge>, count: usize, id: u32) -> (Seq<RefEdge>, usize) {
    released(edges, count, id, edges.len())
}

/// The same after one user less of each of the first `k` of a list.
spec fn all_let_go(edges: Seq<RefEdge>, count: usize, list: Seq<(u32, u32)>, k: int) -> (
    Seq<RefEdge>,
    usize,
)
    decreases k,
{
    if k <= 0 {
        (edges, count)
    } else {
        let (before, left) = all_let_go(edges, count, list, k - 1);
        let_go(before, left, list[k - 1].1)
    }
}

/// The edges without their places, the number of those in use, and those that
/// may be dropped.
type Stock = (Seq<RefEdge>, usize, Multiset<u32>);

/// What is left after the edge `id` was offered to a map: it takes the place of
/// one that costs more, or goes.
spec fn offer_left(s: Stock, map: Map<u32, u32>, id: u32) -> Stock {
    let e = edge_at(s.0, id);
    if e.offset == UNUSED {
        s
    } else if !map.contains_key(e.offset) {
        (s.0, s.1, s.2.insert(id))
    } else {
        let was = map[e.offset];
        if e.total_size < edge_at(s.0, was).total_size {
            let (edges, count) = let_go(s.0, s.1, was);
            (edges, count, s.2.remove(was).insert(id))
        } else {
            let (edges, count) = let_go(s.0, s.1, id);
            (edges, count, s.2)
        }
    }
}

/// None costs more than the one on top.
proof fn lemma_top(ws: Seq<u64>, k: int)
    requires
        heap_order(ws),
        0 <= k < ws.len(),
    ensures
        ws[0] >= ws[k],
    decreases k,
{
    if k > 0 {
        assert(ws[(k - 1) / 2] >= ws[k]);
        lemma_top(ws, (k - 1) / 2);
    }
}

/// What the edges of a heap cost, place by place.
spec fn weights(heap: Seq<u32>, edges: Seq<RefEdge>) -> Seq<u64> {
    Seq::new(heap.len(), |k: int| edge_at(edges, heap[k]).total_size)
}

/// No edge costs more than the one above it.
spec fn heap_order(ws: Seq<u64>) -> bool {
    forall|k: int| 1 <= k < ws.len() ==> ws[(k - 1) / 2] >= #[trigger] ws[k]
}

/// The same but for those below place `x`, which cost no more than the one
/// above it.
spec fn heap_order_above(ws: Seq<u64>, x: int) -> bool {
    &&& forall|k: int|
        1 <= k < ws.len() && (k - 1) / 2 != x ==> ws[(k - 1) / 2] >= #[trigger] ws[k]
    &&& forall|k: int|
        1 <= k < ws.len() && (k - 1) / 2 == x && x >= 1 ==> ws[(x - 1) / 2] >= #[trigger] ws[k]
}

/// The same but for place `x`, below which none costs more than the one above
/// it.
spec fn heap_order_below(ws: Seq<u64>, x: int) -> bool {
    &&& forall|k: int| 1 <= k < ws.len() && k != x ==> ws[(k - 1) / 2] >= #[trigger] ws[k]
    &&& forall|k: int|
        1 <= k < ws.len() && (k - 1) / 2 == x && x >= 1 ==> ws[(x - 1) / 2] >= #[trigger] ws[k]
}

proof fn lemma_swap_down(ws: Seq<u64>, x: int, c: int)
    requires
        0 <= x < ws.len(),
        1 <= c < ws.len(),
        (c - 1) / 2 == x,
        heap_order_above(ws, x),
        ws[x] <= ws[c],
        forall|k: int| 1 <= k < ws.len() && (k - 1) / 2 == x ==> ws[c] >= #[trigger] ws[k],
    ensures
        heap_order_above(ws.update(x, ws[c]).update(c, ws[x]), c),
{
    let v = ws.update(x, ws[c]).update(c, ws[x]);
    assert forall|k: int| 1 <= k < v.len() && (k - 1) / 2 != c implies v[(k - 1) / 2] >= #[trigger] v[k] by {
        assert(ws[k] == ws[k]);
        assert(ws[c] == ws[c]);
    }
    assert forall|k: int| 1 <= k < v.len() && (k - 1) / 2 == c && c >= 1 implies v[(c - 1) / 2]
        >= #[trigger] v[k] by {
        assert(ws[(k - 1) / 2] >= ws[k]);
    }
}

proof fn lemma_swap_up(ws: Seq<u64>, x: int)
    requires
        1 <= x < ws.len(),
        heap_order_below(ws, x),
        ws[(x - 1) / 2] < ws[x],
    ensures
        heap_order_below(ws.update(x, ws[(x - 1) / 2]).update((x - 1) / 2, ws[x]), (x - 1) / 2),
{
    let p = (x - 1) / 2;
    let v = ws.update(x, ws[p]).update(p, ws[x]);
    assert forall|k: int| 1 <= k < v.len() && k != p implies v[(k - 1) / 2] >= #[trigger] v[k] by {
        assert(ws[k] == ws[k]);
    }
    assert forall|k: int| 1 <= k < v.len() && (k - 1) / 2 == p && p >= 1 implies v[(p - 1) / 2]
        >= #[trigger] v[k] by {
        assert(ws[k] == ws[k]);
        assert(ws[p] == ws[p]);
    }
}

/// The place of an edge that went is taken by the last.
proof fn lemma_hole(w0: Seq<u64>, ws: Seq<u64>, i: int)
    requires
        heap_order(w0),
        0 <= i < ws.len(),
        w0.len() == ws.len() + 1,
        forall|k: int|
            0 <= k < ws.len() ==> #[trigger] ws[k] == if k == i {
                w0[w0.len() - 1]
            } else {
                w0[k]
            },
    ensures
        i > 0 && ws[(i - 1) / 2] < ws[i] ==> heap_order_below(ws, i),
        !(i > 0 && ws[(i - 1) / 2] < ws[i]) ==> heap_order_above(ws, i),
{
    assert forall|k: int| 1 <= k < ws.len() && k != i && (k - 1) / 2 != i implies ws[(k - 1) / 2]
        >= #[trigger] ws[k] by {
        assert(w0[(k - 1) / 2] >= w0[k]);
    }
    assert forall|k: int| 1 <= k < ws.len() && (k - 1) / 2 == i && i >= 1 implies ws[(i - 1) / 2]
        >= #[trigger] ws[k] by {
        assert(w0[(k - 1) / 2] >= w0[k]);
        assert(w0[(i - 1) / 2] >= w0[i]);
        assert(ws[(i - 1) / 2] == w0[(i - 1) / 2]);
    }
}

/// The last of a heap put in place `i`, and cut off.
proof fn lemma_remove_place(h: Seq<u32>, i: int)
    requires
        0 <= i < h.len(),
    ensures
        h.update(i, h.last()).drop_last().to_multiset() == h.to_multiset().remove(h[i]),
{
    broadcast use vstd::seq_lib::group_to_multiset_ensures;

    let u = h.update(i, h.last());
    assert(u.drop_last().push(u.last()) =~= u);
    assert(u.to_multiset() == u.drop_last().to_multiset().insert(u.last()));
    assert(u.last() == h.last());
    assert(u.to_multiset() =~= h.to_multiset().insert(h.last()).remove(h[i]));
    let rest = u.drop_last().to_multiset();
    assert(rest.insert(h.last()).remove(h.last()) =~= rest);
    assert(h.to_multiset().insert(h.last()).remove(h[i]).remove(h.last()) =~= h.to_multiset().remove(
        h[i],
    )) by {
        assert(h.to_multiset().count(h[i]) > 0) by {
            assert(h.contains(h[i]));
        }
    }
}

proof fn lemma_not_in(a: Seq<u32>, b: Seq<u32>, id: u32)
    requires
        a.to_multiset() == b.to_multiset(),
        forall|k: int| 0 <= k < a.len() ==> #[trigger] a[k] != id,
    ensures
        !b.contains(id),
{
    broadcast use vstd::seq_lib::group_to_multiset_ensures;

    assert(!a.contains(id));
    assert(b.to_multiset().count(id) == 0);
}

proof fn lemma_still_not_in(a: Seq<u32>, b: Seq<u32>, o: u32, id: u32)
    requires
        b.to_multiset() == a.to_multiset().remove(o),
        !a.contains(id),
    ensures
        !b.contains(id),
{
    broadcast use vstd::seq_lib::group_to_multiset_ensures;

    assert(a.to_multiset().count(id) == 0);
    assert(b.to_multiset().count(id) == 0);
}

proof fn lemma_same_weights(heap: Seq<u32>, a: Seq<RefEdge>, b: Seq<RefEdge>)
    requires
        same_refs(a, b),
    ensures
        weights(heap, a) == weights(heap, b),
{
    assert forall|k: int| 0 <= k < heap.len() implies #[trigger] weights(heap, a)[k] == weights(
        heap,
        b,
    )[k] by {
        if heap[k] < a.len() {
            assert(same_ref(a[heap[k] as int], b[heap[k] as int]));
        }
    }
    assert(weights(heap, a) =~= weights(heap, b));
}

/// A map was given a number for a key, or can grow no more.
spec fn was_put(a: CuckooHash, b: CuckooHash, key: u32, value: u32) -> bool {
    &&& b@ == a@.insert(key, value) || b.full_size()
    &&& a.full_size() ==> b.full_size()
    &&& part_of(b@, a@.insert(key, value))
}

/// The edge `id` is cheaper than the one that the map has for its offset, if it
/// has one.
spec fn is_better(map: CuckooHash, edges: Seq<RefEdge>, id: u32) -> bool {
    let e = edge_at(edges, id);
    !map@.contains_key(e.offset) || e.total_size < edge_at(edges, map@[e.offset]).total_size
}

/// A map after the edge `id` was offered to it: of the edges with one offset
/// the cheapest stays.
spec fn offered(a: CuckooHash, b: CuckooHash, edges: Seq<RefEdge>, id: u32) -> bool {
    let e = edge_at(edges, id);
    if e.offset != UNUSED && is_better(a, edges, id) {
        was_put(a, b, e.offset, id)
    } else {
        b == a
    }
}

/// The edges, the ones that may be dropped with the costliest on top, the
/// cheapest for each position and offset to come, and the cheapest for each
/// offset so far.
struct LZParser {
    edges: Vec<RefEdge>,
    edge_count: usize,
    edge_capacity: usize,
    heap: Vec<u32>,
    literal_size: Vec<u64>,
    edges_to_pos: Vec<CuckooHash>,
    best: u32,
    best_for_offset: CuckooHash,
}

impl LZParser {
    spec fn ok(&self, n: int) -> bool {
        &&& n <= MAX_INPUT
        &&& self.literal_size@.len() == n + 1
        &&& self.edges_to_pos@.len() == n + 1
        &&& forall|k: int| 0 <= k <= n ==> (#[trigger] self.edges_to_pos@[k]).wf()
        &&& self.best_for_offset.wf()
        &&& rooted(self.heap@, self.edges@)
    }

    /// Only the edges and the heap differ.
    spec fn same_maps(&self, o: &Self) -> bool {
        &&& self.literal_size == o.literal_size
        &&& self.edges_to_pos == o.edges_to_pos
        &&& self.best_for_offset == o.best_for_offset
        &&& self.best == o.best
        &&& self.edge_capacity == o.edge_capacity
    }

    /// Only the heap, and where the edges stand in it, differ.
    spec fn same_but_heap(&self, o: &Self) -> bool {
        &&& self.same_maps(o)
        &&& self.edge_count == o.edge_count
        &&& same_refs(o.edges@, self.edges@)
        &&& plain(self.edges@) == plain(o.edges@)
    }

    fn e(&self, id: u32) -> (e: RefEdge)
        ensures
            e == edge_at(self.edges@, id),
    {
        if (id as usize) < self.edges.len() {
            self.edges[id as usize]
        } else {
            RefEdge {
                pos: 0,
                offset: 0,
                length: 0,
                total_size: u64::MAX,
                refcount: 0,
                source: NONE,
                heap_index: 0,
            }
        }
    }

    fn set_e(&mut self, id: u32, e: RefEdge)
        ensures
            final(self).same_maps(old(self)),
            final(self).heap == old(self).heap,
            final(self).edge_count == old(self).edge_count,
            final(self).edges@ == with_edge(old(self).edges@, id, e),
    {
        if (id as usize) < self.edges.len() {
            self.edges.set(id as usize, e);
        }
    }

    fn set_heap_index(&mut self, id: u32, i: usize)
        ensures
            final(self).same_but_heap(old(self)),
            final(self).heap == old(self).heap,
            final(self).edges@ == with_edge(
                old(self).edges@,
                id,
                (RefEdge { heap_index: i, ..edge_at(old(self).edges@, id) }),
            ),
    {
        let mut e: RefEdge = self.e(id);
        e.heap_index = i;
        self.set_e(id, e);
        assert(plain(self.edges@) =~= plain(old(self).edges@));
    }

    /// The edges with a new one, which is a user of its source.
    spec fn edges_with(&self, edge: RefEdge) -> Seq<RefEdge> {
        let all = self.edges@.push(edge);
        let s = edge_at(all, edge.source);
        if edge.source != NONE {
            with_edge(all, edge.source, RefEdge { refcount: plus_one(s.refcount), ..s })
        } else {
            all
        }
    }

    /// A new edge. No number is given twice.
    fn create(&mut self, pos: u32, offset: u32, length: u32, total_size: u64, source: u32) -> (id: u32)
        requires
            old(self).edges@.len() < NONE,
        ensures
            final(self).same_maps(old(self)),
            final(self).heap == old(self).heap,
            id == old(self).edges@.len(),
            final(self).edges@ == old(self).edges_with(new_ref(pos, offset, length, total_size, source)),
            final(self).edge_count == if old(self).edge_count == usize::MAX {
                usize::MAX as int
            } else {
                old(self).edge_count + 1
            },
            rooted(old(self).heap@, old(self).edges@) ==> rooted(
                final(self).heap@,
                final(self).edges@,
            ) && !final(self).heap@.contains(id),
    {
        let ghost e0 = self.edges@;
        self.edge_count = self.edge_count.saturating_add(1);
        let id: u32 = self.edges.len() as u32;
        self.edges.push(
            RefEdge { pos, offset, length, total_size, refcount: 1, source, heap_index: 0 },
        );
        if source != NONE {
            let mut s: RefEdge = self.e(source);
            s.refcount = s.refcount.saturating_add(1);
            self.set_e(source, s);
        }
        proof {
            if rooted(self.heap@, e0) {
                lemma_rooted_more(self.heap@, e0, self.edges@);
            }
        }
        id
    }

    /// One user less of an edge, which goes with its last, as do those before it.
    fn release_edge(&mut self, edge: u32)
        ensures
            final(self).same_maps(old(self)),
            final(self).heap == old(self).heap,
            same_refs(old(self).edges@, final(self).edges@),
            same_places(old(self).edges@, final(self).edges@),
            (final(self).edges@, final(self).edge_count) == released(
                old(self).edges@,
                old(self).edge_count,
                edge,
                old(self).edges@.len(),
            ),
            (plain(final(self).edges@), final(self).edge_count) == let_go(
                plain(old(self).edges@),
                old(self).edge_count,
                edge,
            ),
            rooted(old(self).heap@, old(self).edges@) ==> rooted(
                final(self).heap@,
                final(self).edges@,
            ),
    {
        self.release_chain(edge);
        proof {
            lemma_plain_released(
                old(self).edges@,
                old(self).edge_count,
                edge,
                old(self).edges@.len(),
            );
            if rooted(self.heap@, old(self).edges@) {
                lemma_rooted_same(self.heap@, old(self).edges@, self.edges@);
            }
        }
    }

    fn release_chain(&mut self, edge: u32)
        ensures
            final(self).same_maps(old(self)),
            final(self).heap == old(self).heap,
            same_refs(old(self).edges@, final(self).edges@),
            same_places(old(self).edges@, final(self).edges@),
            (final(self).edges@, final(self).edge_count) == released(
                old(self).edges@,
                old(self).edge_count,
                edge,
                old(self).edges@.len(),
            ),
    {
        let mut id: u32 = edge;
        let mut left: usize = self.edges.len();
        while id != NONE && left > 0
            invariant
                self.same_maps(old(self)),
                self.heap == old(self).heap,
                same_refs(old(self).edges@, self.edges@),
                same_places(old(self).edges@, self.edges@),
                released(self.edges@, self.edge_count, id, left as nat) == released(
                    old(self).edges@,
                    old(self).edge_count,
                    edge,
                    old(self).edges@.len(),
                ),
            decreases left,
        {
            left -= 1;
            let mut e: RefEdge = self.e(id);
            let source: u32 = e.source;
            e.refcount = e.refcount.saturating_sub(1);
            if e.refcount > 0 {
                self.set_e(id, e);
                return ;
            }
            self.set_e(id, e);
            self.edge_count = self.edge_count.saturating_sub(1);
            id = source;
        }
    }

    // -----------------------------------------------------------------------
    // The heap of edges that may be dropped
    // -----------------------------------------------------------------------
    fn swap_elems(&mut self, i: usize, j: usize)
        requires
            i < old(self).heap@.len(),
            j < old(self).heap@.len(),
        ensures
            final(self).same_but_heap(old(self)),
            final(self).heap@ == old(self).heap@.update(i as int, old(self).heap@[j as int]).update(
                j as int,
                old(self).heap@[i as int],
            ),
            placed(old(self).heap@, old(self).edges@) && i != j ==> placed(
                final(self).heap@,
                final(self).edges@,
            ),
    {
        let a: u32 = self.heap[i];
        let b: u32 = self.heap[j];
        self.heap.set(i, b);
        self.heap.set(j, a);
        self.set_heap_index(b, i);
        self.set_heap_index(a, j);
    }

    /// The edge at place `i` of the heap is cheaper than that at `j`.
    fn less(&self, i: usize, j: usize) -> (r: bool)
        requires
            i < self.heap@.len(),
            j < self.heap@.len(),
        ensures
            r == (weights(self.heap@, self.edges@)[i as int] < weights(
                self.heap@,
                self.edges@,
            )[j as int]),
    {
        self.e(self.heap[i]).total_size < self.e(self.heap[j]).total_size
    }

    /// Swaps two places of the heap, and what they cost with them.
    fn swap_places(&mut self, i: usize, j: usize)
        requires
            i < old(self).heap@.len(),
            j < old(self).heap@.len(),
            i != j,
        ensures
            final(self).same_but_heap(old(self)),
            final(self).heap@.len() == old(self).heap@.len(),
            final(self).heap@.to_multiset() == old(self).heap@.to_multiset(),
            placed(old(self).heap@, old(self).edges@) ==> placed(final(self).heap@, final(self).edges@),
            weights(final(self).heap@, final(self).edges@) == weights(
                old(self).heap@,
                old(self).edges@,
            ).update(i as int, weights(old(self).heap@, old(self).edges@)[j as int]).update(
                j as int,
                weights(old(self).heap@, old(self).edges@)[i as int],
            ),
    {
        let ghost h0 = self.heap@;
        let ghost e0 = self.edges@;
        self.swap_elems(i, j);
        proof {
            lemma_same_weights(self.heap@, e0, self.edges@);
            assert(weights(self.heap@, e0) =~= weights(h0, e0).update(
                i as int,
                weights(h0, e0)[j as int],
            ).update(j as int, weights(h0, e0)[i as int]));
            lemma_swap_multiset(h0, i as int, j as int);
        }
    }

    /// Lets the edge at place `from` rise.
    fn up(&mut self, from: usize)
        requires
            from < old(self).heap@.len(),
        ensures
            final(self).same_but_heap(old(self)),
            final(self).heap@.len() == old(self).heap@.len(),
            final(self).heap@.to_multiset() == old(self).heap@.to_multiset(),
            placed(old(self).heap@, old(self).edges@) ==> placed(final(self).heap@, final(self).edges@),
            heap_order_below(weights(old(self).heap@, old(self).edges@), from as int) ==> heap_order(
                weights(final(self).heap@, final(self).edges@),
            ),
    {
        let ghost fair = heap_order_below(weights(self.heap@, self.edges@), from as int);
        let mut i: usize = from;
        while i > 0
            invariant
                i < self.heap@.len(),
                self.same_but_heap(old(self)),
                self.heap@.len() == old(self).heap@.len(),
                self.heap@.to_multiset() == old(self).heap@.to_multiset(),
                placed(old(self).heap@, old(self).edges@) ==> placed(self.heap@, self.edges@),
                fair ==> heap_order_below(weights(self.heap@, self.edges@), i as int),
                fair == heap_order_below(weights(old(self).heap@, old(self).edges@), from as int),
            decreases i,
        {
            let p: usize = (i - 1) / 2;
            let ghost ws = weights(self.heap@, self.edges@);
            if !self.less(p, i) {
                return ;
            }
            proof {
                if fair {
                    lemma_swap_up(ws, i as int);
                }
            }
            let ghost before = self.edges@;
            self.swap_places(i, p);
            proof {
                lemma_refs_on(old(self).edges@, before, self.edges@);
            }
            i = p;
        }
    }

    /// Lets the edge at place `from` sink.
    fn down(&mut self, from: usize)
        ensures
            final(self).same_but_heap(old(self)),
            final(self).heap@.len() == old(self).heap@.len(),
            final(self).heap@.to_multiset() == old(self).heap@.to_multiset(),
            placed(old(self).heap@, old(self).edges@) ==> placed(final(self).heap@, final(self).edges@),
            heap_order_above(weights(old(self).heap@, old(self).edges@), from as int) ==> heap_order(
                weights(final(self).heap@, final(self).edges@),
            ),
    {
        let ghost fair = heap_order_above(weights(self.heap@, self.edges@), from as int);
        let n: usize = self.heap.len();
        let mut i: usize = from;
        while i < n / 2
            invariant
                n == self.heap@.len(),
                self.same_but_heap(old(self)),
                self.heap@.len() == old(self).heap@.len(),
                self.heap@.to_multiset() == old(self).heap@.to_multiset(),
                placed(old(self).heap@, old(self).edges@) ==> placed(self.heap@, self.edges@),
                fair ==> heap_order_above(weights(self.heap@, self.edges@), i as int),
                fair == heap_order_above(weights(old(self).heap@, old(self).edges@), from as int),
            decreases n - i,
        {
            let ghost ws = weights(self.heap@, self.edges@);
            let l: usize = 2 * i + 1;
            if l >= n {
                return ;
            }
            let r: usize = if l + 1 < n {
                l + 1
            } else {
                l
            };
            let c: usize = if self.less(l, r) {
                r
            } else {
                l
            };
            assert forall|k: int| 1 <= k < ws.len() && (k - 1) / 2 == i implies ws[c as int]
                >= #[trigger] ws[k] by {
                assert(k == l || k == r);
            }
            if !self.less(i, c) {
                return ;
            }
            proof {
                if fair {
                    lemma_swap_down(ws, i as int, c as int);
                }
            }
            let ghost before = self.edges@;
            self.swap_places(i, c);
            proof {
                lemma_refs_on(old(self).edges@, before, self.edges@);
            }
            i = c;
        }
    }

    /// Adds an edge to the heap.
    fn insert_root(&mut self, id: u32)
        requires
            rooted(old(self).heap@, old(self).edges@),
            id < old(self).edges@.len(),
            !old(self).heap@.contains(id),
        ensures
            final(self).same_but_heap(old(self)),
            final(self).heap@.to_multiset() == old(self).heap@.to_multiset().insert(id),
            rooted(final(self).heap@, final(self).edges@),
    {
        reveal(rooted);
        let ghost h0 = self.heap@;
        let ghost e0 = self.edges@;
        self.heap.push(id);
        let i: usize = self.heap.len() - 1;
        self.set_heap_index(id, i);
        proof {
            broadcast use vstd::seq_lib::group_to_multiset_ensures;

            lemma_same_weights(self.heap@, e0, self.edges@);
            let ws = weights(self.heap@, e0);
            assert forall|k: int| 0 <= k < h0.len() implies #[trigger] ws[k] == weights(h0, e0)[k] by {}
            assert(heap_order_below(ws, i as int));
            assert forall|k: int| 0 <= k < self.heap@.len() implies (#[trigger] self.heap@[k])
                < self.edges@.len() && self.edges@[self.heap@[k] as int].heap_index == k by {
                if k < h0.len() {
                    assert(self.heap@[k] == h0[k]);
                    assert(h0.contains(h0[k]));
                }
            }
        }
        let ghost before = self.edges@;
        self.up(i);
        proof {
            lemma_refs_on(e0, before, self.edges@);
        }
    }

    /// Takes the edge at place `i` out of the heap.
    fn remove_index(&mut self, i: usize) -> (id: u32)
        requires
            rooted(old(self).heap@, old(self).edges@),
            i < old(self).heap@.len(),
        ensures
            final(self).same_but_heap(old(self)),
            id == old(self).heap@[i as int],
            final(self).heap@.to_multiset() == old(self).heap@.to_multiset().remove(id),
            final(self).heap@.len() == old(self).heap@.len() - 1,
            !final(self).heap@.contains(id),
            rooted(final(self).heap@, final(self).edges@),
    {
        reveal(rooted);
        let ghost h0 = self.heap@;
        let ghost e0 = self.edges@;
        let ghost w0 = weights(h0, e0);
        let id: u32 = self.heap[i];
        let n: usize = self.heap.len();
        let last: u32 = self.heap[n - 1];
        self.heap.set(i, last);
        let _ = self.heap.pop();
        let ghost h1 = self.heap@;
        proof {
            lemma_remove_place(h0, i as int);
            assert forall|k: int| 0 <= k < h1.len() implies #[trigger] h1[k] != id by {
                assert(h1[k] == if k == i {
                    h0[n - 1]
                } else {
                    h0[k]
                });
            }
        }
        if i < self.heap.len() {
            self.set_heap_index(last, i);
            let ghost e1 = self.edges@;
            let ghost ws = weights(h1, e1);
            proof {
                lemma_same_weights(h1, e0, e1);
                assert forall|k: int| 0 <= k < ws.len() implies #[trigger] ws[k] == if k == i {
                    w0[n - 1]
                } else {
                    w0[k]
                } by {}
                assert forall|k: int| 0 <= k < h1.len() implies (#[trigger] h1[k]) < e1.len()
                    && e1[h1[k] as int].heap_index == k by {
                    if k != i {
                        assert(h1[k] == h0[k]);
                        assert(h0[n - 1] != h0[k]);
                    } else {
                        assert(h1[k] == h0[n - 1]);
                    }
                }
                lemma_hole(w0, ws, i as int);
            }
            if i > 0 && self.less((i - 1) / 2, i) {
                self.up(i);
            } else {
                self.down(i);
            }
            proof {
                lemma_refs_on(e0, e1, self.edges@);
                lemma_not_in(h1, self.heap@, id);
            }
        } else {
            proof {
                assert forall|k: int| 0 <= k < h1.len() implies (#[trigger] h1[k]) < e0.len()
                    && e0[h1[k] as int].heap_index == k by {
                    assert(h1[k] == h0[k]);
                }
                assert forall|k: int| 1 <= k < h1.len() implies weights(h1, e0)[(k - 1) / 2]
                    >= #[trigger] weights(h1, e0)[k] by {
                    assert(w0[(k - 1) / 2] >= w0[k]);
                }
            }
        }
        id
    }

    /// Takes the edge `id` out of the heap, if it is there.
    fn remove_root(&mut self, id: u32)
        requires
            rooted(old(self).heap@, old(self).edges@),
        ensures
            final(self).same_but_heap(old(self)),
            final(self).heap@.to_multiset() == old(self).heap@.to_multiset().remove(id),
            !final(self).heap@.contains(id),
            rooted(final(self).heap@, final(self).edges@),
    {
        reveal(rooted);
        let i: usize = self.e(id).heap_index;
        if i < self.heap.len() && self.heap[i] == id {
            let _ = self.remove_index(i);
        } else {
            proof {
                broadcast use vstd::seq_lib::group_to_multiset_ensures;

                assert forall|k: int| 0 <= k < self.heap@.len() implies #[trigger] self.heap@[k]
                    != id by {}
                assert(!self.heap@.contains(id));
                assert(self.heap@.to_multiset().remove(id) =~= self.heap@.to_multiset());
            }
        }
    }

    // -----------------------------------------------------------------------
    // Edges by offset
    // -----------------------------------------------------------------------
    /// The maps of `b` hold nothing that those of `a` do not, and the rest is as
    /// it was but for the heap and the users of the edges.
    spec fn thinned(a: &Self, b: &Self) -> bool {
        &&& b.literal_size == a.literal_size
        &&& b.best == a.best
        &&& b.edge_capacity == a.edge_capacity
        &&& same_refs(a.edges@, b.edges@)
        &&& b.edges_to_pos@.len() == a.edges_to_pos@.len()
        &&& forall|t: int|
            0 <= t < a.edges_to_pos@.len() ==> part_of(
                (#[trigger] b.edges_to_pos@[t])@,
                a.edges_to_pos@[t]@,
            )
        &&& part_of(b.best_for_offset@, a.best_for_offset@)
    }

    spec fn stock(&self) -> Stock {
        (plain(self.edges@), self.edge_count, self.heap@.to_multiset())
    }

    /// Of the edges that may be dropped none costs more than `id`.
    spec fn costliest(&self, id: u32) -> bool {
        &&& self.heap@.contains(id)
        &&& forall|k: int|
            0 <= k < self.heap@.len() ==> edge_at(self.edges@, #[trigger] self.heap@[k]).total_size
                <= edge_at(self.edges@, id).total_size
    }

    /// The edge `id` left the heap. Unless the search still needs it, it left the
    /// map that had it too, if that has another.
    spec fn dropped(a: &Self, b: &Self, pos: int, exclude: u32, id: u32) -> bool {
        let e = edge_at(a.edges@, id);
        let t = end_of(e);
        let (edges, count) = let_go(plain(a.edges@), a.edge_count, id);
        let rest = a.heap@.to_multiset().remove(id);
        let to_come = pos < t < a.edges_to_pos@.len();
        let map = if to_come {
            a.edges_to_pos@[t]@
        } else {
            a.best_for_offset@
        };
        &&& b.literal_size == a.literal_size
        &&& b.best == a.best
        &&& b.edge_capacity == a.edge_capacity
        &&& b.edges_to_pos@.len() == a.edges_to_pos@.len()
        &&& if id == a.best || id == exclude || e.offset == UNUSED || map.dom().len() <= 1
            || !map.contains_key(e.offset) {
            &&& b.stock() == (plain(a.edges@), a.edge_count, rest)
            &&& b.edges_to_pos@ == a.edges_to_pos@
            &&& b.best_for_offset == a.best_for_offset
        } else if to_come {
            &&& b.stock() == (edges, count, rest)
            &&& b.edges_to_pos@[t]@ == map.remove(e.offset)
            &&& forall|k: int|
                0 <= k < a.edges_to_pos@.len() && k != t ==> #[trigger] b.edges_to_pos@[k]
                    == a.edges_to_pos@[k]
            &&& b.best_for_offset == a.best_for_offset
        } else {
            &&& b.stock() == (edges, count, rest)
            &&& b.edges_to_pos@ == a.edges_to_pos@
            &&& b.best_for_offset@ == map.remove(e.offset)
        }
    }

    /// The costliest edge that may be dropped left the heap.
    spec fn cleaned(a: &Self, b: &Self, pos: int, exclude: u32) -> bool {
        exists|id: u32| #[trigger] a.costliest(id) && Self::dropped(a, b, pos, exclude, id)
    }

    /// `k` edges left the heap one by one, the costliest first, and before each
    /// there was no room for another.
    spec fn cleaned_to(a: &Self, b: &Self, pos: int, exclude: u32, k: nat) -> bool
        decreases k,
    {
        if k == 0 {
            *b == *a
        } else {
            exists|x: LZParser| #[trigger]
                Self::cleaned(&x, b, pos, exclude) && x.edge_count >= x.edge_capacity
                    && Self::cleaned_to(a, &x, pos, exclude, (k - 1) as nat)
        }
    }

    /// Edges left the heap until there was room for another, or none that may be
    /// dropped.
    spec fn made_room(a: &Self, b: &Self, pos: int, exclude: u32) -> bool {
        &&& exists|k: nat| #[trigger] Self::cleaned_to(a, b, pos, exclude, k)
        &&& b.edge_count < b.edge_capacity || b.heap@.len() == 0
    }

    /// Drops the costliest edge that may go. False where there is none.
    fn clean_worst_edge(&mut self, pos: usize, exclude: u32, Ghost(n): Ghost<int>) -> (found: bool)
        requires
            old(self).ok(n),
        ensures
            final(self).ok(n),
            Self::thinned(old(self), final(self)),
            found == (old(self).heap@.len() > 0),
            found ==> final(self).heap@.len() < old(self).heap@.len(),
            found ==> Self::cleaned(old(self), final(self), pos as int, exclude),
            !found ==> *final(self) == *old(self),
    {
        let ghost start = *self;
        if self.heap.len() == 0 {
            return false;
        }
        let worst: u32 = self.remove_index(0);
        proof {
            start.lemma_costliest();
            lemma_refs_at(start.edges@, self.edges@, worst);
        }
        if worst == self.best || worst == exclude {
            assert(Self::dropped(&start, self, pos as int, exclude, worst));
            return true;
        }
        let e: RefEdge = self.e(worst);
        let target: usize = target_of(&e);
        if e.offset == UNUSED {
            assert(Self::dropped(&start, self, pos as int, exclude, worst));
            return true;
        }
        if target > pos && target < self.edges_to_pos.len() {
            let mut c: CuckooHash = CuckooHash::new();
            std::mem::swap(&mut c, &mut self.edges_to_pos[target]);
            let gone: bool = c.size() > 1 && c.get(e.offset).is_some();
            if gone {
                c.erase(e.offset);
            }
            self.edges_to_pos.set(target, c);
            let ghost e1 = self.edges@;
            if gone {
                self.release_edge(worst);
                proof {
                    lemma_refs_on(start.edges@, e1, self.edges@);
                }
            } else {
                assert(self.edges_to_pos@ =~= start.edges_to_pos@);
            }
        } else if self.best_for_offset.size() > 1 && self.best_for_offset.get(e.offset).is_some() {
            self.best_for_offset.erase(e.offset);
            let ghost e1 = self.edges@;
            self.release_edge(worst);
            proof {
                lemma_refs_on(start.edges@, e1, self.edges@);
            }
        }
        assert(Self::dropped(&start, self, pos as int, exclude, worst));
        true
    }

    proof fn lemma_costliest(&self)
        requires
            rooted(self.heap@, self.edges@),
            self.heap@.len() > 0,
        ensures
            self.costliest(self.heap@[0]),
    {
        reveal(rooted);
        assert forall|k: int| 0 <= k < self.heap@.len() implies edge_at(
            self.edges@,
            #[trigger] self.heap@[k],
        ).total_size <= edge_at(self.edges@, self.heap@[0]).total_size by {
            lemma_top(weights(self.heap@, self.edges@), k);
        }
    }

    /// Keeps an edge among those that end at `target` if it is the cheapest with
    /// its offset.
    fn put_to_pos(&mut self, target: usize, id: u32, Ghost(n): Ghost<int>)
        requires
            old(self).ok(n),
            id < old(self).edges@.len(),
            !old(self).heap@.contains(id),
            target <= n,
        ensures
            final(self).ok(n),
            final(self).literal_size == old(self).literal_size,
            final(self).best == old(self).best,
            final(self).best_for_offset == old(self).best_for_offset,
            final(self).edge_capacity == old(self).edge_capacity,
            final(self).edges_to_pos@.len() == old(self).edges_to_pos@.len(),
            forall|t: int|
                0 <= t <= n && t != target ==> #[trigger] final(self).edges_to_pos@[t]
                    == old(self).edges_to_pos@[t],
            offered(
                old(self).edges_to_pos@[target as int],
                final(self).edges_to_pos@[target as int],
                old(self).edges@,
                id,
            ),
            same_refs(old(self).edges@, final(self).edges@),
            final(self).stock() == offer_left(old(self).stock(), old(self).edges_to_pos@[target as int]@, id),
    {
        let e: RefEdge = self.e(id);
        proof {
            lemma_plain_at(self.edges@, id, e);
            if old(self).edges_to_pos@[target as int]@.contains_key(e.offset) {
                lemma_plain_at(self.edges@, old(self).edges_to_pos@[target as int]@[e.offset], e);
            }
        }
        if e.offset == UNUSED {
            return ;
        }
        let mut c: CuckooHash = CuckooHash::new();
        std::mem::swap(&mut c, &mut self.edges_to_pos[target]);
        let was: Option<u32> = c.get(e.offset);
        let better: bool = match was {
            None => true,
            Some(o) => e.total_size < self.e(o).total_size,
        };
        if better {
            let _ = c.put(e.offset, id);
        }
        self.edges_to_pos.set(target, c);
        self.settle(id, was, better);
    }

    /// Keeps an edge among those that have ended if it is the cheapest with its
    /// offset.
    fn put_by_offset(&mut self, id: u32, Ghost(n): Ghost<int>)
        requires
            old(self).ok(n),
            id < old(self).edges@.len(),
            !old(self).heap@.contains(id),
        ensures
            final(self).ok(n),
            final(self).literal_size == old(self).literal_size,
            final(self).best == old(self).best,
            final(self).edge_capacity == old(self).edge_capacity,
            final(self).edges_to_pos == old(self).edges_to_pos,
            offered(
                old(self).best_for_offset,
                final(self).best_for_offset,
                old(self).edges@,
                id,
            ),
            same_refs(old(self).edges@, final(self).edges@),
            final(self).stock() == offer_left(old(self).stock(), old(self).best_for_offset@, id),
    {
        let e: RefEdge = self.e(id);
        proof {
            lemma_plain_at(self.edges@, id, e);
            if old(self).best_for_offset@.contains_key(e.offset) {
                lemma_plain_at(self.edges@, old(self).best_for_offset@[e.offset], e);
            }
        }
        if e.offset == UNUSED {
            return ;
        }
        let was: Option<u32> = self.best_for_offset.get(e.offset);
        let better: bool = match was {
            None => true,
            Some(o) => e.total_size < self.e(o).total_size,
        };
        if better {
            let _ = self.best_for_offset.put(e.offset, id);
        }
        self.settle(id, was, better);
    }

    /// The edge that was not kept goes.
    fn settle(&mut self, id: u32, was: Option<u32>, better: bool)
        requires
            rooted(old(self).heap@, old(self).edges@),
            id < old(self).edges@.len(),
            !old(self).heap@.contains(id),
            was is None ==> better,
        ensures
            final(self).same_maps(old(self)),
            same_refs(old(self).edges@, final(self).edges@),
            rooted(final(self).heap@, final(self).edges@),
            ({
                let (edges, count, roots) = old(self).stock();
                final(self).stock() == if !better {
                    (let_go(edges, count, id).0, let_go(edges, count, id).1, roots)
                } else if let Some(o) = was {
                    (
                        let_go(edges, count, o).0,
                        let_go(edges, count, o).1,
                        roots.remove(o).insert(id),
                    )
                } else {
                    (edges, count, roots.insert(id))
                }
            }),
    {
        if better {
            if let Some(o) = was {
                self.remove_root(o);
                let ghost e1 = self.edges@;
                let ghost h1 = self.heap@;
                self.release_edge(o);
                proof {
                    lemma_refs_on(old(self).edges@, e1, self.edges@);
                    lemma_still_not_in(old(self).heap@, h1, o, id);
                }
            }
            let ghost e2 = self.edges@;
            self.insert_root(id);
            proof {
                lemma_refs_on(old(self).edges@, e2, self.edges@);
            }
        } else {
            self.release_edge(id);
        }
    }

    /// What the whole stream costs with the reference behind the edge `source`.
    spec fn size_with(&self, m: &SizeMeasurer, source: u32, pos: int, offset: u32, length: u32) -> int {
        let s = edge_at(self.edges@, source);
        let all = self.literal_size@.last() as int;
        let before = floor0(s.total_size - floor0(all - self.literal_size@[pos]));
        capped64(
            capped64(
                before + m.size_of(
                    shrenc::op_syms(
                        Op::Match { offset, len: length },
                        pos,
                        s.offset as int,
                        pos == end_of(s),
                    ),
                ),
            ) + floor0(all - self.literal_size@[pos + length]),
        )
    }

    /// The reference is not worth a new edge: it goes on with the offset of the
    /// reference right before it, or the edges with its offset and end have one
    /// that is as cheap. Nor is one made where no number is left for it.
    spec fn not_worth(&self, m: &SizeMeasurer, source: u32, pos: int, offset: u32, length: u32) -> bool {
        let s = edge_at(self.edges@, source);
        let map = self.edges_to_pos@[pos + length]@;
        ||| self.edges@.len() >= NONE
        ||| pos == end_of(s) && offset == s.offset
        ||| self.edge_count < self.edge_capacity && map.contains_key(offset) && self.size_with(
            m,
            source,
            pos,
            offset,
            length,
        ) >= edge_at(self.edges@, map[offset]).total_size
    }

    /// The edge `edge` was made and offered to those that end where it does.
    spec fn entered(a: &Self, b: &Self, target: int, edge: RefEdge) -> bool {
        &&& b.literal_size == a.literal_size
        &&& b.best == a.best
        &&& b.best_for_offset == a.best_for_offset
        &&& b.edge_capacity == a.edge_capacity
        &&& same_refs(a.edges_with(edge), b.edges@)
        &&& b.edges_to_pos@.len() == a.edges_to_pos@.len()
        &&& forall|t: int|
            0 <= t < a.edges_to_pos@.len() && t != target ==> #[trigger] b.edges_to_pos@[t]
                == a.edges_to_pos@[t]
        &&& offered(a.edges_to_pos@[target], b.edges_to_pos@[target], a.edges_with(edge), a.edges@.len() as u32)
        &&& b.stock() == offer_left(
            (
                plain(a.edges_with(edge)),
                if a.edge_count == usize::MAX {
                    usize::MAX
                } else {
                    (a.edge_count + 1) as usize
                },
                a.heap@.to_multiset(),
            ),
            a.edges_to_pos@[target]@,
            a.edges@.len() as u32,
        )
    }

    /// What it is to try the reference behind the edge `source`. Where there is
    /// no room for an edge, others go first, the costliest of them first of all.
    spec fn tried(a: &Self, b: &Self, m: &SizeMeasurer, source: u32, pos: int, offset: u32, length: u32) -> bool {
        if a.not_worth(m, source, pos, offset, length) {
            *b == *a
        } else {
            exists|x: LZParser|
                #![trigger Self::thinned(a, &x)]
                Self::thinned(a, &x) && Self::made_room(a, &x, pos, source) && Self::entered(
                    &x,
                    b,
                    pos + length,
                    new_ref(
                        pos as u32,
                        offset,
                        length,
                        a.size_with(m, source, pos, offset, length) as u64,
                        source,
                    ),
                )
        }
    }

    /// Tries the reference behind the edge `source`.
    fn new_edge(&mut self, m: &SizeMeasurer, source: u32, pos: usize, offset: u32, length: u32, Ghost(d): Ghost<Seq<u8>>)
        requires
            good(old(self), d, m, pos as int),
            m.ok(),
            behind(old(self).edges@, source, pos as int),
            1 <= pos,
            2 <= length,
            lz::is_match(d, pos as int, offset as int, length as int),
        ensures
            good(final(self), d, m, pos as int),
            final(self).literal_size == old(self).literal_size,
            Self::tried(old(self), final(self), m, source, pos as int, offset, length),
    {
        let ghost start = *self;
        let ghost n = d.len() as int;
        proof {
            lemma_stop(d, m, self.literal_size@, self.edges@, source as int);
        }
        let s: RefEdge = self.e(source);
        let source_target: usize = target_of(&s);
        let after_ref: bool = pos == source_target;
        if self.edges.len() >= NONE as usize {
            return ;
        }
        if after_ref && offset == s.offset {
            return ;
        }
        let total: usize = self.literal_size.len() - 1;
        let target: usize = pos + length as usize;
        let all: u64 = self.literal_size[total];
        let behind: u64 = all.saturating_sub(self.literal_size[pos]);
        let size_before: u64 = s.total_size.saturating_sub(behind);
        let edge_size: u64 = m.reference(offset, length, after_ref, s.offset, Ghost(pos as int));
        let size_after: u64 = all.saturating_sub(self.literal_size[target]);
        let size: u64 = size_before.saturating_add(edge_size).saturating_add(size_after);
        assert(size == start.size_with(m, source, pos as int, offset, length));
        if self.edge_count < self.edge_capacity {
            if let Some(o) = self.edges_to_pos[target].get(offset) {
                if size >= self.e(o).total_size {
                    return ;
                }
            }
        }
        let mut more: bool = true;
        let ghost mut steps: nat = 0;
        while more && self.edge_count >= self.edge_capacity
            invariant
                self.ok(n),
                Self::thinned(&start, self),
                Self::cleaned_to(&start, self, pos as int, source, steps),
                !more ==> self.heap@.len() == 0,
            decreases self.heap@.len() + if more {
                    1int
                } else {
                    0
                },
        {
            let ghost before = *self;
            more = self.clean_worst_edge(pos, source, Ghost(n));
            proof {
                Self::lemma_thinned(&start, &before, self);
                if more {
                    steps = steps + 1;
                    assert(Self::cleaned(&before, self, pos as int, source));
                }
            }
        }
        let ghost mid = *self;
        let id: u32 = self.create(pos as u32, offset, length, size, source);
        self.put_to_pos(target, id, Ghost(n));
        proof {
            assert(Self::entered(
                &mid,
                self,
                target as int,
                new_ref(pos as u32, offset, length, size, source),
            ));
            assert(Self::tried(&start, self, m, source, pos as int, offset, length));
            lemma_good_tried(&start, self, d, m, source, pos as int, offset, length);
        }
    }

    proof fn lemma_thinned(a: &Self, b: &Self, c: &Self)
        requires
            Self::thinned(a, b),
            Self::thinned(b, c),
        ensures
            Self::thinned(a, c),
    {
        assert forall|k: int| 0 <= k < a.edges@.len() implies same_ref(#[trigger] a.edges@[k], c.edges@[k])
            && same_ref(a.edges@[k], #[trigger] c.edges@[k]) by {
            assert(same_ref(a.edges@[k], b.edges@[k]));
            assert(same_ref(b.edges@[k], c.edges@[k]));
        }
        assert forall|t: int| 0 <= t < a.edges_to_pos@.len() implies part_of(
            (#[trigger] c.edges_to_pos@[t])@,
            a.edges_to_pos@[t]@,
        ) by {
            assert(part_of(b.edges_to_pos@[t]@, a.edges_to_pos@[t]@));
            assert(part_of(c.edges_to_pos@[t]@, b.edges_to_pos@[t]@));
            assert forall|k: u32| #[trigger] c.edges_to_pos@[t]@.contains_key(k) implies a.edges_to_pos@[t]@.contains_key(
            k) && c.edges_to_pos@[t]@[k] == a.edges_to_pos@[t]@[k] by {
                assert(b.edges_to_pos@[t]@.contains_key(k));
            }
        }
        assert forall|k: u32| #[trigger] c.best_for_offset@.contains_key(k) implies a.best_for_offset@.contains_key(
        k) && c.best_for_offset@[k] == a.best_for_offset@[k] by {
            assert(b.best_for_offset@.contains_key(k));
        }
    }

    /// Lets go of the edges of a list.
    fn release_all(&mut self, entries: &Vec<(u32, u32)>, Ghost(n): Ghost<int>)
        requires
            old(self).ok(n),
        ensures
            final(self).ok(n),
            final(self).same_maps(old(self)),
            final(self).heap == old(self).heap,
            same_refs(old(self).edges@, final(self).edges@),
            (plain(final(self).edges@), final(self).edge_count) == all_let_go(
                plain(old(self).edges@),
                old(self).edge_count,
                entries@,
                entries@.len() as int,
            ),
    {
        let count: usize = entries.len();
        let mut k: usize = 0;
        while k < count
            invariant
                count == entries@.len(),
                k <= count,
                self.ok(n),
                self.same_maps(old(self)),
                self.heap == old(self).heap,
                same_refs(old(self).edges@, self.edges@),
                (plain(self.edges@), self.edge_count) == all_let_go(
                    plain(old(self).edges@),
                    old(self).edge_count,
                    entries@,
                    k as int,
                ),
            decreases count - k,
        {
            let id: u32 = entries[k].1;
            let ghost before = self.edges@;
            self.release_edge(id);
            proof {
                lemma_refs_on(old(self).edges@, before, self.edges@);
            }
            k += 1;
        }
    }

    /// The map `b` has an edge for every offset for which `a` has one, and it
    /// costs no more, unless the map can grow no more.
    spec fn no_dearer(a: CuckooHash, b: CuckooHash, edges: Seq<RefEdge>) -> bool {
        b.full_size() || forall|k: u32| #[trigger]
            a@.contains_key(k) ==> b@.contains_key(k) && edge_at(edges, b@[k]).total_size <= edge_at(
                edges,
                a@[k],
            ).total_size
    }

    /// The map has an edge with the offset of `id` that costs no more, unless it
    /// can grow no more.
    spec fn has_no_dearer(b: CuckooHash, edges: Seq<RefEdge>, id: u32) -> bool {
        let e = edge_at(edges, id);
        b.full_size() || e.offset == UNUSED || (b@.contains_key(e.offset) && edge_at(
            edges,
            b@[e.offset],
        ).total_size <= e.total_size)
    }

    /// The edge `id` was kept for the offset `k`, or ends here.
    spec fn from_either(kept: Map<u32, u32>, here: Map<u32, u32>, k: u32, id: u32) -> bool {
        ||| kept.contains_key(k) && kept[k] == id
        ||| exists|q: u32| #[trigger] here.contains_key(q) && here[q] == id
    }

    /// The edge `id` was taken in: it is the cheapest if it is cheaper, and is kept
    /// for its offset if it is the cheapest with that.
    spec fn took_in(a: &Self, b: &Self, id: u32) -> bool {
        &&& b.literal_size == a.literal_size
        &&& b.edge_capacity == a.edge_capacity
        &&& b.edges_to_pos == a.edges_to_pos
        &&& b.best == if edge_at(a.edges@, id).total_size < edge_at(a.edges@, a.best).total_size {
            id
        } else {
            a.best
        }
        &&& offered(a.best_for_offset, b.best_for_offset, a.edges@, id)
        &&& b.stock() == offer_left(
            (plain(a.edges@), a.edge_count, a.heap@.to_multiset().remove(id)),
            a.best_for_offset@,
            id,
        )
    }

    /// The first `k` edges of a list were taken in, one by one.
    spec fn took_in_all(a: &Self, b: &Self, list: Seq<(u32, u32)>, k: int) -> bool
        decreases k,
    {
        if k <= 0 {
            *b == *a
        } else {
            exists|x: LZParser| #[trigger]
                Self::took_in(&x, b, list[k - 1].1) && Self::took_in_all(a, &x, list, k - 1)
        }
    }

    /// The list of the edges that end at `pos` is empty.
    spec fn emptied(a: &Self, b: &Self, pos: int) -> bool {
        &&& b.edges == a.edges
        &&& b.edge_count == a.edge_count
        &&& b.edge_capacity == a.edge_capacity
        &&& b.heap == a.heap
        &&& b.literal_size == a.literal_size
        &&& b.best == a.best
        &&& b.best_for_offset == a.best_for_offset
        &&& b.edges_to_pos@ == a.edges_to_pos@.update(pos, b.edges_to_pos@[pos])
        &&& b.edges_to_pos@[pos]@ == Map::<u32, u32>::empty()
    }

    /// The edges that end at `pos` were taken in, in the order of their list.
    spec fn assimilated(a: &Self, b: &Self, pos: int) -> bool {
        &&& exists|x: LZParser| #[trigger]
            Self::emptied(a, &x, pos) && Self::took_in_all(
                &x,
                b,
                a.edges_to_pos@[pos].entries(),
                a.edges_to_pos@[pos].entries().len() as int,
            )
        &&& b.literal_size == a.literal_size
        &&& b.edge_capacity == a.edge_capacity
        &&& same_refs(a.edges@, b.edges@)
        &&& b.edges_to_pos@.len() == a.edges_to_pos@.len()
        &&& b.edges_to_pos@[pos as int]@ == Map::<u32, u32>::empty()
        &&& (forall|t: int|
                0 <= t < a.edges_to_pos@.len() && t != pos ==> #[trigger] b.edges_to_pos@[t]
                    == a.edges_to_pos@[t])
        &&& (b.best == a.best || exists|k: u32| #[trigger]
                a.edges_to_pos@[pos as int]@.contains_key(k) && a.edges_to_pos@[pos as int]@[k] == b.best)
        &&& edge_at(a.edges@, b.best).total_size <= edge_at(
                a.edges@,
                a.best,
            ).total_size
        &&& (forall|k: u32| #[trigger]
                a.edges_to_pos@[pos as int]@.contains_key(k) ==> edge_at(
                    a.edges@,
                    b.best,
                ).total_size <= edge_at(
                    a.edges@,
                    a.edges_to_pos@[pos as int]@[k],
                ).total_size)
        &&& (forall|k: u32| #[trigger]
                b.best_for_offset@.contains_key(k) ==> Self::from_either(
                    a.best_for_offset@,
                    a.edges_to_pos@[pos as int]@,
                    k,
                    b.best_for_offset@[k],
                ))
        &&& Self::no_dearer(
                a.best_for_offset,
                b.best_for_offset,
                a.edges@,
            )
        &&& (forall|k: u32| #[trigger]
                a.edges_to_pos@[pos as int]@.contains_key(k) ==> Self::has_no_dearer(
                    b.best_for_offset,
                    a.edges@,
                    a.edges_to_pos@[pos as int]@[k],
                ))
    }

    /// Takes in the edges that end at `pos`.
    fn assimilate(&mut self, pos: usize, Ghost(n): Ghost<int>)
        requires
            old(self).ok(n),
            pos <= n,
            ends_at(old(self).edges@, old(self).edges_to_pos@[pos as int]@, pos as int),
        ensures
            final(self).ok(n),
            Self::assimilated(old(self), final(self), pos as int),
    {
        let ghost start = *self;
        let ghost e0 = self.edges@;
        let ghost here = self.edges_to_pos@[pos as int]@;
        let mut c: CuckooHash = CuckooHash::new();
        std::mem::swap(&mut c, &mut self.edges_to_pos[pos]);
        let entries: Vec<(u32, u32)> = c.iter_entries();
        let count: usize = entries.len();
        let mut k: usize = 0;
        let ghost bare = *self;
        assert(self.edges_to_pos@ =~= start.edges_to_pos@.update(
            pos as int,
            self.edges_to_pos@[pos as int],
        ));
        assert(Self::emptied(&start, &bare, pos as int));
        while k < count
            invariant
                count == entries@.len(),
                k <= count,
                Self::took_in_all(&bare, self, entries@, k as int),
                ends_at(e0, here, pos as int),
                self.ok(n),
                start.ok(n),
                pos <= n,
                self.literal_size == start.literal_size,
                self.edge_capacity == start.edge_capacity,
                e0 == start.edges@,
                same_refs(e0, self.edges@),
                self.edges_to_pos@.len() == start.edges_to_pos@.len(),
                self.edges_to_pos@[pos as int]@ == Map::<u32, u32>::empty(),
                forall|t: int|
                    0 <= t <= n && t != pos ==> #[trigger] self.edges_to_pos@[t]
                        == start.edges_to_pos@[t],
                here == start.edges_to_pos@[pos as int]@,
                forall|x: int|
                    0 <= x < entries@.len() ==> here.contains_pair(
                        (#[trigger] entries@[x]).0,
                        entries@[x].1,
                    ),
                self.best == start.best || exists|q: u32| #[trigger]
                    here.contains_key(q) && here[q] == self.best,
                edge_at(e0, self.best).total_size <= edge_at(e0, start.best).total_size,
                forall|x: int|
                    0 <= x < k ==> edge_at(e0, self.best).total_size <= edge_at(
                        e0,
                        (#[trigger] entries@[x]).1,
                    ).total_size,
                forall|q: u32| #[trigger]
                    self.best_for_offset@.contains_key(q) ==> Self::from_either(
                        start.best_for_offset@,
                        here,
                        q,
                        self.best_for_offset@[q],
                    ),
                self.best_for_offset.full_size() || Self::no_dearer(
                    start.best_for_offset,
                    self.best_for_offset,
                    e0,
                ),
                forall|x: int|
                    0 <= x < k ==> Self::has_no_dearer(
                        self.best_for_offset,
                        e0,
                        (#[trigger] entries@[x]).1,
                    ),
            decreases count - k,
        {
            let id: u32 = entries[k].1;
            let ghost before = *self;
            proof {
                lemma_refs_at(e0, self.edges@, id);
                lemma_refs_at(e0, self.edges@, self.best);
                assert(here.contains_key(entries@[k as int].0));
                assert(here[entries@[k as int].0] == id);
                assert(id < e0.len());
            }
            if self.e(id).total_size < self.e(self.best).total_size {
                self.best = id;
            }
            self.remove_root(id);
            let ghost mid = *self;
            self.put_by_offset(id, Ghost(n));
            proof {
                Self::lemma_took_in(&before, &mid, self, id);
                Self::lemma_took_in_next(&bare, &before, self, entries@, k as int);
                lemma_refs_on(e0, before.edges@, mid.edges@);
                lemma_refs_on(e0, mid.edges@, self.edges@);
                Self::lemma_offered(
                    start.best_for_offset,
                    mid.best_for_offset,
                    self.best_for_offset,
                    e0,
                    mid.edges@,
                    id,
                    entries@,
                    k as int,
                );
            }
            k += 1;
        }
        proof {
            assert forall|q: u32| #[trigger] here.contains_key(q) implies edge_at(
                e0,
                self.best,
            ).total_size <= edge_at(e0, here[q]).total_size && Self::has_no_dearer(
                self.best_for_offset,
                e0,
                here[q],
            ) by {
                let x = choose|x: int|
                    0 <= x < entries@.len() && #[trigger] entries@[x] == (q, here[q]);
                assert(entries@[x].1 == here[q]);
            }
        }
    }

    proof fn lemma_took_in(a: &Self, x: &Self, b: &Self, id: u32)
        requires
            same_refs(a.edges@, x.edges@),
            plain(a.edges@) == plain(x.edges@),
            x.edge_count == a.edge_count,
            x.heap@.to_multiset() == a.heap@.to_multiset().remove(id),
            x.best_for_offset == a.best_for_offset,
            x.literal_size == a.literal_size,
            x.edge_capacity == a.edge_capacity,
            x.edges_to_pos == a.edges_to_pos,
            x.best == if edge_at(a.edges@, id).total_size < edge_at(a.edges@, a.best).total_size {
                id
            } else {
                a.best
            },
            b.literal_size == x.literal_size,
            b.best == x.best,
            b.edge_capacity == x.edge_capacity,
            b.edges_to_pos == x.edges_to_pos,
            offered(x.best_for_offset, b.best_for_offset, x.edges@, id),
            b.stock() == offer_left(x.stock(), x.best_for_offset@, id),
        ensures
            Self::took_in(a, b, id),
    {
        lemma_refs_at(a.edges@, x.edges@, id);
        let o = edge_at(a.edges@, id).offset;
        lemma_refs_at(a.edges@, x.edges@, a.best_for_offset@[o]);
    }

    proof fn lemma_took_in_next(a: &Self, x: &Self, b: &Self, list: Seq<(u32, u32)>, k: int)
        requires
            0 <= k < list.len(),
            Self::took_in_all(a, x, list, k),
            Self::took_in(x, b, list[k].1),
        ensures
            Self::took_in_all(a, b, list, k + 1),
    {
        assert(Self::took_in(x, b, list[(k + 1) - 1].1));
    }

    /// One more edge offered to the map.
    proof fn lemma_offered(
        a: CuckooHash,
        b: CuckooHash,
        c: CuckooHash,
        e0: Seq<RefEdge>,
        edges: Seq<RefEdge>,
        id: u32,
        entries: Seq<(u32, u32)>,
        k: int,
    )
        requires
            same_refs(e0, edges),
            0 <= k < entries.len(),
            entries[k].1 == id,
            b.full_size() || Self::no_dearer(a, b, e0),
            forall|x: int| 0 <= x < k ==> Self::has_no_dearer(b, e0, (#[trigger] entries[x]).1),
            offered(b, c, edges, id),
            b.full_size() ==> c.full_size(),
        ensures
            c.full_size() || Self::no_dearer(a, c, e0),
            forall|x: int| 0 <= x <= k ==> Self::has_no_dearer(c, e0, (#[trigger] entries[x]).1),
    {
        assert forall|i: u32| (#[trigger] edge_at(edges, i)).total_size == edge_at(e0, i).total_size
            && edge_at(edges, i).offset == edge_at(e0, i).offset by {
            lemma_refs_at(e0, edges, i);
        }
        if !c.full_size() {
            assert forall|q: u32| #[trigger] b@.contains_key(q) implies c@.contains_key(q) && edge_at(
                e0,
                c@[q],
            ).total_size <= edge_at(e0, b@[q]).total_size by {
                assert(edge_at(edges, b@[q]).total_size == edge_at(e0, b@[q]).total_size);
                assert(edge_at(edges, id).total_size == edge_at(e0, id).total_size);
            }
            assert forall|x: int| 0 <= x <= k implies Self::has_no_dearer(
                c,
                e0,
                (#[trigger] entries[x]).1,
            ) by {
                let o = edge_at(e0, entries[x].1).offset;
                if x < k {
                    assert(Self::has_no_dearer(b, e0, entries[x].1));
                    if o != UNUSED {
                        assert(b@.contains_key(o));
                    }
                } else {
                    assert(edge_at(edges, id).offset == o);
                    if o != UNUSED && b@.contains_key(o) {
                        assert(edge_at(edges, b@[o]).total_size == edge_at(e0, b@[o]).total_size);
                    }
                }
            }
        }
    }

    /// The reference of length `length` behind the cheapest edge, and behind the
    /// cheapest with its offset, if the cheapest has another.
    spec fn length_added(a: &Self, b: &Self, m: &SizeMeasurer, pos: int, offset: u32, length: u32) -> bool {
        exists|x: LZParser|
            #![trigger Self::tried(a, &x, m, a.best, pos, offset, length)]
            Self::tried(a, &x, m, a.best, pos, offset, length) && if edge_at(
                x.edges@,
                x.best,
            ).offset != offset && x.best_for_offset@.contains_key(offset) {
                Self::tried(&x, b, m, x.best_for_offset@[offset], pos, offset, length)
            } else {
                *b == x
            }
    }

    /// The same for the lengths from `low` to `high`, the shortest first.
    spec fn lengths_added(
        a: &Self,
        b: &Self,
        m: &SizeMeasurer,
        pos: int,
        offset: u32,
        low: int,
        high: int,
    ) -> bool
        decreases high + 1 - low,
    {
        if high < low {
            *b == *a
        } else {
            exists|x: LZParser|
                #![trigger Self::length_added(&x, b, m, pos, offset, high as u32)]
                Self::lengths_added(a, &x, m, pos, offset, low, high - 1) && Self::length_added(
                    &x,
                    b,
                    m,
                    pos,
                    offset,
                    high as u32,
                )
        }
    }

    proof fn lemma_length_on(
        a: &Self,
        x: &Self,
        b: &Self,
        m: &SizeMeasurer,
        pos: int,
        offset: u32,
        low: int,
        high: int,
    )
        requires
            low <= high,
            Self::lengths_added(a, x, m, pos, offset, low, high - 1),
            Self::length_added(x, b, m, pos, offset, high as u32),
        ensures
            Self::lengths_added(a, b, m, pos, offset, low, high),
    {
    }

    /// The shortest length that a match of `len` bytes is tried with.
    spec fn lowest(len: int, margin: int) -> int {
        if len - margin < 2 {
            2
        } else if margin < 0 {
            len + 1
        } else {
            len - margin
        }
    }

    /// Adds the references that the match `f` allows, of the lengths down to
    /// `margin` below its own.
    fn add_match(&mut self, m: &SizeMeasurer, pos: usize, f: &Found, margin: i32, Ghost(d): Ghost<Seq<u8>>)
        requires
            good(old(self), d, m, pos as int),
            m.ok(),
            1 <= pos < d.len(),
            uparse::found_ok(d, pos as int, *f),
        ensures
            good(final(self), d, m, pos as int),
            final(self).literal_size == old(self).literal_size,
            Self::lengths_added(
                old(self),
                final(self),
                m,
                pos as int,
                (pos - f.pos) as u32,
                Self::lowest(f.len as int, margin as int),
                f.len as int,
            ),
    {
        let ghost n = d.len() as int;
        let ghost start = *self;
        let offset: u32 = (pos - f.pos) as u32;
        let low: i64 = f.len as i64 - margin as i64;
        let mut length: usize = if low < 2 {
            2
        } else if low > f.len as i64 {
            f.len + 1
        } else {
            low as usize
        };
        let ghost first = length as int;
        while length <= f.len
            invariant
                good(self, d, m, pos as int),
                self.literal_size == start.literal_size,
                n == d.len(),
                m.ok(),
                uparse::found_ok(d, pos as int, *f),
                offset == pos - f.pos,
                1 <= pos,
                2 <= first <= length <= f.len + 1,
                f.len <= n - pos,
                pos < n,
                offset >= 1,
                offset <= pos,
                Self::lengths_added(&start, self, m, pos as int, offset, first, length - 1),
            decreases f.len + 1 - length,
        {
            let ghost before = *self;
            let best: u32 = self.best;
            proof {
                assert forall|j: int| 0 <= j < length implies #[trigger] d[pos + j] == d[pos + j
                    - offset] by {}
                assert(lz::is_match(d, pos as int, offset as int, length as int));
            }
            self.new_edge(m, best, pos, offset, length as u32, Ghost(d));
            let ghost mid = *self;
            if self.e(self.best).offset != offset {
                if let Some(o) = self.best_for_offset.get(offset) {
                    self.new_edge(m, o, pos, offset, length as u32, Ghost(d));
                }
            }
            proof {
                assert(Self::tried(
                    &before,
                    &mid,
                    m,
                    before.best,
                    pos as int,
                    offset,
                    length as u32,
                ));
                assert(Self::length_added(
                    &before,
                    self,
                    m,
                    pos as int,
                    offset,
                    length as u32,
                ));
                Self::lemma_length_on(
                    &start,
                    &before,
                    self,
                    m,
                    pos as int,
                    offset,
                    first,
                    length as int,
                );
            }
            length += 1;
        }
    }

    /// The edges and the number of those in use after one user less of each edge
    /// that ended, and of each that ends behind `from` but before `to`.
    spec fn given_up(&self, from: int, to: int) -> (Seq<RefEdge>, usize)
        decreases to - from,
    {
        if to <= from + 1 {
            let list = self.best_for_offset.entries();
            all_let_go(plain(self.edges@), self.edge_count, list, list.len() as int)
        } else {
            let (edges, count) = self.given_up(from, to - 1);
            let list = self.edges_to_pos@[to - 1].entries();
            all_let_go(edges, count, list, list.len() as int)
        }
    }

    /// Every edge before `target` was given up.
    spec fn skipped(a: &Self, b: &Self, from: int, target: int, initial: u32) -> bool {
        &&& b.literal_size == a.literal_size
        &&& b.edge_capacity == a.edge_capacity
        &&& b.heap@.len() == 0
        &&& b.best == initial
        &&& b.best_for_offset@ == Map::<u32, u32>::empty()
        &&& b.edges_to_pos@.len() == a.edges_to_pos@.len()
        &&& (forall|t: int|
                from < t < target ==> (#[trigger] b.edges_to_pos@[t])@ == Map::<
                    u32, u32, >::empty())
        &&& (forall|t: int|
                0 <= t < a.edges_to_pos@.len() && !(from < t < target) ==> #[trigger] b.edges_to_pos@[t]
                    == a.edges_to_pos@[t])
        &&& same_refs(a.edges@, b.edges@)
        &&& (plain(b.edges@), b.edge_count) == a.given_up(from, target)
    }

    /// Gives up every edge before the end of a very long match.
    fn skip_to(&mut self, from: usize, target: usize, initial: u32, Ghost(n): Ghost<int>)
        requires
            old(self).ok(n),
            from < target <= n,
        ensures
            final(self).ok(n),
            Self::skipped(old(self), final(self), from as int, target as int, initial),
    {
        self.heap = Vec::new();
        let ghost e0 = self.edges@;
        let entries: Vec<(u32, u32)> = self.best_for_offset.iter_entries();
        proof {
            lemma_rooted_empty(self.heap@, self.edges@);
        }
        self.release_all(&entries, Ghost(n));
        self.best_for_offset = CuckooHash::new();
        let mut p: usize = from + 1;
        while p < target
            invariant
                self.ok(n),
                old(self).ok(n),
                from < p <= target <= n,
                self.literal_size == old(self).literal_size,
                self.edge_capacity == old(self).edge_capacity,
                self.heap@.len() == 0,
                self.best_for_offset@ == Map::<u32, u32>::empty(),
                self.edges_to_pos@.len() == old(self).edges_to_pos@.len(),
                forall|t: int|
                    from < t < p ==> (#[trigger] self.edges_to_pos@[t])@ == Map::<
                        u32,
                        u32,
                    >::empty(),
                forall|t: int|
                    0 <= t <= n && !(from < t < p) ==> #[trigger] self.edges_to_pos@[t] == old(
                        self,
                    ).edges_to_pos@[t],
                e0 == old(self).edges@,
                same_refs(e0, self.edges@),
                (plain(self.edges@), self.edge_count) == old(self).given_up(from as int, p as int),
            decreases target - p,
        {
            let ghost before = self.edges@;
            let mut c: CuckooHash = CuckooHash::new();
            std::mem::swap(&mut c, &mut self.edges_to_pos[p]);
            let list: Vec<(u32, u32)> = c.iter_entries();
            self.release_all(&list, Ghost(n));
            proof {
                lemma_refs_on(e0, before, self.edges@);
            }
            p += 1;
        }
        self.best = initial;
    }
}

/// A reference as it is made.
spec fn new_ref(pos: u32, offset: u32, length: u32, total_size: u64, source: u32) -> RefEdge {
    RefEdge {
        pos,
        offset,
        length,
        total_size,
        refcount: 1,
        source,
        heap_index: 0,
    }
}

spec fn floor0(x: int) -> int {
    if x < 0 {
        0
    } else {
        x
    }
}

spec fn capped64(x: int) -> int {
    if x > u64::MAX {
        u64::MAX as int
    } else {
        x
    }
}

proof fn lemma_refs_on(a: Seq<RefEdge>, b: Seq<RefEdge>, c: Seq<RefEdge>)
    requires
        same_refs(a, b),
        same_refs(b, c),
    ensures
        same_refs(a, c),
{
    assert forall|k: int| 0 <= k < a.len() implies same_ref(#[trigger] a[k], c[k]) && same_ref(
        a[k],
        #[trigger] c[k],
    ) by {
        assert(same_ref(a[k], b[k]));
        assert(same_ref(b[k], c[k]));
    }
}

proof fn lemma_refs_at(a: Seq<RefEdge>, b: Seq<RefEdge>, id: u32)
    requires
        same_refs(a, b),
    ensures
        same_ref(edge_at(a, id), edge_at(b, id)),
{
    if id < a.len() {
        assert(same_ref(a[id as int], b[id as int]));
    }
}

proof fn lemma_swap_multiset(s: Seq<u32>, i: int, j: int)
    requires
        0 <= i < s.len(),
        0 <= j < s.len(),
        i != j,
    ensures
        s.update(i, s[j]).update(j, s[i]).to_multiset() == s.to_multiset(),
{
    broadcast use vstd::seq_lib::group_to_multiset_ensures;

    let t = s.update(i, s[j]);
    assert(t.update(j, s[i]).to_multiset() =~= s.to_multiset());
}

/// The price of literals up to each position.
fn literal_sizes(data: &[u8], m: &SizeMeasurer) -> (sizes: Vec<u64>)
    requires
        m.ok(),
        data@.len() <= MAX_INPUT,
    ensures
        sizes@.len() == data@.len() + 1,
        sizes@[0] == 0,
        forall|i: int|
            0 <= i < data@.len() ==> #[trigger] sizes@[i + 1] == sizes@[i] + m.size_of(
                shrenc::op_syms(Op::Literal(data@[i]), i, 0, false),
            ),
        lits_right(m, data@, sizes@),
{
    let n: usize = data.len();
    let mut sizes: Vec<u64> = Vec::new();
    sizes.push(0);
    let mut i: usize = 0;
    while i < n
        invariant
            n == data@.len(),
            n <= MAX_INPUT,
            i <= n,
            m.ok(),
            sizes@.len() == i + 1,
            sizes@[0] == 0,
            sizes@[i as int] <= 7000 * i,
            forall|k: int| 0 <= k < i ==> sizes@[k] <= #[trigger] sizes@[k + 1] <= sizes@[k] + 7000,
            forall|k: int|
                0 <= k < i ==> #[trigger] sizes@[k + 1] == sizes@[k] + m.size_of(
                    shrenc::op_syms(Op::Literal(data@[k]), k, 0, false),
                ),
        decreases n - i,
    {
        let s: u64 = sizes[i];
        let l: u64 = m.literal(data[i], i == 0, Ghost(i as int));
        sizes.push(s + l);
        i += 1;
    }
    sizes
}

/// What the first `k` tokens cost at the prices of `m`.
pub open spec fn ops_size(m: &SizeMeasurer, ops: Seq<Op>, k: int) -> int
    decreases k,
{
    if k <= 0 {
        0
    } else {
        ops_size(m, ops, k - 1) + m.size_of(
            shrenc::op_syms(
                ops[k - 1],
                upkrenc::ops_pos(ops, k - 1),
                shrenc::last_before(ops, k - 1),
                shrenc::ref_before(ops, k - 1),
            ),
        )
    }
}

/// What the first `k` bytes cost as literals.
pub open spec fn literals_size(m: &SizeMeasurer, data: Seq<u8>, k: int) -> int
    decreases k,
{
    if k <= 0 {
        0
    } else {
        literals_size(m, data, k - 1) + m.size_of(
            shrenc::op_syms(Op::Literal(data[k - 1]), k - 1, 0, false),
        )
    }
}

/// Tokens that cost no more than literals alone.
pub open spec fn cheap_ops(m: &SizeMeasurer, data: Seq<u8>, ops: Seq<Op>) -> bool {
    &&& shrenc::shr_ops_ok(data, ops)
    &&& ops_size(m, ops, ops.len() as int) <= literals_size(m, data, data.len() as int)
}

proof fn lemma_literals_size(m: &SizeMeasurer, data: Seq<u8>, sizes: Seq<u64>, k: int)
    requires
        0 <= k <= data.len(),
        sizes.len() == data.len() + 1,
        sizes[0] == 0,
        forall|i: int|
            0 <= i < data.len() ==> #[trigger] sizes[i + 1] == sizes[i] + m.size_of(
                shrenc::op_syms(Op::Literal(data[i]), i, 0, false),
            ),
    ensures
        sizes[k] == literals_size(m, data, k),
    decreases k,
{
    if k > 0 {
        lemma_literals_size(m, data, sizes, k - 1);
        assert(sizes[(k - 1) + 1] == sizes[k - 1] + m.size_of(
            shrenc::op_syms(Op::Literal(data[k - 1]), k - 1, 0, false),
        ));
    }
}

// ---------------------------------------------------------------------------
// What holds of the edges
// ---------------------------------------------------------------------------
/// The prices of literals up to each position.
spec fn lits_right(m: &SizeMeasurer, d: Seq<u8>, lits: Seq<u64>) -> bool {
    &&& lits.len() == d.len() + 1
    &&& lits[0] == 0
    &&& forall|i: int|
        0 <= i < d.len() ==> #[trigger] lits[i + 1] == lits[i] + m.size_of(
            shrenc::op_syms(Op::Literal(d[i]), i, 0, false),
        )
    &&& forall|i: int| 0 <= i < d.len() ==> lits[i] <= #[trigger] lits[i + 1] <= lits[i] + 7000
}

proof fn lemma_lits(m: &SizeMeasurer, d: Seq<u8>, lits: Seq<u64>, i: int, j: int)
    requires
        lits_right(m, d, lits),
        0 <= i <= j <= d.len(),
    ensures
        lits[i] <= lits[j] <= lits[i] + 7000 * (j - i),
    decreases j - i,
{
    if i < j {
        lemma_lits(m, d, lits, i, j - 1);
        assert(lits[j - 1] <= lits[(j - 1) + 1] <= lits[j - 1] + 7000);
    }
}

/// Where the reference of an edge ends.
spec fn stop(e: RefEdge) -> int {
    e.pos + e.length
}

/// What the stream costs up to the end of the reference.
spec fn front(lits: Seq<u64>, e: RefEdge) -> int {
    e.total_size - (lits.last() - lits[stop(e)])
}

/// What the reference costs behind the one of `s`.
spec fn own_size(m: &SizeMeasurer, s: RefEdge, e: RefEdge) -> int {
    m.size_of(
        shrenc::op_syms(
            Op::Match { offset: e.offset, len: e.length },
            e.pos as int,
            s.offset as int,
            e.pos == stop(s),
        ),
    )
}

/// The first edge is no reference. Any other is one that the input allows, behind
/// an earlier edge: its price is that of the stream up to there, of the literals
/// between, of the reference and of the literals behind it.
spec fn edge_good(d: Seq<u8>, m: &SizeMeasurer, lits: Seq<u64>, edges: Seq<RefEdge>, k: int) -> bool {
    let e = edges[k];
    let s = edges[e.source as int];
    if k == 0 {
        e.pos == 0 && e.offset == 0 && e.length == 0 && e.total_size == lits.last()
    } else {
        &&& e.source < k
        &&& stop(s) <= e.pos
        &&& 1 <= e.pos
        &&& 2 <= e.length
        &&& lz::is_match(d, e.pos as int, e.offset as int, e.length as int)
        &&& !(e.pos == stop(s) && e.offset == s.offset)
        &&& e.total_size == s.total_size - (lits.last() - lits[e.pos as int]) + own_size(m, s, e) + (
        lits.last() - lits[stop(e)])
        &&& front(lits, e) <= 0x1_0000_2000 * stop(e)
    }
}

/// All edges are such.
spec fn edges_good(d: Seq<u8>, m: &SizeMeasurer, lits: Seq<u64>, edges: Seq<RefEdge>) -> bool {
    &&& edges.len() >= 1
    &&& forall|k: int| 0 <= k < edges.len() ==> #[trigger] edge_good(d, m, lits, edges, k)
}

proof fn lemma_stop(d: Seq<u8>, m: &SizeMeasurer, lits: Seq<u64>, edges: Seq<RefEdge>, k: int)
    requires
        edges_good(d, m, lits, edges),
        lits_right(m, d, lits),
        d.len() <= MAX_INPUT,
        m.ok(),
        0 <= k < edges.len(),
    ensures
        0 <= stop(edges[k]) <= d.len(),
        0 <= front(lits, edges[k]) <= 0x1_0000_2000 * stop(edges[k]),
        end_of(edges[k]) == stop(edges[k]),
    decreases k,
{
    assert(edge_good(d, m, lits, edges, k));
    let e = edges[k];
    if k > 0 {
        let s = edges[e.source as int];
        lemma_stop(d, m, lits, edges, e.source as int);
        lemma_lits(m, d, lits, stop(s), e.pos as int);
        m.lemma_size_is_positive(
            shrenc::op_syms(
                Op::Match { offset: e.offset, len: e.length },
                e.pos as int,
                s.offset as int,
                e.pos == stop(s),
            ),
        );
    }
}

proof fn lemma_edges_same(
    d: Seq<u8>,
    m: &SizeMeasurer,
    lits: Seq<u64>,
    a: Seq<RefEdge>,
    b: Seq<RefEdge>,
)
    requires
        edges_good(d, m, lits, a),
        same_refs(a, b),
    ensures
        edges_good(d, m, lits, b),
{
    assert forall|k: int| 0 <= k < b.len() implies #[trigger] edge_good(d, m, lits, b, k) by {
        assert(edge_good(d, m, lits, a, k));
        assert(same_ref(a[k], b[k]));
        if k > 0 {
            assert(same_ref(a[a[k].source as int], b[a[k].source as int]));
        }
    }
}

/// An edge that is there and ends no later than `pos`.
spec fn behind(edges: Seq<RefEdge>, id: u32, pos: int) -> bool {
    id < edges.len() && stop(edges[id as int]) <= pos
}

/// The search has come to `pos`: the edges are right, those that are kept end no
/// later, those to come end where they are listed, and none that is kept is
/// cheaper than the cheapest.
spec fn good(p: &LZParser, d: Seq<u8>, m: &SizeMeasurer, pos: int) -> bool {
    let all = p.edges@;
    &&& p.ok(d.len() as int)
    &&& lits_right(m, d, p.literal_size@)
    &&& edges_good(d, m, p.literal_size@, all)
    &&& behind(all, p.best, pos)
    &&& all[p.best as int].total_size <= p.literal_size@.last()
    &&& forall|k: u32| #[trigger]
        p.best_for_offset@.contains_key(k) ==> behind(all, p.best_for_offset@[k], pos)
            && all[p.best as int].total_size <= all[p.best_for_offset@[k] as int].total_size
    &&& forall|t: int| 0 <= t <= d.len() ==> #[trigger] ends_at(all, p.edges_to_pos@[t]@, t)
}

/// Every edge of a map ends at `t`.
spec fn ends_at(edges: Seq<RefEdge>, map: Map<u32, u32>, t: int) -> bool {
    forall|k: u32| #[trigger]
        map.contains_key(k) ==> map[k] < edges.len() && stop(edges[map[k] as int]) == t
}

proof fn lemma_ends_part(a: Seq<RefEdge>, b: Seq<RefEdge>, x: Map<u32, u32>, y: Map<u32, u32>, t: int)
    requires
        ends_at(a, x, t),
        part_of(y, x),
        a.len() <= b.len(),
        forall|k: int| 0 <= k < a.len() ==> same_ref(#[trigger] a[k], b[k]),
    ensures
        ends_at(b, y, t),
{
    assert forall|k: u32| #[trigger] y.contains_key(k) implies y[k] < b.len() && stop(
        b[y[k] as int],
    ) == t by {
        assert(x.contains_key(k));
        assert(same_ref(a[y[k] as int], b[y[k] as int]));
    }
}

/// What a reference would cost is the price of the edge that it would be.
proof fn lemma_size_with(
    a: &LZParser,
    d: Seq<u8>,
    m: &SizeMeasurer,
    source: u32,
    pos: int,
    offset: u32,
    length: u32,
)
    requires
        good(a, d, m, pos),
        m.ok(),
        behind(a.edges@, source, pos),
        2 <= length,
        pos + length <= d.len(),
        m.size_of(
            shrenc::op_syms(
                Op::Match { offset, len: length },
                pos,
                a.edges@[source as int].offset as int,
                pos == stop(a.edges@[source as int]),
            ),
        ) <= 0x2_0000_1000,
    ensures
        ({
            let s = a.edges@[source as int];
            let lits = a.literal_size@;
            let size = a.size_with(m, source, pos, offset, length);
            &&& size == s.total_size - (lits.last() - lits[pos]) + m.size_of(
                shrenc::op_syms(
                    Op::Match { offset, len: length },
                    pos,
                    s.offset as int,
                    pos == stop(s),
                ),
            ) + (lits.last() - lits[pos + length])
            &&& 0 <= size <= u64::MAX
            &&& size - (lits.last() - lits[pos + length]) <= 0x1_0000_2000 * (pos + length)
        }),
{
    let s = a.edges@[source as int];
    let lits = a.literal_size@;
    let n = d.len() as int;
    lemma_stop(d, m, lits, a.edges@, source as int);
    lemma_lits(m, d, lits, stop(s), pos);
    lemma_lits(m, d, lits, pos, n);
    lemma_lits(m, d, lits, pos + length, n);
    lemma_lits(m, d, lits, 0, n);
    m.lemma_size_is_positive(
        shrenc::op_syms(
            Op::Match { offset, len: length },
            pos,
            s.offset as int,
            pos == stop(s),
        ),
    );
}

/// What the source and the input have to be for a reference.
spec fn may_follow(a: &LZParser, d: Seq<u8>, m: &SizeMeasurer, source: u32, pos: int, offset: u32, length: u32) -> bool {
    &&& behind(a.edges@, source, pos)
    &&& 1 <= pos
    &&& 2 <= length
    &&& lz::is_match(d, pos, offset as int, length as int)
    &&& m.size_of(
        shrenc::op_syms(
            Op::Match { offset, len: length },
            pos,
            a.edges@[source as int].offset as int,
            pos == stop(a.edges@[source as int]),
        ),
    ) <= 0x2_0000_1000
}

#[verifier::rlimit(40)]
proof fn lemma_good_tried(
    a: &LZParser,
    b: &LZParser,
    d: Seq<u8>,
    m: &SizeMeasurer,
    source: u32,
    pos: int,
    offset: u32,
    length: u32,
)
    requires
        good(a, d, m, pos),
        b.ok(d.len() as int),
        m.ok(),
        may_follow(a, d, m, source, pos, offset, length),
        LZParser::tried(a, b, m, source, pos, offset, length),
    ensures
        good(b, d, m, pos),
{
    if !a.not_worth(m, source, pos, offset, length) {
        let size = a.size_with(m, source, pos, offset, length) as u64;
        let edge = new_ref(pos as u32, offset, length, size, source);
        let x = choose|x: LZParser|
            #![trigger LZParser::thinned(a, &x)]
            LZParser::thinned(a, &x) && LZParser::made_room(a, &x, pos, source)
                && LZParser::entered(&x, b, pos + length, edge);
        lemma_size_with(a, d, m, source, pos, offset, length);
        lemma_stop(d, m, a.literal_size@, a.edges@, source as int);
        let ea = a.edges@;
        let eb = b.edges@;
        let ex = x.edges_with(edge);
        let lits = a.literal_size@;
        let n = ea.len() as int;
        assert forall|k: int| 0 <= k < n implies same_ref(#[trigger] ea[k], eb[k]) by {
            assert(same_ref(ea[k], x.edges@[k]));
            assert(same_ref(ex[k], eb[k]));
        }
        assert(same_ref(ex[n], eb[n]));
        assert(eb.len() == n + 1);
        assert forall|k: int| 0 <= k < eb.len() implies #[trigger] edge_good(d, m, lits, eb, k) by {
            if k < n {
                assert(edge_good(d, m, lits, ea, k));
                assert(same_ref(ea[k], eb[k]));
                if k > 0 {
                    assert(same_ref(ea[ea[k].source as int], eb[ea[k].source as int]));
                }
            } else {
                assert(same_ref(ea[source as int], eb[source as int]));
                assert(edge_good(d, m, lits, ea, source as int));
            }
        }
        assert(same_ref(ea[a.best as int], eb[a.best as int]));
        assert forall|k: u32| #[trigger] b.best_for_offset@.contains_key(k) implies behind(
            eb,
            b.best_for_offset@[k],
            pos,
        ) && eb[b.best as int].total_size <= eb[b.best_for_offset@[k] as int].total_size by {
            assert(x.best_for_offset@.contains_key(k));
            assert(a.best_for_offset@.contains_key(k));
            let id = b.best_for_offset@[k];
            assert(same_ref(ea[id as int], eb[id as int]));
        }
        assert forall|t: int| 0 <= t <= d.len() implies #[trigger] ends_at(
            eb,
            b.edges_to_pos@[t]@,
            t,
        ) by {
            assert(ends_at(ea, a.edges_to_pos@[t]@, t));
            assert(part_of(x.edges_to_pos@[t]@, a.edges_to_pos@[t]@));
            lemma_ends_part(ea, eb, a.edges_to_pos@[t]@, x.edges_to_pos@[t]@, t);
            if t == pos + length {
                let id = n as u32;
                assert(edge_at(ex, id) == ex[n]);
                assert(part_of(
                    b.edges_to_pos@[t]@,
                    x.edges_to_pos@[t]@.insert(ex[n].offset, id),
                ) || b.edges_to_pos@[t] == x.edges_to_pos@[t]);
                assert(stop(eb[n]) == t);
                assert forall|k: u32| #[trigger] b.edges_to_pos@[t]@.contains_key(k) implies b.edges_to_pos@[t]@[k]
                    < eb.len() && stop(eb[b.edges_to_pos@[t]@[k] as int]) == t by {
                    if b.edges_to_pos@[t] != x.edges_to_pos@[t] {
                        assert(x.edges_to_pos@[t]@.insert(ex[n].offset, id).contains_key(k));
                        if k != ex[n].offset {
                            assert(x.edges_to_pos@[t]@.contains_key(k));
                        }
                    } else {
                        assert(x.edges_to_pos@[t]@.contains_key(k));
                    }
                }
            } else {
                assert(b.edges_to_pos@[t] == x.edges_to_pos@[t]);
            }
        }
    }
}

proof fn lemma_good_assimilated(a: &LZParser, b: &LZParser, d: Seq<u8>, m: &SizeMeasurer, pos: int)
    requires
        good(a, d, m, pos),
        b.ok(d.len() as int),
        0 <= pos <= d.len(),
        LZParser::assimilated(a, b, pos),
    ensures
        good(b, d, m, pos),
{
    let ea = a.edges@;
    let eb = b.edges@;
    let here = a.edges_to_pos@[pos]@;
    lemma_edges_same(d, m, a.literal_size@, ea, eb);
    assert(ends_at(ea, here, pos));
    assert(b.best < ea.len() && stop(ea[b.best as int]) <= pos);
    assert(same_ref(ea[b.best as int], eb[b.best as int]));
    assert forall|k: u32| #[trigger] b.best_for_offset@.contains_key(k) implies behind(
        eb,
        b.best_for_offset@[k],
        pos,
    ) && eb[b.best as int].total_size <= eb[b.best_for_offset@[k] as int].total_size by {
        let id = b.best_for_offset@[k];
        assert(LZParser::from_either(a.best_for_offset@, here, k, id));
        if a.best_for_offset@.contains_key(k) && a.best_for_offset@[k] == id {
        } else {
            let q = choose|q: u32| #[trigger] here.contains_key(q) && here[q] == id;
            assert(here.contains_key(q));
        }
        assert(same_ref(ea[id as int], eb[id as int]));
    }
    assert forall|t: int| 0 <= t <= d.len() implies #[trigger] ends_at(eb, b.edges_to_pos@[t]@, t) by {
        if t != pos {
            assert(ends_at(ea, a.edges_to_pos@[t]@, t));
            assert(b.edges_to_pos@[t] == a.edges_to_pos@[t]);
            lemma_ends_part(ea, eb, a.edges_to_pos@[t]@, b.edges_to_pos@[t]@, t);
        }
    }
}

proof fn lemma_good_skipped(
    a: &LZParser,
    b: &LZParser,
    d: Seq<u8>,
    m: &SizeMeasurer,
    pos: int,
    target: int,
)
    requires
        good(a, d, m, pos),
        b.ok(d.len() as int),
        0 <= pos,
        LZParser::skipped(a, b, pos, target, 0),
    ensures
        good(b, d, m, pos),
{
    let ea = a.edges@;
    let eb = b.edges@;
    lemma_edges_same(d, m, a.literal_size@, ea, eb);
    assert(edge_good(d, m, a.literal_size@, eb, 0));
    assert forall|t: int| 0 <= t <= d.len() implies #[trigger] ends_at(eb, b.edges_to_pos@[t]@, t) by {
        if pos < t < target {
            assert(b.edges_to_pos@[t]@ == Map::<u32, u32>::empty());
        } else {
            assert(ends_at(ea, a.edges_to_pos@[t]@, t));
            assert(b.edges_to_pos@[t] == a.edges_to_pos@[t]);
            lemma_ends_part(ea, eb, a.edges_to_pos@[t]@, b.edges_to_pos@[t]@, t);
        }
    }
}

// ---------------------------------------------------------------------------
// The tokens of an edge
// ---------------------------------------------------------------------------
/// Literals for the bytes from `from` up to `to`.
spec fn lit_ops(d: Seq<u8>, from: int, to: int) -> Seq<Op> {
    Seq::new((to - from) as nat, |i: int| Op::Literal(d[from + i]))
}

/// The tokens up to the end of an edge: those of its source, the literals between
/// and the reference.
spec fn tokens_to(d: Seq<u8>, edges: Seq<RefEdge>, id: int) -> Seq<Op>
    decreases id,
{
    let e = edges[id];
    if id <= 0 || e.source >= id {
        Seq::empty()
    } else {
        (tokens_to(d, edges, e.source as int) + lit_ops(
            d,
            stop(edges[e.source as int]),
            e.pos as int,
        )).push(Op::Match { offset: e.offset, len: e.length })
    }
}

/// The tokens of the path of an edge, with literals to the end.
spec fn tokens_of(d: Seq<u8>, edges: Seq<RefEdge>, id: int) -> Seq<Op> {
    tokens_to(d, edges, id) + lit_ops(d, stop(edges[id]), d.len() as int)
}

proof fn lemma_size_push(m: &SizeMeasurer, ops: Seq<Op>, x: Op, k: int)
    requires
        0 <= k <= ops.len(),
    ensures
        ops_size(m, ops.push(x), k) == ops_size(m, ops, k),
    decreases k,
{
    if k > 0 {
        lemma_size_push(m, ops, x, k - 1);
        lemma_ops_prefix(ops, x, k - 1);
        assert(ops.push(x)[k - 1] == ops[k - 1]);
    }
}

proof fn lemma_add_lits(
    m: &SizeMeasurer,
    d: Seq<u8>,
    lits: Seq<u64>,
    ops: Seq<Op>,
    from: int,
    to: int,
)
    requires
        lits_right(m, d, lits),
        ops_to(d, ops, from),
        0 <= from <= to <= d.len(),
    ensures
        ({
            let t = ops + lit_ops(d, from, to);
            &&& ops_to(d, t, to)
            &&& shrenc::last_before(t, t.len() as int) == shrenc::last_before(ops, ops.len() as int)
            &&& from == to ==> t == ops
            &&& from < to ==> !shrenc::ref_before(t, t.len() as int)
            &&& ops_size(m, t, t.len() as int) == ops_size(m, ops, ops.len() as int) + lits[to]
                - lits[from]
        }),
    decreases to - from,
{
    let t = ops + lit_ops(d, from, to);
    if from == to {
        assert(t =~= ops);
    } else {
        let u = ops + lit_ops(d, from, to - 1);
        let x = Op::Literal(d[to - 1]);
        lemma_add_lits(m, d, lits, ops, from, to - 1);
        assert(t =~= u.push(x));
        lemma_ops_push(d, u, to - 1, x);
        lemma_ops_prefix(u, x, u.len() as int);
        lemma_size_push(m, u, x, u.len() as int);
        assert(lits[(to - 1) + 1] == lits[to - 1] + m.size_of(
            shrenc::op_syms(Op::Literal(d[to - 1]), to - 1, 0, false),
        ));
    }
}

/// The tokens of an edge stand for the input up to its end, and cost what the
/// edge says.
proof fn lemma_tokens_to(
    d: Seq<u8>,
    m: &SizeMeasurer,
    lits: Seq<u64>,
    edges: Seq<RefEdge>,
    id: int,
)
    requires
        edges_good(d, m, lits, edges),
        lits_right(m, d, lits),
        d.len() <= MAX_INPUT,
        m.ok(),
        0 <= id < edges.len(),
    ensures
        ({
            let t = tokens_to(d, edges, id);
            &&& ops_to(d, t, stop(edges[id]))
            &&& shrenc::last_before(t, t.len() as int) == edges[id].offset
            &&& shrenc::ref_before(t, t.len() as int) == (id > 0)
            &&& ops_size(m, t, t.len() as int) == front(lits, edges[id])
        }),
    decreases id,
{
    assert(edge_good(d, m, lits, edges, id));
    let e = edges[id];
    if id > 0 {
        let s = edges[e.source as int];
        let a = tokens_to(d, edges, e.source as int);
        lemma_tokens_to(d, m, lits, edges, e.source as int);
        lemma_stop(d, m, lits, edges, e.source as int);
        lemma_stop(d, m, lits, edges, id);
        assert(edge_good(d, m, lits, edges, e.source as int));
        lemma_add_lits(m, d, lits, a, stop(s), e.pos as int);
        let b = a + lit_ops(d, stop(s), e.pos as int);
        let x = Op::Match { offset: e.offset, len: e.length };
        assert(shrenc::ref_before(b, b.len() as int) == (e.pos == stop(s)));
        lemma_ops_push(d, b, e.pos as int, x);
        lemma_ops_prefix(b, x, b.len() as int);
        lemma_size_push(m, b, x, b.len() as int);
    }
}

proof fn lemma_tokens_of(
    d: Seq<u8>,
    m: &SizeMeasurer,
    lits: Seq<u64>,
    edges: Seq<RefEdge>,
    id: int,
)
    requires
        edges_good(d, m, lits, edges),
        lits_right(m, d, lits),
        d.len() <= MAX_INPUT,
        m.ok(),
        0 <= id < edges.len(),
    ensures
        ({
            let t = tokens_of(d, edges, id);
            &&& shrenc::shr_ops_ok(d, t)
            &&& ops_size(m, t, t.len() as int) == edges[id].total_size
        }),
{
    lemma_tokens_to(d, m, lits, edges, id);
    lemma_stop(d, m, lits, edges, id);
    lemma_add_lits(
        m,
        d,
        lits,
        tokens_to(d, edges, id),
        stop(edges[id]),
        d.len() as int,
    );
}

// ---------------------------------------------------------------------------
// The search
// ---------------------------------------------------------------------------
/// The references that the first `k` matches allow were added, match by match.
spec fn matches_added(
    a: &LZParser,
    b: &LZParser,
    m: &SizeMeasurer,
    pos: int,
    found: Seq<Found>,
    margin: int,
    k: int,
) -> bool
    decreases k,
{
    if k <= 0 {
        *b == *a
    } else {
        exists|x: LZParser| #[trigger] match_added(&x, b, m, pos, found[k - 1], margin)
            && matches_added(a, &x, m, pos, found, margin, k - 1)
    }
}

spec fn match_added(a: &LZParser, b: &LZParser, m: &SizeMeasurer, pos: int, f: Found, margin: int) -> bool {
    LZParser::lengths_added(
        a,
        b,
        m,
        pos,
        (pos - f.pos) as u32,
        LZParser::lowest(f.len as int, margin),
        f.len as int,
    )
}

/// The length of the longest of the first `k` matches.
spec fn longest_of(found: Seq<Found>, k: int) -> int
    decreases k,
{
    if k <= 0 {
        0
    } else if found[k - 1].len > longest_of(found, k - 1) {
        found[k - 1].len as int
    } else {
        longest_of(found, k - 1)
    }
}

/// What the search does at one position: it takes in the edges that end there,
/// adds those that the matches allow and goes to the next position, or to the end
/// of a very long match.
spec fn stepped(
    a: &LZParser,
    b: &LZParser,
    d: Seq<u8>,
    m: &SizeMeasurer,
    finder: &MatchFinder,
    margin: int,
    skip: int,
    pos: int,
    next: int,
) -> bool {
    exists|x: LZParser, y: LZParser, found: Seq<Found>|
        #![trigger LZParser::assimilated(a, &x, pos), matches_added(&x, &y, m, pos, found, margin, found.len() as int)]
        {
            let far = longest_of(found, found.len() as int);
            &&& LZParser::assimilated(a, &x, pos)
            &&& if pos < d.len() {
                found == finder.found_at(pos)
            } else {
                found.len() == 0
            }
            &&& matches_added(&x, &y, m, pos, found, margin, found.len() as int)
            &&& if far > 0 && far >= skip && y.edges_to_pos@[pos + far]@.dom().len() > 0 {
                LZParser::skipped(&y, b, pos, pos + far, 0) && next == pos + far
            } else {
                *b == y && next == pos + 1
            }
        }
}

/// The search went from its start to `b` at `pos`.
spec fn came_to(
    b: &LZParser,
    d: Seq<u8>,
    m: &SizeMeasurer,
    finder: &MatchFinder,
    margin: int,
    skip: int,
    references: usize,
    pos: int,
) -> bool
    decreases pos,
{
    if pos <= 1 {
        pos == 1 && fresh(b, d, m, references)
    } else {
        exists|a: LZParser, p: int| #[trigger]
            stepped(&a, b, d, m, finder, margin, skip, p, pos) && 1 <= p < pos && came_to(
                &a,
                d,
                m,
                finder,
                margin,
                skip,
                references,
                p,
            )
    }
}

/// The start of the search: one edge that is no reference.
spec fn fresh(b: &LZParser, d: Seq<u8>, m: &SizeMeasurer, references: usize) -> bool {
    &&& lits_right(m, d, b.literal_size@)
    &&& b.edges@ == seq![new_ref(0, 0, 0, b.literal_size@.last(), NONE)]
    &&& b.edge_count == 1
    &&& b.edge_capacity == references
    &&& b.heap@.len() == 0
    &&& b.best == 0
    &&& b.best_for_offset@ == Map::<u32, u32>::empty()
    &&& b.edges_to_pos@.len() == d.len() + 1
    &&& forall|t: int|
        0 <= t <= d.len() ==> (#[trigger] b.edges_to_pos@[t])@ == Map::<u32, u32>::empty()
}

/// `b` is where the search ended: the tokens are those of its cheapest edge, which
/// no edge that it kept is cheaper than, and cost what that edge says.
spec fn ended(
    b: &LZParser,
    d: Seq<u8>,
    m: &SizeMeasurer,
    finder: &MatchFinder,
    margin: int,
    skip: int,
    references: usize,
    ops: Seq<Op>,
) -> bool {
    let best = b.edges@[b.best as int];
    &&& came_to(b, d, m, finder, margin, skip, references, d.len() as int + 1)
    &&& b.best < b.edges@.len()
    &&& forall|k: u32| #[trigger]
        b.best_for_offset@.contains_key(k) ==> best.total_size <= edge_at(
            b.edges@,
            b.best_for_offset@[k],
        ).total_size
    &&& ops == tokens_of(d, b.edges@, b.best as int)
    &&& ops_size(m, ops, ops.len() as int) == best.total_size
}

/// The tokens are those of the cheapest edge that the search kept.
pub closed spec fn searched(
    d: Seq<u8>,
    m: &SizeMeasurer,
    finder: &MatchFinder,
    margin: int,
    skip: int,
    references: usize,
    ops: Seq<Op>,
) -> bool {
    exists|b: LZParser| #[trigger] ended(&b, d, m, finder, margin, skip, references, ops)
}

/// Looks for cheap tokens at the prices of `m`: those of the cheapest edge of the
/// search, no dearer than literals alone.
#[verifier::rlimit(60)]
pub fn parse(
    data: &[u8],
    finder: &MatchFinder,
    m: &SizeMeasurer,
    length_margin: i32,
    skip_length: i32,
    references: usize,
) -> (ops: Vec<Op>)
    requires
        0 < data@.len() <= MAX_INPUT,
        finder.ok(data@),
        m.ok(),
    ensures
        cheap_ops(m, data@, ops@),
        searched(
            data@,
            m,
            finder,
            length_margin as int,
            skip_length as int,
            references,
            ops@,
        ),
{
    let n: usize = data.len();
    let literal_size: Vec<u64> = literal_sizes(data, m);
    let all: u64 = literal_size[n];
    proof {
        lemma_literals_size(m, data@, literal_size@, n as int);
    }
    let mut edges_to_pos: Vec<CuckooHash> = Vec::new();
    while edges_to_pos.len() <= n
        invariant
            n == data@.len(),
            edges_to_pos@.len() <= n + 1,
            forall|k: int|
                0 <= k < edges_to_pos@.len() ==> (#[trigger] edges_to_pos@[k]).wf()
                    && edges_to_pos@[k]@ == Map::<u32, u32>::empty(),
        decreases n + 1 - edges_to_pos.len(),
    {
        edges_to_pos.push(CuckooHash::new());
    }
    let mut s: LZParser = LZParser {
        edges: Vec::new(),
        edge_count: 0,
        edge_capacity: references,
        heap: Vec::new(),
        literal_size,
        edges_to_pos,
        best: NONE,
        best_for_offset: CuckooHash::new(),
    };
    let initial: u32 = s.create(0, 0, 0, all, NONE);
    s.best = initial;
    let ghost margin = length_margin as int;
    let ghost skip = skip_length as int;
    proof {
        assert(s.edges@ =~= seq![new_ref(0, 0, 0, all, NONE)]);
        assert(edge_good(data@, m, s.literal_size@, s.edges@, 0));
        assert(fresh(&s, data@, m, references));
        assert(came_to(&s, data@, m, finder, margin, skip, references, 1));
        lemma_rooted_empty(s.heap@, s.edges@);
    }
    let mut pos: usize = 1;
    while pos <= n
        invariant
            n == data@.len(),
            n <= MAX_INPUT,
            1 <= pos <= n + 1,
            finder.ok(data@),
            m.ok(),
            initial == 0,
            margin == length_margin,
            skip == skip_length,
            good(&s, data@, m, pos as int),
            s.literal_size@.last() == all,
            came_to(&s, data@, m, finder, margin, skip, references, pos as int),
        decreases n + 1 - pos,
    {
        let ghost a = s;
        assert(ends_at(s.edges@, s.edges_to_pos@[pos as int]@, pos as int));
        s.assimilate(pos, Ghost(n as int));
        let ghost x = s;
        proof {
            lemma_good_assimilated(&a, &x, data@, m, pos as int);
        }
        let mut longest: usize = 0;
        let ghost mut list = Seq::<Found>::empty();
        if pos < n {
            let found: Vec<Found> = finder.matches(data, pos);
            let count: usize = found.len();
            let mut k: usize = 0;
            proof {
                list = found@;
            }
            while k < count
                invariant
                    n == data@.len(),
                    1 <= pos < n,
                    n <= MAX_INPUT,
                    count == found@.len(),
                    k <= count,
                    list == found@,
                    m.ok(),
                    longest == longest_of(found@, k as int),
                    longest <= n - pos,
                    margin == length_margin,
                    good(&s, data@, m, pos as int),
                    s.literal_size == x.literal_size,
                    matches_added(&x, &s, m, pos as int, found@, margin, k as int),
                    forall|j: int|
                        0 <= j < found@.len() ==> uparse::found_ok(
                            data@,
                            pos as int,
                            #[trigger] found@[j],
                        ),
                decreases count - k,
            {
                let f: Found = found[k];
                let ghost before = s;
                assert(uparse::found_ok(data@, pos as int, found@[k as int]));
                s.add_match(m, pos, &f, length_margin, Ghost(data@));
                assert(match_added(&before, &s, m, pos as int, found@[k as int], margin));
                if f.len > longest {
                    longest = f.len;
                }
                k += 1;
            }
        }
        let ghost y = s;
        let ghost at = pos as int;
        if longest > 0 && longest as i64 >= skip_length as i64 && s.edges_to_pos[pos + longest].size()
            > 0 {
            s.skip_to(pos, pos + longest, initial, Ghost(n as int));
            proof {
                lemma_good_skipped(&y, &s, data@, m, at, at + longest);
            }
            pos = pos + longest;
        } else {
            pos += 1;
        }
        proof {
            assert(LZParser::assimilated(&a, &x, at) && matches_added(
                &x,
                &y,
                m,
                at,
                list,
                margin,
                list.len() as int,
            ));
            assert(stepped(&a, &s, data@, m, finder, margin, skip, at, pos as int));
        }
    }
    proof {
        lemma_tokens_of(data@, m, s.literal_size@, s.edges@, s.best as int);
    }
    let ops: Vec<Op> = path_ops(data, &s, m);
    proof {
        assert(ended(&s, data@, m, finder, margin, skip, references, ops@));
    }
    ops
}

proof fn lemma_ops_prefix(ops: Seq<Op>, x: Op, k: int)
    requires
        0 <= k <= ops.len(),
    ensures
        upkrenc::ops_pos(ops.push(x), k) == upkrenc::ops_pos(ops, k),
        shrenc::last_before(ops.push(x), k) == shrenc::last_before(ops, k),
        shrenc::ref_before(ops.push(x), k) == shrenc::ref_before(ops, k),
    decreases k,
{
    if k > 0 {
        lemma_ops_prefix(ops, x, k - 1);
    }
}

/// Tokens for the input up to `p`.
spec fn ops_to(input: Seq<u8>, ops: Seq<Op>, p: int) -> bool {
    &&& upkrenc::ops_pos(ops, ops.len() as int) == p
    &&& forall|k: int| 0 <= k < ops.len() ==> #[trigger] shrenc::shr_op_at(input, ops, k)
}

proof fn lemma_ops_push(input: Seq<u8>, ops: Seq<Op>, p: int, x: Op)
    requires
        ops_to(input, ops, p),
        shrenc::shr_op_ok(
            input,
            p,
            x,
            shrenc::last_before(ops, ops.len() as int),
            shrenc::ref_before(ops, ops.len() as int),
        ),
    ensures
        ops_to(input, ops.push(x), p + upkrenc::op_len(x)),
{
    let t = ops.push(x);
    lemma_ops_prefix(ops, x, ops.len() as int);
    assert forall|k: int| 0 <= k < t.len() implies #[trigger] shrenc::shr_op_at(input, t, k) by {
        lemma_ops_prefix(ops, x, k);
        if k < ops.len() {
            assert(shrenc::shr_op_at(input, ops, k));
        }
    }
}

/// Appends literals up to `to`.
fn push_literals(ops: &mut Vec<Op>, data: &[u8], from: usize, to: usize)
    requires
        from <= to <= data@.len(),
        ops_to(data@, old(ops)@, from as int),
    ensures
        ops_to(data@, final(ops)@, to as int),
        shrenc::last_before(final(ops)@, final(ops)@.len() as int) == shrenc::last_before(
            old(ops)@,
            old(ops)@.len() as int,
        ),
        from == to ==> final(ops)@ == old(ops)@,
        from < to ==> !shrenc::ref_before(final(ops)@, final(ops)@.len() as int),
        final(ops)@ == old(ops)@ + Seq::new(
            (to - from) as nat,
            |i: int| Op::Literal(data@[from + i]),
        ),
{
    let ghost o = ops@;
    let mut p: usize = from;
    while p < to
        invariant
            from <= p <= to <= data@.len(),
            ops_to(data@, ops@, p as int),
            shrenc::last_before(ops@, ops@.len() as int) == shrenc::last_before(
                old(ops)@,
                old(ops)@.len() as int,
            ),
            p == from ==> ops@ == old(ops)@,
            p > from ==> !shrenc::ref_before(ops@, ops@.len() as int),
            ops@ =~= o + Seq::new((p - from) as nat, |i: int| Op::Literal(data@[from + i])),
        decreases to - p,
    {
        let x: Op = Op::Literal(data[p]);
        proof {
            lemma_ops_push(data@, ops@, p as int, x);
            lemma_ops_prefix(ops@, x, ops@.len() as int);
        }
        ops.push(x);
        p += 1;
    }
}

/// Literal tokens alone.
pub fn literal_tokens(data: &[u8]) -> (ops: Vec<Op>)
    ensures
        shrenc::shr_ops_ok(data@, ops@),
        ops@.len() == data@.len(),
        forall|i: int| 0 <= i < ops@.len() ==> #[trigger] ops@[i] == Op::Literal(data@[i]),
{
    let mut ops: Vec<Op> = Vec::new();
    push_literals(&mut ops, data, 0, data.len());
    ops
}

/// The edges on the path to the cheapest one, from it back to the first.
fn trace(s: &LZParser, Ghost(d): Ghost<Seq<u8>>, Ghost(m): Ghost<SizeMeasurer>) -> (path: Vec<u32>)
    requires
        edges_good(d, &m, s.literal_size@, s.edges@),
        s.best < s.edges@.len(),
    ensures
        path@.len() > 0,
        path@[0] == s.best,
        path@.last() == 0,
        forall|k: int|
            0 <= k < path@.len() - 1 ==> path@[k + 1] == s.edges@[(#[trigger] path@[k]) as int].source,
        forall|k: int|
            0 <= k < path@.len() ==> (#[trigger] path@[k]) < s.edges@.len() && (path@[k] == 0 ==> k
                == path@.len() - 1),
{
    let mut path: Vec<u32> = Vec::new();
    let mut id: u32 = s.best;
    path.push(id);
    while id != 0
        invariant
            edges_good(d, &m, s.literal_size@, s.edges@),
            id < s.edges@.len(),
            path@.len() > 0,
            path@[0] == s.best,
            path@.last() == id,
            forall|k: int|
                0 <= k < path@.len() - 1 ==> path@[k + 1] == s.edges@[(
                #[trigger] path@[k]) as int].source,
            forall|k: int|
                0 <= k < path@.len() ==> (#[trigger] path@[k]) < s.edges@.len() && (path@[k] == 0
                    ==> k == path@.len() - 1),
        decreases id,
    {
        assert(edge_good(d, &m, s.literal_size@, s.edges@, id as int));
        id = s.edges[id as usize].source;
        path.push(id);
    }
    path
}

/// The tokens of the path of the cheapest edge.
#[verifier::spinoff_prover]
fn path_ops(data: &[u8], s: &LZParser, m: &SizeMeasurer) -> (ops: Vec<Op>)
    requires
        data@.len() <= MAX_INPUT,
        m.ok(),
        lits_right(m, data@, s.literal_size@),
        edges_good(data@, m, s.literal_size@, s.edges@),
        s.best < s.edges@.len(),
    ensures
        ops@ == tokens_of(data@, s.edges@, s.best as int),
{
    let n: usize = data.len();
    let path: Vec<u32> = trace(s, Ghost(data@), Ghost(*m));
    let mut ops: Vec<Op> = Vec::new();
    let mut p: usize = 0;
    let mut k: usize = path.len() - 1;
    proof {
        assert(edge_good(data@, m, s.literal_size@, s.edges@, 0));
        assert(ops@ =~= tokens_to(data@, s.edges@, 0));
    }
    while k > 0
        invariant
            n == data@.len(),
            n <= MAX_INPUT,
            m.ok(),
            lits_right(m, data@, s.literal_size@),
            edges_good(data@, m, s.literal_size@, s.edges@),
            k < path@.len(),
            forall|k: int|
                0 <= k < path@.len() - 1 ==> path@[k + 1] == s.edges@[(
                #[trigger] path@[k]) as int].source,
            forall|k: int|
                0 <= k < path@.len() ==> (#[trigger] path@[k]) < s.edges@.len() && (path@[k] == 0
                    ==> k == path@.len() - 1),
            ops@ == tokens_to(data@, s.edges@, path@[k as int] as int),
            p == stop(s.edges@[path@[k as int] as int]),
        decreases k,
    {
        let ghost before = path@[k as int] as int;
        k -= 1;
        let id: u32 = path[k];
        let e: RefEdge = s.e(id);
        proof {
            assert(path@[k + 1] == s.edges@[path@[k as int] as int].source);
            assert(edge_good(data@, m, s.literal_size@, s.edges@, id as int));
            lemma_stop(data@, m, s.literal_size@, s.edges@, id as int);
            lemma_tokens_to(data@, m, s.literal_size@, s.edges@, before);
        }
        push_literals(&mut ops, data, p, e.pos as usize);
        ops.push(Op::Match { offset: e.offset, len: e.length });
        p = e.pos as usize + e.length as usize;
    }
    proof {
        lemma_stop(data@, m, s.literal_size@, s.edges@, s.best as int);
        lemma_tokens_to(data@, m, s.literal_size@, s.edges@, s.best as int);
    }
    push_literals(&mut ops, data, p, n);
    ops
}

} // verus!
