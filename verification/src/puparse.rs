//! Parses for PuCrunch: an exhaustive backward search over literals, matches
//! and runs, one with the escape value as part of the state, and the choice of
//! escape values for a given parse.
use crate::bitio;
use crate::matchfinder;
use crate::matchfinder::{Match, MatchSet};
use crate::pustream;
use crate::pustream::{gamma_cost, two_to, MAX_LZ_LEN, MAX_RLE_LEN};
use crate::putoken;
use crate::putoken::{
    byte_selector, plan_bits, rle_byte_cost, rle_cost, token_len, Plan, Tok,
};
use crate::zxdp;
use vstd::arithmetic::power2::pow2;
use vstd::prelude::*;

verus! {

/// Largest input of the parses.
pub const MAX_INPUT: usize = 0x3fff_ffff;

/// At every position the number of equal bytes that start there.
pub open spec fn runs_ok(data: Seq<u8>, rle: Seq<u32>) -> bool {
    &&& rle.len() == data.len()
    &&& forall|i: int|
        0 <= i < data.len() ==> {
            &&& 1 <= #[trigger] rle[i] <= data.len() - i
            &&& forall|j: int| i <= j < i + rle[i] ==> #[trigger] data[j] == data[i]
            &&& i + rle[i] < data.len() ==> data[i + rle[i]] != data[i]
        }
}

/// At every position the number of equal bytes that start there.
pub fn run_lengths(data: &[u8]) -> (rle: Vec<u32>)
    requires
        data@.len() <= MAX_INPUT,
    ensures
        runs_ok(data@, rle@),
{
    let n: usize = data.len();
    let mut rle: Vec<u32> = vec![1u32; n];
    let mut i: usize = n;
    while i >= 2
        invariant
            n == data@.len(),
            n <= MAX_INPUT,
            i <= n,
            rle@.len() == n,
            forall|k: int| 0 <= k < i - 1 ==> #[trigger] rle@[k] == 1,
            forall|k: int|
                0 <= k < n && k >= i - 1 ==> {
                    &&& 1 <= #[trigger] rle@[k] <= n - k
                    &&& forall|j: int| k <= j < k + rle@[k] ==> #[trigger] data@[j] == data@[k]
                    &&& k + rle@[k] < n ==> data@[k + rle@[k]] != data@[k]
                },
        decreases i,
    {
        i -= 1;
        let ghost before = rle@;
        if data[i] == data[i - 1] {
            let r: u32 = rle[i];
            rle.set(i - 1, r + 1);
        }
        assert forall|k: int| 0 <= k < n && k >= i - 1 implies {
            &&& 1 <= #[trigger] rle@[k] <= n - k
            &&& forall|j: int| k <= j < k + rle@[k] ==> #[trigger] data@[j] == data@[k]
            &&& k + rle@[k] < n ==> data@[k + rle@[k]] != data@[k]
        } by {
            assert(1 <= before[i as int] <= n - i);
            if k >= i {
                assert(rle@[k] == before[k]);
            }
        }
    }
    rle
}

/// Every byte of the data has a rank of at most 15.
pub open spec fn ranks_small(rank_of: Seq<u8>) -> bool {
    rank_of.len() == 256 && forall|b: int| 0 <= b < 256 ==> #[trigger] rank_of[b] <= 15
}

/// Where tokens cost the same the one that comes last here is taken: runs before
/// matches before literals, and the longest of each.
pub open spec fn pref(t: Tok) -> int {
    match t {
        Tok::Lit => 0,
        Tok::Lz { len, .. } => len as int,
        Tok::Rle { len } => 0x1_0000_0000 + len,
    }
}

/// A token that is not a literal, and its bits.
pub struct Edge {
    pub tok: Tok,
    pub bits: u32,
}

pub open spec fn edge_ok(data: Seq<u8>, i: int, x: nat, e: nat, rank_of: Seq<u8>, edge: Edge) -> bool {
    &&& putoken::tok_ok(data, i, edge.tok, x)
    &&& !(edge.tok is Lit)
    &&& edge.bits == putoken::tok_bits(data, i, edge.tok, e, x, rank_of, 0)
    &&& edge.bits <= 60
    &&& putoken::tok_len(edge.tok) >= 2
}

pub open spec fn edges_ok(data: Seq<u8>, i: int, x: nat, e: nat, rank_of: Seq<u8>, edges: Seq<Edge>) -> bool {
    forall|k: int| 0 <= k < edges.len() ==> edge_ok(data, i, x, e, rank_of, #[trigger] edges[k])
}

/// The list goes up in preference.
pub open spec fn edges_rise(edges: Seq<Edge>) -> bool {
    forall|a: int, b: int|
        0 <= a < b < edges.len() ==> pref((#[trigger] edges[a]).tok) <= pref(
            (#[trigger] edges[b]).tok,
        )
}

/// What takes the matches and runs at a position, one by one.
pub trait EdgeSink {
    /// What holds of it at position `i`.
    spec fn takes(&self, data: Seq<u8>, i: int, x: nat, e: nat, rank_of: Seq<u8>) -> bool;

    /// What stays as it is.
    spec fn basis(&self) -> Seq<u64>;

    /// What it was given.
    spec fn seen(&self) -> Set<Tok>;

    fn put(
        &mut self,
        tok: Tok,
        bits: u32,
        Ghost(data): Ghost<Seq<u8>>,
        Ghost(i): Ghost<int>,
        Ghost(x): Ghost<nat>,
        Ghost(e): Ghost<nat>,
        Ghost(rank_of): Ghost<Seq<u8>>,
    )
        requires
            old(self).takes(data, i, x, e, rank_of),
            edge_ok(data, i, x, e, rank_of, (Edge { tok, bits })),
            forall|t: Tok| #[trigger] old(self).seen().contains(t) ==> pref(t) <= pref(tok),
        ensures
            final(self).takes(data, i, x, e, rank_of),
            final(self).basis() == old(self).basis(),
            final(self).seen() == old(self).seen().insert(tok),
    ;
}

/// The list of all.
impl EdgeSink for Vec<Edge> {
    open spec fn takes(&self, data: Seq<u8>, i: int, x: nat, e: nat, rank_of: Seq<u8>) -> bool {
        edges_ok(data, i, x, e, rank_of, self@) && edges_rise(self@)
    }

    open spec fn basis(&self) -> Seq<u64> {
        Seq::empty()
    }

    open spec fn seen(&self) -> Set<Tok> {
        Set::new(|t: Tok| exists|k: int| 0 <= k < self@.len() && (#[trigger] self@[k]).tok == t)
    }

    fn put(
        &mut self,
        tok: Tok,
        bits: u32,
        Ghost(data): Ghost<Seq<u8>>,
        Ghost(i): Ghost<int>,
        Ghost(x): Ghost<nat>,
        Ghost(e): Ghost<nat>,
        Ghost(rank_of): Ghost<Seq<u8>>,
    ) {
        let ghost before = self@;
        let ghost seen0 = self.seen();
        self.push(Edge { tok, bits });
        proof {
            assert(self@[before.len() as int].tok == tok);
            assert forall|a: int, b: int| 0 <= a < b < self@.len() implies pref(
                (#[trigger] self@[a]).tok,
            ) <= pref((#[trigger] self@[b]).tok) by {
                assert(self@[a] == before[a]);
                if b < before.len() {
                    assert(self@[b] == before[b]);
                } else {
                    assert(seen0.contains(before[a].tok));
                }
            }
            assert forall|t: Tok| #[trigger] seen0.contains(t) implies self.seen().contains(t) by {
                let k = choose|k: int| 0 <= k < before.len() && (#[trigger] before[k]).tok == t;
                assert(self@[k].tok == t);
            }
            assert forall|t: Tok| #[trigger] self.seen().contains(t) implies t == tok || seen0.contains(t) by {
                let k = choose|k: int| 0 <= k < self@.len() && (#[trigger] self@[k]).tok == t;
                if k < before.len() {
                    assert(before[k].tok == t);
                }
            }
            assert(self.seen() =~= seen0.insert(tok));
        }
    }
}

/// The cheapest token so far, when the rest costs what `cost` says.
pub struct Pick<'a> {
    pub cost: &'a Vec<u64>,
    pub at: usize,
    pub best: u64,
    pub tok: Tok,
    pub given: Ghost<Set<Tok>>,
}

impl<'a> EdgeSink for Pick<'a> {
    open spec fn takes(&self, data: Seq<u8>, i: int, x: nat, e: nat, rank_of: Seq<u8>) -> bool {
        &&& self.at == i
        &&& i < data.len() <= MAX_INPUT
        &&& self.cost@.len() == data.len() + 1
        &&& forall|j: int|
            i + 1 <= j <= data.len() ==> #[trigger] self.cost@[j] <= 8 * (data.len() - j)
        &&& self.best <= 8 * (data.len() - i)
        &&& putoken::tok_ok(data, i, self.tok, x)
        &&& self.best == flat_bits(data, i, self.tok, e, x, rank_of) + self.cost@[i
            + putoken::tok_len(self.tok)]
        &&& self.given@.contains(self.tok)
        &&& forall|t: Tok| #[trigger]
            self.given@.contains(t) ==> {
                let c = flat_bits(data, i, t, e, x, rank_of) + self.cost@[i + putoken::tok_len(t)];
                self.best < c || self.best == c && pref(t) <= pref(self.tok)
            }
    }

    open spec fn basis(&self) -> Seq<u64> {
        self.cost@
    }

    open spec fn seen(&self) -> Set<Tok> {
        self.given@
    }

    fn put(
        &mut self,
        tok: Tok,
        bits: u32,
        Ghost(data): Ghost<Seq<u8>>,
        Ghost(i): Ghost<int>,
        Ghost(x): Ghost<nat>,
        Ghost(e): Ghost<nat>,
        Ghost(rank_of): Ghost<Seq<u8>>,
    ) {
        let len: usize = token_len(&tok) as usize;
        let c: u64 = bits as u64 + self.cost[self.at + len];
        let ghost old_tok = self.tok;
        let ghost old_given = self.given@;
        assert(self.seen().contains(old_tok));
        if c <= self.best {
            self.best = c;
            self.tok = tok;
        }
        self.given = Ghost(self.given@.insert(tok));
        assert forall|t: Tok| #[trigger] self.given@.contains(t) implies {
            let c = flat_bits(data, i, t, e, x, rank_of) + self.cost@[i + putoken::tok_len(t)];
            self.best < c || self.best == c && pref(t) <= pref(self.tok)
        } by {
            if t != tok {
                assert(old_given.contains(t));
            }
        }
    }
}

/// The first match of the list that is long enough lies `dist` back.
pub open spec fn nearest_of(list: Seq<Match>, len: int, dist: int) -> bool {
    exists|c: int|
        #![trigger list[c]]
        0 <= c < list.len() && list[c].offset == dist && list[c].length >= len && forall|j: int|
            0 <= j < c ==> (#[trigger] list[j]).length < len
}

/// A nearer match of the same length costs no more.
proof fn lemma_nearer_is_cheaper(e: nat, x: nat, len: int, near: int, far: int)
    requires
        putoken::lz_codable(len, far, x),
        1 <= near <= far,
    ensures
        putoken::lz_codable(len, near, x),
        putoken::lz_bits(e, x, len, near) <= putoken::lz_bits(e, x, len, far),
{
    vstd::arithmetic::power2::lemma_pow2_pos(x);
    let a = (near - 1) / 256;
    let b = (far - 1) / 256;
    let p = pow2(x) as int;
    assert(a <= b);
    assert(0 <= a / p <= b / p) by (nonlinear_arith)
        requires
            0 <= a <= b,
            p > 0,
    ;
    bitio::lemma_gamma_monotone(
        (putoken::dist_high(near, x) + 1) as nat,
        (putoken::dist_high(far, x) + 1) as nat,
    );
}

/// Where no match is missing among the candidates, no match that can be coded
/// beats the ones on offer: one of the same length that costs no more is among
/// them.
pub proof fn lemma_best_match_on_offer(sc: &Scene, i: int, len: u32, dist: u32)
    requires
        sc.wf(),
        sc.ms.complete(sc.data@, 2, 65535, MAX_LZ_LEN as int),
        0 <= i < sc.data@.len(),
        dist <= 65535,
        putoken::tok_ok(sc.data@, i, Tok::Lz { len, dist }, sc.extra as nat),
    ensures
        exists|near: u32|
            near <= dist && #[trigger] sc.offers(i, Tok::Lz { len, dist: near })
                && putoken::lz_bits(
                sc.esc_bits as nat,
                sc.extra as nat,
                len as int,
                near as int,
            ) <= putoken::lz_bits(sc.esc_bits as nat, sc.extra as nat, len as int, dist as int),
{
    let list = sc.ms.list(i);
    assert(matchfinder::front_of(sc.data@, i, list, 65535, 2, MAX_LZ_LEN as int));
    assert(matchfinder::has_as_near(list, dist as int, len as int));
    let k = choose|k: int|
        0 <= k < list.len() && (#[trigger] list[k]).offset <= dist && list[k].length >= len;
    let c = lemma_first_long(list, len as int, k);
    let near = list[c].offset;
    if c < k {
        assert(list[c].offset < list[k].offset);
    }
    assert(matchfinder::candidates_ok(sc.data@, i, list, sc.ms.max_offset()));
    lemma_nearer_is_cheaper(
        sc.esc_bits as nat,
        sc.extra as nat,
        len as int,
        near as int,
        dist as int,
    );
    assert(nearest_of(list, len as int, near as int));
    assert(sc.offers(i, Tok::Lz { len, dist: near }));
}

/// The first candidate that is long enough.
proof fn lemma_first_long(list: Seq<Match>, len: int, k: int) -> (c: int)
    requires
        0 <= k < list.len(),
        list[k].length >= len,
    ensures
        0 <= c <= k,
        list[c].length >= len,
        forall|j: int| 0 <= j < c ==> (#[trigger] list[j]).length < len,
    decreases k,
{
    if forall|j: int| 0 <= j < k ==> (#[trigger] list[j]).length < len {
        k
    } else {
        let j = choose|j: int| 0 <= j < k && (#[trigger] list[j]).length >= len;
        lemma_first_long(list, len, j)
    }
}

proof fn lemma_step_order(s: int, step: int)
    requires
        is_step(s),
        is_step(step),
        s < 2 * step + 256,
        s != step,
    ensures
        s < step,
{
}

proof fn lemma_same_nearest(list: Seq<Match>, len: int, dist: int, ci: int)
    requires
        nearest_of(list, len, dist),
        0 <= ci < list.len(),
        list[ci].length >= len,
        forall|j: int| 0 <= j < ci ==> (#[trigger] list[j]).length < len,
    ensures
        dist == list[ci].offset,
{
    let c = choose|c: int|
        #![trigger list[c]]
        0 <= c < list.len() && list[c].offset == dist && list[c].length >= len && forall|j: int|
            0 <= j < c ==> (#[trigger] list[j]).length < len;
    if c < ci {
        assert(list[c].length < len);
    } else if ci < c {
        assert(list[ci].length < len);
    }
}

/// Lengths around those where the code of a run grows.
pub open spec fn near_step(len: int) -> bool {
    exists|s: int| #[trigger] is_step(s) && s - 1 <= len <= s + 1
}

pub open spec fn is_step(s: int) -> bool {
    s == 256 || s == 768 || s == 1792 || s == 3840 || s == 7936 || s == 16128 || s == 32512
}

/// What the parses work on.
pub struct Scene<'a> {
    pub data: &'a [u8],
    pub ms: &'a MatchSet,
    pub rle: &'a Vec<u32>,
    pub rank_of: &'a Vec<u8>,
    pub esc_bits: u32,
    pub extra: u32,
}

impl<'a> Scene<'a> {
    pub open spec fn wf(&self) -> bool {
        &&& self.data@.len() <= MAX_INPUT
        &&& self.ms.of(self.data@)
        &&& runs_ok(self.data@, self.rle@)
        &&& ranks_small(self.rank_of@)
        &&& self.esc_bits <= 8
        &&& self.extra <= 4
    }

    pub open spec fn edges_at(&self, i: int, edges: Seq<Edge>) -> bool {
        edges_ok(
            self.data@,
            i,
            self.extra as nat,
            self.esc_bits as nat,
            self.rank_of@,
            edges,
        )
    }

    /// The tokens at `i` that a parse chooses from: literals; for every length
    /// the nearest match; and runs of every length up to 320, of the lengths where
    /// the cost steps, and of the greatest length.
    pub open spec fn offers(&self, i: int, t: Tok) -> bool {
        match t {
            Tok::Lit => true,
            Tok::Lz { len, dist } => {
                &&& putoken::lz_codable(len as int, dist as int, self.extra as nat)
                &&& nearest_of(self.ms.list(i), len as int, dist as int)
            },
            Tok::Rle { len } => {
                &&& 2 <= len <= self.rle@[i]
                &&& len <= MAX_RLE_LEN
                &&& len <= 320 || near_step(len as int) || len == self.rle@[i] || len
                    == MAX_RLE_LEN
            },
        }
    }

    /// Every token is on offer at its place.
    pub open spec fn offers_all(&self, toks: Seq<Tok>) -> bool {
        forall|k: int|
            0 <= k < toks.len() ==> self.offers(putoken::tok_pos(toks, k), #[trigger] toks[k])
    }

    /// What a sink at `i` takes.
    spec fn taken<S: EdgeSink>(&self, edges: &S, i: int) -> bool {
        edges.takes(
            self.data@,
            i,
            self.extra as nat,
            self.esc_bits as nat,
            self.rank_of@,
        )
    }

    /// All matches at `i`: for every length the nearest.
    fn lz_edges<S: EdgeSink>(&self, i: usize, edges: &mut S)
        requires
            self.wf(),
            i < self.data@.len(),
            self.taken(old(edges), i as int),
            forall|t: Tok| #[trigger] old(edges).seen().contains(t) ==> t is Lit,
        ensures
            self.taken(final(edges), i as int),
            forall|t: Tok| #[trigger]
                final(edges).seen().contains(t) ==> t is Lit || t is Lz && self.offers(i as int, t),
            forall|t: Tok| #[trigger]
                final(edges).seen().contains(t) && t is Lit ==> old(edges).seen().contains(t),
            final(edges).basis() == old(edges).basis(),
            old(edges).seen().subset_of(final(edges).seen()),
            forall|t: Tok|
                t is Lz && #[trigger] self.offers(i as int, t) ==> final(edges).seen().contains(t),
    {
        let ghost basis = edges.basis();
        let ghost seen0 = edges.seen();
        let cands: &Vec<Match> = self.ms.matches_for(i);
        let count: usize = cands.len();
        if count == 0 {
            return ;
        }
        let p: u32 = two_to(self.extra);
        let top: u32 = cands[count - 1].length;
        let max_l: u32 = if top < MAX_LZ_LEN as u32 {
            top
        } else {
            MAX_LZ_LEN as u32
        };
        let mut ci: usize = 0;
        let mut l: u32 = 2;
        let mut of: usize = count;
        let mut high: u32 = 0;
        let mut high_bits: u32 = 0;
        while l <= max_l
            invariant
                self.wf(),
                i < self.data@.len(),
                cands@ == self.ms.list(i as int),
                count == cands@.len(),
                count > 0,
                ci < count,
                2 <= l,
                max_l <= 256,
                max_l <= cands@[count - 1].length,
                p == pow2(self.extra as nat),
                p >= 1,
                of < count ==> high == (cands@[of as int].offset - 1) / 256 / (p as int),
                of < count && high <= 253 ==> high_bits == pustream::pu_gamma_len((high + 1) as nat),
                high_bits <= 14,
                self.taken(edges, i as int),
                edges.basis() == basis,
                seen0.subset_of(edges.seen()),
                forall|t: Tok| #[trigger]
                    edges.seen().contains(t) ==> if t is Lit {
                        seen0.contains(t)
                    } else {
                        t is Lz && t->Lz_len < l && self.offers(i as int, t)
                    },
                matchfinder::lengths_grow(cands@),
                forall|j: int| 0 <= j < ci ==> (#[trigger] cands@[j]).length < l,
                forall|t: Tok|
                    t is Lz && t->Lz_len < l && #[trigger] self.offers(i as int, t)
                        ==> edges.seen().contains(t),
            decreases max_l + 1 - l,
        {
            while ci < count - 1 && cands[ci].length < l
                invariant
                    count == cands@.len(),
                    ci < count,
                    forall|j: int| 0 <= j < ci ==> (#[trigger] cands@[j]).length < l,
                decreases count - ci,
            {
                ci += 1;
            }
            let c: Match = cands[ci];
            let ghost seen1 = edges.seen();
            proof {
                assert(matchfinder::candidates_ok(
                    self.data@,
                    i as int,
                    self.ms.list(i as int),
                    self.ms.max_offset(),
                ));
                assert(cands@[ci as int].length >= 2);
            }
            let dist: u32 = c.offset;
            if of != ci {
                of = ci;
                high = (dist - 1) / 256 / p;
                high_bits = if high <= 253 {
                    gamma_cost(high + 1)
                } else {
                    0
                };
            }
            if c.length >= l && (if l == 2 {
                dist <= 256
            } else {
                high <= 253
            }) {
                proof {
                    zxdp::lemma_shorter_match(
                        self.data@,
                        i as int,
                        dist as int,
                        c.length as int,
                        l as int,
                    );
                }
                assert(nearest_of(cands@, l as int, dist as int));
                let bits: u32 = if l == 2 {
                    self.esc_bits + 10
                } else {
                    self.esc_bits + 8 + self.extra + gamma_cost(l - 1) + high_bits
                };
                edges.put(
                    Tok::Lz { len: l, dist },
                    bits,
                    Ghost(self.data@),
                    Ghost(i as int),
                    Ghost(self.extra as nat),
                    Ghost(self.esc_bits as nat),
                    Ghost(self.rank_of@),
                );
            }
            proof {
                assert forall|t: Tok|
                    t is Lz && t->Lz_len < l + 1 && #[trigger] self.offers(i as int, t) implies edges.seen().contains(
                t) by {
                    if t->Lz_len == l {
                        lemma_same_nearest(cands@, l as int, t->dist as int, ci as int);
                        assert(t == Tok::Lz { len: l, dist });
                    } else {
                        assert(seen1.contains(t));
                    }
                }
            }
            l += 1;
        }
        proof {
            assert forall|t: Tok| t is Lz && #[trigger] self.offers(i as int, t) implies edges.seen().contains(
            t) by {
                if t->Lz_len > max_l {
                    let c = choose|c: int|
                        #![trigger cands@[c]]
                        0 <= c < cands@.len() && cands@[c].offset == t->dist && cands@[c].length
                            >= t->Lz_len && forall|j: int|
                            0 <= j < c ==> (#[trigger] cands@[j]).length < t->Lz_len;
                    if c < count - 1 {
                        assert(cands@[c].length < cands@[count - 1].length);
                    }
                }
            }
        }
    }

    fn rle_edge<S: EdgeSink>(&self, i: usize, len: usize, byte_cost: u32, edges: &mut S)
        requires
            self.wf(),
            i < self.data@.len(),
            2 <= len <= MAX_RLE_LEN,
            len <= self.rle@[i as int],
            byte_cost == putoken::rle_byte_bits(self.rank_of@[self.data@[i as int] as int]),
            byte_cost <= 14,
            self.taken(old(edges), i as int),
            forall|t: Tok| #[trigger]
                old(edges).seen().contains(t) ==> pref(t) <= 0x1_0000_0000 + len,
        ensures
            self.taken(final(edges), i as int),
            final(edges).basis() == old(edges).basis(),
            final(edges).seen() == old(edges).seen().insert(Tok::Rle { len: len as u32 }),
    {
        let bits: u32 = rle_cost(self.esc_bits, len as u32, byte_cost);
        edges.put(
            Tok::Rle { len: len as u32 },
            bits,
            Ghost(self.data@),
            Ghost(i as int),
            Ghost(self.extra as nat),
            Ghost(self.esc_bits as nat),
            Ghost(self.rank_of@),
        );
    }

    /// Runs at `i`: every length up to a bound, then the lengths where the cost
    /// steps, and the whole run.
    fn rle_edges<S: EdgeSink>(&self, i: usize, edges: &mut S)
        requires
            self.wf(),
            i < self.data@.len(),
            self.taken(old(edges), i as int),
            forall|t: Tok| #[trigger] old(edges).seen().contains(t) ==> pref(t) <= 0x1_0000_0000,
        ensures
            self.taken(final(edges), i as int),
            forall|t: Tok| #[trigger]
                final(edges).seen().contains(t) ==> old(edges).seen().contains(t) || t is Rle
                    && self.offers(i as int, t),
            final(edges).basis() == old(edges).basis(),
            old(edges).seen().subset_of(final(edges).seen()),
            forall|t: Tok|
                t is Rle && #[trigger] self.offers(i as int, t) ==> final(edges).seen().contains(t),
    {
        let ghost basis = edges.basis();
        let ghost seen0 = edges.seen();
        let run: usize = self.rle[i] as usize;
        if run < 2 {
            return ;
        }
        let byte_cost: u32 = rle_byte_cost(self.rank_of, self.data[i]);
        let cap: usize = if run < MAX_RLE_LEN {
            run
        } else {
            MAX_RLE_LEN
        };
        let dense: usize = if cap < 320 {
            cap
        } else {
            320
        };
        let mut len: usize = 2;
        while len <= dense
            invariant
                self.wf(),
                i < self.data@.len(),
                2 <= len,
                dense <= cap <= MAX_RLE_LEN,
                cap <= self.rle@[i as int],
                byte_cost == putoken::rle_byte_bits(self.rank_of@[self.data@[i as int] as int]),
                byte_cost <= 14,
                self.taken(edges, i as int),
                edges.basis() == basis,
                seen0.subset_of(edges.seen()),
                dense <= 320,
                len <= dense + 1 || len == 2,
                forall|t: Tok| #[trigger]
                    edges.seen().contains(t) ==> pref(t) < 0x1_0000_0000 + len && (seen0.contains(t)
                        || t is Rle && self.offers(i as int, t)),
                forall|t: Tok|
                    t is Rle && 2 <= t->Rle_len < len ==> #[trigger] edges.seen().contains(t),
            decreases dense + 1 - len,
        {
            let ghost seen1 = edges.seen();
            self.rle_edge(i, len, byte_cost, edges);
            proof {
                assert forall|t: Tok| t is Rle && 2 <= t->Rle_len < len + 1 implies #[trigger] edges.seen().contains(
                t) by {
                    if t->Rle_len == len {
                        assert(t == Tok::Rle { len: len as u32 });
                    } else {
                        assert(seen1.contains(t));
                    }
                }
            }
            len += 1;
        }
        let ghost seen1 = edges.seen();
        let ghost mut seen3 = seen1;
        if cap > 320 {
            let mut step: usize = 256;
            while step <= 32512
                invariant
                    self.wf(),
                    i < self.data@.len(),
                    256 <= step <= 0x1_0000,
                    cap <= MAX_RLE_LEN,
                    cap <= self.rle@[i as int],
                    byte_cost == putoken::rle_byte_bits(self.rank_of@[self.data@[i as int] as int]),
                    byte_cost <= 14,
                    self.taken(edges, i as int),
                    edges.basis() == basis,
                    seen1.subset_of(edges.seen()),
                    is_step(step as int) || step == 65280,
                    cap > 320,
                    forall|t: Tok| #[trigger]
                        edges.seen().contains(t) ==> (pref(t) <= 0x1_0000_0000 + 320 || pref(t)
                            <= 0x1_0000_0000 + step - 2) && pref(t) <= 0x1_0000_0000 + cap && (
                        seen0.contains(t) || t is Rle && self.offers(i as int, t)),
                    forall|t: Tok, s: int|
                        t is Rle && #[trigger] is_step(s) && s < step && s - 1 <= t->Rle_len <= s + 1
                            && 321 <= t->Rle_len <= cap ==> #[trigger] edges.seen().contains(t),
                decreases 0x1_0001 - step,
            {
                let ghost seen2 = edges.seen();
                if 321 <= step - 1 && step - 1 <= cap {
                    self.rle_edge(i, step - 1, byte_cost, edges);
                }
                if 321 <= step && step <= cap {
                    self.rle_edge(i, step, byte_cost, edges);
                }
                if 321 <= step + 1 && step + 1 <= cap {
                    self.rle_edge(i, step + 1, byte_cost, edges);
                }
                proof {
                    assert forall|t: Tok, s: int|
                        t is Rle && #[trigger] is_step(s) && s < 2 * step + 256 && s - 1 <= t->Rle_len
                            <= s + 1 && 321 <= t->Rle_len <= cap implies #[trigger] edges.seen().contains(t) by {
                        if s == step {
                            assert(t == Tok::Rle { len: (step - 1) as u32 } || t == Tok::Rle {
                                len: step as u32,
                            } || t == Tok::Rle { len: (step + 1) as u32 });
                        } else {
                            lemma_step_order(s, step as int);
                            assert(seen2.contains(t));
                        }
                    }
                }
                step = 2 * step + 256;
            }
            proof {
                seen3 = edges.seen();
            }
            self.rle_edge(i, cap, byte_cost, edges);
        }
        proof {
            assert forall|t: Tok| #[trigger] seen3.contains(t) implies edges.seen().contains(t) by {}
            assert forall|t: Tok| #[trigger] seen0.contains(t) implies edges.seen().contains(t) by {
                assert(seen1.contains(t));
                assert(seen3.contains(t));
            }
            assert forall|t: Tok| t is Rle && #[trigger] self.offers(i as int, t) implies edges.seen().contains(
            t) by {
                let len = t->Rle_len;
                if len <= dense {
                    assert(seen1.contains(t));
                    assert(seen3.contains(t));
                } else if len == cap {
                    assert(t == Tok::Rle { len: cap as u32 });
                } else {
                    let s = choose|s: int| #[trigger] is_step(s) && s - 1 <= len <= s + 1;
                    assert(is_step(s) && s < 65280);
                    assert(seen3.contains(t));
                }
            }
        }
    }

    /// Every match and every run at `i`. Runs come last, so that they win where
    /// costs are equal.
    fn edges_of<S: EdgeSink>(&self, i: usize, edges: &mut S)
        requires
            self.wf(),
            i < self.data@.len(),
            self.taken(old(edges), i as int),
            forall|t: Tok| #[trigger] old(edges).seen().contains(t) ==> t is Lit,
        ensures
            self.taken(final(edges), i as int),
            forall|t: Tok| #[trigger]
                final(edges).seen().contains(t) ==> if t is Lit {
                    old(edges).seen().contains(t)
                } else {
                    self.offers(i as int, t)
                },
            final(edges).basis() == old(edges).basis(),
            old(edges).seen().subset_of(final(edges).seen()),
            forall|t: Tok|
                !(t is Lit) && #[trigger] self.offers(i as int, t) ==> final(edges).seen().contains(t),
    {
        let ghost seen0 = edges.seen();
        self.lz_edges(i, edges);
        let ghost seen1 = edges.seen();
        self.rle_edges(i, edges);
        proof {
            assert forall|t: Tok| #[trigger] seen0.contains(t) implies edges.seen().contains(t) by {
                assert(seen1.contains(t));
            }
            assert forall|t: Tok| !(t is Lit) && #[trigger] self.offers(i as int, t) implies edges.seen().contains(
            t) by {
                if t is Lz {
                    assert(seen1.contains(t));
                }
            }
        }
    }
}

// ---------------------------------------------------------------------------
// Parse with literals of eight bits
// ---------------------------------------------------------------------------
/// Bits of a token when every literal takes eight.
pub open spec fn flat_bits(data: Seq<u8>, i: int, t: Tok, e: nat, x: nat, rank_of: Seq<u8>) -> int {
    match t {
        Tok::Lit => 8,
        _ => putoken::tok_bits(data, i, t, e, x, rank_of, 0),
    }
}

/// Bits of the first `k` tokens when every literal takes eight.
pub open spec fn flat_total(data: Seq<u8>, toks: Seq<Tok>, e: nat, x: nat, rank_of: Seq<u8>, k: int) -> int
    decreases k,
{
    if k <= 0 {
        0
    } else {
        flat_total(data, toks, e, x, rank_of, k - 1) + flat_bits(
            data,
            putoken::tok_pos(toks, k - 1),
            toks[k - 1],
            e,
            x,
            rank_of,
        )
    }
}

pub proof fn lemma_flat_prefix(
    data: Seq<u8>,
    a: Seq<Tok>,
    b: Seq<Tok>,
    e: nat,
    x: nat,
    rank_of: Seq<u8>,
    k: int,
)
    requires
        0 <= k <= a.len(),
        k <= b.len(),
        forall|j: int| 0 <= j < k ==> a[j] == b[j],
    ensures
        putoken::tok_pos(a, k) == putoken::tok_pos(b, k),
        flat_total(data, a, e, x, rank_of, k) == flat_total(data, b, e, x, rank_of, k),
    decreases k,
{
    if k > 0 {
        lemma_flat_prefix(data, a, b, e, x, rank_of, k - 1);
    }
}

/// Adds a token to tokens that reach up to its place.
fn push_token(toks: &mut Vec<Tok>, t: Tok, Ghost(data): Ghost<Seq<u8>>, Ghost(x): Ghost<nat>, Ghost(
    i,
): Ghost<int>)
    requires
        forall|k: int| 0 <= k < old(toks)@.len() ==> #[trigger] putoken::tok_fits(data, old(toks)@, x, k),
        putoken::tok_pos(old(toks)@, old(toks)@.len() as int) == i,
        putoken::tok_ok(data, i, t, x),
    ensures
        final(toks)@ == old(toks)@.push(t),
        forall|k: int|
            0 <= k < final(toks)@.len() ==> #[trigger] putoken::tok_fits(data, final(toks)@, x, k),
        putoken::tok_pos(final(toks)@, final(toks)@.len() as int) == i + putoken::tok_len(t),
{
    let ghost t0 = toks@;
    toks.push(t);
    proof {
        let t1 = toks@;
        lemma_flat_prefix(data, t0, t1, 0, 0, Seq::empty(), t0.len() as int);
        assert forall|k: int| 0 <= k < t1.len() implies #[trigger] putoken::tok_fits(data, t1, x, k) by {
            if k < t0.len() {
                lemma_flat_prefix(data, t0, t1, 0, 0, Seq::empty(), k);
                assert(putoken::tok_fits(data, t0, x, k));
            }
        }
    }
}

/// From `i` on no token on offer leads to less.
spec fn flat_least(sc: &Scene, cost: Seq<u64>, i: int) -> bool {
    forall|j: int, t: Tok|
        i <= j < sc.data@.len() && #[trigger] sc.offers(j, t) ==> cost[j] <= flat_bits(
            sc.data@,
            j,
            t,
            sc.esc_bits as nat,
            sc.extra as nat,
            sc.rank_of@,
        ) + cost[j + putoken::tok_len(t)]
}

/// What the token and the rest cost with literals of eight bits.
pub open spec fn flat_via(sc: &Scene, cost: Seq<u64>, i: int, t: Tok) -> int {
    flat_bits(sc.data@, i, t, sc.esc_bits as nat, sc.extra as nat, sc.rank_of@) + cost[i
        + putoken::tok_len(t)]
}

/// The token is one on offer at `i` with which the rest costs least, and of several
/// the preferred one.
pub open spec fn flat_choice(sc: &Scene, cost: Seq<u64>, i: int, t: Tok) -> bool {
    &&& sc.offers(i, t)
    &&& putoken::tok_ok(sc.data@, i, t, sc.extra as nat)
    &&& cost[i] == flat_via(sc, cost, i, t)
    &&& forall|u: Tok| #[trigger]
        sc.offers(i, u) && putoken::tok_ok(sc.data@, i, u, sc.extra as nat) ==> cost[i] < flat_via(
            sc,
            cost,
            i,
            u,
        ) || cost[i] == flat_via(sc, cost, i, u) && pref(u) <= pref(t)
}

/// Some token is the one to choose.
pub open spec fn has_flat_choice(sc: &Scene, cost: Seq<u64>, i: int) -> bool {
    exists|t: Tok| #[trigger] flat_choice(sc, cost, i, t)
}

/// The least costs from every position on.
pub open spec fn flat_costs(sc: &Scene, cost: Seq<u64>) -> bool {
    &&& cost.len() == sc.data@.len() + 1
    &&& cost[sc.data@.len() as int] == 0
    &&& forall|i: int|
        0 <= i < sc.data@.len() ==> #[trigger] has_flat_choice(sc, cost, i)
}

/// The parse when every literal takes eight bits: from the start, token by token,
/// the one to choose.
pub open spec fn flat_found(sc: &Scene, toks: Seq<Tok>) -> bool {
    &&& putoken::toks_ok(sc.data@, toks, sc.extra as nat)
    &&& exists|cost: Seq<u64>| #[trigger]
        flat_costs(sc, cost) && forall|k: int|
            0 <= k < toks.len() ==> flat_choice(
                sc,
                cost,
                putoken::tok_pos(toks, k),
                #[trigger] toks[k],
            )
}

/// Two tokens on offer of the same preference are one.
proof fn lemma_one_pref(sc: &Scene, i: int, a: Tok, b: Tok)
    requires
        sc.offers(i, a),
        sc.offers(i, b),
        pref(a) == pref(b),
        putoken::tok_ok(sc.data@, i, a, sc.extra as nat),
        putoken::tok_ok(sc.data@, i, b, sc.extra as nat),
    ensures
        a == b,
{
    if let Tok::Lz { len, dist } = a {
        let list = sc.ms.list(i);
        let c = choose|c: int|
            #![trigger list[c]]
            0 <= c < list.len() && list[c].offset == dist && list[c].length >= len && forall|j: int|
                0 <= j < c ==> (#[trigger] list[j]).length < len;
        assert(b is Lz);
        lemma_same_nearest(list, len as int, b->dist as int, c);
    }
}

proof fn lemma_one_flat_cost(sc: &Scene, a: Seq<u64>, b: Seq<u64>, i: int)
    requires
        flat_costs(sc, a),
        flat_costs(sc, b),
        0 <= i <= sc.data@.len(),
    ensures
        forall|j: int| i <= j <= sc.data@.len() ==> #[trigger] a[j] == b[j],
    decreases sc.data@.len() - i,
{
    if i < sc.data@.len() {
        lemma_one_flat_cost(sc, a, b, i + 1);
        assert(has_flat_choice(sc, a, i) && has_flat_choice(sc, b, i));
        let t = choose|t: Tok| #[trigger] flat_choice(sc, a, i, t);
        let u = choose|u: Tok| #[trigger] flat_choice(sc, b, i, u);
        assert(flat_choice(sc, a, i, t) && flat_choice(sc, b, i, u));
        assert(sc.offers(i, t) && sc.offers(i, u));
        assert(a[i + putoken::tok_len(t)] == b[i + putoken::tok_len(t)]);
        assert(a[i + putoken::tok_len(u)] == b[i + putoken::tok_len(u)]);
    }
}

/// A choice does not depend on what comes before it.
proof fn lemma_same_choice(sc: &Scene, a: Seq<u64>, b: Seq<u64>, i: int, t: Tok)
    requires
        flat_choice(sc, a, i, t),
        0 <= i < sc.data@.len(),
        a.len() == sc.data@.len() + 1,
        forall|j: int| i <= j <= sc.data@.len() ==> #[trigger] a[j] == b[j],
    ensures
        flat_choice(sc, b, i, t),
{
    assert(a[i + putoken::tok_len(t)] == b[i + putoken::tok_len(t)]);
    assert forall|u: Tok| #[trigger]
        sc.offers(i, u) && putoken::tok_ok(sc.data@, i, u, sc.extra as nat) implies b[i] < flat_via(
        sc,
        b,
        i,
        u,
    ) || b[i] == flat_via(sc, b, i, u) && pref(u) <= pref(t) by {
        assert(a[i + putoken::tok_len(u)] == b[i + putoken::tok_len(u)]);
    }
}

/// There is one such parse.
pub proof fn lemma_one_flat(sc: &Scene, a: Seq<Tok>, b: Seq<Tok>)
    requires
        flat_found(sc, a),
        flat_found(sc, b),
    ensures
        a == b,
{
    let ca = choose|cost: Seq<u64>| #[trigger]
        flat_costs(sc, cost) && forall|k: int|
            0 <= k < a.len() ==> flat_choice(sc, cost, putoken::tok_pos(a, k), #[trigger] a[k]);
    let cb = choose|cost: Seq<u64>| #[trigger]
        flat_costs(sc, cost) && forall|k: int|
            0 <= k < b.len() ==> flat_choice(sc, cost, putoken::tok_pos(b, k), #[trigger] b[k]);
    lemma_one_flat_cost(sc, ca, cb, 0);
    assert(ca =~= cb);
    assert(a.take(0) =~= b.take(0));
    lemma_same_choices(sc, ca, a, b, 0);
}

proof fn lemma_same_choices(sc: &Scene, cost: Seq<u64>, a: Seq<Tok>, b: Seq<Tok>, k: int)
    requires
        putoken::toks_ok(sc.data@, a, sc.extra as nat),
        putoken::toks_ok(sc.data@, b, sc.extra as nat),
        forall|k: int|
            0 <= k < a.len() ==> flat_choice(sc, cost, putoken::tok_pos(a, k), #[trigger] a[k]),
        forall|k: int|
            0 <= k < b.len() ==> flat_choice(sc, cost, putoken::tok_pos(b, k), #[trigger] b[k]),
        0 <= k <= a.len(),
        k <= b.len(),
        putoken::tok_pos(a, k) == putoken::tok_pos(b, k),
        a.take(k) == b.take(k),
    ensures
        a == b,
    decreases a.len() - k,
{
    if k == a.len() {
        if k < b.len() {
            lemma_some_left(sc.data@, b, sc.extra as nat, k);
        }
        assert(a.take(k) =~= a);
        assert(b.take(k) =~= b);
    } else {
        lemma_some_left(sc.data@, a, sc.extra as nat, k);
        if k == b.len() {
        } else {
            let p = putoken::tok_pos(a, k);
            assert(flat_choice(sc, cost, p, a[k]) && flat_choice(sc, cost, p, b[k]));
            lemma_one_pref(sc, p, a[k], b[k]);
            assert(a.take(k + 1) =~= a.take(k).push(a[k]));
            assert(b.take(k + 1) =~= b.take(k).push(b[k]));
            lemma_same_choices(sc, cost, a, b, k + 1);
        }
    }
}

/// Where there is another token there is another byte.
proof fn lemma_some_left(data: Seq<u8>, toks: Seq<Tok>, x: nat, k: int)
    requires
        putoken::toks_ok(data, toks, x),
        0 <= k < toks.len(),
    ensures
        putoken::tok_pos(toks, k) < data.len(),
    decreases toks.len() - k,
{
    assert(putoken::tok_fits(data, toks, x, k));
}

/// No parse by tokens on offer costs less from its token `k` on.
proof fn lemma_flat_least(sc: &Scene, cost: Seq<u64>, q: Seq<Tok>, k: int)
    requires
        sc.wf(),
        cost.len() == sc.data@.len() + 1,
        cost[sc.data@.len() as int] == 0,
        flat_least(sc, cost, 0),
        putoken::toks_ok(sc.data@, q, sc.extra as nat),
        sc.offers_all(q),
        0 <= k <= q.len(),
    ensures
        0 <= putoken::tok_pos(q, k) <= sc.data@.len(),
        cost[putoken::tok_pos(q, k)] + flat_total(
            sc.data@,
            q,
            sc.esc_bits as nat,
            sc.extra as nat,
            sc.rank_of@,
            k,
        ) <= flat_total(
            sc.data@,
            q,
            sc.esc_bits as nat,
            sc.extra as nat,
            sc.rank_of@,
            q.len() as int,
        ),
    decreases q.len() - k,
{
    if k < q.len() {
        lemma_flat_least(sc, cost, q, k + 1);
        assert(putoken::tok_fits(sc.data@, q, sc.extra as nat, k));
        assert(sc.offers(putoken::tok_pos(q, k), q[k]));
    }
}

/// The cheapest parse when every literal takes eight bits, and its bits
/// without those of escape changes and of the end marker.
#[verifier::rlimit(40)]
pub fn parse(sc: &Scene) -> (r: (Vec<Tok>, u64))
    requires
        sc.wf(),
    ensures
        putoken::toks_ok(sc.data@, r.0@, sc.extra as nat),
        flat_found(sc, r.0@),
        r.1 == flat_total(
            sc.data@,
            r.0@,
            sc.esc_bits as nat,
            sc.extra as nat,
            sc.rank_of@,
            r.0@.len() as int,
        ),
        r.1 <= 8 * sc.data@.len(),
        forall|q: Seq<Tok>|
            putoken::toks_ok(sc.data@, q, sc.extra as nat) && #[trigger] sc.offers_all(q) ==> r.1
                <= flat_total(
                sc.data@,
                q,
                sc.esc_bits as nat,
                sc.extra as nat,
                sc.rank_of@,
                q.len() as int,
            ),
{
    let n: usize = sc.data.len();
    let ghost data = sc.data@;
    let ghost e = sc.esc_bits as nat;
    let ghost x = sc.extra as nat;
    let mut cost: Vec<u64> = vec![0u64; n + 1];
    let mut step: Vec<Tok> = Vec::with_capacity(n);
    let mut z: usize = 0;
    while z < n
        invariant
            z <= n,
            step@.len() == z,
        decreases n - z,
    {
        step.push(Tok::Lit);
        z += 1;
    }
    let mut i: usize = n;
    while i > 0
        invariant
            sc.wf(),
            n == sc.data@.len(),
            data == sc.data@,
            e == sc.esc_bits,
            x == sc.extra,
            i <= n,
            n <= MAX_INPUT,
            cost@.len() == n + 1,
            step@.len() == n,
            cost@[n as int] == 0,
            forall|j: int| i <= j <= n ==> #[trigger] cost@[j] <= 8 * (n - j),
            forall|j: int|
                i <= j < n ==> putoken::tok_ok(data, j, #[trigger] step@[j], x) && cost@[j]
                    == flat_bits(data, j, step@[j], e, x, sc.rank_of@) + cost@[j
                    + putoken::tok_len(step@[j])],
            flat_least(sc, cost@, i as int),
            forall|j: int| i <= j < n ==> flat_choice(sc, cost@, j, #[trigger] step@[j]),
        decreases i,
    {
        i -= 1;
        let mut pick: Pick = Pick {
            cost: &cost,
            at: i,
            best: 8 + cost[i + 1],
            tok: Tok::Lit,
            given: Ghost(Set::empty().insert(Tok::Lit)),
        };
        sc.edges_of(i, &mut pick);
        let best: u64 = pick.best;
        let tok: Tok = pick.tok;
        let ghost cost0 = cost@;
        let ghost step0 = step@;
        let ghost given = pick.given@;
        cost.set(i, best);
        step.set(i, tok);
        assert forall|j: int| i <= j < n implies putoken::tok_ok(data, j, #[trigger] step@[j], x)
            && cost@[j] == flat_bits(data, j, step@[j], e, x, sc.rank_of@) + cost@[j
            + putoken::tok_len(step@[j])] by {
            if j > i {
                assert(step@[j] == step0[j]);
            }
            assert(putoken::tok_len(step@[j]) >= 1);
        }
        assert forall|j: int, t: Tok| i <= j < n && #[trigger] sc.offers(j, t) implies cost@[j]
            <= flat_bits(data, j, t, e, x, sc.rank_of@) + cost@[j + putoken::tok_len(t)] by {
            assert(putoken::tok_len(t) >= 1);
            if j == i {
                assert(given.contains(t));
            }
        }
        assert(sc.offers(i as int, tok)) by {
            assert(given.contains(tok));
        }
        assert forall|j: int| i <= j < n implies flat_choice(sc, cost@, j, #[trigger] step@[j]) by {
            if j > i {
                assert(step@[j] == step0[j]);
                assert(flat_choice(sc, cost0, j, step0[j]));
                lemma_same_choice(sc, cost0, cost@, j, step0[j]);
            } else {
                assert forall|u: Tok| #[trigger]
                    sc.offers(j, u) && putoken::tok_ok(sc.data@, j, u, x) implies cost@[j] < flat_via(
                    sc,
                    cost@,
                    j,
                    u,
                ) || cost@[j] == flat_via(sc, cost@, j, u) && pref(u) <= pref(tok) by {
                    assert(given.contains(u));
                    assert(cost@[j + putoken::tok_len(u)] == cost0[j + putoken::tok_len(u)]);
                }
            }
        }
    }
    proof {
        assert forall|q: Seq<Tok>|
            putoken::toks_ok(sc.data@, q, x) && #[trigger] sc.offers_all(q) implies cost@[0]
            <= flat_total(data, q, e, x, sc.rank_of@, q.len() as int) by {
            lemma_flat_least(sc, cost@, q, 0);
        }
    }
    let mut toks: Vec<Tok> = Vec::new();
    let total: u64 = cost[0];
    let mut p: usize = 0;
    while p < n
        invariant
            n == sc.data@.len(),
            n <= MAX_INPUT,
            data == sc.data@,
            e == sc.esc_bits,
            x == sc.extra,
            p <= n,
            step@.len() == n,
            cost@.len() == n + 1,
            cost@[n as int] == 0,
            forall|j: int|
                0 <= j < n ==> putoken::tok_ok(data, j, #[trigger] step@[j], x) && cost@[j]
                    == flat_bits(data, j, step@[j], e, x, sc.rank_of@) + cost@[j
                    + putoken::tok_len(step@[j])],
            forall|k: int| 0 <= k < toks@.len() ==> #[trigger] putoken::tok_fits(data, toks@, x, k),
            putoken::tok_pos(toks@, toks@.len() as int) == p,
            total == flat_total(data, toks@, e, x, sc.rank_of@, toks@.len() as int) + cost@[p as int],
            forall|j: int| 0 <= j < n ==> flat_choice(sc, cost@, j, #[trigger] step@[j]),
            forall|k: int|
                0 <= k < toks@.len() ==> flat_choice(
                    sc,
                    cost@,
                    putoken::tok_pos(toks@, k),
                    #[trigger] toks@[k],
                ),
        decreases n - p,
    {
        let t: Tok = step[p];
        let len: usize = token_len(&t) as usize;
        let ghost t0 = toks@;
        push_token(&mut toks, t, Ghost(data), Ghost(x), Ghost(p as int));
        proof {
            lemma_flat_prefix(data, t0, toks@, e, x, sc.rank_of@, t0.len() as int);
            assert(flat_choice(sc, cost@, p as int, step@[p as int]));
            assert forall|k: int| 0 <= k < toks@.len() implies flat_choice(
                sc,
                cost@,
                putoken::tok_pos(toks@, k),
                #[trigger] toks@[k],
            ) by {
                lemma_flat_prefix(data, t0, toks@, e, x, sc.rank_of@, if k < t0.len() {
                    k
                } else {
                    t0.len() as int
                });
                if k < t0.len() {
                    assert(toks@[k] == t0[k]);
                }
            }
        }
        p += len;
    }
    proof {
        assert forall|j: int| 0 <= j < n implies #[trigger] has_flat_choice(sc, cost@, j) by {
            assert(flat_choice(sc, cost@, j, step@[j]));
        }
        assert(flat_costs(sc, cost@));
    }
    (toks, total)
}

// ---------------------------------------------------------------------------
// Escape values
// ---------------------------------------------------------------------------
/// What the choice of escape values sees of a token: the top bits of a literal,
/// or `None`.
pub open spec fn sel_of(data: Seq<u8>, toks: Seq<Tok>, e: nat, k: int) -> Option<nat> {
    if toks[k] is Lit {
        Some(putoken::selector(data[putoken::tok_pos(toks, k)], e))
    } else {
        None
    }
}

/// Fewest escape changes from `k` on over the first `s + 1` escape values.
pub open spec fn least(sels: Seq<Option<nat>>, states: nat, k: int, s: nat) -> nat
    decreases
        if k < sels.len() {
            sels.len() - k
        } else {
            0
        },
        s + 1,
{
    if s == 0 {
        fewest(sels, states, k, 0)
    } else {
        let a = least(sels, states, k, (s - 1) as nat);
        let b = fewest(sels, states, k, s);
        if b < a {
            b
        } else {
            a
        }
    }
}

/// Fewest escape changes for the selectors from `k` on, the escape value being
/// `s` and one of `states` in all.
pub open spec fn fewest(sels: Seq<Option<nat>>, states: nat, k: int, s: nat) -> nat
    decreases
        if k < sels.len() {
            sels.len() - k
        } else {
            0
        },
        0nat,
{
    if k < 0 || k >= sels.len() {
        0
    } else if sels[k] == Some(s) {
        1 + least(sels, states, k + 1, (states - 1) as nat)
    } else {
        fewest(sels, states, k + 1, s)
    }
}

/// The first of the first `s + 1` escape values with the fewest changes from `k` on.
pub open spec fn first_least(sels: Seq<Option<nat>>, states: nat, k: int, s: nat) -> nat
    decreases s,
{
    if s == 0 {
        0
    } else {
        let a = first_least(sels, states, k, (s - 1) as nat);
        if fewest(sels, states, k, s) < fewest(sels, states, k, a) {
            s
        } else {
            a
        }
    }
}

/// The escape values of the separate pass: the first of those with the fewest
/// changes, at the start and behind every literal.
pub open spec fn escapes_found(sels: Seq<Option<nat>>, states: nat, start: nat, newesc: Seq<u8>) -> bool {
    &&& start == first_least(sels, states, 0, (states - 1) as nat)
    &&& newesc.len() == sels.len()
    &&& forall|j: int|
        0 <= j < newesc.len() ==> #[trigger] newesc[j] == if sels[j] is Some {
            first_least(sels, states, j + 1, (states - 1) as nat)
        } else {
            0
        }
}

/// Escape changes from `k` on when the values are those of `newesc`.
pub open spec fn changes(sels: Seq<Option<nat>>, newesc: Seq<nat>, k: int, s: nat) -> nat
    decreases sels.len() - k,
{
    if k < 0 || k >= sels.len() {
        0
    } else if sels[k] == Some(s) {
        1 + changes(sels, newesc, k + 1, newesc[k])
    } else {
        changes(sels, newesc, k + 1, s)
    }
}

proof fn lemma_least(sels: Seq<Option<nat>>, states: nat, k: int, s: nat, t: nat)
    requires
        t <= s,
    ensures
        least(sels, states, k, s) <= fewest(sels, states, k, t),
    decreases s,
{
    if s > 0 && t < s {
        lemma_least(sels, states, k, (s - 1) as nat, t);
    }
}

/// No choice of escape values has fewer changes.
pub proof fn lemma_fewest(sels: Seq<Option<nat>>, newesc: Seq<nat>, states: nat, k: int, s: nat)
    requires
        newesc.len() == sels.len(),
        forall|j: int| 0 <= j < newesc.len() ==> #[trigger] newesc[j] < states,
        k >= 0,
    ensures
        fewest(sels, states, k, s) <= changes(sels, newesc, k, s),
    decreases sels.len() - k,
{
    if k < sels.len() {
        if sels[k] == Some(s) {
            assert(newesc[k] < states);
            lemma_fewest(sels, newesc, states, k + 1, newesc[k]);
            lemma_least(sels, states, k + 1, (states - 1) as nat, newesc[k]);
        } else {
            lemma_fewest(sels, newesc, states, k + 1, s);
        }
    }
}

pub open spec fn as_nats(s: Seq<u8>) -> Seq<nat> {
    s.map_values(|b: u8| b as nat)
}

/// The first state of least cost.
fn cheapest_state(cost: &Vec<u32>, Ghost(sels): Ghost<Seq<Option<nat>>>, Ghost(k): Ghost<int>) -> (s:
    usize)
    requires
        0 < cost@.len() <= 256,
        forall|t: int|
            0 <= t < cost@.len() ==> #[trigger] cost@[t] == fewest(sels, cost@.len(), k, t as nat),
    ensures
        s < cost@.len(),
        cost@[s as int] == least(sels, cost@.len(), k, (cost@.len() - 1) as nat),
        s == first_least(sels, cost@.len(), k, (cost@.len() - 1) as nat),
{
    let n: usize = cost.len();
    let mut best: usize = 0;
    let mut t: usize = 1;
    assert(cost@[0] == fewest(sels, cost@.len(), k, 0));
    while t < n
        invariant
            n == cost@.len(),
            1 <= t <= n,
            best < t,
            forall|u: int|
                0 <= u < cost@.len() ==> #[trigger] cost@[u] == fewest(
                    sels,
                    cost@.len(),
                    k,
                    u as nat,
                ),
            cost@[best as int] == least(sels, cost@.len(), k, (t - 1) as nat),
            best == first_least(sels, cost@.len(), k, (t - 1) as nat),
        decreases n - t,
    {
        assert(cost@[t as int] == fewest(sels, cost@.len(), k, t as nat));
        assert(cost@[best as int] == fewest(sels, cost@.len(), k, best as nat));
        if cost[t] < cost[best] {
            best = t;
        }
        t += 1;
    }
    best
}

/// Selectors of all tokens.
fn literal_selectors(data: &[u8], toks: &Vec<Tok>, esc_bits: u32, Ghost(x): Ghost<nat>) -> (sels: Vec<
    Option<u8>,
>)
    requires
        data@.len() <= MAX_INPUT,
        esc_bits <= 8,
        putoken::toks_ok(data@, toks@, x),
    ensures
        sels@.len() == toks@.len(),
        forall|k: int|
            0 <= k < sels@.len() ==> match #[trigger] sels@[k] {
                Some(s) => sel_of(data@, toks@, esc_bits as nat, k) == Some(s as nat) && s < pow2(
                    esc_bits as nat,
                ),
                None => sel_of(data@, toks@, esc_bits as nat, k) is None,
            },
{
    let n: usize = data.len();
    let count: usize = toks.len();
    let mut sels: Vec<Option<u8>> = Vec::with_capacity(count);
    let mut i: usize = 0;
    let mut k: usize = 0;
    while k < count
        invariant
            n == data@.len(),
            n <= MAX_INPUT,
            count == toks@.len(),
            k <= count,
            esc_bits <= 8,
            putoken::toks_ok(data@, toks@, x),
            i == putoken::tok_pos(toks@, k as int),
            i <= n,
            sels@.len() == k,
            forall|j: int|
                0 <= j < k ==> match #[trigger] sels@[j] {
                    Some(s) => sel_of(data@, toks@, esc_bits as nat, j) == Some(s as nat) && s
                        < pow2(esc_bits as nat),
                    None => sel_of(data@, toks@, esc_bits as nat, j) is None,
                },
        decreases count - k,
    {
        let t: Tok = toks[k];
        proof {
            assert(putoken::tok_fits(data@, toks@, x, k as int));
        }
        match t {
            Tok::Lit => {
                sels.push(Some(byte_selector(data[i], esc_bits)));
            },
            _ => {
                sels.push(None);
            },
        }
        i += token_len(&t) as usize;
        k += 1;
    }
    sels
}

/// The selectors as numbers.
pub open spec fn sels_of(sels: Seq<Option<u8>>) -> Seq<Option<nat>> {
    sels.map_values(
        |o: Option<u8>|
            match o {
                Some(b) => Some(b as nat),
                None => None,
            },
    )
}

/// Escape values with the fewest changes: the first one, and for every token
/// the one to change to.
#[verifier::rlimit(40)]
pub fn optimize_escapes(sels: &Vec<Option<u8>>, esc_bits: u32) -> (r: (u8, Vec<u8>, u32))
    requires
        esc_bits <= 8,
        sels@.len() <= MAX_INPUT,
        forall|k: int|
            0 <= k < sels@.len() ==> (#[trigger] sels@[k] matches Some(s) ==> s < pow2(
                esc_bits as nat,
            )),
    ensures
        r.1@.len() == sels@.len(),
        r.0 < pow2(esc_bits as nat),
        forall|k: int| 0 <= k < r.1@.len() ==> #[trigger] r.1@[k] < pow2(esc_bits as nat),
        r.2 == changes(sels_of(sels@), as_nats(r.1@), 0, r.0 as nat),
        escapes_found(sels_of(sels@), pow2(esc_bits as nat), r.0 as nat, r.1@),
        forall|newesc: Seq<nat>, s: nat|
            newesc.len() == sels@.len() && s < pow2(esc_bits as nat) && (forall|j: int|
                0 <= j < newesc.len() ==> #[trigger] newesc[j] < pow2(esc_bits as nat)) ==> r.2
                <= #[trigger] changes(sels_of(sels@), newesc, 0, s),
{
    let states: usize = two_to(esc_bits) as usize;
    let ghost st = states as nat;
    let ghost ss = sels_of(sels@);
    proof {
        pustream::lemma_small_values(esc_bits as nat);
    }
    let count: usize = sels.len();
    let mut cost: Vec<u32> = vec![0u32; states];
    let mut newesc: Vec<u8> = vec![0u8; count];
    let mut j: usize = count;
    while j > 0
        invariant
            j <= count,
            count == sels@.len(),
            count <= MAX_INPUT,
            states == pow2(esc_bits as nat),
            st == states,
            1 <= states <= 256,
            ss == sels_of(sels@),
            cost@.len() == states,
            newesc@.len() == count,
            forall|k: int|
                0 <= k < sels@.len() ==> (#[trigger] sels@[k] matches Some(s) ==> s < pow2(
                    esc_bits as nat,
                )),
            forall|t: int| 0 <= t < states ==> #[trigger] cost@[t] == fewest(ss, st, j as int, t as nat),
            forall|t: int| 0 <= t < states ==> #[trigger] cost@[t] <= count - j,
            forall|k: int| 0 <= k < count ==> #[trigger] newesc@[k] < states,
            forall|k: int|
                0 <= k < count ==> #[trigger] newesc@[k] == if k >= j && ss[k] is Some {
                    first_least(ss, st, k + 1, (st - 1) as nat)
                } else {
                    0
                },
            forall|t: nat| t < st ==> #[trigger] changes(ss, as_nats(newesc@), j as int, t) == fewest(
                ss,
                st,
                j as int,
                t,
            ),
        decreases j,
    {
        let ghost j1 = j as int;
        let ghost cost1 = cost@;
        let ghost ne1 = newesc@;
        j -= 1;
        assert(ss[j as int] == match sels@[j as int] {
            Some(b) => Some(b as nat),
            None => None,
        });
        match sels[j] {
            None => {},
            Some(s) => {
                let arg: usize = cheapest_state(&cost, Ghost(ss), Ghost(j1));
                let least_cost: u32 = cost[arg];
                newesc.set(j, arg as u8);
                cost.set(s as usize, 1 + least_cost);
            },
        }
        proof {
            let ne = as_nats(newesc@);
            assert forall|t: int| 0 <= t < states implies #[trigger] cost@[t] == fewest(
                ss,
                st,
                j as int,
                t as nat,
            ) by {
                assert(cost1[t] == fewest(ss, st, j1, t as nat));
            }
            assert forall|t: nat| t < st implies #[trigger] changes(ss, ne, j as int, t) == fewest(
                ss,
                st,
                j as int,
                t,
            ) by {
                lemma_changes_later(ss, ne, as_nats(ne1), j1, t);
                assert(changes(ss, as_nats(ne1), j1, t) == fewest(ss, st, j1, t));
                if ss[j as int] == Some(t) {
                    let u = ne[j as int];
                    assert(u == newesc@[j as int]);
                    lemma_changes_later(ss, ne, as_nats(ne1), j1, u);
                    assert(changes(ss, as_nats(ne1), j1, u) == fewest(ss, st, j1, u));
                    assert(cost1[u as int] == fewest(ss, st, j1, u));
                }
            }
        }
    }
    let arg: usize = cheapest_state(&cost, Ghost(ss), Ghost(0));
    proof {
        assert(cost@[arg as int] == fewest(ss, st, 0, arg as nat));
        assert(changes(ss, as_nats(newesc@), 0, arg as nat) == fewest(ss, st, 0, arg as nat));
        assert forall|ne: Seq<nat>, s: nat|
            ne.len() == sels@.len() && s < pow2(esc_bits as nat) && (forall|j: int|
                0 <= j < ne.len() ==> #[trigger] ne[j] < pow2(esc_bits as nat)) implies cost@[arg as int]
            <= #[trigger] changes(ss, ne, 0, s) by {
            lemma_fewest(ss, ne, st, 0, s);
            lemma_least(ss, st, 0, (st - 1) as nat, s);
        }
    }
    (arg as u8, newesc, cost[arg])
}

proof fn lemma_changes_later(sels: Seq<Option<nat>>, a: Seq<nat>, b: Seq<nat>, k: int, s: nat)
    requires
        k >= 0,
        a.len() == sels.len(),
        b.len() == sels.len(),
        forall|j: int| k <= j < a.len() ==> #[trigger] a[j] == b[j],
    ensures
        changes(sels, a, k, s) == changes(sels, b, k, s),
    decreases sels.len() - k,
{
    if k < sels.len() {
        if sels[k] == Some(s) {
            assert(a[k] == b[k]);
            lemma_changes_later(sels, a, b, k + 1, a[k]);
        } else {
            lemma_changes_later(sels, a, b, k + 1, s);
        }
    }
}

// ---------------------------------------------------------------------------
// Parse with the escape value as part of the state
// ---------------------------------------------------------------------------
/// Costs, tokens and next escape values of one position, one for every escape
/// value.
struct Row {
    cost: Vec<u64>,
    step: Vec<Tok>,
    next: Vec<u8>,
}

spec fn row_ok(data: Seq<u8>, x: nat, states: nat, i: int, row: Row) -> bool {
    &&& row.cost@.len() == states
    &&& row.step@.len() == states
    &&& row.next@.len() == states
    &&& forall|s: int| 0 <= s < states ==> #[trigger] row.cost@[s] <= 19 * (data.len() - i)
    &&& forall|s: int| 0 <= s < states ==> putoken::tok_ok(data, i, #[trigger] row.step@[s], x)
    &&& forall|s: int| 0 <= s < states ==> #[trigger] row.next@[s] < states
}

/// Rows from the end of the data: row `r` belongs to position `n - 1 - r`.
spec fn rows_ok_from(data: Seq<u8>, x: nat, states: nat, rows: Seq<Row>) -> bool {
    &&& rows.len() <= data.len()
    &&& forall|r: int|
        0 <= r < rows.len() ==> row_ok(data, x, states, data.len() - 1 - r, #[trigger] rows[r])
}

/// Cost from position `p` on with the escape value `s`.
spec fn cost_at(rows: Seq<Row>, n: int, p: int, s: int) -> int {
    if p >= n {
        0
    } else {
        rows[n - 1 - p].cost@[s] as int
    }
}

/// The escape value behind a token: a literal in the long form sets it to `u`.
pub open spec fn esc_after(byte: u8, e: nat, t: Tok, s: int, u: int) -> int {
    if t is Lit && putoken::collides(byte, e, s as nat) {
        u
    } else {
        s
    }
}

/// Bits of a token at `i`, and of what follows it.
spec fn bits_via(sc: &Scene, rows: Seq<Row>, i: int, s: int, t: Tok, u: int) -> int {
    let e = sc.esc_bits as nat;
    putoken::tok_bits(sc.data@, i, t, e, sc.extra as nat, sc.rank_of@, s as nat) + cost_at(
        rows,
        sc.data@.len() as int,
        i + putoken::tok_len(t),
        esc_after(sc.data@[i], e, t, s, u),
    )
}

/// What each escape value costs from position `p` on.
spec fn costs_at(rows: Seq<Row>, n: int, states: int, p: int) -> Seq<int> {
    Seq::new(states as nat, |s: int| cost_at(rows, n, p, s))
}

/// The first of the first `k` entries that is least.
pub open spec fn first_min(row: Seq<int>, k: int) -> int
    decreases k,
{
    if k <= 1 {
        0
    } else {
        let a = first_min(row, k - 1);
        if row[k - 1] < row[a] {
            k - 1
        } else {
            a
        }
    }
}

/// The costs of a row are those of its tokens, and no token on offer leads to
/// less; of several the preferred one is there, and the escape value behind a
/// literal is the first of the cheapest.
spec fn row_exact(sc: &Scene, rows: Seq<Row>, states: int, i: int, row: Row) -> bool {
    &&& forall|s: int|
        0 <= s < states ==> #[trigger] row.cost@[s] == bits_via(
            sc,
            rows,
            i,
            s,
            row.step@[s],
            row.next@[s] as int,
        )
    &&& forall|s: int, t: Tok, u: int|
        0 <= s < states && 0 <= u < states && #[trigger] sc.offers(i, t) ==> row.cost@[s]
            <= #[trigger] bits_via(sc, rows, i, s, t, u)
    &&& forall|s: int|
        0 <= s < states ==> #[trigger] row.next@[s] == first_min(
            costs_at(rows, sc.data@.len() as int, states, i + 1),
            states,
        )
    &&& forall|s: int| 0 <= s < states ==> sc.offers(i, #[trigger] row.step@[s])
    &&& forall|s: int, t: Tok|
        0 <= s < states && #[trigger] sc.offers(i, t) && row.cost@[s] == bits_via(
            sc,
            rows,
            i,
            s,
            t,
            row.next@[s] as int,
        ) ==> pref(t) <= pref(#[trigger] row.step@[s])
}

/// The same of all rows.
spec fn rows_exact(sc: &Scene, rows: Seq<Row>, states: int) -> bool {
    forall|r: int|
        0 <= r < rows.len() ==> row_exact(
            sc,
            rows,
            states,
            sc.data@.len() - 1 - r,
            #[trigger] rows[r],
        )
}

/// Rows of earlier positions do not matter to a row.
proof fn lemma_row_exact(sc: &Scene, a: Seq<Row>, b: Seq<Row>, states: int, i: int, row: Row)
    requires
        row_exact(sc, a, states, i, row),
        0 <= i < sc.data@.len(),
        sc.data@.len() - 1 - i <= a.len() <= b.len(),
        forall|r: int| 0 <= r < a.len() ==> #[trigger] a[r] == b[r],
        forall|s: int|
            0 <= s < states ==> putoken::tok_ok(
                sc.data@,
                i,
                #[trigger] row.step@[s],
                sc.extra as nat,
            ),
        sc.wf(),
    ensures
        row_exact(sc, b, states, i, row),
{
    assert forall|s: int| 0 <= s < states implies #[trigger] row.cost@[s] == bits_via(
        sc,
        b,
        i,
        s,
        row.step@[s],
        row.next@[s] as int,
    ) by {
        let t = row.step@[s];
        assert(putoken::tok_len(t) >= 1);
        assert(row.cost@[s] == bits_via(sc, a, i, s, t, row.next@[s] as int));
    }
    assert forall|s: int, t: Tok, u: int|
        0 <= s < states && 0 <= u < states && #[trigger] sc.offers(i, t) implies row.cost@[s]
        <= #[trigger] bits_via(sc, b, i, s, t, u) by {
        assert(putoken::tok_len(t) >= 1);
        assert(bits_via(sc, a, i, s, t, u) == bits_via(sc, b, i, s, t, u));
    }
    let n = sc.data@.len() as int;
    assert(costs_at(a, n, states, i + 1) =~= costs_at(b, n, states, i + 1));
    assert forall|s: int, t: Tok|
        0 <= s < states && #[trigger] sc.offers(i, t) && row.cost@[s] == bits_via(
            sc,
            b,
            i,
            s,
            t,
            row.next@[s] as int,
        ) implies pref(t) <= pref(#[trigger] row.step@[s]) by {
        assert(putoken::tok_len(t) >= 1);
        let u = row.next@[s] as int;
        assert(bits_via(sc, a, i, s, t, u) == bits_via(sc, b, i, s, t, u));
    }
}

/// Cost from position `p` on.
fn cost_from(rows: &Vec<Row>, n: usize, p: usize, s: usize, Ghost(data): Ghost<Seq<u8>>, Ghost(x): Ghost<
    nat,
>, Ghost(states): Ghost<nat>) -> (c: u64)
    requires
        rows_ok_from(data, x, states, rows@),
        n == data.len(),
        n <= MAX_INPUT,
        p <= n,
        n - p <= rows@.len(),
        s < states,
    ensures
        c <= 19 * (n - p),
        c == cost_at(rows@, n as int, p as int, s as int),
{
    if p == n {
        0
    } else {
        let r: usize = n - 1 - p;
        assert(row_ok(data, x, states, data.len() - 1 - r, rows@[r as int]));
        rows[r].cost[s]
    }
}

/// The row of position `i`.
#[verifier::rlimit(40)]
fn joint_row(sc: &Scene, rows: &Vec<Row>, states: usize, i: usize) -> (row: Row)
    requires
        sc.wf(),
        states == pow2(sc.esc_bits as nat),
        1 <= states <= 256,
        i < sc.data@.len(),
        rows@.len() == sc.data@.len() - 1 - i,
        rows_ok_from(sc.data@, sc.extra as nat, states as nat, rows@),
    ensures
        row_ok(sc.data@, sc.extra as nat, states as nat, i as int, row),
        row_exact(sc, rows@, states as int, i as int, row),
{
    let n: usize = sc.data.len();
    let ghost data = sc.data@;
    let ghost x = sc.extra as nat;
    let ghost st = states as nat;
    let mut edges: Vec<Edge> = Vec::new();
    sc.edges_of(i, &mut edges);
    let count: usize = edges.len();
    assert forall|k: int| 0 <= k < edges@.len() implies sc.offers(i as int, (#[trigger] edges@[k]).tok) by {
        assert(edges.seen().contains(edges@[k].tok));
        assert(edge_ok(data, i as int, x, sc.esc_bits as nat, sc.rank_of@, edges@[k]));
    }
    let ghost e = sc.esc_bits as nat;
    let mut esc_arg: usize = 0;
    let mut esc_min: u64 = cost_from(rows, n, i + 1, 0, Ghost(data), Ghost(x), Ghost(st));
    let mut s: usize = 1;
    while s < states
        invariant
            n == data.len(),
            data == sc.data@,
            n <= MAX_INPUT,
            i < n,
            rows@.len() == n - 1 - i,
            rows_ok_from(data, x, st, rows@),
            st == states,
            1 <= s <= states <= 256,
            esc_arg < states,
            esc_min <= 19 * (n - i - 1),
            esc_min == cost_at(rows@, n as int, i + 1, esc_arg as int),
            forall|u: int| 0 <= u < s ==> esc_min <= #[trigger] cost_at(rows@, n as int, i + 1, u),
            esc_arg == first_min(costs_at(rows@, n as int, states as int, i + 1), s as int),
        decreases states - s,
    {
        let c: u64 = cost_from(rows, n, i + 1, s, Ghost(data), Ghost(x), Ghost(st));
        if c < esc_min {
            esc_min = c;
            esc_arg = s;
        }
        s += 1;
    }
    let sel: usize = byte_selector(sc.data[i], sc.esc_bits) as usize;
    let mut row: Row = Row { cost: Vec::new(), step: Vec::new(), next: Vec::new() };
    let mut s: usize = 0;
    while s < states
        invariant
            sc.wf(),
            n == data.len(),
            data == sc.data@,
            x == sc.extra,
            n <= MAX_INPUT,
            i < n,
            rows@.len() == n - 1 - i,
            rows_ok_from(data, x, st, rows@),
            st == states,
            states <= 256,
            s <= states,
            esc_arg < states,
            esc_min <= 19 * (n - i - 1),
            esc_min == cost_at(rows@, n as int, i + 1, esc_arg as int),
            forall|u: int| 0 <= u < states ==> esc_min <= #[trigger] cost_at(rows@, n as int, i + 1, u),
            e == sc.esc_bits,
            esc_arg == first_min(costs_at(rows@, n as int, states as int, i + 1), states as int),
            sel == putoken::selector(data[i as int], e),
            count == edges@.len(),
            sc.edges_at(i as int, edges@),
            edges_rise(edges@),
            forall|k: int| 0 <= k < edges@.len() ==> sc.offers(i as int, (#[trigger] edges@[k]).tok),
            forall|a: int| 0 <= a < s ==> #[trigger] row.next@[a] == esc_arg,
            forall|a: int| 0 <= a < s ==> sc.offers(i as int, #[trigger] row.step@[a]),
            forall|a: int, t: Tok|
                0 <= a < s && #[trigger] sc.offers(i as int, t) && row.cost@[a] == bits_via(
                    sc,
                    rows@,
                    i as int,
                    a,
                    t,
                    row.next@[a] as int,
                ) ==> pref(t) <= pref(#[trigger] row.step@[a]),
            forall|t: Tok|
                !(t is Lit) && #[trigger] sc.offers(i as int, t) ==> edges.seen().contains(t),
            forall|a: int|
                0 <= a < s ==> #[trigger] row.cost@[a] == bits_via(
                    sc,
                    rows@,
                    i as int,
                    a,
                    row.step@[a],
                    row.next@[a] as int,
                ),
            forall|a: int, t: Tok, u: int|
                0 <= a < s && 0 <= u < states && #[trigger] sc.offers(i as int, t) ==> row.cost@[a]
                    <= #[trigger] bits_via(sc, rows@, i as int, a, t, u),
            row.cost@.len() == s,
            row.step@.len() == s,
            row.next@.len() == s,
            forall|t: int| 0 <= t < s ==> #[trigger] row.cost@[t] <= 19 * (n - i),
            forall|t: int| 0 <= t < s ==> putoken::tok_ok(data, i as int, #[trigger] row.step@[t], x),
            forall|t: int| 0 <= t < s ==> #[trigger] row.next@[t] < states,
        decreases states - s,
    {
        let mut best: u64 = if s != sel && sc.esc_bits > 0 {
            8 + cost_from(rows, n, i + 1, s, Ghost(data), Ghost(x), Ghost(st))
        } else {
            (11 + sc.esc_bits) as u64 + esc_min
        };
        let mut tok: Tok = Tok::Lit;
        let ghost lit = best as int;
        let mut k: usize = 0;
        while k < count
            invariant
                sc.wf(),
                n == data.len(),
                data == sc.data@,
                x == sc.extra,
                n <= MAX_INPUT,
                i < n,
                rows@.len() == n - 1 - i,
                rows_ok_from(data, x, st, rows@),
                st == states,
                s < states,
                esc_arg < states,
                best == bits_via(sc, rows@, i as int, s as int, tok, esc_arg as int),
                best <= lit,
                forall|j: int|
                    0 <= j < k ==> best <= bits_via(
                        sc,
                        rows@,
                        i as int,
                        s as int,
                        (#[trigger] edges@[j]).tok,
                        esc_arg as int,
                    ),
                forall|j: int|
                    0 <= j < k && best == bits_via(
                        sc,
                        rows@,
                        i as int,
                        s as int,
                        (#[trigger] edges@[j]).tok,
                        esc_arg as int,
                    ) ==> pref(edges@[j].tok) <= pref(tok),
                tok is Lit || exists|j: int| 0 <= j < k && (#[trigger] edges@[j]).tok == tok,
                forall|k: int| 0 <= k < edges@.len() ==> sc.offers(i as int, (#[trigger] edges@[k]).tok),
                sc.offers(i as int, tok),
                edges_rise(edges@),
                count == edges@.len(),
                k <= count,
                sc.edges_at(i as int, edges@),
                best <= 19 * (n - i),
                putoken::tok_ok(data, i as int, tok, x),
            decreases count - k,
        {
            let t: Tok = edges[k].tok;
            let bits: u32 = edges[k].bits;
            proof {
                assert(edge_ok(
                    data,
                    i as int,
                    x,
                    sc.esc_bits as nat,
                    sc.rank_of@,
                    edges@[k as int],
                ));
            }
            let len: usize = token_len(&t) as usize;
            let c: u64 = bits as u64 + cost_from(
                rows,
                n,
                i + len,
                s,
                Ghost(data),
                Ghost(x),
                Ghost(st),
            );
            let ghost old_tok = tok;
            if c <= best {
                best = c;
                tok = t;
            }
            proof {
                if !(old_tok is Lit) {
                    let j = choose|j: int| 0 <= j < k && (#[trigger] edges@[j]).tok == old_tok;
                    assert(pref(edges@[j].tok) <= pref(edges@[k as int].tok));
                }
                assert(edges@[k as int].tok == t);
            }
            k += 1;
        }
        let ghost row0 = row;
        row.cost.push(best);
        row.step.push(tok);
        row.next.push(esc_arg as u8);
        proof {
            assert forall|a: int| 0 <= a < s + 1 implies #[trigger] row.cost@[a] == bits_via(
                sc,
                rows@,
                i as int,
                a,
                row.step@[a],
                row.next@[a] as int,
            ) by {
                if a < s {
                    assert(row.cost@[a] == row0.cost@[a]);
                    assert(row.step@[a] == row0.step@[a]);
                    assert(row.next@[a] == row0.next@[a]);
                }
            }
            assert forall|a: int, t: Tok|
                0 <= a < s + 1 && #[trigger] sc.offers(i as int, t) && row.cost@[a] == bits_via(
                    sc,
                    rows@,
                    i as int,
                    a,
                    t,
                    row.next@[a] as int,
                ) implies pref(t) <= pref(#[trigger] row.step@[a]) by {
                if a < s {
                    assert(row.cost@[a] == row0.cost@[a]);
                    assert(row.step@[a] == row0.step@[a]);
                    assert(row.next@[a] == row0.next@[a]);
                } else if !(t is Lit) {
                    assert(edges.seen().contains(t));
                    let j = choose|j: int| 0 <= j < edges@.len() && (#[trigger] edges@[j]).tok == t;
                    assert(pref(edges@[j].tok) <= pref(tok));
                }
            }
            assert forall|a: int, t: Tok, u: int|
                0 <= a < s + 1 && 0 <= u < states && #[trigger] sc.offers(i as int, t) implies row.cost@[a]
                <= #[trigger] bits_via(sc, rows@, i as int, a, t, u) by {
                if a < s {
                    assert(row.cost@[a] == row0.cost@[a]);
                } else if t is Lit {
                    assert(esc_min <= cost_at(rows@, n as int, i + 1, u));
                } else {
                    assert(edges.seen().contains(t));
                    let j = choose|j: int| 0 <= j < edges@.len() && (#[trigger] edges@[j]).tok == t;
                    assert(best <= bits_via(
                        sc,
                        rows@,
                        i as int,
                        s as int,
                        edges@[j].tok,
                        esc_arg as int,
                    ));
                }
            }
        }
        s += 1;
    }
    row
}

/// Escape values stay in their range.
proof fn lemma_esc_range(data: Seq<u8>, p: Plan, k: int)
    requires
        p.ok(data),
        0 <= k <= p.tokens@.len(),
    ensures
        putoken::esc_at(
            data,
            p.tokens@,
            p.newesc@,
            p.start_esc as nat,
            p.esc_bits as nat,
            k,
        ) < pow2(p.esc_bits as nat),
    decreases k,
{
    if k > 0 {
        lemma_esc_range(data, p, k - 1);
        assert(p.newesc@[k - 1] < pow2(p.esc_bits as nat));
    }
}

/// No plan by tokens on offer costs less from its token `k` on.
proof fn lemma_joint_least(sc: &Scene, rows: Seq<Row>, p: Plan, k: int)
    requires
        sc.wf(),
        rows.len() == sc.data@.len(),
        rows_exact(sc, rows, pow2(sc.esc_bits as nat) as int),
        p.ok(sc.data@),
        p.esc_bits == sc.esc_bits,
        p.extra == sc.extra,
        sc.offers_all(p.tokens@),
        0 <= k <= p.tokens@.len(),
    ensures
        ({
            let e = sc.esc_bits as nat;
            let x = sc.extra as nat;
            let st = p.start_esc as nat;
            let esc = putoken::esc_at(sc.data@, p.tokens@, p.newesc@, st, e, k);
            let pos = putoken::tok_pos(p.tokens@, k);
            &&& 0 <= pos <= sc.data@.len()
            &&& cost_at(rows, sc.data@.len() as int, pos, esc as int) + putoken::stream_bits(
                sc.data@,
                p.tokens@,
                p.newesc@,
                st,
                e,
                x,
                sc.rank_of@,
                k,
            ) <= putoken::stream_bits(
                sc.data@,
                p.tokens@,
                p.newesc@,
                st,
                e,
                x,
                sc.rank_of@,
                p.tokens@.len() as int,
            )
        }),
    decreases p.tokens@.len() - k,
{
    let e = sc.esc_bits as nat;
    let states = pow2(e) as int;
    let esc = putoken::esc_at(sc.data@, p.tokens@, p.newesc@, p.start_esc as nat, e, k);
    let pos = putoken::tok_pos(p.tokens@, k);
    lemma_esc_range(sc.data@, p, k);
    if k < p.tokens@.len() {
        lemma_joint_least(sc, rows, p, k + 1);
        let t = p.tokens@[k];
        let u = p.newesc@[k] as int;
        assert(putoken::tok_fits(sc.data@, p.tokens@, sc.extra as nat, k));
        assert(sc.offers(pos, t));
        assert(u < states);
        let r = sc.data@.len() - 1 - pos;
        assert(row_exact(sc, rows, states, sc.data@.len() - 1 - r, rows[r]));
        assert(rows[r].cost@[esc as int] <= bits_via(sc, rows, pos, esc as int, t, u));
    }
}

/// Adding a token does not change what comes before it.
proof fn lemma_plan_prefix(
    data: Seq<u8>,
    a: Seq<Tok>,
    b: Seq<Tok>,
    na: Seq<u8>,
    nb: Seq<u8>,
    start: nat,
    e: nat,
    x: nat,
    rank_of: Seq<u8>,
    k: int,
)
    requires
        0 <= k <= a.len() <= b.len(),
        a.len() <= na.len(),
        b.len() <= nb.len(),
        forall|j: int| 0 <= j < k ==> a[j] == b[j],
        forall|j: int| 0 <= j < k ==> na[j] == nb[j],
    ensures
        putoken::tok_pos(a, k) == putoken::tok_pos(b, k),
        putoken::esc_at(data, a, na, start, e, k) == putoken::esc_at(data, b, nb, start, e, k),
        putoken::stream_bits(data, a, na, start, e, x, rank_of, k) == putoken::stream_bits(
            data,
            b,
            nb,
            start,
            e,
            x,
            rank_of,
            k,
        ),
    decreases k,
{
    if k > 0 {
        lemma_plan_prefix(data, a, b, na, nb, start, e, x, rank_of, k - 1);
    }
}

/// What the token at `i` and the rest cost with the escape value `s`, when `tab`
/// says what the rest costs for every position and escape value. Behind a literal
/// in the long form comes the first of the cheapest escape values.
pub open spec fn joint_via(sc: &Scene, tab: Seq<Seq<int>>, i: int, s: int, t: Tok) -> int {
    let e = sc.esc_bits as nat;
    putoken::tok_bits(sc.data@, i, t, e, sc.extra as nat, sc.rank_of@, s as nat) + tab[i
        + putoken::tok_len(t)][esc_after(
        sc.data@[i],
        e,
        t,
        s,
        first_min(tab[i + 1], pow2(e) as int),
    )]
}

/// The token is one on offer at `i` with which the rest costs least, and of several
/// the preferred one.
pub open spec fn joint_choice(sc: &Scene, tab: Seq<Seq<int>>, i: int, s: int, t: Tok) -> bool {
    &&& sc.offers(i, t)
    &&& putoken::tok_ok(sc.data@, i, t, sc.extra as nat)
    &&& tab[i][s] == joint_via(sc, tab, i, s, t)
    &&& forall|u: Tok| #[trigger]
        sc.offers(i, u) && putoken::tok_ok(sc.data@, i, u, sc.extra as nat) ==> tab[i][s]
            < joint_via(sc, tab, i, s, u) || tab[i][s] == joint_via(sc, tab, i, s, u) && pref(u)
            <= pref(t)
}

/// Some token is the one to choose.
pub open spec fn has_joint_choice(sc: &Scene, tab: Seq<Seq<int>>, i: int, s: int) -> bool {
    exists|t: Tok| #[trigger] joint_choice(sc, tab, i, s, t)
}

/// The least costs from every position on, for every escape value.
pub open spec fn joint_costs(sc: &Scene, tab: Seq<Seq<int>>) -> bool {
    let n = sc.data@.len() as int;
    let states = pow2(sc.esc_bits as nat) as int;
    &&& tab.len() == n + 1
    &&& forall|i: int| 0 <= i <= n ==> (#[trigger] tab[i]).len() == states
    &&& forall|s: int| 0 <= s < states ==> #[trigger] tab[n][s] == 0
    &&& forall|i: int, s: int|
        0 <= i < n && 0 <= s < states ==> #[trigger] has_joint_choice(sc, tab, i, s)
}

/// Token `k` of a plan is the one to choose, and so is the escape value behind it.
pub open spec fn joint_step(
    sc: &Scene,
    tab: Seq<Seq<int>>,
    toks: Seq<Tok>,
    newesc: Seq<u8>,
    start: nat,
    k: int,
) -> bool {
    let i = putoken::tok_pos(toks, k);
    let e = sc.esc_bits as nat;
    &&& joint_choice(sc, tab, i, putoken::esc_at(sc.data@, toks, newesc, start, e, k) as int, toks[k])
    &&& newesc[k] == if toks[k] is Lit {
        first_min(tab[i + 1], pow2(e) as int)
    } else {
        0
    }
}

/// The plan of the joint parse: the first of the cheapest escape values, and from
/// there token by token the one to choose.
pub open spec fn joint_found(sc: &Scene, plan: Plan) -> bool {
    &&& plan.ok(sc.data@)
    &&& exists|tab: Seq<Seq<int>>| #[trigger]
        joint_costs(sc, tab) && plan.start_esc == first_min(tab[0], pow2(sc.esc_bits as nat) as int)
            && forall|k: int|
            0 <= k < plan.tokens@.len() ==> #[trigger] joint_step(
                sc,
                tab,
                plan.tokens@,
                plan.newesc@,
                plan.start_esc as nat,
                k,
            )
}

spec fn table_of(rows: Seq<Row>, n: int, states: int) -> Seq<Seq<int>> {
    Seq::new((n + 1) as nat, |p: int| costs_at(rows, n, states, p))
}

/// The tokens of the rows are the ones to choose.
proof fn lemma_row_choice(sc: &Scene, rows: Seq<Row>, i: int, s: int)
    requires
        sc.wf(),
        rows.len() == sc.data@.len(),
        rows_ok_from(sc.data@, sc.extra as nat, pow2(sc.esc_bits as nat), rows),
        rows_exact(sc, rows, pow2(sc.esc_bits as nat) as int),
        0 <= i < sc.data@.len(),
        0 <= s < pow2(sc.esc_bits as nat),
    ensures
        ({
            let n = sc.data@.len() as int;
            let states = pow2(sc.esc_bits as nat) as int;
            let tab = table_of(rows, n, states);
            &&& joint_choice(sc, tab, i, s, rows[n - 1 - i].step@[s])
            &&& rows[n - 1 - i].next@[s] == first_min(tab[i + 1], states)
        }),
{
    let n = sc.data@.len() as int;
    let states = pow2(sc.esc_bits as nat) as int;
    let tab = table_of(rows, n, states);
    let row = rows[n - 1 - i];
    assert(row_ok(sc.data@, sc.extra as nat, states as nat, n - 1 - (n - 1 - i), row));
    assert(row_exact(sc, rows, states, n - 1 - (n - 1 - i), row));
    let u = row.next@[s] as int;
    assert(0 <= u < states);
    assert(u == first_min(tab[i + 1], states));
    assert forall|t: Tok| #[trigger]
        sc.offers(i, t) && putoken::tok_ok(sc.data@, i, t, sc.extra as nat) implies joint_via(
        sc,
        tab,
        i,
        s,
        t,
    ) == bits_via(sc, rows, i, s, t, u) by {
        assert(putoken::tok_len(t) >= 1);
        assert(i + putoken::tok_len(t) <= n);
    }
    let t = row.step@[s];
    assert(sc.offers(i, t));
    assert(putoken::tok_ok(sc.data@, i, t, sc.extra as nat));
    assert(tab[i][s] == row.cost@[s]);
    assert(row.cost@[s] == bits_via(sc, rows, i, s, t, u));
    assert forall|t2: Tok| #[trigger]
        sc.offers(i, t2) && putoken::tok_ok(sc.data@, i, t2, sc.extra as nat) implies tab[i][s]
        < joint_via(sc, tab, i, s, t2) || tab[i][s] == joint_via(sc, tab, i, s, t2) && pref(t2)
        <= pref(t) by {
        assert(joint_via(sc, tab, i, s, t2) == bits_via(sc, rows, i, s, t2, u));
        assert(row.cost@[s] <= bits_via(sc, rows, i, s, t2, u));
    }
}

proof fn lemma_table_costs(sc: &Scene, rows: Seq<Row>)
    requires
        sc.wf(),
        rows.len() == sc.data@.len(),
        rows_ok_from(sc.data@, sc.extra as nat, pow2(sc.esc_bits as nat), rows),
        rows_exact(sc, rows, pow2(sc.esc_bits as nat) as int),
    ensures
        joint_costs(sc, table_of(rows, sc.data@.len() as int, pow2(sc.esc_bits as nat) as int)),
{
    let n = sc.data@.len() as int;
    let states = pow2(sc.esc_bits as nat) as int;
    let tab = table_of(rows, n, states);
    assert forall|i: int, s: int| 0 <= i < n && 0 <= s < states implies #[trigger] has_joint_choice(
        sc,
        tab,
        i,
        s,
    ) by {
        lemma_row_choice(sc, rows, i, s);
    }
}

/// The rows of all positions, from the end of the data.
#[verifier::rlimit(40)]
fn joint_rows(sc: &Scene, states: usize) -> (rows: Vec<Row>)
    requires
        sc.wf(),
        states == pow2(sc.esc_bits as nat),
        1 <= states <= 256,
    ensures
        rows@.len() == sc.data@.len(),
        rows_ok_from(sc.data@, sc.extra as nat, states as nat, rows@),
        rows_exact(sc, rows@, states as int),
{
    let n: usize = sc.data.len();
    let ghost data = sc.data@;
    let ghost x = sc.extra as nat;
    let ghost st = states as nat;
    let mut rows: Vec<Row> = Vec::with_capacity(n);
    let mut i: usize = n;
    while i > 0
        invariant
            sc.wf(),
            n == data.len(),
            data == sc.data@,
            x == sc.extra,
            st == states,
            states == pow2(sc.esc_bits as nat),
            1 <= states <= 256,
            i <= n,
            rows@.len() == n - i,
            rows_ok_from(data, x, st, rows@),
            rows_exact(sc, rows@, states as int),
        decreases i,
    {
        i -= 1;
        let row: Row = joint_row(sc, &rows, states, i);
        let ghost before = rows@;
        rows.push(row);
        assert forall|r: int| 0 <= r < rows@.len() implies row_exact(
            sc,
            rows@,
            states as int,
            sc.data@.len() - 1 - r,
            #[trigger] rows@[r],
        ) by {
            if r < before.len() {
                assert(rows@[r] == before[r]);
                assert(row_ok(data, x, st, data.len() - 1 - r, before[r]));
            }
            lemma_row_exact(sc, before, rows@, states as int, sc.data@.len() - 1 - r, rows@[r]);
        }
        assert forall|r: int| 0 <= r < rows@.len() implies row_ok(
            data,
            x,
            st,
            data.len() - 1 - r,
            #[trigger] rows@[r],
        ) by {
            if r < before.len() {
                assert(rows@[r] == before[r]);
            }
        }
    }
    rows
}

/// The steps so far stay when one is added.
proof fn lemma_joint_steps(
    sc: &Scene,
    tab: Seq<Seq<int>>,
    a: Seq<Tok>,
    b: Seq<Tok>,
    na: Seq<u8>,
    nb: Seq<u8>,
    start: nat,
)
    requires
        b.len() == a.len() + 1,
        na.len() == a.len(),
        nb.len() == b.len(),
        forall|k: int| 0 <= k < a.len() ==> a[k] == b[k] && na[k] == nb[k],
        forall|k: int| 0 <= k < a.len() ==> #[trigger] joint_step(sc, tab, a, na, start, k),
        joint_step(sc, tab, b, nb, start, a.len() as int),
    ensures
        forall|k: int| 0 <= k < b.len() ==> #[trigger] joint_step(sc, tab, b, nb, start, k),
{
    assert forall|k: int| 0 <= k < b.len() implies #[trigger] joint_step(sc, tab, b, nb, start, k) by {
        if k < a.len() {
            assert(joint_step(sc, tab, a, na, start, k));
            lemma_plan_prefix(
                sc.data@,
                a,
                b,
                na,
                nb,
                start,
                sc.esc_bits as nat,
                sc.extra as nat,
                sc.rank_of@,
                k,
            );
        }
    }
}

/// The tokens and escape values of the rows from `start_esc` on.
#[verifier::rlimit(60)]
#[verifier::spinoff_prover]
fn walk_joint(sc: &Scene, rows: &Vec<Row>, states: usize, start_esc: u8) -> (r: (Vec<Tok>, Vec<u8>))
    requires
        sc.wf(),
        states == pow2(sc.esc_bits as nat),
        1 <= states <= 256,
        start_esc < states,
        rows@.len() == sc.data@.len(),
        rows_ok_from(sc.data@, sc.extra as nat, states as nat, rows@),
        rows_exact(sc, rows@, states as int),
    ensures
        putoken::toks_ok(sc.data@, r.0@, sc.extra as nat),
        r.1@.len() == r.0@.len(),
        forall|k: int| 0 <= k < r.1@.len() ==> #[trigger] r.1@[k] < states,
        putoken::stream_bits(
            sc.data@,
            r.0@,
            r.1@,
            start_esc as nat,
            sc.esc_bits as nat,
            sc.extra as nat,
            sc.rank_of@,
            r.0@.len() as int,
        ) == cost_at(rows@, sc.data@.len() as int, 0, start_esc as int),
        forall|k: int|
            0 <= k < r.0@.len() ==> #[trigger] joint_step(
                sc,
                table_of(rows@, sc.data@.len() as int, states as int),
                r.0@,
                r.1@,
                start_esc as nat,
                k,
            ),
{
    let n: usize = sc.data.len();
    let ghost data = sc.data@;
    let ghost x = sc.extra as nat;
    let ghost st = states as nat;
    let ghost tab = table_of(rows@, n as int, states as int);
    let ghost bits = cost_at(rows@, n as int, 0, start_esc as int);
    let mut s: usize = start_esc as usize;
    let ghost e = sc.esc_bits as nat;
    let mut toks: Vec<Tok> = Vec::new();
    let mut newesc: Vec<u8> = Vec::new();
    let mut p: usize = 0;
    while p < n
        invariant
            sc.wf(),
            e == sc.esc_bits,
            rows_exact(sc, rows@, states as int),
            s == putoken::esc_at(data, toks@, newesc@, start_esc as nat, e, toks@.len() as int),
            putoken::stream_bits(
                data,
                toks@,
                newesc@,
                start_esc as nat,
                e,
                x,
                sc.rank_of@,
                toks@.len() as int,
            ) + cost_at(rows@, n as int, p as int, s as int) == bits,
            n == data.len(),
            data == sc.data@,
            x == sc.extra,
            st == states,
            states == pow2(sc.esc_bits as nat),
            1 <= states <= 256,
            p <= n,
            s < states,
            rows@.len() == n,
            rows_ok_from(data, x, st, rows@),
            forall|k: int| 0 <= k < toks@.len() ==> #[trigger] putoken::tok_fits(data, toks@, x, k),
            putoken::tok_pos(toks@, toks@.len() as int) == p,
            newesc@.len() == toks@.len(),
            forall|k: int| 0 <= k < newesc@.len() ==> #[trigger] newesc@[k] < states,
            tab == table_of(rows@, n as int, states as int),
            forall|k: int|
                0 <= k < toks@.len() ==> #[trigger] joint_step(
                    sc,
                    tab,
                    toks@,
                    newesc@,
                    start_esc as nat,
                    k,
                ),
        decreases n - p,
    {
        let r: usize = n - 1 - p;
        assert(row_ok(data, x, st, p as int, rows@[r as int]));
        let t: Tok = rows[r].step[s];
        let ns: u8 = rows[r].next[s];
        let ghost (t0, n0, s0) = (toks@, newesc@, s as int);
        proof {
            lemma_row_choice(sc, rows@, p as int, s as int);
            assert(row_exact(sc, rows@, states as int, data.len() - 1 - r, rows@[r as int]));
            assert(rows@[r as int].cost@[s as int] == bits_via(
                sc,
                rows@,
                p as int,
                s as int,
                t,
                ns as int,
            ));
        }
        push_token(&mut toks, t, Ghost(data), Ghost(x), Ghost(p as int));
        match t {
            Tok::Lit => {
                newesc.push(ns);
                if sc.esc_bits == 0 || byte_selector(sc.data[p], sc.esc_bits) as usize == s {
                    s = ns as usize;
                }
            },
            _ => {
                newesc.push(0);
            },
        }
        proof {
            lemma_plan_prefix(
                data,
                t0,
                toks@,
                n0,
                newesc@,
                start_esc as nat,
                e,
                x,
                sc.rank_of@,
                t0.len() as int,
            );
            lemma_joint_steps(sc, tab, t0, toks@, n0, newesc@, start_esc as nat);
        }
        p += token_len(&t) as usize;
    }
    (toks, newesc)
}

/// The cheapest plan: literals in the long form cost what they do, and the
/// escape value after them is chosen freely.
pub fn parse_joint(sc: &Scene) -> (plan: Plan)
    requires
        sc.wf(),
    ensures
        plan.ok(sc.data@),
        plan.esc_bits == sc.esc_bits,
        plan.extra == sc.extra,
        joint_found(sc, plan),
        forall|p: Plan|
            p.ok(sc.data@) && p.esc_bits == sc.esc_bits && p.extra == sc.extra && sc.offers_all(
                p.tokens@,
            ) ==> plan.bits_of(sc.data@, sc.rank_of@) <= #[trigger] p.bits_of(sc.data@, sc.rank_of@),
{
    let states: usize = two_to(sc.esc_bits) as usize;
    proof {
        pustream::lemma_small_values(sc.esc_bits as nat);
    }
    let rows: Vec<Row> = joint_rows(sc, states);
    let start_esc: u8 = first_cheapest(&rows, states, Ghost(sc.data@), Ghost(sc.extra as nat));
    let (tokens, newesc) = walk_joint(sc, &rows, states, start_esc);
    let plan: Plan = Plan { tokens, newesc, start_esc, esc_bits: sc.esc_bits, extra: sc.extra };
    proof {
        lemma_joint_found(sc, rows@, plan);
        assert forall|q: Plan|
            q.ok(sc.data@) && q.esc_bits == sc.esc_bits && q.extra == sc.extra && sc.offers_all(
                q.tokens@,
            ) implies plan.bits_of(sc.data@, sc.rank_of@) <= #[trigger] q.bits_of(
            sc.data@,
            sc.rank_of@,
        ) by {
            lemma_joint_least(sc, rows@, q, 0);
            assert(cost_at(rows@, sc.data@.len() as int, 0, start_esc as int) <= cost_at(
                rows@,
                sc.data@.len() as int,
                0,
                q.start_esc as int,
            ));
        }
    }
    plan
}

/// The first of the escape values to start with that cost least.
fn first_cheapest(rows: &Vec<Row>, states: usize, Ghost(data): Ghost<Seq<u8>>, Ghost(x): Ghost<nat>) -> (r: u8)
    requires
        1 <= states <= 256,
        data.len() <= MAX_INPUT,
        rows@.len() == data.len(),
        rows_ok_from(data, x, states as nat, rows@),
    ensures
        r < states,
        r == first_min(costs_at(rows@, data.len() as int, states as int, 0), states as int),
        forall|u: int|
            0 <= u < states ==> cost_at(rows@, data.len() as int, 0, r as int) <= #[trigger] cost_at(
                rows@,
                data.len() as int,
                0,
                u,
            ),
{
    let n: usize = rows.len();
    let mut s: usize = 0;
    let mut bits: u64 = cost_from(rows, n, 0, 0, Ghost(data), Ghost(x), Ghost(states as nat));
    let mut cand: usize = 1;
    while cand < states
        invariant
            n == data.len(),
            n <= MAX_INPUT,
            1 <= cand <= states <= 256,
            s < states,
            rows@.len() == n,
            rows_ok_from(data, x, states as nat, rows@),
            bits == cost_at(rows@, n as int, 0, s as int),
            forall|u: int| 0 <= u < cand ==> bits <= #[trigger] cost_at(rows@, n as int, 0, u),
            s == first_min(costs_at(rows@, n as int, states as int, 0), cand as int),
        decreases states - cand,
    {
        let c: u64 = cost_from(rows, n, 0, cand, Ghost(data), Ghost(x), Ghost(states as nat));
        if c < bits {
            bits = c;
            s = cand;
        }
        cand += 1;
    }
    s as u8
}

proof fn lemma_joint_found(sc: &Scene, rows: Seq<Row>, plan: Plan)
    requires
        sc.wf(),
        rows.len() == sc.data@.len(),
        rows_ok_from(sc.data@, sc.extra as nat, pow2(sc.esc_bits as nat), rows),
        rows_exact(sc, rows, pow2(sc.esc_bits as nat) as int),
        plan.ok(sc.data@),
        ({
            let n = sc.data@.len() as int;
            let states = pow2(sc.esc_bits as nat) as int;
            &&& plan.start_esc == first_min(costs_at(rows, n, states, 0), states)
            &&& forall|k: int|
                0 <= k < plan.tokens@.len() ==> #[trigger] joint_step(
                    sc,
                    table_of(rows, n, states),
                    plan.tokens@,
                    plan.newesc@,
                    plan.start_esc as nat,
                    k,
                )
        }),
    ensures
        joint_found(sc, plan),
{
    lemma_table_costs(sc, rows);
    let tab = table_of(rows, sc.data@.len() as int, pow2(sc.esc_bits as nat) as int);
    assert(tab[0] == costs_at(rows, sc.data@.len() as int, pow2(sc.esc_bits as nat) as int, 0));
}

/// A plan and its bits, with those of the end marker.
pub struct Solution {
    pub plan: Plan,
    pub total: u64,
}

impl Solution {
    pub open spec fn ok(&self, data: Seq<u8>, rank_of: Seq<u8>) -> bool {
        self.plan.ok(data) && self.total == self.plan.bits_of(data, rank_of)
    }
}

/// The plan has as many bits as its tokens with flat literals, and what its escape
/// changes take.
proof fn lemma_change_bits(p: &Plan, data: Seq<u8>, rank_of: Seq<u8>, sels: Seq<Option<nat>>, k: int)
    requires
        p.ok(data),
        sels.len() == p.tokens@.len(),
        forall|j: int|
            0 <= j < sels.len() ==> #[trigger] sels[j] == sel_of(
                data,
                p.tokens@,
                p.esc_bits as nat,
                j,
            ),
        0 <= k <= sels.len(),
    ensures
        ({
            let e = p.esc_bits as nat;
            let esc = putoken::esc_at(data, p.tokens@, p.newesc@, p.start_esc as nat, e, k);
            &&& esc < pow2(e)
            &&& putoken::stream_bits(
                data,
                p.tokens@,
                p.newesc@,
                p.start_esc as nat,
                e,
                p.extra as nat,
                rank_of,
                k,
            ) + (3 + e) * changes(sels, as_nats(p.newesc@), k, esc) == flat_total(
                data,
                p.tokens@,
                e,
                p.extra as nat,
                rank_of,
                k,
            ) + (3 + e) * changes(sels, as_nats(p.newesc@), 0, p.start_esc as nat)
        }),
    decreases k,
{
    if k > 0 {
        lemma_change_bits(p, data, rank_of, sels, k - 1);
        let e = p.esc_bits as nat;
        let j = k - 1;
        let esc = putoken::esc_at(data, p.tokens@, p.newesc@, p.start_esc as nat, e, j);
        let ne = as_nats(p.newesc@);
        assert(sels[j] == sel_of(data, p.tokens@, e, j));
        assert(putoken::tok_fits(data, p.tokens@, p.extra as nat, j));
        assert(p.newesc@[j] < pow2(e));
        if p.tokens@[j] is Lit {
            let byte = data[putoken::tok_pos(p.tokens@, j)];
            putoken::lemma_selector(byte, e);
            if e == 0 {
                vstd::arithmetic::power2::lemma2_to64();
            }
            assert(putoken::collides(byte, e, esc) <==> sels[j] == Some(esc));
            let c = changes(sels, ne, k, p.newesc@[j] as nat);
            assert((3 + e) * (1 + c) == (3 + e) * c + 3 + e) by (nonlinear_arith);
        }
    }
}

/// Of two plans with the same tokens and widths, the one with no more escape changes
/// is no larger.
proof fn lemma_fewer_changes(p: &Plan, q: &Plan, data: Seq<u8>, rank_of: Seq<u8>, sels: Seq<Option<nat>>)
    requires
        p.ok(data),
        q.ok(data),
        p.tokens@ == q.tokens@,
        p.esc_bits == q.esc_bits,
        p.extra == q.extra,
        sels.len() == p.tokens@.len(),
        forall|j: int|
            0 <= j < sels.len() ==> #[trigger] sels[j] == sel_of(
                data,
                p.tokens@,
                p.esc_bits as nat,
                j,
            ),
        changes(sels, as_nats(p.newesc@), 0, p.start_esc as nat) <= changes(
            sels,
            as_nats(q.newesc@),
            0,
            q.start_esc as nat,
        ),
    ensures
        p.bits_of(data, rank_of) <= q.bits_of(data, rank_of),
{
    let n = sels.len() as int;
    lemma_change_bits(p, data, rank_of, sels, n);
    lemma_change_bits(q, data, rank_of, sels, n);
    let e = p.esc_bits as nat;
    let a = changes(sels, as_nats(p.newesc@), 0, p.start_esc as nat);
    let b = changes(sels, as_nats(q.newesc@), 0, q.start_esc as nat);
    assert((3 + e) * a <= (3 + e) * b) by (nonlinear_arith)
        requires
            a <= b,
    ;
    assert((3 + e) * 0 == 0) by (nonlinear_arith);
}

/// No plan with the tokens and widths of `s` has better escape values.
pub open spec fn escapes_best(sc: &Scene, s: Solution) -> bool {
    forall|p: Plan|
        p.ok(sc.data@) && p.tokens@ == s.plan.tokens@ && p.esc_bits == sc.esc_bits && p.extra
            == sc.extra ==> s.total <= #[trigger] p.bits_of(sc.data@, sc.rank_of@)
}

/// What the choice of escape values sees of all tokens.
pub open spec fn all_sels(data: Seq<u8>, toks: Seq<Tok>, e: nat) -> Seq<Option<nat>> {
    Seq::new(toks.len(), |k: int| sel_of(data, toks, e, k))
}

/// The plan of the separate passes: the parse with flat literals, and then the
/// escape values for it.
pub open spec fn separate_found(sc: &Scene, plan: Plan) -> bool {
    &&& flat_found(sc, plan.tokens@)
    &&& escapes_found(
        all_sels(sc.data@, plan.tokens@, sc.esc_bits as nat),
        pow2(sc.esc_bits as nat),
        plan.start_esc as nat,
        plan.newesc@,
    )
}

/// A solution with the widths of the scene: by the joint parse, where no plan by
/// tokens on offer is smaller, or by separate passes, where no tokens on offer are
/// cheaper with flat literals and no escape values are better for them.
#[verifier::opaque]
pub open spec fn solved(sc: &Scene, joint: bool, s: Solution) -> bool {
    &&& s.ok(sc.data@, sc.rank_of@)
    &&& s.plan.esc_bits == sc.esc_bits
    &&& s.plan.extra == sc.extra
    &&& if joint {
        &&& joint_found(sc, s.plan)
        &&& forall|p: Plan|
            p.ok(sc.data@) && p.esc_bits == sc.esc_bits && p.extra == sc.extra && sc.offers_all(
                p.tokens@,
            ) ==> s.total <= #[trigger] p.bits_of(sc.data@, sc.rank_of@)
    } else {
        &&& separate_found(sc, s.plan)
        &&& escapes_best(sc, s)
        &&& forall|q: Seq<Tok>|
            putoken::toks_ok(sc.data@, q, sc.extra as nat) && #[trigger] sc.offers_all(q)
                ==> flat_total(
                sc.data@,
                s.plan.tokens@,
                sc.esc_bits as nat,
                sc.extra as nat,
                sc.rank_of@,
                s.plan.tokens@.len() as int,
            ) <= flat_total(
                sc.data@,
                q,
                sc.esc_bits as nat,
                sc.extra as nat,
                sc.rank_of@,
                q.len() as int,
            )
    }
}

proof fn lemma_one_joint_cost(sc: &Scene, a: Seq<Seq<int>>, b: Seq<Seq<int>>, i: int)
    requires
        joint_costs(sc, a),
        joint_costs(sc, b),
        0 <= i <= sc.data@.len(),
    ensures
        forall|j: int| i <= j <= sc.data@.len() ==> #[trigger] a[j] == b[j],
    decreases sc.data@.len() - i,
{
    let n = sc.data@.len() as int;
    let states = pow2(sc.esc_bits as nat) as int;
    if i < n {
        lemma_one_joint_cost(sc, a, b, i + 1);
        assert forall|s: int| 0 <= s < states implies a[i][s] == b[i][s] by {
            assert(has_joint_choice(sc, a, i, s) && has_joint_choice(sc, b, i, s));
            let t = choose|t: Tok| #[trigger] joint_choice(sc, a, i, s, t);
            let u = choose|u: Tok| #[trigger] joint_choice(sc, b, i, s, u);
            assert(sc.offers(i, t) && sc.offers(i, u));
            assert(a[i + 1] == b[i + 1]);
            assert(a[i + putoken::tok_len(t)] == b[i + putoken::tok_len(t)]);
            assert(a[i + putoken::tok_len(u)] == b[i + putoken::tok_len(u)]);
        }
        assert(a[i] =~= b[i]);
    } else {
        assert(a[n] =~= b[n]) by {
            assert forall|s: int| 0 <= s < states implies a[n][s] == b[n][s] by {}
        }
    }
}

proof fn lemma_same_joint_steps(sc: &Scene, tab: Seq<Seq<int>>, a: Plan, b: Plan, k: int)
    requires
        a.ok(sc.data@),
        b.ok(sc.data@),
        a.extra == sc.extra,
        b.extra == sc.extra,
        a.start_esc == b.start_esc,
        forall|k: int|
            0 <= k < a.tokens@.len() ==> #[trigger] joint_step(
                sc,
                tab,
                a.tokens@,
                a.newesc@,
                a.start_esc as nat,
                k,
            ),
        forall|k: int|
            0 <= k < b.tokens@.len() ==> #[trigger] joint_step(
                sc,
                tab,
                b.tokens@,
                b.newesc@,
                b.start_esc as nat,
                k,
            ),
        0 <= k <= a.tokens@.len(),
        k <= b.tokens@.len(),
        forall|j: int|
            0 <= j < k ==> a.tokens@[j] == b.tokens@[j] && a.newesc@[j] == b.newesc@[j],
    ensures
        a.tokens@ == b.tokens@,
        a.newesc@ == b.newesc@,
    decreases a.tokens@.len() - k,
{
    let x = sc.extra as nat;
    lemma_same_place(sc, a, b, k);
    if k == a.tokens@.len() {
        if k < b.tokens@.len() {
            lemma_some_left(sc.data@, b.tokens@, x, k);
        }
        assert(a.tokens@ =~= b.tokens@);
        assert(a.newesc@ =~= b.newesc@);
    } else {
        lemma_some_left(sc.data@, a.tokens@, x, k);
        if k < b.tokens@.len() {
            assert(joint_step(sc, tab, a.tokens@, a.newesc@, a.start_esc as nat, k));
            assert(joint_step(sc, tab, b.tokens@, b.newesc@, b.start_esc as nat, k));
            lemma_one_pref(sc, putoken::tok_pos(a.tokens@, k), a.tokens@[k], b.tokens@[k]);
            lemma_same_joint_steps(sc, tab, a, b, k + 1);
        }
    }
}

proof fn lemma_same_place(sc: &Scene, a: Plan, b: Plan, k: int)
    requires
        a.start_esc == b.start_esc,
        0 <= k <= a.tokens@.len(),
        k <= b.tokens@.len(),
        forall|j: int|
            0 <= j < k ==> a.tokens@[j] == b.tokens@[j] && a.newesc@[j] == b.newesc@[j],
    ensures
        putoken::tok_pos(a.tokens@, k) == putoken::tok_pos(b.tokens@, k),
        putoken::esc_at(
            sc.data@,
            a.tokens@,
            a.newesc@,
            a.start_esc as nat,
            sc.esc_bits as nat,
            k,
        ) == putoken::esc_at(
            sc.data@,
            b.tokens@,
            b.newesc@,
            b.start_esc as nat,
            sc.esc_bits as nat,
            k,
        ),
    decreases k,
{
    if k > 0 {
        lemma_same_place(sc, a, b, k - 1);
    }
}

/// A scene has one plan by the joint parse and one by separate passes.
pub proof fn lemma_one_plan(sc: &Scene, joint: bool, a: Plan, b: Plan)
    requires
        a.ok(sc.data@),
        b.ok(sc.data@),
        a.extra == sc.extra,
        b.extra == sc.extra,
        joint ==> joint_found(sc, a) && joint_found(sc, b),
        !joint ==> separate_found(sc, a) && separate_found(sc, b),
    ensures
        a.tokens@ == b.tokens@,
        a.newesc@ == b.newesc@,
        a.start_esc == b.start_esc,
{
    if joint {
        let pa = a;
        let pb = b;
        let states = pow2(sc.esc_bits as nat) as int;
        let ta = choose|tab: Seq<Seq<int>>| #[trigger]
            joint_costs(sc, tab) && pa.start_esc == first_min(tab[0], states) && forall|k: int|
                0 <= k < pa.tokens@.len() ==> #[trigger] joint_step(
                    sc,
                    tab,
                    pa.tokens@,
                    pa.newesc@,
                    pa.start_esc as nat,
                    k,
                );
        let tb = choose|tab: Seq<Seq<int>>| #[trigger]
            joint_costs(sc, tab) && pb.start_esc == first_min(tab[0], states) && forall|k: int|
                0 <= k < pb.tokens@.len() ==> #[trigger] joint_step(
                    sc,
                    tab,
                    pb.tokens@,
                    pb.newesc@,
                    pb.start_esc as nat,
                    k,
                );
        lemma_one_joint_cost(sc, ta, tb, 0);
        assert(ta =~= tb);
        lemma_same_joint_steps(sc, ta, pa, pb, 0);
    } else {
        lemma_one_flat(sc, a.tokens@, b.tokens@);
        assert(a.newesc@ =~= b.newesc@);
    }
}

/// The parse with flat literals, and then the best escape values for it.
pub fn solve_separate(sc: &Scene) -> (s: Solution)
    requires
        sc.wf(),
    ensures
        s.ok(sc.data@, sc.rank_of@),
        s.plan.esc_bits == sc.esc_bits,
        s.plan.extra == sc.extra,
        separate_found(sc, s.plan),
        escapes_best(sc, s),
        forall|q: Seq<Tok>|
            putoken::toks_ok(sc.data@, q, sc.extra as nat) && #[trigger] sc.offers_all(q)
                ==> flat_total(
                sc.data@,
                s.plan.tokens@,
                sc.esc_bits as nat,
                sc.extra as nat,
                sc.rank_of@,
                s.plan.tokens@.len() as int,
            ) <= flat_total(
                sc.data@,
                q,
                sc.esc_bits as nat,
                sc.extra as nat,
                sc.rank_of@,
                q.len() as int,
            ),
{
    let (toks, _) = parse(sc);
    proof {
        lemma_few_tokens(sc.data@, toks@, sc.extra as nat, toks@.len() as int);
    }
    let sels: Vec<Option<u8>> = literal_selectors(
        sc.data,
        &toks,
        sc.esc_bits,
        Ghost(sc.extra as nat),
    );
    let (start_esc, newesc, _) = optimize_escapes(&sels, sc.esc_bits);
    let plan: Plan = Plan {
        tokens: toks,
        newesc,
        start_esc,
        esc_bits: sc.esc_bits,
        extra: sc.extra,
    };
    let total: u64 = plan_bits(sc.data, &plan, sc.rank_of);
    proof {
        let ss = sels_of(sels@);
        assert forall|j: int| 0 <= j < ss.len() implies #[trigger] ss[j] == sel_of(
            sc.data@,
            plan.tokens@,
            sc.esc_bits as nat,
            j,
        ) by {
            assert(sels@[j] is Some || sels@[j] is None);
        }
        assert(ss =~= all_sels(sc.data@, plan.tokens@, sc.esc_bits as nat));
        assert forall|p: Plan|
            p.ok(sc.data@) && p.tokens@ == plan.tokens@ && p.esc_bits == sc.esc_bits && p.extra
                == sc.extra implies total <= #[trigger] p.bits_of(sc.data@, sc.rank_of@) by {
            let ne = as_nats(p.newesc@);
            assert forall|j: int| 0 <= j < ne.len() implies #[trigger] ne[j] < pow2(
                sc.esc_bits as nat,
            ) by {
                assert(p.newesc@[j] < pow2(sc.esc_bits as nat));
            }
            assert(changes(ss, as_nats(plan.newesc@), 0, plan.start_esc as nat) <= changes(
                ss,
                ne,
                0,
                p.start_esc as nat,
            ));
            lemma_fewer_changes(&plan, &p, sc.data@, sc.rank_of@, ss);
        }
    }
    Solution { plan, total }
}

/// Every token stands for at least one byte.
proof fn lemma_few_tokens(data: Seq<u8>, toks: Seq<Tok>, x: nat, k: int)
    requires
        putoken::toks_ok(data, toks, x),
        0 <= k <= toks.len(),
    ensures
        k <= putoken::tok_pos(toks, k),
    decreases k,
{
    if k > 0 {
        lemma_few_tokens(data, toks, x, k - 1);
        assert(putoken::tok_fits(data, toks, x, k - 1));
    }
}

/// The joint parse is affordable.
pub fn joint_budget_ok(n: usize, e: u32) -> (r: bool)
    requires
        e <= 8,
        n <= MAX_INPUT,
    ensures
        r == (pow2(e as nat) * n <= 4_000_000),
{
    proof {
        pustream::lemma_small_values(e as nat);
        assert(pow2(e as nat) * n <= 256 * MAX_INPUT) by (nonlinear_arith)
            requires
                pow2(e as nat) <= 256,
                n <= MAX_INPUT,
        ;
    }
    two_to(e) as u64 * n as u64 <= 4_000_000
}

/// The joint parse: no plan with the same widths by tokens on offer is smaller.
pub fn solve_joint(sc: &Scene) -> (s: Solution)
    requires
        sc.wf(),
    ensures
        s.ok(sc.data@, sc.rank_of@),
        s.plan.esc_bits == sc.esc_bits,
        s.plan.extra == sc.extra,
        joint_found(sc, s.plan),
        forall|p: Plan|
            p.ok(sc.data@) && p.esc_bits == sc.esc_bits && p.extra == sc.extra && sc.offers_all(
                p.tokens@,
            ) ==> s.total <= #[trigger] p.bits_of(sc.data@, sc.rank_of@),
{
    let plan: Plan = parse_joint(sc);
    let total: u64 = plan_bits(sc.data, &plan, sc.rank_of);
    Solution { plan, total }
}

} // verus!
