//! The cheapest way to write an input with given tables: a shortest path over
//! positions, whose edges are literal bytes and the matches, each at its full
//! length or up to three bytes shorter.
use crate::submatch::{Groups, MatchTree, MAX_INPUT};
use crate::substream::{cost_enc, EncodingSet, PathStep, Tables, ENC_FAULT, MAX_OFFS};
use crate::submatch;
use crate::substream;
use vstd::prelude::*;

verus! {

// ---------------------------------------------------------------------------
// Prices
// ---------------------------------------------------------------------------
/// Where prices come from: an estimate that needs no tables, or the tables.
#[derive(Clone, Copy, PartialEq, Eq, Structural, Debug)]
pub enum CostModel {
    Init,
    Real,
}

/// The least `k` with `v` at most two to the power `k`.
pub open spec fn clog2(v: int) -> int
    decreases v,
{
    if v <= 1 {
        0
    } else {
        1 + clog2((v + 1) / 2)
    }
}

pub fn ceil_log2(v: u32) -> (k: u32)
    requires
        v <= 0x10000,
    ensures
        k == clog2(v as int),
        k <= v,
    decreases v,
{
    if v <= 1 {
        0
    } else {
        1 + ceil_log2((v + 1) / 2)
    }
}

proof fn lemma_clog2(v: int)
    requires
        v >= 0,
    ensures
        0 <= clog2(v) <= v,
    decreases v,
{
    if v > 1 {
        lemma_clog2((v + 1) / 2);
    }
}

pub open spec fn len_price(m: CostModel, t: Tables, len: int) -> int {
    match m {
        CostModel::Init => clog2(len),
        CostModel::Real => substream::code_cost(t.lens, len),
    }
}

pub open spec fn offs_price(m: CostModel, t: Tables, offs: int, len: int) -> int {
    match m {
        CostModel::Init => if len == 1 {
            clog2(offs)
        } else {
            2 + clog2(offs)
        },
        CostModel::Real => substream::code_cost(substream::offs_code(t, len), offs),
    }
}

pub open spec fn step_price(m: CostModel, t: Tables, st: PathStep) -> int {
    match st {
        PathStep::Literal => 9,
        PathStep::Match { offs, len } => 1 + len_price(m, t, len as int) + offs_price(
            m,
            t,
            offs as int,
            len as int,
        ),
    }
}

/// Price of the first `k` tokens.
pub open spec fn path_price(m: CostModel, t: Tables, path: Seq<PathStep>, k: int) -> int
    decreases k,
{
    if k <= 0 {
        0
    } else {
        path_price(m, t, path, k - 1) + step_price(m, t, path[k - 1])
    }
}

/// With the tables, the price is what the stream has in bits.
pub proof fn lemma_real_price(t: Tables, path: Seq<PathStep>, k: int)
    ensures
        path_price(CostModel::Real, t, path, k) == substream::path_bits(t, path, k),
    decreases k,
{
    if k > 0 {
        lemma_real_price(t, path, k - 1);
    }
}

pub open spec fn model_ok(m: CostModel, t: Tables) -> bool {
    m == CostModel::Real ==> substream::tables_wf(t)
}

impl CostModel {
    pub fn cost_mlen(self, es: &EncodingSet, len: u32) -> (c: u32)
        requires
            model_ok(self, es@),
            1 <= len <= 256,
        ensures
            c == len_price(self, es@, len as int),
            c <= ENC_FAULT,
    {
        match self {
            CostModel::Init => ceil_log2(len),
            CostModel::Real => cost_enc(&es.bitsl, len),
        }
    }

    pub fn cost_moffs(self, es: &EncodingSet, offs: u32, len: u32) -> (c: u32)
        requires
            model_ok(self, es@),
            1 <= offs <= 0x10000,
        ensures
            c == offs_price(self, es@, offs as int, len as int),
            c <= ENC_FAULT,
    {
        match self {
            CostModel::Init => if len == 1 {
                ceil_log2(offs)
            } else {
                2 + ceil_log2(offs)
            },
            CostModel::Real => cost_enc(es.offs_table(len), offs),
        }
    }
}

/// Prices looked up: of lengths, of offsets by the length of the match, and the
/// offsets at which the last of these tables changes.
struct Prices {
    lens: Vec<i64>,
    offs1: Vec<i64>,
    offs2: Vec<i64>,
    offs3: Vec<i64>,
    offs: Vec<i64>,
    steps: Vec<usize>,
}

spec fn table_is(tab: Seq<i64>, m: CostModel, t: Tables, len: int, maxo: int) -> bool {
    &&& tab.len() == maxo + 1
    &&& forall|o: int|
        1 <= o <= maxo ==> 0 <= #[trigger] tab[o] <= ENC_FAULT && tab[o] == offs_price(m, t, o, len)
}

/// Where step `s` ends.
spec fn step_end(steps: Seq<usize>, s: int, maxo: int) -> int {
    if s + 1 < steps.len() {
        steps[s + 1] as int
    } else {
        maxo + 1
    }
}

spec fn steps_ok(steps: Seq<usize>, tab: Seq<i64>, maxo: int) -> bool {
    &&& maxo >= 1 ==> steps.len() > 0 && steps[0] == 1
    &&& forall|s: int| 0 <= s < steps.len() ==> 1 <= #[trigger] steps[s] <= maxo
    &&& forall|s: int| 0 <= s < steps.len() ==> (#[trigger] steps[s]) < step_end(steps, s, maxo)
    &&& forall|s: int, o: int|
        #![trigger steps[s], tab[o]]
        0 <= s < steps.len() && steps[s] <= o < step_end(steps, s, maxo) ==> tab[o]
            == tab[steps[s] as int]
}

impl Prices {
    spec fn ok(&self, m: CostModel, t: Tables, maxo: int) -> bool {
        &&& self.lens@.len() == 257
        &&& forall|l: int|
            1 <= l <= 256 ==> 0 <= #[trigger] self.lens@[l] <= ENC_FAULT && self.lens@[l]
                == len_price(m, t, l)
        &&& table_is(self.offs1@, m, t, 1, maxo)
        &&& table_is(self.offs2@, m, t, 2, maxo)
        &&& table_is(self.offs3@, m, t, 3, maxo)
        &&& table_is(self.offs@, m, t, 4, maxo)
        &&& steps_ok(self.steps@, self.offs@, maxo)
    }

    fn weight(&self, offs: usize, len: usize, Ghost(m): Ghost<CostModel>, Ghost(t): Ghost<Tables>, Ghost(maxo): Ghost<int>) -> (w: i64)
        requires
            self.ok(m, t, maxo),
            1 <= offs <= maxo,
            maxo <= MAX_OFFS,
            1 <= len <= 256,
        ensures
            w == step_price(m, t, match_step(offs as int, len as int)),
            1 <= w <= 1 + 2 * ENC_FAULT,
    {
        let o: i64 = if len == 1 {
            self.offs1[offs]
        } else if len == 2 {
            self.offs2[offs]
        } else if len == 3 {
            self.offs3[offs]
        } else {
            self.offs[offs]
        };
        1 + self.lens[len] + o
    }
}

pub open spec fn match_step(offs: int, len: int) -> PathStep {
    PathStep::Match { offs: offs as u32, len: len as u32 }
}

/// Prices of the offsets up to `maxo`.
fn offs_prices(m: CostModel, es: &EncodingSet, len: u32, maxo: usize) -> (tab: Vec<i64>)
    requires
        model_ok(m, es@),
        maxo <= MAX_OFFS,
        1 <= len <= 256,
    ensures
        table_is(tab@, m, es@, len as int, maxo as int),
{
    let mut tab: Vec<i64> = Vec::with_capacity(maxo + 1);
    tab.push(0);
    let mut o: usize = 1;
    while o <= maxo
        invariant
            model_ok(m, es@),
            maxo <= MAX_OFFS,
            1 <= o <= maxo + 1,
            tab@.len() == o,
            forall|k: int|
                1 <= k < o ==> 0 <= #[trigger] tab@[k] <= ENC_FAULT && tab@[k] == offs_price(
                    m,
                    es@,
                    k,
                    len as int,
                ),
        decreases maxo + 1 - o,
    {
        tab.push(m.cost_moffs(es, o as u32, len) as i64);
        o += 1;
    }
    tab
}

/// The offsets at which a table changes.
fn price_steps(tab: &Vec<i64>, maxo: usize) -> (steps: Vec<usize>)
    requires
        tab@.len() == maxo + 1,
        maxo <= MAX_OFFS,
    ensures
        steps_ok(steps@, tab@, maxo as int),
{
    let mut steps: Vec<usize> = Vec::new();
    let mut o: usize = 1;
    while o <= maxo
        invariant
            tab@.len() == maxo + 1,
            maxo <= MAX_OFFS,
            1 <= o <= maxo + 1,
            o > 1 ==> steps_ok(steps@, tab@, o - 1),
            o == 1 ==> steps@.len() == 0,
        decreases maxo + 1 - o,
    {
        let ghost s0 = steps@;
        if o == 1 || tab[o] != tab[o - 1] {
            steps.push(o);
            proof {
                assert forall|s: int| 0 <= s < steps@.len() implies (#[trigger] steps@[s])
                    < step_end(steps@, s, o as int) by {
                    if s < s0.len() {
                        assert(steps@[s] == s0[s]);
                    }
                }
                assert forall|s: int, x: int|
                    #![trigger steps@[s], tab@[x]]
                    0 <= s < steps@.len() && steps@[s] <= x < step_end(steps@, s, o as int) implies tab@[x]
                    == tab@[steps@[s] as int] by {
                    if s < s0.len() {
                        assert(steps@[s] == s0[s]);
                        assert(step_end(steps@, s, o as int) == step_end(s0, s, o - 1));
                    }
                }
            }
        } else {
            proof {
                let last = s0.len() - 1;
                assert(s0[last] <= o - 1);
                assert(tab@[o - 1] == tab@[s0[last] as int]);
                assert forall|s: int, x: int|
                    #![trigger steps@[s], tab@[x]]
                    0 <= s < steps@.len() && steps@[s] <= x < step_end(steps@, s, o as int) implies tab@[x]
                    == tab@[steps@[s] as int] by {
                    if x < o {
                        assert(x < step_end(s0, s, o - 1));
                    }
                }
            }
        }
        o += 1;
    }
    steps
}

fn build_prices(m: CostModel, es: &EncodingSet, maxo: usize) -> (pr: Prices)
    requires
        model_ok(m, es@),
        maxo <= MAX_OFFS,
    ensures
        pr.ok(m, es@, maxo as int),
{
    let mut lens: Vec<i64> = Vec::with_capacity(257);
    lens.push(0);
    let mut l: u32 = 1;
    while l <= 256
        invariant
            model_ok(m, es@),
            1 <= l <= 257,
            lens@.len() == l,
            forall|k: int|
                1 <= k < l ==> 0 <= #[trigger] lens@[k] <= ENC_FAULT && lens@[k] == len_price(
                    m,
                    es@,
                    k,
                ),
        decreases 257 - l,
    {
        lens.push(m.cost_mlen(es, l) as i64);
        l += 1;
    }
    let offs: Vec<i64> = offs_prices(m, es, 4, maxo);
    let steps: Vec<usize> = price_steps(&offs, maxo);
    Prices {
        lens,
        offs1: offs_prices(m, es, 1, maxo),
        offs2: offs_prices(m, es, 2, maxo),
        offs3: offs_prices(m, es, 3, maxo),
        offs,
        steps,
    }
}

// ---------------------------------------------------------------------------
// Edges
// ---------------------------------------------------------------------------
/// A token that the search may use at `p`.
pub open spec fn edge(input: Seq<u8>, p: int, st: PathStep) -> bool {
    match st {
        PathStep::Literal => 0 <= p < input.len(),
        PathStep::Match { offs, len } => {
            &&& submatch::cand(input, p, offs as int)
            &&& 1 <= len
            &&& submatch::mlen(input, p, offs as int) - 3 <= len <= submatch::mlen(
                input,
                p,
                offs as int,
            )
        },
    }
}

/// Tokens that the search may use, from the start to the end of the input.
pub open spec fn edge_path(input: Seq<u8>, path: Seq<PathStep>) -> bool {
    &&& substream::path_pos(path, path.len() as int) == input.len()
    &&& forall|k: int|
        0 <= k < path.len() ==> #[trigger] edge(input, substream::path_pos(path, k), path[k])
}

/// Going on from `u` with `st` is a best way to where it leads.
pub open spec fn on_best(input: Seq<u8>, m: CostModel, t: Tables, dist: Seq<int>, u: int, st: PathStep) -> bool {
    &&& edge(input, u, st)
    &&& dist[u + substream::step_len(st)] == dist[u] + step_price(m, t, st)
}

/// It is the one that is taken: no best way comes from an earlier place, or from
/// there by a token that is taken first.
pub open spec fn taken_at(input: Seq<u8>, m: CostModel, t: Tables, dist: Seq<int>, u: int, st: PathStep) -> bool {
    &&& on_best(input, m, t, dist, u, st)
    &&& forall|w: int, x: PathStep| #[trigger]
        on_best(input, m, t, dist, w, x) && w + substream::step_len(x) == u + substream::step_len(
            st,
        ) ==> u < w || u == w && no_later(st, x)
}

/// Some best way leads to `v`.
pub open spec fn attained(input: Seq<u8>, m: CostModel, t: Tables, dist: Seq<int>, v: int) -> bool {
    exists|u: int, st: PathStep| #[trigger]
        on_best(input, m, t, dist, u, st) && u + substream::step_len(st) == v
}

/// The prices of the cheapest ways to all places.
pub open spec fn least_prices(input: Seq<u8>, m: CostModel, t: Tables, dist: Seq<int>) -> bool {
    &&& dist.len() == input.len() + 1
    &&& dist[0] == 0
    &&& forall|u: int, st: PathStep| #[trigger]
        edge(input, u, st) ==> dist[u + substream::step_len(st)] <= dist[u] + step_price(m, t, st)
    &&& forall|v: int| 1 <= v <= input.len() ==> #[trigger] attained(input, m, t, dist, v)
}

/// Every token of the path is the one that is taken.
pub open spec fn all_taken(input: Seq<u8>, m: CostModel, t: Tables, dist: Seq<int>, path: Seq<PathStep>) -> bool {
    &&& least_prices(input, m, t, dist)
    &&& forall|k: int|
        0 <= k < path.len() ==> taken_at(
            input,
            m,
            t,
            dist,
            substream::path_pos(path, k),
            #[trigger] path[k],
        )
}

proof fn lemma_one_price(input: Seq<u8>, m: CostModel, t: Tables, a: Seq<int>, b: Seq<int>, v: int)
    requires
        least_prices(input, m, t, a),
        least_prices(input, m, t, b),
        0 <= v <= input.len(),
    ensures
        a[v] <= b[v],
    decreases v,
{
    if v > 0 {
        assert(attained(input, m, t, b, v));
        let (u, st) = choose|u: int, st: PathStep| #[trigger]
            on_best(input, m, t, b, u, st) && u + substream::step_len(st) == v;
        lemma_edge_ok(input, u, st);
        lemma_one_price(input, m, t, a, b, u);
        assert(edge(input, u, st));
    }
}

proof fn lemma_one_tail(
    input: Seq<u8>,
    m: CostModel,
    t: Tables,
    dist: Seq<int>,
    a: Seq<PathStep>,
    b: Seq<PathStep>,
    j: int,
    k: int,
)
    requires
        all_taken(input, m, t, dist, a),
        all_taken(input, m, t, dist, b),
        0 <= j <= a.len(),
        0 <= k <= b.len(),
        substream::path_pos(a, j) == substream::path_pos(b, k),
    ensures
        a.take(j) == b.take(k),
    decreases j + k,
{
    if j > 0 {
        assert(taken_at(input, m, t, dist, substream::path_pos(a, j - 1), a[j - 1]));
        lemma_edge_ok(input, substream::path_pos(a, j - 1), a[j - 1]);
    }
    if k > 0 {
        assert(taken_at(input, m, t, dist, substream::path_pos(b, k - 1), b[k - 1]));
        lemma_edge_ok(input, substream::path_pos(b, k - 1), b[k - 1]);
    }
    if j > 0 && k > 0 {
        let u = substream::path_pos(a, j - 1);
        let w = substream::path_pos(b, k - 1);
        assert(on_best(input, m, t, dist, u, a[j - 1]));
        assert(on_best(input, m, t, dist, w, b[k - 1]));
        assert(u == w);
        assert(a[j - 1] == b[k - 1]);
        lemma_one_tail(input, m, t, dist, a, b, j - 1, k - 1);
        assert(a.take(j) =~= a.take(j - 1).push(a[j - 1]));
        assert(b.take(k) =~= b.take(k - 1).push(b[k - 1]));
    } else {
        assert(a.take(j) =~= b.take(k));
    }
}

/// The cheapest path that is found is one.
pub proof fn lemma_one_path(input: Seq<u8>, m: CostModel, t: Tables, a: Seq<PathStep>, b: Seq<PathStep>)
    requires
        cheapest(input, m, t, a),
        cheapest(input, m, t, b),
    ensures
        a == b,
{
    let x = choose|dist: Seq<int>| #[trigger] all_taken(input, m, t, dist, a);
    let y = choose|dist: Seq<int>| #[trigger] all_taken(input, m, t, dist, b);
    assert forall|v: int| 0 <= v <= input.len() implies x[v] == y[v] by {
        lemma_one_price(input, m, t, x, y, v);
        lemma_one_price(input, m, t, y, x, v);
    }
    assert(x =~= y);
    lemma_one_tail(input, m, t, x, a, b, a.len() as int, b.len() as int);
    assert(a.take(a.len() as int) =~= a);
    assert(b.take(b.len() as int) =~= b);
}

/// No path over the same edges is cheaper, and of several such it is the one that
/// is found first.
pub open spec fn cheapest(input: Seq<u8>, m: CostModel, t: Tables, path: Seq<PathStep>) -> bool {
    &&& edge_path(input, path)
    &&& exists|dist: Seq<int>| #[trigger] all_taken(input, m, t, dist, path)
    &&& forall|q: Seq<PathStep>|
        #[trigger] edge_path(input, q) ==> path_price(m, t, path, path.len() as int) <= path_price(
            m,
            t,
            q,
            q.len() as int,
        )
}

pub proof fn lemma_edge_ok(input: Seq<u8>, p: int, st: PathStep)
    requires
        edge(input, p, st),
    ensures
        substream::step_ok(input, p, st),
        1 <= substream::step_len(st),
        p + substream::step_len(st) <= input.len(),
{
    if let PathStep::Match { offs, len } = st {
        submatch::lemma_mlen(input, p, offs as int, 0);
        let l = submatch::mlen(input, p, offs as int);
        assert forall|k: int| 0 <= k < len implies #[trigger] input[p + k] == input[p + k - offs] by {
            assert(k < l);
        }
    }
}

pub proof fn lemma_edge_path_ok(input: Seq<u8>, path: Seq<PathStep>)
    requires
        edge_path(input, path),
    ensures
        substream::path_ok(input, path),
{
    assert forall|k: int| 0 <= k < path.len() implies #[trigger] substream::step_ok(
        input,
        substream::path_pos(path, k),
        path[k],
    ) by {
        lemma_edge_ok(input, substream::path_pos(path, k), path[k]);
    }
}

// ---------------------------------------------------------------------------
// Search
// ---------------------------------------------------------------------------
const FAR: i64 = 0x7fff_ffff_ffff_ffff;

struct Dp {
    dist: Vec<i64>,
    prev: Vec<usize>,
    step: Vec<PathStep>,
}

/// The distances, and where and how the best way to every place comes from.
struct Ways {
    dist: Seq<i64>,
    prev: Seq<usize>,
    step: Seq<PathStep>,
}

impl Dp {
    spec fn ways(&self) -> Ways {
        Ways { dist: self.dist@, prev: self.prev@, step: self.step@ }
    }
}

/// Of two tokens of one price between the same places the first is taken: a match
/// before a literal byte, and of two matches the nearer.
pub open spec fn no_later(a: PathStep, b: PathStep) -> bool {
    match b {
        PathStep::Literal => true,
        PathStep::Match { offs, .. } => match a {
            PathStep::Literal => false,
            PathStep::Match { offs: near, .. } => near <= offs,
        },
    }
}

/// Going on from `u` with `st` does not get anywhere cheaper, nor as cheap from an
/// earlier place or by a token that is taken first.
spec fn relaxed(d: Ways, m: CostModel, t: Tables, u: int, st: PathStep) -> bool {
    let v = u + substream::step_len(st);
    let c = d.dist[u] + step_price(m, t, st);
    ||| d.dist[v] < c
    ||| d.dist[v] == c && (d.prev[v] < u || d.prev[v] == u && no_later(d.step[v], st))
}

/// No literal byte from `cur` is on a best way yet.
spec fn no_literal(d: Ways, cur: int) -> bool {
    forall|v: int|
        1 <= v < d.dist.len() && #[trigger] d.dist[v] != FAR && d.prev[v] == cur ==> d.step[v] is Match
}

/// The best way to `v` so far ends with an edge.
spec fn reached(input: Seq<u8>, m: CostModel, t: Tables, dp: Dp, cur: int, v: int) -> bool {
    let u = dp.prev@[v] as int;
    let st = dp.step@[v];
    &&& u <= cur && u < v
    &&& dp.dist@[u] != FAR
    &&& edge(input, u, st)
    &&& u + substream::step_len(st) == v
    &&& dp.dist@[v] == dp.dist@[u] + step_price(m, t, st)
}

spec fn dp_ok(input: Seq<u8>, m: CostModel, t: Tables, dp: Dp, cur: int) -> bool {
    &&& dp.dist@.len() == input.len() + 1
    &&& dp.prev@.len() == input.len() + 1
    &&& dp.step@.len() == input.len() + 1
    &&& dp.dist@[0] == 0
    &&& forall|v: int| 0 <= v <= input.len() ==> 0 <= #[trigger] dp.dist@[v] <= FAR
    &&& forall|v: int|
        1 <= v <= input.len() && #[trigger] dp.dist@[v] != FAR ==> reached(input, m, t, dp, cur, v)
    &&& forall|v: int| 0 <= v <= cur ==> #[trigger] dp.dist@[v] <= 9 * v
}

/// Every edge from before `cur` has been tried.
spec fn closed(input: Seq<u8>, m: CostModel, t: Tables, d: Ways, cur: int) -> bool {
    forall|u: int, st: PathStep|
        0 <= u < cur && #[trigger] edge(input, u, st) ==> relaxed(d, m, t, u, st)
}

/// Distances only fall, and only beyond `cur`; where one stays, the best way comes
/// from the same place, by a token that is taken no later.
spec fn falls(d: Ways, e: Ways, cur: int) -> bool {
    &&& d.dist.len() == e.dist.len()
    &&& forall|v: int| 0 <= v < d.dist.len() ==> #[trigger] e.dist[v] <= d.dist[v]
    &&& forall|v: int| 0 <= v <= cur && v < d.dist.len() ==> #[trigger] e.dist[v] == d.dist[v]
    &&& forall|v: int|
        0 <= v < d.dist.len() && #[trigger] e.dist[v] == d.dist[v] ==> e.prev[v] == d.prev[v]
            && no_later(e.step[v], d.step[v])
}

/// What was tried stays tried.
proof fn lemma_still(d: Ways, e: Ways, m: CostModel, t: Tables, cur: int, u: int, st: PathStep)
    requires
        falls(d, e, cur),
        relaxed(d, m, t, u, st),
        0 <= u <= cur,
        u < d.dist.len(),
        0 <= u + substream::step_len(st) < d.dist.len(),
    ensures
        relaxed(e, m, t, u, st),
{
    let v = u + substream::step_len(st);
    assert(e.dist[u] == d.dist[u]);
    assert(e.dist[v] <= d.dist[v]);
}

proof fn lemma_falls_on(a: Ways, b: Ways, c: Ways, cur: int)
    requires
        falls(a, b, cur),
        falls(b, c, cur),
    ensures
        falls(a, c, cur),
{
    assert forall|v: int| 0 <= v < a.dist.len() implies #[trigger] c.dist[v] <= a.dist[v] by {
        assert(b.dist[v] <= a.dist[v]);
    }
    assert forall|v: int| 0 <= v <= cur && v < a.dist.len() implies #[trigger] c.dist[v]
        == a.dist[v] by {
        assert(b.dist[v] == a.dist[v]);
    }
    assert forall|v: int| 0 <= v < a.dist.len() && #[trigger] c.dist[v] == a.dist[v] implies c.prev[v]
        == a.prev[v] && no_later(c.step[v], a.step[v]) by {
        assert(b.dist[v] <= a.dist[v]);
    }
}

proof fn lemma_closed_falls(
    input: Seq<u8>,
    m: CostModel,
    t: Tables,
    d: Ways,
    e: Ways,
    cur: int,
)
    requires
        closed(input, m, t, d, cur),
        falls(d, e, cur),
        d.dist.len() == input.len() + 1,
    ensures
        closed(input, m, t, e, cur),
{
    assert forall|u: int, st: PathStep| 0 <= u < cur && #[trigger] edge(input, u, st) implies relaxed(
        e,
        m,
        t,
        u,
        st,
    ) by {
        lemma_edge_ok(input, u, st);
        assert(relaxed(d, m, t, u, st));
        lemma_still(d, e, m, t, cur, u, st);
    }
}

impl Dp {
    /// Tries one edge. Among edges of one price from the same place, the one
    /// with the smallest offset stays.
    fn relax(
        &mut self,
        cur: usize,
        st: PathStep,
        len: usize,
        w: i64,
        Ghost(input): Ghost<Seq<u8>>,
        Ghost(m): Ghost<CostModel>,
        Ghost(t): Ghost<Tables>,
    )
        requires
            dp_ok(input, m, t, *old(self), cur as int),
            input.len() <= MAX_INPUT,
            cur < input.len(),
            edge(input, cur as int, st),
            len == substream::step_len(st),
            w == step_price(m, t, st),
            0 <= w <= 1 + 2 * ENC_FAULT,
            no_literal(old(self).ways(), cur as int),
        ensures
            st is Match ==> no_literal(final(self).ways(), cur as int),
            dp_ok(input, m, t, *final(self), cur as int),
            falls(old(self).ways(), final(self).ways(), cur as int),
            relaxed(final(self).ways(), m, t, cur as int, st),
    {
        proof {
            lemma_edge_ok(input, cur as int, st);
            assert(self.dist@[cur as int] <= 9 * cur);
        }
        let v: usize = cur + len;
        assert(self.dist@[v as int] != FAR ==> reached(input, m, t, *self, cur as int, v as int));
        let d: i64 = self.dist[cur] + w;
        let old_d: i64 = self.dist[v];
        let mut better: bool = d < old_d;
        if d == old_d && self.prev[v] == cur {
            match (st, self.step[v]) {
                (PathStep::Match { offs, .. }, PathStep::Match { offs: was, .. }) => {
                    better = offs < was;
                },
                _ => {},
            }
        }
        if better {
            let ghost before = *self;
            self.dist.set(v, d);
            self.prev.set(v, cur);
            self.step.set(v, st);
            assert forall|x: int|
                1 <= x <= input.len() && #[trigger] self.dist@[x] != FAR implies reached(
                input,
                m,
                t,
                *self,
                cur as int,
                x,
            ) by {
                if x != v {
                    assert(before.dist@[x] == self.dist@[x]);
                    assert(reached(input, m, t, before, cur as int, x));
                }
            }
            proof {
                if st is Match {
                    assert forall|x: int|
                        1 <= x < self.ways().dist.len() && #[trigger] self.ways().dist[x] != FAR
                            && self.ways().prev[x] == cur implies self.ways().step[x] is Match by {
                        if x != v {
                            assert(before.ways().dist[x] == self.ways().dist[x]);
                        }
                    }
                }
            }
        }
    }

    /// Tries a match at its full length and up to three bytes shorter.
    fn relax_match(
        &mut self,
        cur: usize,
        offs: usize,
        full: usize,
        pr: &Prices,
        Ghost(input): Ghost<Seq<u8>>,
        Ghost(m): Ghost<CostModel>,
        Ghost(t): Ghost<Tables>,
        Ghost(maxo): Ghost<int>,
    )
        requires
            dp_ok(input, m, t, *old(self), cur as int),
            input.len() <= MAX_INPUT,
            cur < input.len(),
            submatch::cand(input, cur as int, offs as int),
            full == submatch::mlen(input, cur as int, offs as int),
            pr.ok(m, t, maxo),
            offs <= maxo <= MAX_OFFS,
            no_literal(old(self).ways(), cur as int),
        ensures
            no_literal(final(self).ways(), cur as int),
            dp_ok(input, m, t, *final(self), cur as int),
            falls(old(self).ways(), final(self).ways(), cur as int),
            forall|l: int|
                1 <= l && full - 3 <= l <= full ==> #[trigger] relaxed(
                    final(self).ways(),
                    m,
                    t,
                    cur as int,
                    match_step(offs as int, l),
                ),
    {
        let ghost d0 = self.ways();
        proof {
            submatch::lemma_mlen(input, cur as int, offs as int, 0);
        }
        let mut l: usize = full;
        let mut c: usize = 4;
        while c > 0 && l >= 1
            invariant
                dp_ok(input, m, t, *self, cur as int),
                input.len() <= MAX_INPUT,
                cur < input.len(),
                submatch::cand(input, cur as int, offs as int),
                full == submatch::mlen(input, cur as int, offs as int),
                full <= 256,
                pr.ok(m, t, maxo),
                1 <= offs <= maxo,
                maxo <= MAX_OFFS,
                c <= 4,
                l + (4 - c) == full,
                falls(d0, self.ways(), cur as int),
                no_literal(self.ways(), cur as int),
                d0.dist.len() == input.len() + 1,
                forall|x: int|
                    1 <= x && l < x <= full ==> #[trigger] relaxed(
                        self.ways(),
                        m,
                        t,
                        cur as int,
                        match_step(offs as int, x),
                    ),
            decreases l,
        {
            let ghost d1 = self.ways();
            let w: i64 = pr.weight(offs, l, Ghost(m), Ghost(t), Ghost(maxo));
            let st: PathStep = PathStep::Match { offs: offs as u32, len: l as u32 };
            self.relax(cur, st, l, w, Ghost(input), Ghost(m), Ghost(t));
            proof {
                lemma_falls_on(d0, d1, self.ways(), cur as int);
                assert(st == match_step(offs as int, l as int));
                assert forall|x: int| 1 <= x && l <= x <= full implies #[trigger] relaxed(
                    self.ways(),
                    m,
                    t,
                    cur as int,
                    match_step(offs as int, x),
                ) by {
                    if x > l {
                        assert(relaxed(d1, m, t, cur as int, match_step(offs as int, x)));
                        lemma_edge_ok(input, cur as int, match_step(offs as int, full as int));
                        lemma_still(
                            d1,
                            self.ways(),
                            m,
                            t,
                            cur as int,
                            cur as int,
                            match_step(offs as int, x),
                        );
                    }
                }
            }
            l -= 1;
            c -= 1;
        }
    }
}

/// How many of the first `r` entries of an ascending list are at most `x`.
fn count_upto(list: &Vec<u32>, r: usize, x: u32) -> (c: usize)
    requires
        r <= list@.len(),
        forall|i: int, j: int|
            #![trigger list@[i], list@[j]]
            0 <= i < j < list@.len() ==> list@[i] < list@[j],
    ensures
        c <= r,
        forall|j: int| 0 <= j < c ==> #[trigger] list@[j] <= x,
        forall|j: int| c <= j < r ==> #[trigger] list@[j] > x,
{
    let mut lo: usize = 0;
    let mut hi: usize = r;
    while lo < hi
        invariant
            lo <= hi <= r,
            r <= list@.len(),
            forall|i: int, j: int|
                #![trigger list@[i], list@[j]]
                0 <= i < j < list@.len() ==> list@[i] < list@[j],
            forall|j: int| 0 <= j < lo ==> #[trigger] list@[j] <= x,
            forall|j: int| hi <= j < r ==> #[trigger] list@[j] > x,
        decreases hi - lo,
    {
        let mid: usize = lo + (hi - lo) / 2;
        if list[mid] <= x {
            lo = mid + 1;
        } else {
            hi = mid;
        }
    }
    lo
}

/// The edges of the members of a group before `cur` whose offset is below `end`
/// have been tried.
spec fn group_done(
    input: Seq<u8>,
    m: CostModel,
    t: Tables,
    d: Ways,
    g: Groups,
    cur: int,
    end: int,
) -> bool {
    forall|q: int, l: int|
        #![trigger g.id@[q], match_step(cur - q, l)]
        0 <= q < cur && g.id@[q] == g.id@[cur] && cur - q < end && 253 <= l <= 256 ==> relaxed(
            d,
            m,
            t,
            cur,
            match_step(cur - q, l),
        )
}

impl Dp {
    /// Tries the matches of full length: where offsets have one price, the
    /// smallest of them stands for all.
    #[verifier::rlimit(60)]
    fn relax_group(
        &mut self,
        cur: usize,
        maxo: usize,
        g: &Groups,
        pr: &Prices,
        Ghost(input): Ghost<Seq<u8>>,
        Ghost(m): Ghost<CostModel>,
        Ghost(t): Ghost<Tables>,
    )
        requires
            dp_ok(input, m, t, *old(self), cur as int),
            input.len() <= MAX_INPUT,
            submatch::groups_ok(input, *g),
            cur < g.id@.len(),
            !submatch::held(input, cur as int),
            pr.ok(m, t, maxo as int),
            maxo <= MAX_OFFS,
            maxo >= 1,
            no_literal(old(self).ways(), cur as int),
        ensures
            no_literal(final(self).ways(), cur as int),
            dp_ok(input, m, t, *final(self), cur as int),
            falls(old(self).ways(), final(self).ways(), cur as int),
            group_done(input, m, t, final(self).ways(), *g, cur as int, maxo + 1),
    {
        let ghost d0 = self.ways();
        let ghost ci = cur as int;
        let list: &Vec<u32> = &g.lists[g.id[cur] as usize];
        let r: usize = g.rank[cur] as usize;
        let ghost gid = g.id@[ci] as int;
        assert(list@ == g.lists@[gid]@);
        assert(list@[r as int] == cur);
        let n: usize = pr.steps.len();
        let mut s: usize = 0;
        while s < n
            invariant
                n == pr.steps@.len(),
                s <= n,
                dp_ok(input, m, t, *self, ci),
                input.len() <= MAX_INPUT,
                submatch::groups_ok(input, *g),
                ci == cur,
                cur < g.id@.len(),
                !submatch::held(input, ci),
                pr.ok(m, t, maxo as int),
                1 <= maxo <= MAX_OFFS,
                gid == g.id@[ci],
                list@ == g.lists@[gid]@,
                r == g.rank@[ci],
                r < list@.len(),
                list@[r as int] == cur,
                falls(d0, self.ways(), ci),
                no_literal(self.ways(), ci),
                d0.dist.len() == input.len() + 1,
                group_done(
                    input,
                    m,
                    t,
                    self.ways(),
                    *g,
                    ci,
                    if s < n {
                        pr.steps@[s as int] as int
                    } else {
                        maxo + 1
                    },
                ),
            decreases n - s,
        {
            let a: usize = pr.steps[s];
            let end: usize = if s + 1 < n {
                pr.steps[s + 1]
            } else {
                maxo + 1
            };
            let ghost d1 = self.ways();
            assert(end == step_end(pr.steps@, s as int, maxo as int));
            let mut found: usize = 0;
            if a <= cur {
                let x: u32 = (cur - a) as u32;
                let c: usize = count_upto(list, r, x);
                if c > 0 {
                    let q: usize = list[c - 1] as usize;
                    proof {
                        assert(g.lists@[gid]@[c - 1] == q);
                        assert(g.id@[q as int] == gid);
                    }
                    let o: usize = cur - q;
                    if o < end {
                        found = o;
                        proof {
                            submatch::lemma_grouped(input, *g, ci, q as int);
                        }
                        self.relax_match(
                            cur,
                            o,
                            256,
                            pr,
                            Ghost(input),
                            Ghost(m),
                            Ghost(t),
                            Ghost(maxo as int),
                        );
                    }
                }
                proof {
                    lemma_falls_on(d0, d1, self.ways(), ci);
                    lemma_group_step(
                        input,
                        m,
                        t,
                        *g,
                        *pr,
                        d1,
                        self.ways(),
                        ci,
                        maxo as int,
                        s as int,
                        c as int,
                        found as int,
                    );
                }
            } else {
                proof {
                    lemma_group_past(input, m, t, *g, self.ways(), ci, a as int, end as int);
                }
            }
            s += 1;
        }
    }
}

/// Offsets beyond the start of the input belong to no member.
proof fn lemma_group_past(
    input: Seq<u8>,
    m: CostModel,
    t: Tables,
    g: Groups,
    d: Ways,
    cur: int,
    a: int,
    end: int,
)
    requires
        group_done(input, m, t, d, g, cur, a),
        a > cur,
    ensures
        group_done(input, m, t, d, g, cur, end),
{
    assert forall|q: int, l: int|
        #![trigger g.id@[q], match_step(cur - q, l)]
        0 <= q < cur && g.id@[q] == g.id@[cur] && cur - q < end && 253 <= l <= 256 implies relaxed(
        d,
        m,
        t,
        cur,
        match_step(cur - q, l),
    ) by {
        assert(cur - q < a);
    }
}

/// After the smallest offset of a step was tried, all of the step are done.
proof fn lemma_group_step(
    input: Seq<u8>,
    m: CostModel,
    t: Tables,
    g: Groups,
    pr: Prices,
    d: Ways,
    e: Ways,
    cur: int,
    maxo: int,
    s: int,
    c: int,
    found: int,
)
    requires
        submatch::groups_ok(input, g),
        0 <= cur < g.id@.len(),
        pr.ok(m, t, maxo),
        maxo <= MAX_OFFS,
        0 <= s < pr.steps@.len(),
        pr.steps@[s] <= cur,
        d.dist.len() == input.len() + 1,
        falls(d, e, cur),
        group_done(input, m, t, d, g, cur, pr.steps@[s] as int),
        0 <= c <= g.rank@[cur],
        ({
            let list = g.lists@[g.id@[cur] as int]@;
            let x = cur - pr.steps@[s];
            &&& forall|j: int| 0 <= j < c ==> #[trigger] list[j] <= x
            &&& forall|j: int| c <= j < g.rank@[cur] ==> #[trigger] list[j] > x
            &&& c == 0 ==> found == 0
            &&& c > 0 ==> {
                let o = cur - list[c - 1];
                if o < step_end(pr.steps@, s, maxo) {
                    found == o && forall|l: int|
                        253 <= l <= 256 ==> #[trigger] relaxed(e, m, t, cur, match_step(o, l))
                } else {
                    found == 0
                }
            }
        }),
    ensures
        group_done(input, m, t, e, g, cur, step_end(pr.steps@, s, maxo)),
{
    let list = g.lists@[g.id@[cur] as int]@;
    let a = pr.steps@[s] as int;
    let end = step_end(pr.steps@, s, maxo);
    assert forall|q: int, l: int|
        #![trigger g.id@[q], match_step(cur - q, l)]
        0 <= q < cur && g.id@[q] == g.id@[cur] && cur - q < end && 253 <= l <= 256 implies relaxed(
        e,
        m,
        t,
        cur,
        match_step(cur - q, l),
    ) by {
        assert(cur + l <= input.len());
        if cur - q < a {
            assert(relaxed(d, m, t, cur, match_step(cur - q, l)));
            lemma_still(d, e, m, t, cur, cur, match_step(cur - q, l));
        } else {
            let k = g.rank@[q] as int;
            assert(list[k] == q);
            let r = g.rank@[cur] as int;
            assert(list[r] == cur);
            if k >= r {
                if k > r {
                    assert(list[r] < list[k]);
                }
                assert(false);
            }
            assert(k < c);
            let o = cur - list[c - 1];
            if k < c - 1 {
                assert(list[k] < list[c - 1]);
            }
            assert(a <= o <= cur - q);
            assert(relaxed(e, m, t, cur, match_step(o, l)));
            assert(pr.offs@[o] == pr.offs@[a]);
            assert(pr.offs@[cur - q] == pr.offs@[a]);
            assert(offs_price(m, t, o, l) == offs_price(m, t, o, 4));
            assert(offs_price(m, t, cur - q, l) == offs_price(m, t, cur - q, 4));
        }
    }
}

/// Whether `p` is deep inside a run.
pub fn is_held(input: &[u8], p: usize) -> (r: bool)
    requires
        p < input@.len(),
    ensures
        r == submatch::held(input@, p as int),
{
    let n: usize = input.len();
    if p < submatch::RUN_HOLDOFF || p + 1 >= n || input[p + 1] != input[p] {
        return false;
    }
    let mut k: usize = 1;
    while k <= submatch::RUN_HOLDOFF
        invariant
            n == input@.len(),
            submatch::RUN_HOLDOFF <= p,
            p < n,
            1 <= k <= submatch::RUN_HOLDOFF + 1,
            forall|j: int| 1 <= j < k ==> #[trigger] input@[p - j] == input@[p as int],
        decreases submatch::RUN_HOLDOFF + 1 - k,
    {
        if input[p - k] != input[p] {
            assert(input@[p - k as int] != input@[p as int]);
            return false;
        }
        k += 1;
    }
    true
}

/// The edges of the entries `a` to `b` have been tried.
spec fn list_done(m: CostModel, t: Tables, d: Ways, cands: Seq<submatch::Cand>, cur: int, a: int, b: int) -> bool {
    forall|k: int, l: int|
        #![trigger cands[k], match_step(cands[k].offs as int, l)]
        a <= k < b && 1 <= l && cands[k].len - 3 <= l <= cands[k].len ==> relaxed(
            d,
            m,
            t,
            cur,
            match_step(cands[k].offs as int, l),
        )
}

/// Tries the listed matches at `cur`.
fn relax_list(dp: &mut Dp, input: &[u8], mt: &MatchTree, cur: usize, maxo: usize, pr: &Prices, Ghost(m): Ghost<CostModel>, Ghost(t): Ghost<Tables>)
    requires
        submatch::tree_ok(input@, *mt),
        cur < input@.len(),
        dp_ok(input@, m, t, *old(dp), cur as int),
        pr.ok(m, t, maxo as int),
        maxo <= MAX_OFFS,
        maxo == MAX_OFFS || maxo == input@.len(),
        no_literal(old(dp).ways(), cur as int),
    ensures
        no_literal(final(dp).ways(), cur as int),
        dp_ok(input@, m, t, *final(dp), cur as int),
        falls(old(dp).ways(), final(dp).ways(), cur as int),
        list_done(
            m,
            t,
            final(dp).ways(),
            mt.cands@,
            cur as int,
            mt.starts@[cur as int] as int,
            mt.starts@[cur + 1] as int,
        ),
{
    let ghost inp = input@;
    let ghost ci = cur as int;
    let ghost d0 = dp.ways();
    let n: usize = input.len();
    let a: usize = mt.starts[cur];
    let b: usize = mt.starts[cur + 1];
    assert(submatch::tree_at(inp, mt.groups, mt.cands@, mt.starts@, ci));
    let mut j: usize = a;
    while j < b
        invariant
            inp == input@,
            ci == cur,
            inp.len() <= MAX_INPUT,
            cur < inp.len(),
            a <= j <= b <= mt.cands@.len(),
            submatch::cands_at(inp, mt.groups, mt.cands@, ci, a as int, b as int),
            dp_ok(inp, m, t, *dp, ci),
            falls(d0, dp.ways(), ci),
            no_literal(dp.ways(), ci),
            d0.dist.len() == inp.len() + 1,
            pr.ok(m, t, maxo as int),
            maxo <= MAX_OFFS,
            maxo == MAX_OFFS || maxo == inp.len(),
            list_done(m, t, dp.ways(), mt.cands@, ci, a as int, j as int),
        decreases b - j,
    {
        let c: submatch::Cand = mt.cands[j];
        let ghost d1 = dp.ways();
        assert(submatch::cand(inp, ci, mt.cands@[j as int].offs as int));
        dp.relax_match(
            cur,
            c.offs as usize,
            c.len as usize,
            pr,
            Ghost(inp),
            Ghost(m),
            Ghost(t),
            Ghost(maxo as int),
        );
        j += 1;
        proof {
            lemma_falls_on(d0, d1, dp.ways(), ci);
        }
        assert forall|k: int, l: int|
            #![trigger mt.cands@[k], match_step(mt.cands@[k].offs as int, l)]
            a <= k < j && 1 <= l && mt.cands@[k].len - 3 <= l <= mt.cands@[k].len implies relaxed(
            dp.ways(),
            m,
            t,
            ci,
            match_step(mt.cands@[k].offs as int, l),
        ) by {
            let st = match_step(mt.cands@[k].offs as int, l);
            if k < j - 1 {
                assert(relaxed(d1, m, t, ci, st));
                assert(submatch::cand(inp, ci, mt.cands@[k].offs as int));
                submatch::lemma_mlen(inp, ci, mt.cands@[k].offs as int, 0);
                lemma_still(d1, dp.ways(), m, t, ci, ci, st);
            }
        }
    }
}

/// The list, the group and the literal byte are all the edges from `cur`.
proof fn lemma_all_tried(
    input: Seq<u8>,
    mt: MatchTree,
    m: CostModel,
    t: Tables,
    cur: int,
    maxo: int,
    d2: Ways,
    d3: Ways,
    d4: Ways,
    st: PathStep,
)
    requires
        submatch::tree_ok(input, mt),
        0 <= cur < input.len(),
        maxo == MAX_OFFS || maxo == input.len(),
        d2.dist.len() == input.len() + 1,
        falls(d2, d3, cur),
        falls(d3, d4, cur),
        list_done(
            m,
            t,
            d2,
            mt.cands@,
            cur,
            mt.starts@[cur] as int,
            mt.starts@[cur + 1] as int,
        ),
        cur < mt.groups.id@.len() && !submatch::held(input, cur) ==> group_done(
            input,
            m,
            t,
            d3,
            mt.groups,
            cur,
            maxo + 1,
        ),
        relaxed(d4, m, t, cur, PathStep::Literal),
        edge(input, cur, st),
    ensures
        relaxed(d4, m, t, cur, st),
{
    let a = mt.starts@[cur] as int;
    let b = mt.starts@[cur + 1] as int;
    assert(submatch::tree_at(input, mt.groups, mt.cands@, mt.starts@, cur));
    lemma_edge_ok(input, cur, st);
    if let PathStep::Match { offs, len } = st {
        let o = offs as int;
        let l = len as int;
        assert(st == match_step(o, l));
        submatch::lemma_mlen(input, cur, o, 0);
        if submatch::grouped(input, mt.groups, cur, o) {
            submatch::lemma_grouped(input, mt.groups, cur, cur - o);
            assert(mt.groups.id@[cur - o] == mt.groups.id@[cur]);
            assert(relaxed(d3, m, t, cur, match_step(cur - (cur - o), l)));
        } else {
            assert(submatch::listed(mt.cands@, a, b, o));
            let k = choose|k: int| a <= k < b && (#[trigger] mt.cands@[k]).offs == o;
            assert(relaxed(d2, m, t, cur, match_step(mt.cands@[k].offs as int, l)));
            lemma_still(d2, d3, m, t, cur, cur, st);
        }
        lemma_still(d3, d4, m, t, cur, cur, st);
    }
}

/// No best way comes from `cur` or beyond yet.
spec fn none_from(d: Ways, cur: int) -> bool {
    forall|v: int|
        1 <= v < d.dist.len() && #[trigger] d.dist[v] != FAR ==> d.prev[v] < cur
}

/// Tries every edge from `cur`.
fn relax_all(dp: &mut Dp, input: &[u8], mt: &MatchTree, cur: usize, maxo: usize, pr: &Prices, Ghost(m): Ghost<CostModel>, Ghost(t): Ghost<Tables>)
    requires
        submatch::tree_ok(input@, *mt),
        cur < input@.len(),
        dp_ok(input@, m, t, *old(dp), cur as int),
        closed(input@, m, t, old(dp).ways(), cur as int),
        pr.ok(m, t, maxo as int),
        1 <= maxo <= MAX_OFFS,
        maxo == MAX_OFFS || maxo == input@.len(),
        none_from(old(dp).ways(), cur as int),
    ensures
        none_from(final(dp).ways(), cur + 1),
        dp_ok(input@, m, t, *final(dp), cur + 1),
        closed(input@, m, t, final(dp).ways(), cur + 1),
{
    let ghost d0 = dp.ways();
    relax_list(dp, input, mt, cur, maxo, pr, Ghost(m), Ghost(t));
    let ghost d2 = dp.ways();
    if cur < mt.groups.id.len() {
        if !is_held(input, cur) {
            dp.relax_group(cur, maxo, &mt.groups, pr, Ghost(input@), Ghost(m), Ghost(t));
        }
    }
    let ghost d3 = dp.ways();
    dp.relax(cur, PathStep::Literal, 1, 9, Ghost(input@), Ghost(m), Ghost(t));
    proof {
        assert forall|v: int|
            1 <= v < dp.dist@.len() && #[trigger] dp.ways().dist[v] != FAR implies dp.ways().prev[v]
            < cur + 1 by {
            assert(reached(input@, m, t, *dp, cur as int, v));
        }
        lemma_next(input@, *mt, m, t, *dp, cur as int, maxo as int, d0, d2, d3);
    }
}

proof fn lemma_next(
    input: Seq<u8>,
    mt: MatchTree,
    m: CostModel,
    t: Tables,
    dp: Dp,
    cur: int,
    maxo: int,
    d0: Ways,
    d2: Ways,
    d3: Ways,
)
    requires
        submatch::tree_ok(input, mt),
        0 <= cur < input.len(),
        maxo == MAX_OFFS || maxo == input.len(),
        dp_ok(input, m, t, dp, cur),
        closed(input, m, t, d0, cur),
        falls(d0, d2, cur),
        falls(d2, d3, cur),
        falls(d3, dp.ways(), cur),
        list_done(
            m,
            t,
            d2,
            mt.cands@,
            cur,
            mt.starts@[cur] as int,
            mt.starts@[cur + 1] as int,
        ),
        cur < mt.groups.id@.len() && !submatch::held(input, cur) ==> group_done(
            input,
            m,
            t,
            d3,
            mt.groups,
            cur,
            maxo + 1,
        ),
        relaxed(dp.ways(), m, t, cur, PathStep::Literal),
    ensures
        dp_ok(input, m, t, dp, cur + 1),
        closed(input, m, t, dp.ways(), cur + 1),
{
    let d4 = dp.ways();
    lemma_falls_on(d0, d2, d3, cur);
    lemma_falls_on(d0, d3, d4, cur);
    lemma_closed_falls(input, m, t, d0, d4, cur);
    assert forall|u: int, st: PathStep|
        0 <= u < cur + 1 && #[trigger] edge(input, u, st) implies relaxed(d4, m, t, u, st) by {
        if u == cur {
            lemma_all_tried(input, mt, m, t, cur, maxo, d2, d3, d4, st);
        }
    }
    assert(d4.dist[cur] <= 9 * cur);
    assert forall|v: int|
        1 <= v <= input.len() && #[trigger] dp.dist@[v] != FAR implies reached(
        input,
        m,
        t,
        dp,
        cur + 1,
        v,
    ) by {
        assert(reached(input, m, t, dp, cur, v));
    }
}

/// Along any path the distance is at most its price.
proof fn lemma_shortest(
    input: Seq<u8>,
    m: CostModel,
    t: Tables,
    d: Ways,
    q: Seq<PathStep>,
    k: int,
)
    requires
        closed(input, m, t, d, input.len() as int),
        d.dist.len() == input.len() + 1,
        d.dist[0] == 0,
        edge_path(input, q),
        0 <= k <= q.len(),
    ensures
        0 <= substream::path_pos(q, k) <= input.len(),
        d.dist[substream::path_pos(q, k)] <= path_price(m, t, q, k),
    decreases k,
{
    if k > 0 {
        lemma_shortest(input, m, t, d, q, k - 1);
        let u = substream::path_pos(q, k - 1);
        assert(edge(input, u, q[k - 1]));
        lemma_edge_ok(input, u, q[k - 1]);
        assert(relaxed(d, m, t, u, q[k - 1]));
    }
}

/// A path with one token more in front.
proof fn lemma_in_front(m: CostModel, t: Tables, x: PathStep, s: Seq<PathStep>, k: int)
    requires
        0 <= k <= s.len(),
    ensures
        substream::path_pos(seq![x] + s, k + 1) == substream::step_len(x) + substream::path_pos(
            s,
            k,
        ),
        path_price(m, t, seq![x] + s, k + 1) == step_price(m, t, x) + path_price(m, t, s, k),
    decreases k,
{
    let q = seq![x] + s;
    if k > 0 {
        lemma_in_front(m, t, x, s, k - 1);
        assert(q[k] == s[k - 1]);
    } else {
        assert(q[0] == x);
        reveal_with_fuel(substream::path_pos, 2);
        reveal_with_fuel(path_price, 2);
    }
}

/// The tokens from `v` to the end.
spec fn tail_ok(input: Seq<u8>, v: int, s: Seq<PathStep>) -> bool {
    &&& v + substream::path_pos(s, s.len() as int) == input.len()
    &&& forall|k: int|
        0 <= k < s.len() ==> #[trigger] edge(input, v + substream::path_pos(s, k), s[k])
}

proof fn lemma_tail(input: Seq<u8>, m: CostModel, t: Tables, u: int, x: PathStep, s: Seq<PathStep>)
    requires
        edge(input, u, x),
        tail_ok(input, u + substream::step_len(x), s),
    ensures
        tail_ok(input, u, seq![x] + s),
        path_price(m, t, seq![x] + s, s.len() as int + 1) == step_price(m, t, x) + path_price(
            m,
            t,
            s,
            s.len() as int,
        ),
{
    let q = seq![x] + s;
    lemma_in_front(m, t, x, s, s.len() as int);
    assert forall|k: int| 0 <= k < q.len() implies #[trigger] edge(
        input,
        u + substream::path_pos(q, k),
        q[k],
    ) by {
        if k > 0 {
            lemma_in_front(m, t, x, s, k - 1);
            assert(q[k] == s[k - 1]);
            assert(edge(
                input,
                u + substream::step_len(x) + substream::path_pos(s, k - 1),
                s[k - 1],
            ));
        }
    }
}

/// The distances at the end are the prices of the cheapest ways, and the ways are
/// those that are taken.
proof fn lemma_least_prices(input: Seq<u8>, m: CostModel, t: Tables, dp: Dp, dist: Seq<int>)
    requires
        dp_ok(input, m, t, dp, input.len() as int),
        closed(input, m, t, dp.ways(), input.len() as int),
        input.len() <= MAX_INPUT,
        dist == Seq::new((input.len() + 1) as nat, |v: int| dp.dist@[v] as int),
    ensures
        least_prices(input, m, t, dist),
        forall|v: int|
            1 <= v <= input.len() ==> taken_at(
                input,
                m,
                t,
                dist,
                dp.prev@[v] as int,
                #[trigger] dp.step@[v],
            ),
{
    let n = input.len() as int;
    assert forall|u: int, st: PathStep| #[trigger] edge(input, u, st) implies dist[u
        + substream::step_len(st)] <= dist[u] + step_price(m, t, st) by {
        lemma_edge_ok(input, u, st);
        assert(0 <= u) by {
            if let PathStep::Match { offs, len } = st {
            }
        }
        assert(relaxed(dp.ways(), m, t, u, st));
    }
    assert forall|v: int| 1 <= v <= n implies taken_at(
        input,
        m,
        t,
        dist,
        dp.prev@[v] as int,
        #[trigger] dp.step@[v],
    ) by {
        assert(dp.dist@[v] <= 9 * v);
        assert(reached(input, m, t, dp, n, v));
        let u = dp.prev@[v] as int;
        let st = dp.step@[v];
        assert forall|w: int, x: PathStep| #[trigger]
            on_best(input, m, t, dist, w, x) && w + substream::step_len(x) == u + substream::step_len(
                st,
            ) implies u < w || u == w && no_later(st, x) by {
            lemma_edge_ok(input, w, x);
            assert(relaxed(dp.ways(), m, t, w, x));
        }
    }
    assert forall|v: int| 1 <= v <= n implies #[trigger] attained(input, m, t, dist, v) by {
        assert(dp.dist@[v] <= 9 * v);
        assert(reached(input, m, t, dp, n, v));
        assert(on_best(input, m, t, dist, dp.prev@[v] as int, dp.step@[v]));
    }
}

/// The cheapest path through the input.
#[verifier::rlimit(100)]
#[verifier::spinoff_prover]
pub fn find_cheapest_path(input: &[u8], mt: &MatchTree, m: CostModel, es: &EncodingSet) -> (path: Vec<PathStep>)
    requires
        submatch::tree_ok(input@, *mt),
        model_ok(m, es@),
    ensures
        cheapest(input@, m, es@, path@),
{
    let n: usize = input.len();
    let ghost inp = input@;
    let ghost t = es@;
    let maxo: usize = if n < MAX_OFFS as usize {
        n
    } else {
        MAX_OFFS as usize
    };
    let pr: Prices = build_prices(m, es, maxo);
    let mut dp: Dp = Dp { dist: Vec::new(), prev: Vec::new(), step: Vec::new() };
    let mut i: usize = 0;
    while i <= n
        invariant
            n == inp.len(),
            n <= MAX_INPUT,
            i <= n + 1,
            dp.dist@.len() == i,
            dp.prev@.len() == i,
            dp.step@.len() == i,
            forall|v: int| 0 <= v < i ==> #[trigger] dp.dist@[v] == FAR,
        decreases n + 1 - i,
    {
        dp.dist.push(FAR);
        dp.prev.push(0);
        dp.step.push(PathStep::Literal);
        i += 1;
    }
    dp.dist.set(0, 0);
    let mut cur: usize = 0;
    while cur < n
        invariant
            inp == input@,
            n == inp.len(),
            cur <= n,
            submatch::tree_ok(inp, *mt),
            pr.ok(m, t, maxo as int),
            maxo == MAX_OFFS && maxo <= n || maxo == n && n <= MAX_OFFS,
            dp_ok(inp, m, t, dp, cur as int),
            closed(inp, m, t, dp.ways(), cur as int),
            none_from(dp.ways(), cur as int),
        decreases n - cur,
    {
        relax_all(&mut dp, input, mt, cur, maxo, &pr, Ghost(m), Ghost(t));
        cur += 1;
    }
    let mut rev: Vec<PathStep> = Vec::new();
    let mut v: usize = n;
    assert(rev@.reverse() =~= Seq::<PathStep>::empty());
    assert(dp.dist@[n as int] <= 9 * n);
    let ghost dist = Seq::new((n + 1) as nat, |v: int| dp.dist@[v] as int);
    proof {
        lemma_least_prices(inp, m, t, dp, dist);
    }
    while v > 0
        invariant
            inp == input@,
            n == inp.len(),
            n <= MAX_INPUT,
            v <= n,
            dp_ok(inp, m, t, dp, n as int),
            dp.dist@[v as int] != FAR,
            tail_ok(inp, v as int, rev@.reverse()),
            forall|u: int| 1 <= u <= n ==> taken_at(
                inp,
                m,
                t,
                dist,
                dp.prev@[u] as int,
                #[trigger] dp.step@[u],
            ),
            forall|k: int|
                0 <= k < rev@.len() ==> taken_at(
                    inp,
                    m,
                    t,
                    dist,
                    v + substream::path_pos(rev@.reverse(), k),
                    #[trigger] rev@.reverse()[k],
                ),
            dp.dist@[v as int] + path_price(m, t, rev@.reverse(), rev@.len() as int)
                == dp.dist@[n as int],
        decreases v,
    {
        let ghost s = rev@.reverse();
        assert(reached(inp, m, t, dp, n as int, v as int));
        let st: PathStep = dp.step[v];
        let u: usize = dp.prev[v];
        rev.push(st);
        proof {
            assert(rev@.reverse() =~= seq![st] + s);
            lemma_tail(inp, m, t, u as int, st, s);
            let r = rev@.reverse();
            assert forall|k: int| 0 <= k < r.len() implies taken_at(
                inp,
                m,
                t,
                dist,
                u + substream::path_pos(r, k),
                #[trigger] r[k],
            ) by {
                if k == 0 {
                    assert(taken_at(inp, m, t, dist, dp.prev@[v as int] as int, dp.step@[v as int]));
                } else {
                    lemma_in_front(m, t, st, s, k - 1);
                    assert(r[k] == s[k - 1]);
                    assert(taken_at(
                        inp,
                        m,
                        t,
                        dist,
                        v + substream::path_pos(s, k - 1),
                        s[k - 1],
                    ));
                }
            }
        }
        v = u;
    }
    let mut path: Vec<PathStep> = Vec::with_capacity(rev.len());
    let count: usize = rev.len();
    let mut k: usize = 0;
    while k < count
        invariant
            count == rev@.len(),
            k <= count,
            path@.len() == k,
            forall|j: int| 0 <= j < k ==> #[trigger] path@[j] == rev@[count - 1 - j],
        decreases count - k,
    {
        path.push(rev[count - 1 - k]);
        k += 1;
    }
    proof {
        assert(path@ =~= rev@.reverse());
        assert forall|k: int| 0 <= k < path@.len() implies taken_at(
            inp,
            m,
            t,
            dist,
            substream::path_pos(path@, k),
            #[trigger] path@[k],
        ) by {
            assert(taken_at(
                inp,
                m,
                t,
                dist,
                0 + substream::path_pos(rev@.reverse(), k),
                rev@.reverse()[k],
            ));
        }
        assert(all_taken(inp, m, t, dist, path@));
        assert forall|j: int| 0 <= j < path@.len() implies #[trigger] edge(
            inp,
            substream::path_pos(path@, j),
            path@[j],
        ) by {
            assert(edge(inp, 0 + substream::path_pos(path@, j), path@[j]));
        }
        assert forall|q: Seq<PathStep>| #[trigger] edge_path(inp, q) implies path_price(
            m,
            t,
            path@,
            path@.len() as int,
        ) <= path_price(m, t, q, q.len() as int) by {
            lemma_shortest(inp, m, t, dp.ways(), q, q.len() as int);
        }
    }
    path
}

} // verus!
