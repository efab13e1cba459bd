//! The matches that a Subsizer stream may use at each position. A position has
//! one match for every offset at which its byte occurs before, as long as it
//! can be, unless it is far and short. Deep inside a run of one byte only the
//! run itself is a match.
use crate::lz::match_run;
use crate::substream::{MAX_MATCH, MAX_OFFS};
use std::collections::HashMap;
use crate::lz;
use vstd::prelude::*;

verus! {

/// Longest input. The bits that are saved over all of it, added up for one length
/// or offset, stay in the range of the tallies.
pub const MAX_INPUT: usize = 0x0fff_ffff;

/// Matches of one byte reach back this far.
pub const NEAR_OFFS: usize = 32;

/// Matches of two bytes reach back this far.
pub const MID_OFFS: usize = 0x4000;

/// This many bytes into a run, only the run is a match.
pub const RUN_HOLDOFF: usize = 8;

// ---------------------------------------------------------------------------
// Which matches there are
// ---------------------------------------------------------------------------
pub open spec fn mlen_from(input: Seq<u8>, p: int, o: int, k: int) -> int
    decreases MAX_MATCH - k,
{
    if k >= MAX_MATCH || p + k >= input.len() || input[p + k] != input[p + k - o] {
        k
    } else {
        mlen_from(input, p, o, k + 1)
    }
}

/// Bytes at `p` that repeat what stands `o` before them, at most 256.
pub open spec fn mlen(input: Seq<u8>, p: int, o: int) -> int {
    mlen_from(input, p, o, 0)
}

/// `p` is deep inside a run and not at its end.
pub open spec fn held(input: Seq<u8>, p: int) -> bool {
    &&& p >= RUN_HOLDOFF
    &&& p + 1 < input.len()
    &&& input[p + 1] == input[p]
    &&& forall|k: int| 1 <= k <= RUN_HOLDOFF ==> #[trigger] input[p - k] == input[p]
}

/// There is a match at `p` with offset `o`.
pub open spec fn cand(input: Seq<u8>, p: int, o: int) -> bool {
    &&& 1 <= o <= p < input.len()
    &&& o <= MAX_OFFS
    &&& held(input, p) ==> o == 1
    &&& mlen(input, p, o) >= 1
    &&& o <= NEAR_OFFS || (mlen(input, p, o) >= 2 && o <= MID_OFFS) || mlen(input, p, o) >= 3
}

pub proof fn lemma_mlen(input: Seq<u8>, p: int, o: int, k: int)
    requires
        1 <= o <= p,
        0 <= k <= MAX_MATCH,
        p + k <= input.len(),
        forall|i: int| 0 <= i < k ==> #[trigger] input[p + i] == input[p + i - o],
    ensures
        k <= mlen_from(input, p, o, k) <= MAX_MATCH,
        lz::is_match(input, p, o, mlen_from(input, p, o, k)),
    decreases MAX_MATCH - k,
{
    if !(k >= MAX_MATCH || p + k >= input.len() || input[p + k] != input[p + k - o]) {
        lemma_mlen(input, p, o, k + 1);
    }
}

/// A run of equal bytes that ends for one of the three reasons is the length.
pub proof fn lemma_mlen_is(input: Seq<u8>, p: int, o: int, k: int, m: int)
    requires
        0 <= k <= m <= MAX_MATCH,
        p + m <= input.len(),
        forall|i: int| 0 <= i < m ==> #[trigger] input[p + i] == input[p + i - o],
        m == MAX_MATCH || p + m == input.len() || input[p + m] != input[p + m - o],
    ensures
        mlen_from(input, p, o, k) == m,
    decreases m - k,
{
    if k < m {
        assert(input[p + k] == input[p + k - o]);
        lemma_mlen_is(input, p, o, k + 1, m);
    }
}

// ---------------------------------------------------------------------------
// Classes of equal strings
// ---------------------------------------------------------------------------
/// The `g` bytes at `p` and at `q` are the same.
pub open spec fn same_gram(input: Seq<u8>, p: int, q: int, g: int) -> bool {
    forall|i: int| 0 <= i < g ==> #[trigger] input[p + i] == input[q + i]
}

proof fn lemma_gram_split(input: Seq<u8>, p: int, q: int, g: int)
    requires
        0 <= g,
    ensures
        same_gram(input, p, q, 2 * g) <==> same_gram(input, p, q, g) && same_gram(
            input,
            p + g,
            q + g,
            g,
        ),
{
    if same_gram(input, p, q, 2 * g) {
        assert forall|i: int| 0 <= i < g implies #[trigger] input[p + g + i] == input[q + g + i] by {
            assert(input[p + (g + i)] == input[q + (g + i)]);
        }
    }
    if same_gram(input, p, q, g) && same_gram(input, p + g, q + g, g) {
        assert forall|i: int| 0 <= i < 2 * g implies #[trigger] input[p + i] == input[q + i] by {
            if i >= g {
                assert(input[p + g + (i - g)] == input[q + g + (i - g)]);
            }
        }
    }
}

pub open spec fn pair_key(a: Seq<u32>, p: int, step: int) -> int {
    a[p] * 0x1_0000_0000 + a[p + step]
}

/// Names for the pairs of names `step` apart.
fn pair_ids(a: &Vec<u32>, step: usize, count: usize) -> (ids: Vec<u32>)
    requires
        step + count <= a@.len(),
        count <= MAX_INPUT,
    ensures
        ids@.len() == count,
        forall|p: int| 0 <= p < count ==> #[trigger] ids@[p] < count,
        forall|p: int, q: int|
            #![trigger ids@[p], ids@[q]]
            0 <= p < count && 0 <= q < count ==> (ids@[p] == ids@[q] <==> a@[p] == a@[q] && a@[p
                + step] == a@[q + step]),
{
    broadcast use vstd::std_specs::hash::group_hash_axioms;

    let mut map: HashMap<u64, u32> = HashMap::new();
    let mut ids: Vec<u32> = Vec::with_capacity(count);
    let mut next: u32 = 0;
    let mut p: usize = 0;
    let total: usize = a.len();
    while p < count
        invariant
            total == a@.len(),
            step + count <= a@.len(),
            count <= MAX_INPUT,
            p <= count,
            next <= p,
            ids@.len() == p,
            forall|i: int|
                0 <= i < p ==> #[trigger] ids@[i] < next && map@.dom().contains(
                    pair_key(a@, i, step as int) as u64,
                ) && map@[pair_key(a@, i, step as int) as u64] == ids@[i],
            forall|k: u64| #[trigger] map@.dom().contains(k) ==> map@[k] < next,
            forall|k: u64, m: u64|
                #![trigger map@[k], map@[m]]
                map@.dom().contains(k) && map@.dom().contains(m) && map@[k] == map@[m] ==> k == m,
        decreases count - p,
    {
        let key: u64 = (a[p] as u64) * 0x1_0000_0000 + a[p + step] as u64;
        assert(key == pair_key(a@, p as int, step as int));
        let ghost map0 = map@;
        let ghost ids0 = ids@;
        let known: Option<u32> = match map.get(&key) {
            Some(id) => Some(*id),
            None => None,
        };
        let id: u32 = match known {
            Some(id) => id,
            None => {
                map.insert(key, next);
                next = next + 1;
                next - 1
            },
        };
        assert(known is None ==> !map0.dom().contains(key));
        assert(map@.dom().contains(key) && map@[key] == id);
        ids.push(id);
        p += 1;
        assert forall|i: int| 0 <= i < p implies #[trigger] ids@[i] < next && map@.dom().contains(
            pair_key(a@, i, step as int) as u64,
        ) && map@[pair_key(a@, i, step as int) as u64] == ids@[i] by {
            if i < p - 1 {
                assert(ids@[i] == ids0[i]);
            }
        }
    }
    assert forall|p: int, q: int|
        #![trigger ids@[p], ids@[q]]
        0 <= p < count && 0 <= q < count implies (ids@[p] == ids@[q] <==> a@[p] == a@[q] && a@[p
        + step] == a@[q + step]) by {
        let k = pair_key(a@, p, step as int) as u64;
        let m = pair_key(a@, q, step as int) as u64;
        assert(map@[k] == ids@[p]);
        assert(map@[m] == ids@[q]);
    }
    ids
}

/// `ids` tells the strings of `g` bytes apart.
spec fn names(input: Seq<u8>, ids: Seq<u32>, g: int) -> bool {
    &&& ids.len() == input.len() - g + 1
    &&& forall|p: int, q: int|
        #![trigger ids[p], ids[q]]
        0 <= p < ids.len() && 0 <= q < ids.len() ==> (ids[p] == ids[q] <==> same_gram(
            input,
            p,
            q,
            g,
        ))
}

/// Names for the strings of 256 bytes, by doubling.
fn long_names(input: &[u8]) -> (ids: Vec<u32>)
    requires
        256 <= input@.len() <= MAX_INPUT,
    ensures
        names(input@, ids@, 256),
        forall|p: int| 0 <= p < ids@.len() ==> #[trigger] ids@[p] < ids@.len(),
{
    let n: usize = input.len();
    let mut ids: Vec<u32> = Vec::with_capacity(n);
    let mut i: usize = 0;
    while i < n
        invariant
            n == input@.len(),
            i <= n,
            ids@.len() == i,
            forall|k: int| 0 <= k < i ==> ids@[k] == input@[k],
        decreases n - i,
    {
        ids.push(input[i] as u32);
        i += 1;
    }
    assert forall|p: int, q: int|
        #![trigger ids@[p], ids@[q]]
        0 <= p < ids@.len() && 0 <= q < ids@.len() implies (ids@[p] == ids@[q] <==> same_gram(
        input@,
        p,
        q,
        1,
    )) by {
        if same_gram(input@, p, q, 1) {
            assert(input@[p + 0] == input@[q + 0]);
        }
    }
    let mut g: usize = 1;
    while g < 256
        invariant
            n == input@.len(),
            256 <= n <= MAX_INPUT,
            g == 1 || g == 2 || g == 4 || g == 8 || g == 16 || g == 32 || g == 64 || g == 128 || g
                == 256,
            names(input@, ids@, g as int),
            g > 1 ==> forall|p: int| 0 <= p < ids@.len() ==> #[trigger] ids@[p] < ids@.len(),
        decreases 256 - g,
    {
        let next: Vec<u32> = pair_ids(&ids, g, n - 2 * g + 1);
        assert forall|p: int, q: int|
            #![trigger next@[p], next@[q]]
            0 <= p < next@.len() && 0 <= q < next@.len() implies (next@[p] == next@[q]
            <==> same_gram(input@, p, q, 2 * g)) by {
            lemma_gram_split(input@, p, q, g as int);
            assert(ids@[p] == ids@[q] <==> same_gram(input@, p, q, g as int));
            assert(ids@[p + g] == ids@[q + g] <==> same_gram(input@, p + g, q + g, g as int));
        }
        ids = next;
        g = 2 * g;
    }
    ids
}

/// For each position that 256 bytes follow, a name for them, and all positions
/// of that name in order, with its own place among them.
pub struct Groups {
    pub id: Vec<u32>,
    pub rank: Vec<u32>,
    pub lists: Vec<Vec<u32>>,
}

pub open spec fn lists_ok(id: Seq<u32>, rank: Seq<u32>, lists: Seq<Vec<u32>>, upto: int) -> bool {
    &&& forall|p: int|
        0 <= p < upto ==> #[trigger] id[p] < lists.len() && rank[p] < lists[id[p] as int]@.len()
            && lists[id[p] as int]@[rank[p] as int] == p
    &&& forall|c: int, j: int|
        0 <= c < lists.len() && 0 <= j < lists[c]@.len() ==> #[trigger] lists[c]@[j] < upto
            && id[lists[c]@[j] as int] == c && rank[lists[c]@[j] as int] == j
    &&& forall|c: int, i: int, j: int|
        #![trigger lists[c]@[i], lists[c]@[j]]
        0 <= c < lists.len() && 0 <= i < j < lists[c]@.len() ==> lists[c]@[i] < lists[c]@[j]
}

pub open spec fn groups_ok(input: Seq<u8>, g: Groups) -> bool {
    &&& g.id@.len() == if input.len() >= 256 {
        input.len() - 255
    } else {
        0
    }
    &&& g.rank@.len() == g.id@.len()
    &&& forall|p: int, q: int|
        #![trigger g.id@[p], g.id@[q]]
        0 <= p < g.id@.len() && 0 <= q < g.id@.len() ==> (g.id@[p] == g.id@[q] <==> same_gram(
            input,
            p,
            q,
            256,
        ))
    &&& lists_ok(g.id@, g.rank@, g.lists@, g.id@.len() as int)
}

fn build_groups(input: &[u8]) -> (g: Groups)
    requires
        input@.len() <= MAX_INPUT,
    ensures
        groups_ok(input@, g),
{
    let n: usize = input.len();
    let mut rank: Vec<u32> = Vec::new();
    let mut lists: Vec<Vec<u32>> = Vec::new();
    if n < 256 {
        return Groups { id: Vec::new(), rank, lists };
    }
    let id: Vec<u32> = long_names(input);
    let count: usize = id.len();
    let mut i: usize = 0;
    while i < count
        invariant
            i <= count,
            lists@.len() == i,
            forall|c: int| 0 <= c < i ==> #[trigger] lists@[c]@.len() == 0,
        decreases count - i,
    {
        lists.push(Vec::new());
        i += 1;
    }
    let mut p: usize = 0;
    while p < count
        invariant
            count == id@.len(),
            count <= MAX_INPUT,
            p <= count,
            rank@.len() == p,
            lists@.len() == count,
            forall|p: int| 0 <= p < id@.len() ==> #[trigger] id@[p] < id@.len(),
            lists_ok(id@, rank@, lists@, p as int),
        decreases count - p,
    {
        let ghost l0 = lists@;
        let ghost r0 = rank@;
        let c: usize = id[p] as usize;
        let mut list: Vec<u32> = Vec::new();
        std::mem::swap(&mut list, &mut lists[c]);
        let k: usize = list.len();
        proof {
            if k > 0 {
                assert(l0[c as int]@[k - 1] < p);
                lemma_list_short(l0[c as int]@, k - 1);
            }
        }
        rank.push(k as u32);
        list.push(p as u32);
        std::mem::swap(&mut list, &mut lists[c]);
        assert(lists@[c as int]@ == l0[c as int]@.push(p as u32));
        assert forall|d: int| 0 <= d < count && d != c implies #[trigger] lists@[d] == l0[d] by {}
        p += 1;
        assert forall|x: int| 0 <= x < p implies #[trigger] id@[x] < lists@.len() && rank@[x]
            < lists@[id@[x] as int]@.len() && lists@[id@[x] as int]@[rank@[x] as int] == x by {
            if x < p - 1 {
                assert(rank@[x] == r0[x]);
                assert(l0[id@[x] as int]@[r0[x] as int] == x);
            }
        }
        assert forall|d: int, j: int|
            0 <= d < lists@.len() && 0 <= j < lists@[d]@.len() implies #[trigger] lists@[d]@[j] < p
            && id@[lists@[d]@[j] as int] == d && rank@[lists@[d]@[j] as int] == j by {
            if d != c || j < k {
                assert(lists@[d]@[j] == l0[d]@[j]);
                assert(rank@[l0[d]@[j] as int] == r0[l0[d]@[j] as int]);
            }
        }
        assert forall|d: int, i: int, j: int|
            #![trigger lists@[d]@[i], lists@[d]@[j]]
            0 <= d < lists@.len() && 0 <= i < j < lists@[d]@.len() implies lists@[d]@[i]
            < lists@[d]@[j] by {
            assert(lists@[d]@[i] == l0[d]@[i]);
            if d != c || j < k {
                assert(lists@[d]@[j] == l0[d]@[j]);
            }
        }
    }
    Groups { id, rank, lists }
}

/// Entries of an ascending list are at least their index.
proof fn lemma_list_short(list: Seq<u32>, j: int)
    requires
        0 <= j < list.len(),
        forall|a: int, b: int|
            #![trigger list[a], list[b]]
            0 <= a < b < list.len() ==> list[a] < list[b],
    ensures
        j <= list[j],
    decreases j,
{
    if j > 0 {
        lemma_list_short(list, j - 1);
        assert(list[j - 1] < list[j]);
    }
}

// ---------------------------------------------------------------------------
// Chains of equal pairs of bytes
// ---------------------------------------------------------------------------
/// Marks the end of a chain.
const NONE: u32 = 0xffff_ffff;

/// The nearest position before each with the same two bytes.
spec fn prev_ok(input: Seq<u8>, prev: Seq<u32>) -> bool {
    forall|p: int|
        0 <= p < prev.len() ==> {
            &&& #[trigger] prev[p] == NONE || (prev[p] < p && same_gram(
                input,
                p,
                prev[p] as int,
                2,
            ))
            &&& forall|q: int|
                0 <= q < p && (prev[p] == NONE || prev[p] < q) ==> !#[trigger] same_gram(
                    input,
                    p,
                    q,
                    2,
                )
        }
}

spec fn gram_key(input: Seq<u8>, p: int) -> int {
    input[p] * 256 + input[p + 1]
}

proof fn lemma_gram_key(input: Seq<u8>, p: int, q: int)
    ensures
        same_gram(input, p, q, 2) <==> gram_key(input, p) == gram_key(input, q),
{
    if same_gram(input, p, q, 2) {
        assert(input[p + 0] == input[q + 0]);
        assert(input[p + 1] == input[q + 1]);
    } else {
        let i = choose|i: int| 0 <= i < 2 && #[trigger] input[p + i] != input[q + i];
        assert(i == 0 || i == 1);
    }
}

fn build_prev(input: &[u8]) -> (prev: Vec<u32>)
    requires
        input@.len() <= MAX_INPUT,
    ensures
        prev_ok(input@, prev@),
        prev@.len() == if input@.len() >= 1 {
            input@.len() - 1
        } else {
            0
        },
{
    let n: usize = input.len();
    let mut prev: Vec<u32> = Vec::with_capacity(n);
    let mut last: Vec<u32> = Vec::with_capacity(65536);
    let mut i: usize = 0;
    while i < 65536
        invariant
            i <= 65536,
            last@.len() == i,
            forall|k: int| 0 <= k < i ==> last@[k] == NONE,
        decreases 65536 - i,
    {
        last.push(NONE);
        i += 1;
    }
    let mut p: usize = 0;
    while p + 1 < n
        invariant
            n == input@.len(),
            n <= MAX_INPUT,
            p <= n,
            n >= 1 ==> p < n,
            prev@.len() == p,
            last@.len() == 65536,
            prev_ok(input@, prev@),
            forall|k: int|
                0 <= k < 65536 ==> #[trigger] last@[k] == NONE || (last@[k] < p && gram_key(
                    input@,
                    last@[k] as int,
                ) == k),
            forall|q: int|
                0 <= q < p ==> {
                    let l = last@[#[trigger] gram_key(input@, q)];
                    l != NONE && q <= l
                },
        decreases n - p,
    {
        let key: usize = input[p] as usize * 256 + input[p + 1] as usize;
        let l: u32 = last[key];
        let ghost last0 = last@;
        let ghost prev0 = prev@;
        prev.push(l);
        last.set(key, p as u32);
        proof {
            assert(key == gram_key(input@, p as int));
            if l != NONE {
                lemma_gram_key(input@, p as int, l as int);
            }
            assert forall|q: int| 0 <= q < p && (l == NONE || l < q) implies !#[trigger] same_gram(
                input@,
                p as int,
                q,
                2,
            ) by {
                lemma_gram_key(input@, p as int, q);
                assert(0 <= gram_key(input@, q) < 65536);
            }
            assert forall|x: int| 0 <= x < prev@.len() implies {
                &&& #[trigger] prev@[x] == NONE || (prev@[x] < x && same_gram(
                    input@,
                    x,
                    prev@[x] as int,
                    2,
                ))
                &&& forall|q: int|
                    0 <= q < x && (prev@[x] == NONE || prev@[x] < q) ==> !#[trigger] same_gram(
                        input@,
                        x,
                        q,
                        2,
                    )
            } by {
                if x < p {
                    assert(prev@[x] == prev0[x]);
                }
            }
            assert forall|q: int| 0 <= q < p + 1 implies {
                let m = last@[#[trigger] gram_key(input@, q)];
                m != NONE && q <= m
            } by {
                assert(0 <= gram_key(input@, q) < 65536);
                if q < p {
                    assert(last0[gram_key(input@, q)] != NONE);
                }
            }
        }
        p += 1;
    }
    prev
}

// ---------------------------------------------------------------------------
// All matches
// ---------------------------------------------------------------------------
/// A match: its offset and its full length.
#[derive(Clone, Copy)]
pub struct Cand {
    pub offs: u32,
    pub len: u32,
}

/// The matches of every position. Those of full length are in the groups.
pub struct MatchTree {
    pub len: usize,
    pub starts: Vec<usize>,
    pub cands: Vec<Cand>,
    pub groups: Groups,
}

pub open spec fn listed(cands: Seq<Cand>, a: int, b: int, o: int) -> bool {
    exists|j: int| a <= j < b && (#[trigger] cands[j]).offs == o
}

/// The match has full length and is found through the groups.
pub open spec fn grouped(input: Seq<u8>, g: Groups, p: int, o: int) -> bool {
    !held(input, p) && p < g.id@.len() && 0 <= p - o && g.id@[p - o] == g.id@[p]
}

/// Entries `a` to `b` are matches at `p`, and with the groups they are all.
pub open spec fn cands_at(input: Seq<u8>, g: Groups, cands: Seq<Cand>, p: int, a: int, b: int) -> bool {
    &&& forall|j: int|
        a <= j < b ==> cand(input, p, (#[trigger] cands[j]).offs as int) && cands[j].len == mlen(
            input,
            p,
            cands[j].offs as int,
        )
    &&& forall|o: int|
        #[trigger] cand(input, p, o) ==> listed(cands, a, b, o) || grouped(input, g, p, o)
}

/// The entries of position `p`.
pub open spec fn tree_at(input: Seq<u8>, g: Groups, cands: Seq<Cand>, starts: Seq<usize>, p: int) -> bool {
    &&& starts[p] <= starts[p + 1] <= cands.len()
    &&& cands_at(input, g, cands, p, starts[p] as int, starts[p + 1] as int)
}

pub open spec fn tree_ok(input: Seq<u8>, t: MatchTree) -> bool {
    &&& input.len() <= MAX_INPUT
    &&& t.len == input.len()
    &&& groups_ok(input, t.groups)
    &&& t.starts@.len() == input.len() + 1
    &&& forall|p: int|
        0 <= p < input.len() ==> #[trigger] tree_at(input, t.groups, t.cands@, t.starts@, p)
}

/// Members of a group before `p` are matches of full length.
pub proof fn lemma_grouped(input: Seq<u8>, g: Groups, p: int, q: int)
    requires
        groups_ok(input, g),
        0 <= q < p < g.id@.len(),
        g.id@[q] == g.id@[p],
    ensures
        mlen(input, p, p - q) == MAX_MATCH,
        !held(input, p) && p - q <= MAX_OFFS ==> cand(input, p, p - q),
{
    assert(same_gram(input, p, q, 256));
    assert forall|i: int| 0 <= i < 256 implies #[trigger] input[p + i] == input[p + i - (p - q)] by {
        assert(input[p + i] == input[q + i]);
    }
    lemma_mlen_is(input, p, p - q, 0, 256);
}

/// Entries from `a` on are matches at `p`.
spec fn sound_from(input: Seq<u8>, cands: Seq<Cand>, p: int, a: int) -> bool {
    forall|j: int|
        a <= j < cands.len() ==> cand(input, p, (#[trigger] cands[j]).offs as int) && cands[j].len
            == mlen(input, p, cands[j].offs as int)
}

/// Adds the match at `p` with offset `o`.
fn push_cand(input: &[u8], p: usize, o: usize, m: usize, cands: &mut Vec<Cand>, Ghost(a): Ghost<int>)
    requires
        0 <= a <= old(cands)@.len(),
        sound_from(input@, old(cands)@, p as int, a),
        cand(input@, p as int, o as int),
        m == mlen(input@, p as int, o as int),
    ensures
        final(cands)@.len() == old(cands)@.len() + 1,
        forall|j: int| 0 <= j < old(cands)@.len() ==> #[trigger] final(cands)@[j] == old(cands)@[j],
        sound_from(input@, final(cands)@, p as int, a),
        listed(final(cands)@, a, final(cands)@.len() as int, o as int),
        forall|x: int|
            #[trigger] listed(old(cands)@, a, old(cands)@.len() as int, x) ==> listed(
                final(cands)@,
                a,
                final(cands)@.len() as int,
                x,
            ),
{
    let ghost c0 = cands@;
    proof {
        lemma_mlen(input@, p as int, o as int, 0);
    }
    cands.push(Cand { offs: o as u32, len: m as u32 });
    assert(cands@[c0.len() as int].offs == o);
    assert forall|x: int| #[trigger] listed(c0, a, c0.len() as int, x) implies listed(
        cands@,
        a,
        cands@.len() as int,
        x,
    ) by {
        let j = choose|j: int| a <= j < c0.len() && (#[trigger] c0[j]).offs == x;
        assert(cands@[j].offs == x);
    }
}

/// Adds the matches of one byte.
fn near_matches(input: &[u8], p: usize, cands: &mut Vec<Cand>)
    requires
        p < input@.len(),
        !held(input@, p as int),
    ensures
        final(cands)@.len() >= old(cands)@.len(),
        forall|j: int| 0 <= j < old(cands)@.len() ==> #[trigger] final(cands)@[j] == old(cands)@[j],
        sound_from(input@, final(cands)@, p as int, old(cands)@.len() as int),
        forall|o: int|
            #[trigger] cand(input@, p as int, o) && mlen(input@, p as int, o) == 1 ==> listed(
                final(cands)@,
                old(cands)@.len() as int,
                final(cands)@.len() as int,
                o,
            ),
{
    let n: usize = input.len();
    let ghost c0 = cands@;
    let ghost a = cands@.len() as int;
    let mut o: usize = 1;
    while o <= NEAR_OFFS && o <= p
        invariant
            n == input@.len(),
            p < n,
            !held(input@, p as int),
            1 <= o <= NEAR_OFFS + 1,
            a == c0.len(),
            cands@.len() >= a,
            forall|j: int| 0 <= j < a ==> #[trigger] cands@[j] == c0[j],
            sound_from(input@, cands@, p as int, a),
            forall|x: int|
                #[trigger] cand(input@, p as int, x) && mlen(input@, p as int, x) == 1 && x < o
                    ==> listed(cands@, a, cands@.len() as int, x),
        decreases NEAR_OFFS + 1 - o,
    {
        let ghost pi = p as int;
        let ghost oi = o as int;
        if input[p - o] == input[p] && (p + 1 == n || input[p + 1 - o] != input[p + 1]) {
            proof {
                assert(input@[pi + 0] == input@[pi + 0 - oi]);
                lemma_mlen_is(input@, pi, oi, 0, 1);
            }
            push_cand(input, p, o, 1, cands, Ghost(a));
        } else {
            proof {
                reveal_with_fuel(mlen_from, 3);
                if input@[pi - oi] == input@[pi] {
                    assert(mlen_from(input@, pi, oi, 0) == mlen_from(input@, pi, oi, 2));
                    assert(input@[pi + 0] == input@[pi + 0 - oi]);
                    assert(input@[pi + 1] == input@[pi + 1 - oi]);
                    lemma_mlen(input@, pi, oi, 2);
                } else {
                    assert(mlen(input@, pi, oi) == 0);
                }
            }
        }
        o += 1;
    }
}

/// Adds the matches of two bytes and more that are not of full length.
fn chain_matches(input: &[u8], p: usize, g: &Groups, prev: &Vec<u32>, cands: &mut Vec<Cand>)
    requires
        p + 1 < input@.len(),
        input@.len() <= MAX_INPUT,
        !held(input@, p as int),
        groups_ok(input@, *g),
        prev_ok(input@, prev@),
        prev@.len() == input@.len() - 1,
    ensures
        final(cands)@.len() >= old(cands)@.len(),
        forall|j: int| 0 <= j < old(cands)@.len() ==> #[trigger] final(cands)@[j] == old(cands)@[j],
        sound_from(input@, final(cands)@, p as int, old(cands)@.len() as int),
        forall|o: int|
            #[trigger] cand(input@, p as int, o) && mlen(input@, p as int, o) >= 2 ==> listed(
                final(cands)@,
                old(cands)@.len() as int,
                final(cands)@.len() as int,
                o,
            ) || grouped(input@, *g, p as int, o),
{
    let n: usize = input.len();
    let ghost c0 = cands@;
    let ghost a = cands@.len() as int;
    let ghost pi = p as int;
    let known: usize = g.id.len();
    let cap: usize = if n - p < MAX_MATCH as usize {
        n - p
    } else {
        MAX_MATCH as usize
    };
    let mut q: u32 = prev[p];
    assert forall|x: int|
        #[trigger] cand(input@, pi, x) && mlen(input@, pi, x) >= 2 && (q == NONE || q < p - x) implies
        listed(cands@, a, cands@.len() as int, x) || grouped(input@, *g, pi, x) by {
        lemma_two(input@, pi, x);
        assert(prev@[pi] == q);
        assert(!same_gram(input@, pi, pi - x, 2));
    }
    while q != NONE && p - q as usize <= MAX_OFFS as usize
        invariant
            n == input@.len(),
            n <= MAX_INPUT,
            p + 1 < n,
            pi == p,
            known == g.id@.len(),
            cap == if n - p < MAX_MATCH {
                n - p
            } else {
                MAX_MATCH as int
            },
            !held(input@, pi),
            groups_ok(input@, *g),
            prev_ok(input@, prev@),
            prev@.len() == n - 1,
            a == c0.len(),
            cands@.len() >= a,
            forall|j: int| 0 <= j < a ==> #[trigger] cands@[j] == c0[j],
            sound_from(input@, cands@, pi, a),
            q != NONE ==> q < p && same_gram(input@, pi, q as int, 2),
            forall|x: int|
                #[trigger] cand(input@, pi, x) && mlen(input@, pi, x) >= 2 && (q == NONE || q < p
                    - x) ==> listed(cands@, a, cands@.len() as int, x) || grouped(
                    input@,
                    *g,
                    pi,
                    x,
                ),
        decreases if q == NONE {
            0int
        } else {
            q as int + 1
        },
    {
        let qs: usize = q as usize;
        let o: usize = p - qs;
        let ghost oi = o as int;
        if p < known && g.id[qs] == g.id[p] {
            assert(grouped(input@, *g, pi, oi));
        } else {
            let m: usize = match_run(input, qs, p, cap);
            proof {
                assert(input@[pi + 0] == input@[q + 0]);
                assert(input@[pi + 1] == input@[q + 1]);
                assert forall|i: int| 0 <= i < m implies #[trigger] input@[pi + i] == input@[pi + i
                    - oi] by {
                    assert(input@[p + i] == input@[qs + i]);
                }
                if m < 2 {
                    assert(input@[p + m] != input@[qs + m]);
                    assert(m == 0 || m == 1);
                }
                lemma_mlen_is(input@, pi, oi, 0, m as int);
            }
            if m >= 3 || o <= MID_OFFS {
                push_cand(input, p, o, m, cands, Ghost(a));
            }
        }
        let ghost q0 = q as int;
        q = prev[qs];
        proof {
            if q != NONE {
                lemma_gram_chain(input@, pi, q0, q as int);
            }
            assert forall|x: int|
                #[trigger] cand(input@, pi, x) && mlen(input@, pi, x) >= 2 && (q == NONE || q < p
                    - x) implies listed(cands@, a, cands@.len() as int, x) || grouped(
                input@,
                *g,
                pi,
                x,
            ) by {
                let y = pi - x;
                if y < q0 {
                    lemma_two(input@, pi, x);
                    lemma_gram_chain2(input@, pi, q0, y);
                    assert(same_gram(input@, q0, y, 2));
                } else if y == q0 {
                }
            }
        }
    }
    assert forall|x: int|
        #[trigger] cand(input@, pi, x) && mlen(input@, pi, x) >= 2 implies listed(
        cands@,
        a,
        cands@.len() as int,
        x,
    ) || grouped(input@, *g, pi, x) by {
        if !(q == NONE || q < p - x) {
            assert(p - x <= q);
            assert(x >= p - q);
        }
    }
}

proof fn lemma_gram_chain(input: Seq<u8>, p: int, q: int, r: int)
    requires
        same_gram(input, p, q, 2),
        same_gram(input, q, r, 2),
    ensures
        same_gram(input, p, r, 2),
{
    assert forall|i: int| 0 <= i < 2 implies #[trigger] input[p + i] == input[r + i] by {
        assert(input[p + i] == input[q + i]);
        assert(input[q + i] == input[r + i]);
    }
}

proof fn lemma_gram_chain2(input: Seq<u8>, p: int, q: int, r: int)
    requires
        same_gram(input, p, q, 2),
        same_gram(input, p, r, 2),
    ensures
        same_gram(input, q, r, 2),
{
    assert forall|i: int| 0 <= i < 2 implies #[trigger] input[q + i] == input[r + i] by {
        assert(input[p + i] == input[q + i]);
        assert(input[p + i] == input[r + i]);
    }
}

/// A match of two bytes starts with the same two bytes.
proof fn lemma_two(input: Seq<u8>, p: int, o: int)
    requires
        mlen(input, p, o) >= 2,
        1 <= o <= p < input.len(),
    ensures
        same_gram(input, p, p - o, 2),
{
    lemma_mlen(input, p, o, 0);
    assert forall|i: int| 0 <= i < 2 implies #[trigger] input[p + i] == input[p - o + i] by {
        assert(input[p + i] == input[p + i - o]);
    }
}

/// All matches of the input.
#[verifier::rlimit(40)]
pub fn build_match(input: &[u8]) -> (t: MatchTree)
    requires
        input@.len() <= MAX_INPUT,
    ensures
        tree_ok(input@, t),
{
    let n: usize = input.len();
    let groups: Groups = build_groups(input);
    let prev: Vec<u32> = build_prev(input);
    let mut starts: Vec<usize> = Vec::with_capacity(n + 1);
    let mut cands: Vec<Cand> = Vec::new();
    starts.push(0);
    let mut p: usize = 0;
    let mut before: usize = 0;
    while p < n
        invariant
            n == input@.len(),
            n <= MAX_INPUT,
            p <= n,
            groups_ok(input@, groups),
            prev_ok(input@, prev@),
            prev@.len() == if n >= 1 {
                n - 1
            } else {
                0
            },
            starts@.len() == p + 1,
            starts@[p as int] == cands@.len(),
            forall|k: int|
                0 <= k < p ==> #[trigger] tree_at(input@, groups, cands@, starts@, k),
            before <= p,
            p < n ==> forall|k: int|
                p - before <= k < p ==> #[trigger] input@[k] == input@[p as int],
            p < n && before < p ==> input@[p - before - 1] != input@[p as int],
        decreases n - p,
    {
        let ghost pi = p as int;
        let ghost c0 = cands@;
        let ghost s0 = starts@;
        let ghost a = cands@.len() as int;
        let in_run: bool = before >= RUN_HOLDOFF && p + 1 < n && input[p + 1] == input[p];
        proof {
            if in_run {
                assert forall|k: int| 1 <= k <= RUN_HOLDOFF implies #[trigger] input@[pi - k]
                    == input@[pi] by {}
            } else if held(input@, pi) {
                assert(before < p);
                assert(input@[pi - (before + 1)] == input@[pi]);
            }
        }
        assert(in_run == held(input@, pi));
        if in_run {
            let cap: usize = if n - p < MAX_MATCH as usize {
                n - p
            } else {
                MAX_MATCH as usize
            };
            let m: usize = match_run(input, p - 1, p, cap);
            proof {
                assert forall|i: int| 0 <= i < m implies #[trigger] input@[pi + i] == input@[pi + i
                    - 1] by {
                    assert(input@[p + i] == input@[p - 1 + i]);
                }
                if m == 0 {
                    assert(input@[p + m] != input@[p - 1 + m]);
                    assert(input@[pi - 1] == input@[pi]);
                }
                lemma_mlen_is(input@, pi, 1, 0, m as int);
            }
            push_cand(input, p, 1, m, &mut cands, Ghost(a));
        } else {
            near_matches(input, p, &mut cands);
            let ghost c1 = cands@;
            if p + 1 < n {
                chain_matches(input, p, &groups, &prev, &mut cands);
            }
            assert forall|o: int| #[trigger] cand(input@, pi, o) implies listed(
                cands@,
                a,
                cands@.len() as int,
                o,
            ) || grouped(input@, groups, pi, o) by {
                if mlen(input@, pi, o) == 1 {
                    let j = choose|j: int| a <= j < c1.len() && (#[trigger] c1[j]).offs == o;
                    assert(cands@[j].offs == o);
                } else {
                    lemma_mlen(input@, pi, o, 0);
                    assert(p + 1 < n);
                    if !grouped(input@, groups, pi, o) {
                        let j = choose|j: int|
                            c1.len() <= j < cands@.len() && (#[trigger] cands@[j]).offs == o;
                        assert(cands@[j].offs == o);
                    }
                }
            }
        }
        starts.push(cands.len());
        if p + 1 < n {
            before = if input[p + 1] == input[p] {
                before + 1
            } else {
                0
            };
        }
        p += 1;
        assert(cands_at(input@, groups, cands@, pi, starts@[pi] as int, starts@[pi + 1] as int));
        assert forall|k: int| 0 <= k < p implies #[trigger] tree_at(
            input@,
            groups,
            cands@,
            starts@,
            k,
        ) by {
            if k < pi {
                let x = s0[k] as int;
                let y = s0[k + 1] as int;
                assert(starts@[k] == s0[k] && starts@[k + 1] == s0[k + 1]);
                assert(tree_at(input@, groups, c0, s0, k));
                assert forall|j: int| x <= j < y implies cand(
                    input@,
                    k,
                    (#[trigger] cands@[j]).offs as int,
                ) && cands@[j].len == mlen(input@, k, cands@[j].offs as int) by {
                    assert(cands@[j] == c0[j]);
                }
                assert forall|o: int| #[trigger] cand(input@, k, o) implies listed(cands@, x, y, o)
                    || grouped(input@, groups, k, o) by {
                    if !grouped(input@, groups, k, o) {
                        let j = choose|j: int| x <= j < y && (#[trigger] c0[j]).offs == o;
                        assert(cands@[j].offs == o);
                    }
                }
            }
        }
    }
    MatchTree { len: n, starts, cands, groups }
}

} // verus!
