//! What Subsizer makes use of: every repeat of the input, in passes that go on until
//! nothing changes.
use crate::lz;
use crate::submatch;
use crate::subpath;
use crate::subpath::CostModel;
use crate::subsizer;
use crate::substream;
use crate::substream::{PathStep, Tables};
use vstd::prelude::*;

verus! {

/// The step may be taken at `p`: a literal byte, or a repeat of up to 256 bytes up to
/// 65535 back, of at most three bytes less than repeat there. A repeat of one byte is
/// up to 32 back, one of two bytes up to 16384. Deep inside a run the offset is 1.
pub open spec fn may_step(input: Seq<u8>, p: int, st: PathStep) -> bool {
    match st {
        PathStep::Literal => 0 <= p < input.len(),
        PathStep::Match { offs, len } => {
            &&& 1 <= len <= 256
            &&& 1 <= offs <= 65535
            &&& lz::is_match(input, p, offs as int, len as int)
            &&& len >= 253 || !lz::is_match(input, p, offs as int, len + 4)
            &&& offs <= 32 || len >= 3 || (len == 2 && offs <= 16384)
            &&& offs == 1 || p < 8 || p + 1 >= input.len() || exists|k: int|
                -1 <= k <= 8 && #[trigger] input[p - k] != input[p]
        },
    }
}

/// Steps from the start to the end of the input.
pub open spec fn may_walk(input: Seq<u8>, path: Seq<PathStep>) -> bool {
    &&& substream::path_pos(path, path.len() as int) == input.len()
    &&& forall|k: int|
        0 <= k < path.len() ==> #[trigger] may_step(input, substream::path_pos(path, k), path[k])
}

proof fn lemma_step_is_edge(input: Seq<u8>, p: int, st: PathStep)
    requires
        may_step(input, p, st),
    ensures
        subpath::edge(input, p, st),
{
    if let PathStep::Match { offs, len } = st {
        let o = offs as int;
        submatch::lemma_mlen(input, p, o, 0);
        let m = submatch::mlen(input, p, o);
        assert forall|i: int| 0 <= i < len implies #[trigger] input[p + i] == input[p + i - o] by {}
        submatch::lemma_mlen(input, p, o, len as int);
        lemma_mlen_on(input, p, o, 0, len as int);
        if m >= len + 4 {
            assert(lz::is_match(input, p, o, len + 4));
        }
        if submatch::held(input, p) && o != 1 {
            let k = choose|k: int| -1 <= k <= 8 && #[trigger] input[p - k] != input[p];
            assert(k == 0 || k == -1 || input[p - k] == input[p]);
            assert(false);
        }
    }
}

proof fn lemma_mlen_on(input: Seq<u8>, p: int, o: int, k: int, m: int)
    requires
        0 <= k <= m <= 256,
        p + m <= input.len(),
        forall|i: int| 0 <= i < m ==> #[trigger] input[p + i] == input[p + i - o],
    ensures
        submatch::mlen_from(input, p, o, k) == submatch::mlen_from(input, p, o, m),
    decreases m - k,
{
    if k < m {
        assert(input[p + k] == input[p + k - o]);
        lemma_mlen_on(input, p, o, k + 1, m);
    }
}

/// No steps through the input are cheaper than those of a pass.
pub proof fn lemma_no_cheaper_steps(
    input: Seq<u8>,
    m: CostModel,
    t: Tables,
    path: Seq<PathStep>,
    q: Seq<PathStep>,
)
    requires
        subpath::cheapest(input, m, t, path),
        may_walk(input, q),
    ensures
        subpath::path_price(m, t, path, path.len() as int) <= subpath::path_price(
            m,
            t,
            q,
            q.len() as int,
        ),
{
    assert forall|k: int| 0 <= k < q.len() implies #[trigger] subpath::edge(
        input,
        substream::path_pos(q, k),
        q[k],
    ) by {
        assert(may_step(input, substream::path_pos(q, k), q[k]));
        lemma_step_is_edge(input, substream::path_pos(q, k), q[k]);
    }
    assert(subpath::edge_path(input, q));
}

/// A pass at the prices of the tables `a` gives the tables `b`.
pub open spec fn one_pass(input: Seq<u8>, a: Tables, b: Tables) -> bool {
    exists|path: Seq<PathStep>| #[trigger]
        subsizer::learned_from(input, path, b, CostModel::Real, a)
}

/// One pass after the other.
pub open spec fn passes(input: Seq<u8>, ts: Seq<Tables>) -> bool {
    forall|k: int| 0 < k < ts.len() ==> #[trigger] pass_at(input, ts, k)
}

pub open spec fn pass_at(input: Seq<u8>, ts: Seq<Tables>, k: int) -> bool {
    one_pass(input, ts[k - 1], ts[k])
}

/// The path is the cheapest at the prices of its own tables, and these are the best
/// for it; or so many passes were made.
pub open spec fn settled_or_made(input: Seq<u8>, path: Seq<PathStep>, t: Tables, t0: Tables, count: int) -> bool {
    ||| subsizer::learned_from(input, path, t, CostModel::Real, t)
    ||| exists|ts: Seq<Tables>|
        {
            &&& #[trigger] passes(input, ts)
            &&& ts.len() == count + 1
            &&& ts[0] == t0
            &&& ts[count] == t
            &&& subsizer::learned_from(input, path, t, CostModel::Real, ts[count - 1])
        }
}

proof fn lemma_settles(
    input: Seq<u8>,
    p0: Seq<PathStep>,
    t0: Tables,
    left: int,
    path: Seq<PathStep>,
    t: Tables,
)
    requires
        left >= 1,
        subsizer::settles(input, p0, t0, left, path, t),
    ensures
        settled_or_made(input, path, t, t0, left),
    decreases left,
{
    let (p1, t1) = choose|p1: Seq<PathStep>, t1: Tables|
        #[trigger] subsizer::learned_from(input, p1, t1, CostModel::Real, t0) && if t1 == t0 {
            path == p1 && t == t1
        } else {
            subsizer::settles(input, p1, t1, left - 1, path, t)
        };
    if t1 != t0 {
        assert(one_pass(input, t0, t1));
        if left == 1 {
            let ts = seq![t0, t1];
            assert(passes(input, ts));
            assert(ts[1] == t);
            assert(settled_or_made(input, path, t, t0, 1));
        } else {
            lemma_settles(input, p1, t1, left - 1, path, t);
            lemma_pass_before(input, path, t, t0, t1, left - 1);
        }
    }
}

proof fn lemma_pass_before(
    input: Seq<u8>,
    path: Seq<PathStep>,
    t: Tables,
    t0: Tables,
    t1: Tables,
    count: int,
)
    requires
        count >= 1,
        one_pass(input, t0, t1),
        settled_or_made(input, path, t, t1, count),
    ensures
        settled_or_made(input, path, t, t0, count + 1),
{
    if !subsizer::learned_from(input, path, t, CostModel::Real, t) {
        let rest = choose|ts: Seq<Tables>|
            {
                &&& #[trigger] passes(input, ts)
                &&& ts.len() == count + 1
                &&& ts[0] == t1
                &&& ts[count] == t
                &&& subsizer::learned_from(input, path, t, CostModel::Real, ts[count - 1])
            };
        let ts = seq![t0] + rest;
        assert forall|k: int| 0 < k < ts.len() implies #[trigger] pass_at(input, ts, k) by {
            if k > 1 {
                assert(pass_at(input, rest, k - 1));
                assert(ts[k - 1] == rest[k - 2]);
                assert(ts[k] == rest[k - 1]);
            }
        }
        assert(passes(input, ts));
        assert(ts[count + 1] == rest[count]);
        assert(ts[count] == rest[count - 1]);
    }
}

/// The first start ends where nothing changes any more, or after sixteen passes behind
/// one with estimated prices.
pub proof fn lemma_first_start_settles(input: Seq<u8>, path: Seq<PathStep>, t: Tables)
    requires
        subsizer::first_start(input, path, t),
    ensures
        exists|p1: Seq<PathStep>, t1: Tables|
            #[trigger] subsizer::learned_from(
                input,
                p1,
                t1,
                CostModel::Init,
                substream::zero_tables(),
            ) && settled_or_made(input, path, t, t1, 16),
{
    let (p1, t1) = choose|p1: Seq<PathStep>, t1: Tables|
        #[trigger] subsizer::learned_from(
            input,
            p1,
            t1,
            CostModel::Init,
            substream::zero_tables(),
        ) && subsizer::settles(input, p1, t1, 16, path, t);
    lemma_settles(input, p1, t1, 16, path, t);
}

/// A further start ends where nothing changes any more, or after thirty passes behind
/// the first.
pub proof fn lemma_further_starts_settle(
    input: Seq<u8>,
    anchor: Tables,
    k: int,
    path: Seq<PathStep>,
    t: Tables,
)
    requires
        subsizer::start_gives(input, anchor, k, path, t),
    ensures
        exists|t0: Tables, t1: Tables|
            #[trigger] subsizer::start_tables(input, anchor, k, t0) && #[trigger] one_pass(
                input,
                t0,
                t1,
            ) && settled_or_made(input, path, t, t1, 30),
{
    let t0 = choose|t0: Tables| #[trigger]
        subsizer::start_tables(input, anchor, k, t0) && subsizer::converges(input, t0, 30, path, t);
    let (p1, t1) = choose|p1: Seq<PathStep>, t1: Tables|
        #[trigger] subsizer::learned_from(input, p1, t1, CostModel::Real, t0) && subsizer::settles(
            input,
            p1,
            t1,
            30,
            path,
            t,
        );
    lemma_settles(input, p1, t1, 30, path, t);
    assert(one_pass(input, t0, t1));
}

proof fn lemma_shortest_of_all(first: Seq<u8>, others: Seq<Option<Seq<u8>>>, k: int)
    requires
        0 <= k <= others.len(),
    ensures
        subsizer::shortest(first, others, k).len() <= first.len(),
        forall|j: int|
            0 <= j < k ==> (#[trigger] others[j] matches Some(s) ==> subsizer::shortest(
                first,
                others,
                k,
            ).len() <= s.len()),
    decreases k,
{
    if k > 0 {
        lemma_shortest_of_all(first, others, k - 1);
    }
}

/// The stream of level 1 is that of the first start. One of a higher level is no longer
/// than that of the first and of any of the eight further starts.
pub proof fn lemma_levels_take_starts(input: Seq<u8>, level: u8, out: Seq<u8>)
    requires
        input.len() > 0,
        subsizer::sub_compressed_by(input, subsizer::level_seeds(level), out, false),
    ensures
        level <= 1 ==> exists|t: Tables| #[trigger] subsizer::first_stream(input, t, out, false),
        level >= 2 ==> exists|t: Tables, first: Seq<u8>, others: Seq<Option<Seq<u8>>>|
            {
                &&& #[trigger] subsizer::first_stream(input, t, first, false)
                &&& #[trigger] subsizer::start_streams(input, t, others)
                &&& others.len() == 8
                &&& out.len() <= first.len()
                &&& forall|k: int|
                    0 <= k < 8 ==> (#[trigger] others[k] matches Some(s) ==> out.len() <= s.len())
            },
{
    reveal(subsizer::seeds_stream);
    let seeds = subsizer::clamped_seeds(subsizer::level_seeds(level));
    let (t, first, others) = choose|t: Tables, first: Seq<u8>, others: Seq<Option<Seq<u8>>>|
        {
            &&& #[trigger] subsizer::first_stream(input, t, first, false)
            &&& #[trigger] subsizer::start_streams(input, t, others)
            &&& others.len() == seeds - 1
            &&& out == subsizer::shortest(first, others, seeds - 1)
        };
    lemma_shortest_of_all(first, others, seeds - 1);
    assert(subsizer::first_stream(input, t, first, false));
    assert(subsizer::start_streams(input, t, others));
}

} // verus!
