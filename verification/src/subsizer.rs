//! Subsizer: tables are learned from the cheapest path, and the path is found
//! again with the tables, until both stay as they are. Several starts are tried
//! and the smallest stream is kept.
use crate::bitio::BitReader;
use crate::lz::reversed;
use crate::subenc::{optimize_enc, Hist, Tally};
use crate::submatch::{build_match, MatchTree, MAX_INPUT};
use crate::subpath::{find_cheapest_path, CostModel};
use crate::substream::{
    cost_enc, decode_from, generate_into, Encoding, EncodingSet, PathStep, Tables, ENC_FAULT,
    MAX_MATCH, MAX_OFFS, PARTS, SINGLE_BYTE_PARTS,
};
use crate::subenc;
use crate::substream;
use crate::subpath;
use crate::submatch;
use crate::lz;
use crate::bitio;
use vstd::prelude::*;

verus! {

/// Level 1 follows one start, level 2 keeps the best of all.
pub const MAX_LEVEL: u8 = 2;

/// How many starts there are.
pub const NUM_SEEDS: usize = 9;

// ---------------------------------------------------------------------------
// Tables of a path
// ---------------------------------------------------------------------------
/// The first `k` tokens hold a match of `len` bytes.
pub open spec fn uses_len(path: Seq<PathStep>, k: int, len: int) -> bool {
    exists|j: int|
        0 <= j < k && (#[trigger] path[j] matches PathStep::Match { offs, len: l } && l == len)
}

pub open spec fn tally_zero(range: nat) -> Tally {
    Tally { bins: Seq::new(range, |v: int| 0i64), costs: Seq::new(range, |v: int| 0i64) }
}

pub open spec fn tally_add(h: Tally, v: int, cost: int) -> Tally {
    Tally {
        bins: h.bins.update(v, (h.bins[v] + 1) as i64),
        costs: h.costs.update(v, (h.costs[v] + cost) as i64),
    }
}

/// Which table of offsets a match of `len` bytes uses.
pub open spec fn class_of(len: int) -> int {
    if len <= 3 {
        len
    } else {
        4
    }
}

/// The numbers that the first `k` tokens need of a table: of lengths for class
/// 0, else of the offsets of that class. In another form, a match costs what
/// its bytes cost as literals, less the other number of the match.
pub open spec fn path_tally(
    m: CostModel,
    t: Tables,
    path: Seq<PathStep>,
    k: int,
    class: int,
    range: nat,
) -> Tally
    decreases k,
{
    if k <= 0 {
        tally_zero(range)
    } else {
        let h = path_tally(m, t, path, k - 1, class, range);
        match path[k - 1] {
            PathStep::Literal => h,
            PathStep::Match { offs, len } => if class == 0 {
                tally_add(
                    h,
                    len as int,
                    9 * len - (1 + subpath::offs_price(m, t, offs as int, len as int)),
                )
            } else if class == class_of(len as int) {
                tally_add(h, offs as int, 9 * len - (1 + subpath::len_price(m, t, len as int)))
            } else {
                h
            },
        }
    }
}

/// Numbers up to the largest offset.
pub open spec fn offs_range(n: int) -> nat {
    if n < MAX_OFFS {
        (n + 1) as nat
    } else {
        MAX_OFFS as nat + 1
    }
}

/// Every table is the best for the path, and the end marker is the first length
/// that no match has.
pub open spec fn tables_best(
    m: CostModel,
    t: Tables,
    path: Seq<PathStep>,
    n: int,
    new: Tables,
) -> bool {
    let k = path.len() as int;
    let r = offs_range(n);
    &&& substream::tables_wf(new)
    &&& subenc::widths_best(path_tally(m, t, path, k, 0, 257), true, new.lens.parts)
    &&& subenc::widths_best(path_tally(m, t, path, k, 1, r), false, new.offs1.parts)
    &&& subenc::widths_best(path_tally(m, t, path, k, 2, r), false, new.offs2.parts)
    &&& subenc::widths_best(path_tally(m, t, path, k, 3, r), false, new.offs3.parts)
    &&& subenc::widths_best(path_tally(m, t, path, k, 4, r), false, new.offs.parts)
    &&& 1 <= new.endm <= 257
    &&& !uses_len(path, k, new.endm)
    &&& forall|l: int| 1 <= l < new.endm ==> #[trigger] uses_len(path, k, l)
}

fn new_hist(range: usize) -> (h: Hist)
    requires
        range <= 0x10000,
    ensures
        subenc::tally_ok(h@),
        h@ == tally_zero(range as nat),
        subenc::sum_upto(h@.bins, range as int) == 0,
{
    let h: Hist = Hist::new(range);
    assert(h@.bins =~= tally_zero(range as nat).bins);
    assert(h@.costs =~= tally_zero(range as nat).costs);
    h
}

/// The tables and the end marker that a path calls for. Prices of the old
/// tables `es` tell what a match costs in another form.
#[verifier::rlimit(60)]
fn optimize_encoding(path: &Vec<PathStep>, input: &[u8], m: CostModel, es: &EncodingSet) -> (new: EncodingSet)
    requires
        substream::path_ok(input@, path@),
        input@.len() <= MAX_INPUT,
        subpath::model_ok(m, es@),
    ensures
        substream::tables_wf(new@),
        tables_best(m, es@, path@, input@.len() as int, new@),
{
    let n: usize = input.len();
    let ghost t = es@;
    let range: usize = if n < MAX_OFFS as usize {
        n + 1
    } else {
        MAX_OFFS as usize + 1
    };
    let ghost r = offs_range(n as int);
    let mut h_len: Hist = new_hist(257);
    let mut h1: Hist = new_hist(range);
    let mut h2: Hist = new_hist(range);
    let mut h3: Hist = new_hist(range);
    let mut h4: Hist = new_hist(range);
    let count: usize = path.len();
    let mut k: usize = 0;
    proof {
        substream::lemma_path_pos(input@, path@, count as int);
    }
    while k < count
        invariant
            n == input@.len(),
            n <= MAX_INPUT,
            count == path@.len(),
            k <= count <= n,
            t == es@,
            r == range,
            r == offs_range(n as int),
            substream::path_ok(input@, path@),
            subpath::model_ok(m, t),
            subenc::tally_ok(h_len@),
            subenc::tally_ok(h1@),
            subenc::tally_ok(h2@),
            subenc::tally_ok(h3@),
            subenc::tally_ok(h4@),
            h_len@.bins.len() == 257,
            h1@.bins.len() == range,
            h2@.bins.len() == range,
            h3@.bins.len() == range,
            h4@.bins.len() == range,
            subenc::sum_upto(h_len@.bins, 257) <= k,
            subenc::sum_upto(h1@.bins, range as int) <= k,
            subenc::sum_upto(h2@.bins, range as int) <= k,
            subenc::sum_upto(h3@.bins, range as int) <= k,
            subenc::sum_upto(h4@.bins, range as int) <= k,
            h_len@ == path_tally(m, t, path@, k as int, 0, 257),
            h1@ == path_tally(m, t, path@, k as int, 1, r),
            h2@ == path_tally(m, t, path@, k as int, 2, r),
            h3@ == path_tally(m, t, path@, k as int, 3, r),
            h4@ == path_tally(m, t, path@, k as int, 4, r),
            forall|l: int|
                0 <= l < 257 ==> (#[trigger] h_len@.bins[l] > 0 <==> uses_len(path@, k as int, l)),
        decreases count - k,
    {
        let ghost b0 = h_len@.bins;
        assert(substream::step_ok(
            input@,
            substream::path_pos(path@, k as int),
            path@[k as int],
        ));
        proof {
            substream::lemma_path_pos(input@, path@, k as int);
        }
        match path[k] {
            PathStep::Literal => {},
            PathStep::Match { offs, len } => {
                let lit: i64 = 9 * len as i64;
                let cost_of: i64 = 1 + m.cost_moffs(es, offs, len) as i64;
                let cost_l: i64 = 1 + m.cost_mlen(es, len) as i64;
                h_len.add(len as usize, lit - cost_of);
                if len == 1 {
                    h1.add(offs as usize, lit - cost_l);
                } else if len == 2 {
                    h2.add(offs as usize, lit - cost_l);
                } else if len == 3 {
                    h3.add(offs as usize, lit - cost_l);
                } else {
                    h4.add(offs as usize, lit - cost_l);
                }
            },
        }
        k += 1;
        assert forall|l: int| 0 <= l < 257 implies (#[trigger] h_len@.bins[l] > 0 <==> uses_len(
            path@,
            k as int,
            l,
        )) by {
            lemma_uses_next(path@, k as int, l);
            assert(b0[l] > 0 <==> uses_len(path@, k - 1, l));
            assert(b0[l] >= 0);
        }
    }
    let bitsl: Encoding = optimize_enc(&h_len, PARTS, true);
    let bits1: Encoding = optimize_enc(&h1, SINGLE_BYTE_PARTS, false);
    let bits2: Encoding = optimize_enc(&h2, PARTS, false);
    let bits3: Encoding = optimize_enc(&h3, PARTS, false);
    let bits: Encoding = optimize_enc(&h4, PARTS, false);
    let mut endm: usize = 1;
    while endm < 257 && h_len.bin[endm] != 0
        invariant
            1 <= endm <= 257,
            h_len@.bins.len() == 257,
            subenc::tally_ok(h_len@),
            forall|l: int|
                0 <= l < 257 ==> (#[trigger] h_len@.bins[l] > 0 <==> uses_len(
                    path@,
                    count as int,
                    l,
                )),
            forall|l: int| 1 <= l < endm ==> #[trigger] uses_len(path@, count as int, l),
        decreases 257 - endm,
    {
        assert(h_len@.bins[endm as int] > 0);
        endm += 1;
    }
    proof {
        if endm == 257 {
            if uses_len(path@, count as int, 257) {
                let j = choose|j: int|
                    0 <= j < count && (#[trigger] path@[j] matches PathStep::Match {
                        offs,
                        len: l,
                    } && l == 257);
                assert(substream::step_ok(input@, substream::path_pos(path@, j), path@[j]));
            }
        } else {
            assert(h_len@.bins[endm as int] == 0);
        }
    }
    EncodingSet { endm: endm as u32, bitsl, bits1, bits2, bits3, bits }
}

proof fn lemma_uses_next(path: Seq<PathStep>, k: int, l: int)
    requires
        1 <= k <= path.len(),
    ensures
        uses_len(path, k, l) <==> uses_len(path, k - 1, l) || (path[k - 1] matches PathStep::Match {
            offs,
            len,
        } && len == l),
{
    if uses_len(path, k, l) {
        let j = choose|j: int|
            0 <= j < k && (#[trigger] path[j] matches PathStep::Match { offs, len } && len == l);
        if j < k - 1 {
            assert(uses_len(path, k - 1, l));
        }
    }
    if uses_len(path, k - 1, l) {
        let j = choose|j: int|
            0 <= j < k - 1 && (#[trigger] path[j] matches PathStep::Match { offs, len } && len
                == l);
        assert(uses_len(path, k, l));
    }
}

/// Whether the tables hold every token of the path and the end marker.
fn path_encodable(path: &Vec<PathStep>, es: &EncodingSet) -> (r: bool)
    requires
        substream::tables_wf(es@),
        forall|k: int|
            0 <= k < path@.len() ==> (#[trigger] path@[k] matches PathStep::Match { offs, len }
                ==> 1 <= len && 1 <= offs),
    ensures
        r == substream::encodable(es@, path@),
{
    if es.endm < 1 || es.endm > 255 {
        return false;
    }
    proof {
        substream::lemma_code_cost(es@.lens, es@.endm);
    }
    if cost_enc(&es.bitsl, es.endm) >= ENC_FAULT {
        return false;
    }
    let count: usize = path.len();
    let mut k: usize = 0;
    while k < count
        invariant
            count == path@.len(),
            k <= count,
            substream::tables_wf(es@),
            1 <= es@.endm <= 255,
            substream::code_holds(es@.lens, es@.endm),
            forall|j: int|
                0 <= j < path@.len() ==> (#[trigger] path@[j] matches PathStep::Match { offs, len }
                    ==> 1 <= len && 1 <= offs),
            forall|j: int| 0 <= j < k ==> substream::step_encodable(es@, #[trigger] path@[j]),
        decreases count - k,
    {
        if let PathStep::Match { offs, len } = path[k] {
            proof {
                assert(path@[k as int] matches PathStep::Match { offs, len } ==> 1 <= len && 1
                    <= offs);
                substream::lemma_code_cost(es@.lens, len as int);
                substream::lemma_code_cost(substream::offs_code(es@, len as int), offs as int);
            }
            if len == es.endm || cost_enc(&es.bitsl, len) >= ENC_FAULT || cost_enc(
                es.offs_table(len),
                offs,
            ) >= ENC_FAULT {
                assert(!substream::step_encodable(es@, path@[k as int]));
                return false;
            }
        }
        k += 1;
    }
    true
}

// ---------------------------------------------------------------------------
// Trajectories
// ---------------------------------------------------------------------------
/// The path is the cheapest for some prices, and the tables are the best for
/// the path.
pub open spec fn learned_from(
    input: Seq<u8>,
    path: Seq<PathStep>,
    t: Tables,
    m: CostModel,
    t0: Tables,
) -> bool {
    &&& subpath::model_ok(m, t0)
    &&& subpath::cheapest(input, m, t0, path)
    &&& tables_best(m, t0, path, input.len() as int, t)
}

pub open spec fn learned(input: Seq<u8>, path: Seq<PathStep>, t: Tables) -> bool {
    &&& substream::tables_wf(t)
    &&& exists|m: CostModel, t0: Tables| #[trigger] learned_from(input, path, t, m, t0)
}

proof fn lemma_learned(input: Seq<u8>, path: Seq<PathStep>, t: Tables)
    requires
        learned(input, path, t),
    ensures
        substream::path_ok(input, path),
        forall|k: int|
            0 <= k < path.len() ==> (#[trigger] path[k] matches PathStep::Match { offs, len } ==> 1
                <= len && 1 <= offs),
{
    let (m, t0) = choose|m: CostModel, t0: Tables| #[trigger]
        learned_from(input, path, t, m, t0);
    subpath::lemma_edge_path_ok(input, path);
    assert forall|k: int| 0 <= k < path.len() implies (#[trigger] path[k] matches PathStep::Match {
        offs,
        len,
    } ==> 1 <= len && 1 <= offs) by {
        assert(substream::step_ok(input, substream::path_pos(path, k), path[k]));
    }
}

/// The cheapest path for the tables in `es`, which then become the best for it.
fn pass(input: &[u8], mt: &MatchTree, m: CostModel, es: &mut EncodingSet) -> (path: Vec<PathStep>)
    requires
        submatch::tree_ok(input@, *mt),
        subpath::model_ok(m, old(es)@),
    ensures
        learned(input@, path@, final(es)@),
        learned_from(input@, path@, final(es)@, m, old(es)@),
{
    let path: Vec<PathStep> = find_cheapest_path(input, mt, m, es);
    proof {
        subpath::lemma_edge_path_ok(input@, path@);
    }
    let new: EncodingSet = optimize_encoding(&path, input, m, es);
    proof {
        assert(learned_from(input@, path@, new@, m, es@));
    }
    *es = new;
    path
}

/// Passes with the tables until they stay as they are, at most `left` after the
/// path `p0` and the tables `t0`, lead to `path` and `t`.
pub open spec fn settles(
    input: Seq<u8>,
    p0: Seq<PathStep>,
    t0: Tables,
    left: int,
    path: Seq<PathStep>,
    t: Tables,
) -> bool
    decreases left,
{
    if left <= 0 {
        path == p0 && t == t0
    } else {
        exists|p1: Seq<PathStep>, t1: Tables|
            #[trigger] learned_from(input, p1, t1, CostModel::Real, t0) && if t1 == t0 {
                path == p1 && t == t1
            } else {
                settles(input, p1, t1, left - 1, path, t)
            }
    }
}

/// The same from given tables: one pass, and then at most `max` more.
pub open spec fn converges(input: Seq<u8>, t0: Tables, max: int, path: Seq<PathStep>, t: Tables) -> bool {
    exists|p1: Seq<PathStep>, t1: Tables|
        #[trigger] learned_from(input, p1, t1, CostModel::Real, t0) && settles(
            input,
            p1,
            t1,
            max,
            path,
            t,
        )
}

/// The first start: one pass with estimated prices, and then at most 16 more.
pub open spec fn first_start(input: Seq<u8>, path: Seq<PathStep>, t: Tables) -> bool {
    exists|p1: Seq<PathStep>, t1: Tables|
        #[trigger] learned_from(input, p1, t1, CostModel::Init, substream::zero_tables())
            && settles(input, p1, t1, 16, path, t)
}

/// Passes with the tables until they stay as they are, at most `max_passes`
/// after `path`.
fn settle(input: &[u8], mt: &MatchTree, es: &mut EncodingSet, path: Vec<PathStep>, max_passes: u32) -> (r: Vec<PathStep>)
    requires
        submatch::tree_ok(input@, *mt),
        learned(input@, path@, old(es)@),
    ensures
        learned(input@, r@, final(es)@),
        settles(input@, path@, old(es)@, max_passes as int, r@, final(es)@),
    decreases max_passes,
{
    if max_passes == 0 {
        return path;
    }
    let last: EncodingSet = es.copied();
    let next: Vec<PathStep> = pass(input, mt, CostModel::Real, es);
    let ghost (p1, t1) = (next@, es@);
    assert(learned_from(input@, p1, t1, CostModel::Real, old(es)@));
    if es.same(&last) {
        return next;
    }
    settle(input, mt, es, next, max_passes - 1)
}

/// Settles from given tables.
fn converge(input: &[u8], mt: &MatchTree, es: &mut EncodingSet, max_passes: u32) -> (path: Vec<PathStep>)
    requires
        submatch::tree_ok(input@, *mt),
        substream::tables_wf(old(es)@),
    ensures
        learned(input@, path@, final(es)@),
        converges(input@, old(es)@, max_passes as int, path@, final(es)@),
{
    let path: Vec<PathStep> = pass(input, mt, CostModel::Real, es);
    let ghost (p1, t1) = (path@, es@);
    assert(learned_from(input@, p1, t1, CostModel::Real, old(es)@));
    settle(input, mt, es, path, max_passes)
}

/// The first start: estimated prices, then at most 16 passes.
fn run_native(input: &[u8], mt: &MatchTree) -> (r: (Vec<PathStep>, EncodingSet))
    requires
        submatch::tree_ok(input@, *mt),
    ensures
        learned(input@, r.0@, r.1@),
        first_start(input@, r.0@, r.1@),
{
    let mut es: EncodingSet = EncodingSet::zeroed();
    let path: Vec<PathStep> = pass(input, mt, CostModel::Init, &mut es);
    let ghost (p1, t1) = (path@, es@);
    assert(learned_from(input@, p1, t1, CostModel::Init, substream::zero_tables()));
    let path: Vec<PathStep> = settle(input, mt, &mut es, path, 16);
    (path, es)
}

/// Tables from a path, with estimated prices.
fn seed_es_from_path(path: &Vec<PathStep>, input: &[u8]) -> (es: EncodingSet)
    requires
        substream::path_ok(input@, path@),
        input@.len() <= MAX_INPUT,
    ensures
        substream::tables_wf(es@),
        tables_best(
            CostModel::Init,
            substream::zero_tables(),
            path@,
            input@.len() as int,
            es@,
        ),
{
    let zero: EncodingSet = EncodingSet::zeroed();
    let es: EncodingSet = optimize_encoding(path, input, CostModel::Init, &zero);
    es
}

pub open spec fn widened(w: u8, delta: int) -> int {
    if w + delta > 15 {
        15
    } else {
        w + delta
    }
}

/// A table with every part wider by `delta`, up to 15.
fn widen(e: &Encoding, delta: u8) -> (r: Encoding)
    requires
        substream::code_wf(e@),
        delta <= 15,
    ensures
        substream::code_wf(r@),
        r@.unary == e@.unary,
        r@.parts.len() == e@.parts.len(),
        forall|k: int|
            0 <= k < r@.parts.len() ==> #[trigger] r@.parts[k] == widened(e@.parts[k], delta as int),
{
    let n: usize = e.parts.len();
    let mut parts: Vec<u8> = Vec::new();
    let mut i: usize = 0;
    while i < n
        invariant
            n == e.parts@.len(),
            i <= n,
            delta <= 15,
            substream::code_wf(e@),
            parts@.len() == i,
            forall|k: int|
                0 <= k < i ==> #[trigger] parts@[k] == widened(e@.parts[k], delta as int) && parts@[k]
                    <= 15,
        decreases n - i,
    {
        assert(e@.parts[i as int] <= 15);
        let v: u8 = e.parts[i] + delta;
        parts.push(
            if v > 15 {
                15
            } else {
                v
            },
        );
        i += 1;
    }
    Encoding { unary: e.unary, parts }
}

pub open spec fn code_widened(a: substream::Code, delta: int, b: substream::Code) -> bool {
    &&& b.unary == a.unary
    &&& b.parts.len() == a.parts.len()
    &&& forall|k: int|
        0 <= k < b.parts.len() ==> #[trigger] b.parts[k] == widened(a.parts[k], delta)
}

/// Every part of every table is wider by `delta`, up to 15.
pub open spec fn tables_widened(a: Tables, delta: int, b: Tables) -> bool {
    &&& b.endm == a.endm
    &&& code_widened(a.lens, delta, b.lens)
    &&& code_widened(a.offs1, delta, b.offs1)
    &&& code_widened(a.offs2, delta, b.offs2)
    &&& code_widened(a.offs3, delta, b.offs3)
    &&& code_widened(a.offs, delta, b.offs)
}

/// Tables with every part wider by `delta`.
fn perturb_encoding_set(src: &EncodingSet, delta: u8) -> (es: EncodingSet)
    requires
        substream::tables_wf(src@),
        delta <= 15,
    ensures
        substream::tables_wf(es@),
        tables_widened(src@, delta as int, es@),
{
    EncodingSet {
        endm: src.endm,
        bitsl: widen(&src.bitsl, delta),
        bits1: widen(&src.bits1, delta),
        bits2: widen(&src.bits2, delta),
        bits3: widen(&src.bits3, delta),
        bits: widen(&src.bits, delta),
    }
}

proof fn lemma_pos_push(path: Seq<PathStep>, x: PathStep, k: int)
    requires
        0 <= k <= path.len(),
    ensures
        substream::path_pos(path.push(x), k) == substream::path_pos(path, k),
    decreases k,
{
    if k > 0 {
        lemma_pos_push(path, x, k - 1);
        assert(path.push(x)[k - 1] == path[k - 1]);
    }
}

/// A path grows by a token that stands for the bytes where it ends.
proof fn lemma_path_push(input: Seq<u8>, path: Seq<PathStep>, x: PathStep)
    requires
        forall|k: int|
            0 <= k < path.len() ==> #[trigger] substream::step_ok(
                input,
                substream::path_pos(path, k),
                path[k],
            ),
        substream::step_ok(input, substream::path_pos(path, path.len() as int), x),
    ensures
        forall|k: int|
            0 <= k < path.push(x).len() ==> #[trigger] substream::step_ok(
                input,
                substream::path_pos(path.push(x), k),
                path.push(x)[k],
            ),
        substream::path_pos(path.push(x), path.len() as int + 1) == substream::path_pos(
            path,
            path.len() as int,
        ) + substream::step_len(x),
{
    let q = path.push(x);
    assert forall|k: int| 0 <= k < q.len() implies #[trigger] substream::step_ok(
        input,
        substream::path_pos(q, k),
        q[k],
    ) by {
        lemma_pos_push(path, x, k);
        if k < path.len() {
            assert(q[k] == path[k]);
        }
    }
    lemma_pos_push(path, x, path.len() as int);
}

/// The longest match at `p`, the nearest of several; a length of 0 stands for
/// none.
fn longest_at(input: &[u8], mt: &MatchTree, p: usize) -> (r: (u32, u32))
    requires
        submatch::tree_ok(input@, *mt),
        p < input@.len(),
    ensures
        r.1 > 0 ==> submatch::cand(input@, p as int, r.0 as int) && r.1 == submatch::mlen(
            input@,
            p as int,
            r.0 as int,
        ),
        forall|o: int|
            #[trigger] submatch::cand(input@, p as int, o) ==> submatch::mlen(input@, p as int, o)
                <= r.1,
        r.1 > 0 ==> forall|o: int| #[trigger]
            submatch::cand(input@, p as int, o) && submatch::mlen(input@, p as int, o) == r.1 ==> r.0
                <= o,
{
    let ghost pi = p as int;
    let mut best_len: u32 = 0;
    let mut best_offs: u32 = 0;
    assert(submatch::tree_at(input@, mt.groups, mt.cands@, mt.starts@, pi));
    let a: usize = mt.starts[p];
    let b: usize = mt.starts[p + 1];
    let mut j: usize = a;
    while j < b
        invariant
            a <= j <= b <= mt.cands@.len(),
            pi == p,
            submatch::cands_at(input@, mt.groups, mt.cands@, pi, a as int, b as int),
            best_len > 0 ==> submatch::cand(input@, pi, best_offs as int) && best_len
                == submatch::mlen(input@, pi, best_offs as int),
            forall|k: int|
                a <= k < j ==> (#[trigger] mt.cands@[k]).len <= best_len && (best_len > 0
                    && mt.cands@[k].len == best_len ==> best_offs <= mt.cands@[k].offs),
        decreases b - j,
    {
        let c: submatch::Cand = mt.cands[j];
        if c.len > best_len || (c.len == best_len && c.offs < best_offs) {
            best_len = c.len;
            best_offs = c.offs;
        }
        j += 1;
    }
    if p < mt.groups.id.len() && !subpath::is_held(input, p) {
        let id: usize = mt.groups.id[p] as usize;
        let rank: usize = mt.groups.rank[p] as usize;
        if rank > 0 {
            let q: u32 = mt.groups.lists[id][rank - 1];
            proof {
                assert(mt.groups.lists@[id as int]@[rank as int] == p);
                assert(mt.groups.lists@[id as int]@[rank - 1] == q);
                submatch::lemma_grouped(input@, mt.groups, pi, q as int);
            }
            let offs: u32 = p as u32 - q;
            if offs <= MAX_OFFS && (best_len < MAX_MATCH || offs < best_offs) {
                best_len = MAX_MATCH;
                best_offs = offs;
            }
        }
    }
    assert forall|o: int| #[trigger] submatch::cand(input@, pi, o) implies submatch::mlen(
        input@,
        pi,
        o,
    ) <= best_len && (best_len > 0 && submatch::mlen(input@, pi, o) == best_len ==> best_offs <= o) by {
        submatch::lemma_mlen(input@, pi, o, 0);
        if submatch::grouped(input@, mt.groups, pi, o) {
            let g = mt.groups;
            let q = pi - o;
            let id = g.id@[pi] as int;
            assert(g.id@[q] == id);
            assert(g.lists@[id]@[g.rank@[q] as int] == q);
            assert(g.lists@[id]@[g.rank@[pi] as int] == pi);
            let k = g.rank@[q] as int;
            let r = g.rank@[pi] as int;
            if k > r {
                assert(g.lists@[id]@[r] < g.lists@[id]@[k]);
            }
            assert(k < r);
            if k < r - 1 {
                assert(g.lists@[id]@[k] < g.lists@[id]@[r - 1]);
            }
        } else {
            assert(submatch::listed(mt.cands@, a as int, b as int, o));
            let k = choose|k: int| a <= k < b && (#[trigger] mt.cands@[k]).offs == o;
            assert(mt.cands@[k].len <= best_len);
        }
    }
    (best_offs, best_len)
}

/// The token of a path of longest matches at `p`: the longest match, the nearest of
/// several, or a literal byte where no match has two bytes.
pub open spec fn is_longest(input: Seq<u8>, p: int, st: PathStep) -> bool {
    match st {
        PathStep::Literal => forall|o: int| #[trigger]
            submatch::cand(input, p, o) ==> submatch::mlen(input, p, o) < 2,
        PathStep::Match { offs, len } => {
            &&& len >= 2
            &&& submatch::cand(input, p, offs as int)
            &&& len == submatch::mlen(input, p, offs as int)
            &&& forall|o: int| #[trigger]
                submatch::cand(input, p, o) ==> submatch::mlen(input, p, o) <= len && (
                submatch::mlen(input, p, o) == len ==> offs <= o)
        },
    }
}

/// A path of the longest match at every step.
pub open spec fn longest_path(input: Seq<u8>, path: Seq<PathStep>) -> bool {
    &&& substream::path_ok(input, path)
    &&& forall|k: int|
        0 <= k < path.len() ==> is_longest(
            input,
            substream::path_pos(path, k),
            #[trigger] path[k],
        )
}

/// A path of the longest match at every step.
fn greedy_path(input: &[u8], mt: &MatchTree) -> (path: Vec<PathStep>)
    requires
        submatch::tree_ok(input@, *mt),
    ensures
        longest_path(input@, path@),
{
    let n: usize = input.len();
    let mut path: Vec<PathStep> = Vec::new();
    let mut cur: usize = 0;
    while cur < n
        invariant
            n == input@.len(),
            cur <= n,
            submatch::tree_ok(input@, *mt),
            cur == substream::path_pos(path@, path@.len() as int),
            forall|k: int|
                0 <= k < path@.len() ==> #[trigger] substream::step_ok(
                    input@,
                    substream::path_pos(path@, k),
                    path@[k],
                ),
            forall|k: int|
                0 <= k < path@.len() ==> is_longest(
                    input@,
                    substream::path_pos(path@, k),
                    #[trigger] path@[k],
                ),
        decreases n - cur,
    {
        let (offs, len): (u32, u32) = longest_at(input, mt, cur);
        let st: PathStep = if len >= 2 {
            PathStep::Match { offs, len }
        } else {
            PathStep::Literal
        };
        proof {
            assert(subpath::edge(input@, cur as int, st));
            subpath::lemma_edge_ok(input@, cur as int, st);
            lemma_path_push(input@, path@, st);
            assert(is_longest(input@, cur as int, st));
            let q = path@.push(st);
            assert forall|k: int| 0 <= k < q.len() implies is_longest(
                input@,
                substream::path_pos(q, k),
                #[trigger] q[k],
            ) by {
                lemma_pos_push(path@, st, k);
                if k < path@.len() {
                    assert(q[k] == path@[k]);
                }
            }
        }
        path.push(st);
        cur = cur + if len >= 2 {
            len as usize
        } else {
            1
        };
    }
    path
}

/// Only literal bytes.
fn literal_path(input: &[u8]) -> (path: Vec<PathStep>)
    ensures
        substream::path_ok(input@, path@),
        path@ == Seq::new(input@.len(), |k: int| PathStep::Literal),
{
    let n: usize = input.len();
    let mut path: Vec<PathStep> = Vec::with_capacity(n);
    let mut i: usize = 0;
    while i < n
        invariant
            n == input@.len(),
            i <= n,
            path@.len() == i,
            i == substream::path_pos(path@, i as int),
            forall|k: int| 0 <= k < i ==> #[trigger] path@[k] == PathStep::Literal,
            forall|k: int|
                0 <= k < path@.len() ==> #[trigger] substream::step_ok(
                    input@,
                    substream::path_pos(path@, k),
                    path@[k],
                ),
        decreases n - i,
    {
        proof {
            lemma_path_push(input@, path@, PathStep::Literal);
        }
        path.push(PathStep::Literal);
        i += 1;
    }
    assert(path@ =~= Seq::new(input@.len(), |k: int| PathStep::Literal));
    path
}

// ---------------------------------------------------------------------------
// Streams
// ---------------------------------------------------------------------------
/// What a forward stream decodes to; `None` for a stream that never ends.
pub open spec fn subsizer_decoded(stream: Seq<u8>) -> Option<Seq<u8>> {
    if stream.len() == 0 {
        Some(Seq::empty())
    } else {
        match substream::sub_decoded(stream, bitio::bit_start()) {
            Some(r) => Some(r.0),
            None => None,
        }
    }
}

/// The bytes of a stream with a marker, decoded.
pub open spec fn shifted_decoded(stream: Seq<u8>) -> Option<Seq<u8>> {
    match substream::sub_decoded(substream::unshifted(stream), substream::shifted_start()) {
        Some(r) => Some(r.0),
        None => None,
    }
}

/// Bytes of a stream of `bits` bits, with one more for a marker.
pub open spec fn bytes_for(bits: int, shift: bool) -> int {
    (bits + if shift {
        1int
    } else {
        0int
    } + 7) / 8
}

/// Bits of a stream of `n` literal bytes: the end marker is length 1, in two
/// bits.
pub open spec fn literal_stream_bits(n: int) -> int {
    280 + 9 * n + 2
}

/// The size of the stream of a path; where the tables do not hold the path, of
/// literal bytes.
pub open spec fn packed_len(t: Tables, path: Seq<PathStep>, n: int, shift: bool) -> int {
    if substream::encodable(t, path) {
        bytes_for(substream::stream_bits(t, path), shift)
    } else {
        bytes_for(literal_stream_bits(n), shift)
    }
}

/// The tables of a stream of literal bytes: the end marker is length 1.
pub open spec fn literal_tables() -> Tables {
    Tables { endm: 1, ..substream::zero_tables() }
}

/// The bytes of the stream of a path; where the tables do not hold the path, of
/// literal bytes.
pub open spec fn packed_bytes(input: Seq<u8>, t: Tables, path: Seq<PathStep>, shift: bool) -> Seq<u8> {
    if substream::encodable(t, path) {
        substream::stream_bytes(input, t, path, shift)
    } else {
        substream::stream_bytes(
            input,
            literal_tables(),
            Seq::new(input.len(), |k: int| PathStep::Literal),
            shift,
        )
    }
}

/// The stream decodes to the input, and has the size of a path and tables that
/// were learned from each other.
pub open spec fn sub_packed(input: Seq<u8>, out: Seq<u8>, shift: bool) -> bool {
    &&& out.len() >= 2
    &&& (if shift {
        shifted_decoded(out)
    } else {
        subsizer_decoded(out)
    }) == Some(input)
    &&& exists|path: Seq<PathStep>, t: Tables|
        #[trigger] learned(input, path, t) && out.len() == packed_len(
            t,
            path,
            input.len() as int,
            shift,
        )
}

proof fn lemma_literal_bits(t: Tables, path: Seq<PathStep>, k: int)
    requires
        0 <= k <= path.len(),
        forall|j: int| 0 <= j < path.len() ==> #[trigger] path[j] == PathStep::Literal,
    ensures
        substream::path_bits(t, path, k) == 9 * k,
    decreases k,
{
    if k > 0 {
        lemma_literal_bits(t, path, k - 1);
        assert(path[k - 1] == PathStep::Literal);
    }
}

/// `out` is the stream of the path with the tables, from which the input comes
/// back.
pub open spec fn stream_of(
    input: Seq<u8>,
    path: Seq<PathStep>,
    t: Tables,
    out: Seq<u8>,
    shift: bool,
) -> bool {
    &&& sub_packed(input, out, shift)
    &&& out.len() == packed_len(t, path, input.len() as int, shift)
    &&& out == packed_bytes(input, t, path, shift)
}

/// The stream of a path, or of literal bytes where the tables do not hold it.
/// The second result tells whether they do.
fn generate(path: &Vec<PathStep>, input: &[u8], es: &EncodingSet, shift: bool) -> (r: (Vec<u8>, bool))
    requires
        learned(input@, path@, es@),
    ensures
        sub_packed(input@, r.0@, shift),
        r.1 == substream::encodable(es@, path@),
        r.0@.len() == packed_len(es@, path@, input@.len() as int, shift),
        r.0@ == packed_bytes(input@, es@, path@, shift),
        shift ==> r.0@[1] >= 1,
{
    proof {
        lemma_learned(input@, path@, es@);
    }
    if path_encodable(path, es) {
        return (generate_into(path, input, es, shift), true);
    }
    let lits: Vec<PathStep> = literal_path(input);
    let mut zero: EncodingSet = EncodingSet::zeroed();
    zero.endm = 1;
    proof {
        let t = zero@;
        let parts = t.lens.parts;
        substream::lemma_part_start(parts, 0, PARTS as int);
        assert(substream::code_holds(t.lens, 1));
        assert(substream::encodable(t, lits@));
        lemma_literal_bits(t, lits@, lits@.len() as int);
        substream::lemma_part_from(parts, 1, 0);
        substream::lemma_part_start(parts, 0, 1);
        assert(substream::part_start(parts, 1) >= 2);
        assert(substream::part_from(parts, 1, 0) == 0);
        assert(substream::code_cost(t.lens, 1) == 1);
    }
    (generate_into(&lits, input, &zero, shift), false)
}

/// The stream of the first start.
pub open spec fn first_stream(input: Seq<u8>, t: Tables, out: Seq<u8>, shift: bool) -> bool {
    exists|path: Seq<PathStep>| #[trigger]
        first_start(input, path, t) && stream_of(input, path, t, out, shift)
}

/// The stream of the first start.
fn crunch_normal_anchor(input: &[u8], shift: bool) -> (out: Vec<u8>)
    requires
        input@.len() <= MAX_INPUT,
    ensures
        sub_packed(input@, out@, shift),
        shift ==> out@[1] >= 1,
        exists|t: Tables| #[trigger] first_stream(input@, t, out@, shift),
{
    let mt: MatchTree = build_match(input);
    let (path, es): (Vec<PathStep>, EncodingSet) = run_native(input, &mt);
    let out: Vec<u8> = generate(&path, input, &es, shift).0;
    assert(first_start(input@, path@, es@));
    assert(first_stream(input@, es@, out@, shift));
    out
}

/// The better of `best` and the stream of a path. The second result is that
/// stream, where the tables hold the path.
fn consider(path: &Vec<PathStep>, input: &[u8], es: &EncodingSet, best: Vec<u8>) -> (r: (Vec<u8>, Ghost<Option<Seq<u8>>>))
    requires
        learned(input@, path@, es@),
        sub_packed(input@, best@, false),
    ensures
        sub_packed(input@, r.0@, false),
        r.1@ is Some <==> substream::encodable(es@, path@),
        r.1@ matches Some(s) ==> stream_of(input@, path@, es@, s, false),
        r.0@ == shorter(best@, r.1@),
{
    let (out, held): (Vec<u8>, bool) = generate(path, input, es, false);
    let ghost s = if held {
        Some(out@)
    } else {
        None
    };
    if held && out.len() < best.len() {
        (out, Ghost(s))
    } else {
        (best, Ghost(s))
    }
}

/// The shorter of a string and another one, if there is one; the first where they
/// are equally long.
pub open spec fn shorter(a: Seq<u8>, b: Option<Seq<u8>>) -> Seq<u8> {
    match b {
        Some(s) => if s.len() < a.len() {
            s
        } else {
            a
        },
        None => a,
    }
}

/// The shortest of `first` and the first `k` of the others.
pub open spec fn shortest(first: Seq<u8>, others: Seq<Option<Seq<u8>>>, k: int) -> Seq<u8>
    decreases k,
{
    if k <= 0 {
        first
    } else {
        shorter(shortest(first, others, k - 1), others[k - 1])
    }
}

proof fn lemma_shortest_prefix(first: Seq<u8>, a: Seq<Option<Seq<u8>>>, b: Seq<Option<Seq<u8>>>, k: int)
    requires
        k <= a.len(),
        k <= b.len(),
        forall|i: int| 0 <= i < k ==> a[i] == b[i],
    ensures
        shortest(first, a, k) == shortest(first, b, k),
    decreases k,
{
    if k > 0 {
        lemma_shortest_prefix(first, a, b, k - 1);
    }
}

proof fn lemma_shortest_falls(first: Seq<u8>, others: Seq<Option<Seq<u8>>>, j: int, k: int)
    requires
        0 <= j <= k,
    ensures
        shortest(first, others, k).len() <= shortest(first, others, j).len(),
    decreases k,
{
    if j < k {
        lemma_shortest_falls(first, others, j, k - 1);
    }
}

/// Passes with estimated prices, `count` of them, lead from one set of tables to
/// another.
pub open spec fn warmed(input: Seq<u8>, t0: Tables, count: int, t: Tables) -> bool
    decreases count,
{
    if count <= 0 {
        t == t0
    } else {
        exists|path: Seq<PathStep>, t1: Tables|
            #[trigger] learned_from(input, path, t, CostModel::Init, t1) && warmed(
                input,
                t0,
                count - 1,
                t1,
            )
    }
}

/// The tables that start number `k` begins with: those of the first start, those
/// for a path of longest matches, those for literals alone, those of two or three
/// passes with estimated prices, and wider ones.
pub open spec fn start_tables(input: Seq<u8>, anchor: Tables, k: int, t: Tables) -> bool {
    let n = input.len() as int;
    let zero = substream::zero_tables();
    if k == 1 {
        t == anchor
    } else if k == 2 {
        exists|path: Seq<PathStep>| #[trigger]
            longest_path(input, path) && tables_best(CostModel::Init, zero, path, n, t)
    } else if k == 3 {
        tables_best(
            CostModel::Init,
            zero,
            Seq::new(input.len(), |i: int| PathStep::Literal),
            n,
            t,
        )
    } else if k <= 5 {
        warmed(input, zero, k - 2, t)
    } else {
        tables_widened(anchor, k - 5, t)
    }
}

/// What start number `k` settles on.
pub open spec fn start_gives(
    input: Seq<u8>,
    anchor: Tables,
    k: int,
    path: Seq<PathStep>,
    t: Tables,
) -> bool {
    exists|t0: Tables| #[trigger]
        start_tables(input, anchor, k, t0) && converges(input, t0, 30, path, t)
}

/// Start number `k`, settled.
fn trajectory(input: &[u8], mt: &MatchTree, anchor: &EncodingSet, k: usize) -> (r: (Vec<PathStep>, EncodingSet))
    requires
        submatch::tree_ok(input@, *mt),
        substream::tables_wf(anchor@),
        1 <= k < NUM_SEEDS,
    ensures
        learned(input@, r.0@, r.1@),
        start_gives(input@, anchor@, k as int, r.0@, r.1@),
{
    let mut es: EncodingSet = if k == 1 {
        anchor.copied()
    } else if k == 2 {
        let path: Vec<PathStep> = greedy_path(input, mt);
        seed_es_from_path(&path, input)
    } else if k == 3 {
        let path: Vec<PathStep> = literal_path(input);
        seed_es_from_path(&path, input)
    } else if k <= 5 {
        let mut warm: EncodingSet = EncodingSet::zeroed();
        let mut i: usize = 0;
        while i < k - 2
            invariant
                submatch::tree_ok(input@, *mt),
                substream::tables_wf(warm@),
                4 <= k <= 5,
                i <= k - 2,
                warmed(input@, substream::zero_tables(), i as int, warm@),
            decreases k - 2 - i,
        {
            let ghost t1 = warm@;
            let _path: Vec<PathStep> = pass(input, mt, CostModel::Init, &mut warm);
            assert(learned_from(input@, _path@, warm@, CostModel::Init, t1));
            i += 1;
        }
        warm
    } else {
        perturb_encoding_set(anchor, (k - 5) as u8)
    };
    let ghost t0 = es@;
    assert(start_tables(input@, anchor@, k as int, t0));
    let path: Vec<PathStep> = converge(input, mt, &mut es, 30);
    (path, es)
}

/// The stream of start number `k`, if the tables that it settles on hold its path.
pub open spec fn start_stream(input: Seq<u8>, anchor: Tables, k: int, s: Option<Seq<u8>>) -> bool {
    exists|path: Seq<PathStep>, t: Tables|
        {
            &&& #[trigger] start_gives(input, anchor, k, path, t)
            &&& s is Some <==> substream::encodable(t, path)
            &&& s matches Some(out) ==> stream_of(input, path, t, out, false)
        }
}

/// The streams of the starts behind the first.
pub open spec fn start_streams(input: Seq<u8>, anchor: Tables, others: Seq<Option<Seq<u8>>>) -> bool {
    forall|k: int|
        0 <= k < others.len() ==> start_stream(input, anchor, k + 1, #[trigger] others[k])
}

/// `out` is the shortest of the streams of the first `seeds` starts, the first of
/// them where several are equally short.
#[verifier::opaque]
pub open spec fn seeds_stream(input: Seq<u8>, seeds: int, out: Seq<u8>) -> bool {
    exists|t: Tables, first: Seq<u8>, others: Seq<Option<Seq<u8>>>|
        {
            &&& #[trigger] first_stream(input, t, first, false)
            &&& #[trigger] start_streams(input, t, others)
            &&& others.len() == seeds - 1
            &&& out == shortest(first, others, seeds - 1)
        }
}

/// At least one start and at most all.
pub open spec fn clamped_seeds(seeds: int) -> int {
    if seeds < 1 {
        1
    } else if seeds > NUM_SEEDS {
        NUM_SEEDS as int
    } else {
        seeds
    }
}

/// The tables for a path are the only ones.
proof fn lemma_one_tables(m: CostModel, t: Tables, path: Seq<PathStep>, n: int, a: Tables, b: Tables)
    requires
        tables_best(m, t, path, n, a),
        tables_best(m, t, path, n, b),
    ensures
        a == b,
{
    let k = path.len() as int;
    let r = offs_range(n);
    subenc::lemma_one_table(path_tally(m, t, path, k, 0, 257), true, a.lens.parts, b.lens.parts);
    subenc::lemma_one_table(path_tally(m, t, path, k, 1, r), false, a.offs1.parts, b.offs1.parts);
    subenc::lemma_one_table(path_tally(m, t, path, k, 2, r), false, a.offs2.parts, b.offs2.parts);
    subenc::lemma_one_table(path_tally(m, t, path, k, 3, r), false, a.offs3.parts, b.offs3.parts);
    subenc::lemma_one_table(path_tally(m, t, path, k, 4, r), false, a.offs.parts, b.offs.parts);
    if a.endm < b.endm {
        assert(uses_len(path, k, a.endm));
    } else if b.endm < a.endm {
        assert(uses_len(path, k, b.endm));
    }
}

/// A pass leads to one path and one set of tables.
proof fn lemma_one_pass(
    input: Seq<u8>,
    m: CostModel,
    t0: Tables,
    p: Seq<PathStep>,
    t: Tables,
    q: Seq<PathStep>,
    u: Tables,
)
    requires
        learned_from(input, p, t, m, t0),
        learned_from(input, q, u, m, t0),
    ensures
        p == q,
        t == u,
{
    subpath::lemma_one_path(input, m, t0, p, q);
    lemma_one_tables(m, t0, p, input.len() as int, t, u);
}

proof fn lemma_one_settled(
    input: Seq<u8>,
    p0: Seq<PathStep>,
    t0: Tables,
    left: int,
    p: Seq<PathStep>,
    t: Tables,
    q: Seq<PathStep>,
    u: Tables,
)
    requires
        settles(input, p0, t0, left, p, t),
        settles(input, p0, t0, left, q, u),
    ensures
        p == q,
        t == u,
    decreases left,
{
    if left > 0 {
        let (p1, t1) = choose|p1: Seq<PathStep>, t1: Tables|
            #[trigger] learned_from(input, p1, t1, CostModel::Real, t0) && if t1 == t0 {
                p == p1 && t == t1
            } else {
                settles(input, p1, t1, left - 1, p, t)
            };
        let (q1, u1) = choose|q1: Seq<PathStep>, u1: Tables|
            #[trigger] learned_from(input, q1, u1, CostModel::Real, t0) && if u1 == t0 {
                q == q1 && u == u1
            } else {
                settles(input, q1, u1, left - 1, q, u)
            };
        lemma_one_pass(input, CostModel::Real, t0, p1, t1, q1, u1);
        if t1 != t0 {
            lemma_one_settled(input, p1, t1, left - 1, p, t, q, u);
        }
    }
}

proof fn lemma_one_converged(
    input: Seq<u8>,
    t0: Tables,
    max: int,
    p: Seq<PathStep>,
    t: Tables,
    q: Seq<PathStep>,
    u: Tables,
)
    requires
        converges(input, t0, max, p, t),
        converges(input, t0, max, q, u),
    ensures
        p == q,
        t == u,
{
    let (p1, t1) = choose|p1: Seq<PathStep>, t1: Tables|
        #[trigger] learned_from(input, p1, t1, CostModel::Real, t0) && settles(
            input,
            p1,
            t1,
            max,
            p,
            t,
        );
    let (q1, u1) = choose|q1: Seq<PathStep>, u1: Tables|
        #[trigger] learned_from(input, q1, u1, CostModel::Real, t0) && settles(
            input,
            q1,
            u1,
            max,
            q,
            u,
        );
    lemma_one_pass(input, CostModel::Real, t0, p1, t1, q1, u1);
    lemma_one_settled(input, p1, t1, max, p, t, q, u);
}

proof fn lemma_one_first_start(
    input: Seq<u8>,
    p: Seq<PathStep>,
    t: Tables,
    q: Seq<PathStep>,
    u: Tables,
)
    requires
        first_start(input, p, t),
        first_start(input, q, u),
    ensures
        p == q,
        t == u,
{
    let zero = substream::zero_tables();
    let (p1, t1) = choose|p1: Seq<PathStep>, t1: Tables|
        #[trigger] learned_from(input, p1, t1, CostModel::Init, zero) && settles(
            input,
            p1,
            t1,
            16,
            p,
            t,
        );
    let (q1, u1) = choose|q1: Seq<PathStep>, u1: Tables|
        #[trigger] learned_from(input, q1, u1, CostModel::Init, zero) && settles(
            input,
            q1,
            u1,
            16,
            q,
            u,
        );
    lemma_one_pass(input, CostModel::Init, zero, p1, t1, q1, u1);
    lemma_one_settled(input, p1, t1, 16, p, t, q, u);
}

proof fn lemma_one_warmed(input: Seq<u8>, t0: Tables, count: int, t: Tables, u: Tables)
    requires
        warmed(input, t0, count, t),
        warmed(input, t0, count, u),
    ensures
        t == u,
    decreases count,
{
    if count > 0 {
        let (p, t1) = choose|path: Seq<PathStep>, t1: Tables|
            #[trigger] learned_from(input, path, t, CostModel::Init, t1) && warmed(
                input,
                t0,
                count - 1,
                t1,
            );
        let (q, u1) = choose|path: Seq<PathStep>, t1: Tables|
            #[trigger] learned_from(input, path, u, CostModel::Init, t1) && warmed(
                input,
                t0,
                count - 1,
                t1,
            );
        lemma_one_warmed(input, t0, count - 1, t1, u1);
        lemma_one_pass(input, CostModel::Init, t1, p, t, q, u);
    }
}

proof fn lemma_one_longest(input: Seq<u8>, a: Seq<PathStep>, b: Seq<PathStep>, k: int)
    requires
        longest_path(input, a),
        longest_path(input, b),
        0 <= k <= a.len(),
        k <= b.len(),
        a.take(k) == b.take(k),
        substream::path_pos(a, k) == substream::path_pos(b, k),
    ensures
        a == b,
    decreases a.len() - k,
{
    let p = substream::path_pos(a, k);
    if k < a.len() {
        assert(substream::step_ok(input, p, a[k]));
    }
    if k < b.len() {
        assert(substream::step_ok(input, p, b[k]));
    }
    if k < a.len() && k < b.len() {
        assert(is_longest(input, p, a[k]) && is_longest(input, p, b[k]));
        if let PathStep::Match { offs, len } = a[k] {
            assert(submatch::cand(input, p, offs as int));
            if let PathStep::Match { offs: o, len: l } = b[k] {
                assert(submatch::cand(input, p, o as int));
            }
        } else if let PathStep::Match { offs: o, len: l } = b[k] {
            assert(submatch::cand(input, p, o as int));
        }
        assert(a[k] == b[k]);
        assert(a.take(k + 1) =~= a.take(k).push(a[k]));
        assert(b.take(k + 1) =~= b.take(k).push(b[k]));
        lemma_one_longest(input, a, b, k + 1);
    } else {
        if k < a.len() {
            substream::lemma_path_pos(input, a, k + 1);
        }
        if k < b.len() {
            substream::lemma_path_pos(input, b, k + 1);
        }
        assert(k == a.len() && k == b.len());
        assert(a.take(k) =~= a);
        assert(b.take(k) =~= b);
    }
}

proof fn lemma_one_start(
    input: Seq<u8>,
    anchor: Tables,
    k: int,
    p: Seq<PathStep>,
    t: Tables,
    q: Seq<PathStep>,
    u: Tables,
)
    requires
        start_gives(input, anchor, k, p, t),
        start_gives(input, anchor, k, q, u),
    ensures
        p == q,
        t == u,
{
    let a = choose|t0: Tables| #[trigger]
        start_tables(input, anchor, k, t0) && converges(input, t0, 30, p, t);
    let b = choose|t0: Tables| #[trigger]
        start_tables(input, anchor, k, t0) && converges(input, t0, 30, q, u);
    let n = input.len() as int;
    let zero = substream::zero_tables();
    if k == 1 {
    } else if k == 2 {
        let x = choose|path: Seq<PathStep>| #[trigger]
            longest_path(input, path) && tables_best(CostModel::Init, zero, path, n, a);
        let y = choose|path: Seq<PathStep>| #[trigger]
            longest_path(input, path) && tables_best(CostModel::Init, zero, path, n, b);
        assert(x.take(0) =~= y.take(0));
        lemma_one_longest(input, x, y, 0);
        lemma_one_tables(CostModel::Init, zero, x, n, a, b);
    } else if k == 3 {
        lemma_one_tables(
            CostModel::Init,
            zero,
            Seq::new(input.len(), |i: int| PathStep::Literal),
            n,
            a,
            b,
        );
    } else if k <= 5 {
        lemma_one_warmed(input, zero, k - 2, a, b);
    } else {
        assert(a.lens.parts =~= b.lens.parts);
        assert(a.offs1.parts =~= b.offs1.parts);
        assert(a.offs2.parts =~= b.offs2.parts);
        assert(a.offs3.parts =~= b.offs3.parts);
        assert(a.offs.parts =~= b.offs.parts);
    }
    assert(a == b);
    lemma_one_converged(input, a, 30, p, t, q, u);
}

/// The first start gives one stream.
pub proof fn lemma_one_first_stream(
    input: Seq<u8>,
    t: Tables,
    a: Seq<u8>,
    u: Tables,
    b: Seq<u8>,
    shift: bool,
)
    requires
        first_stream(input, t, a, shift),
        first_stream(input, u, b, shift),
    ensures
        t == u,
        a == b,
{
    let p = choose|path: Seq<PathStep>| #[trigger]
        first_start(input, path, t) && stream_of(input, path, t, a, shift);
    let q = choose|path: Seq<PathStep>| #[trigger]
        first_start(input, path, u) && stream_of(input, path, u, b, shift);
    lemma_one_first_start(input, p, t, q, u);
}

/// A number of starts gives one stream of an input: what is compressed again is
/// the same.
pub proof fn lemma_one_stream(input: Seq<u8>, seeds: int, a: Seq<u8>, b: Seq<u8>)
    requires
        seeds_stream(input, seeds, a),
        seeds_stream(input, seeds, b),
    ensures
        a == b,
{
    reveal(seeds_stream);
    let (t, first, others) = choose|t: Tables, first: Seq<u8>, others: Seq<Option<Seq<u8>>>|
        {
            &&& #[trigger] first_stream(input, t, first, false)
            &&& #[trigger] start_streams(input, t, others)
            &&& others.len() == seeds - 1
            &&& a == shortest(first, others, seeds - 1)
        };
    let (u, one, more) = choose|t: Tables, first: Seq<u8>, others: Seq<Option<Seq<u8>>>|
        {
            &&& #[trigger] first_stream(input, t, first, false)
            &&& #[trigger] start_streams(input, t, others)
            &&& others.len() == seeds - 1
            &&& b == shortest(first, others, seeds - 1)
        };
    lemma_one_first_stream(input, t, first, u, one, false);
    assert forall|k: int| 0 <= k < others.len() implies others[k] == more[k] by {
        assert(start_stream(input, t, k + 1, others[k]));
        assert(start_stream(input, t, k + 1, more[k]));
        let (x, v) = choose|path: Seq<PathStep>, v: Tables|
            {
                &&& #[trigger] start_gives(input, t, k + 1, path, v)
                &&& others[k] is Some <==> substream::encodable(v, path)
                &&& others[k] matches Some(out) ==> stream_of(input, path, v, out, false)
            };
        let (y, w) = choose|path: Seq<PathStep>, v: Tables|
            {
                &&& #[trigger] start_gives(input, t, k + 1, path, v)
                &&& more[k] is Some <==> substream::encodable(v, path)
                &&& more[k] matches Some(out) ==> stream_of(input, path, v, out, false)
            };
        lemma_one_start(input, t, k + 1, x, v, y, w);
    }
    assert(others =~= more);
}

/// With more starts a stream is no longer than with fewer.
pub proof fn lemma_more_starts(input: Seq<u8>, a: int, b: int, fewer: Seq<u8>, more: Seq<u8>)
    requires
        1 <= a <= b,
        seeds_stream(input, a, fewer),
        seeds_stream(input, b, more),
    ensures
        more.len() <= fewer.len(),
{
    lemma_more_seeds_no_longer(input, a, b, more);
    let x = choose|x: Seq<u8>| #[trigger] seeds_stream(input, a, x) && more.len() <= x.len();
    lemma_one_stream(input, a, x, fewer);
}

/// With more starts a stream is no longer than one with fewer.
proof fn lemma_more_seeds_no_longer(input: Seq<u8>, a: int, b: int, out: Seq<u8>)
    requires
        1 <= a <= b,
        seeds_stream(input, b, out),
    ensures
        exists|fewer: Seq<u8>| #[trigger] seeds_stream(input, a, fewer) && out.len() <= fewer.len(),
{
    reveal(seeds_stream);
    let (t, first, others) = choose|t: Tables, first: Seq<u8>, others: Seq<Option<Seq<u8>>>|
        {
            &&& #[trigger] first_stream(input, t, first, false)
            &&& #[trigger] start_streams(input, t, others)
            &&& others.len() == b - 1
            &&& out == shortest(first, others, b - 1)
        };
    let some = others.take(a - 1);
    let fewer = shortest(first, some, a - 1);
    lemma_shortest_prefix(first, others, some, a - 1);
    lemma_shortest_falls(first, others, a - 1, b - 1);
    assert(start_streams(input, t, some)) by {
        assert forall|k: int| 0 <= k < some.len() implies start_stream(
            input,
            t,
            k + 1,
            #[trigger] some[k],
        ) by {
            assert(others[k] == some[k]);
        }
    }
    assert(seeds_stream(input, a, fewer));
}

/// The shortest of `best` and the streams of the starts from 1 up to `seeds`.
fn best_of(input: &[u8], mt: &MatchTree, anchor: &EncodingSet, best: Vec<u8>, seeds: usize) -> (out: Vec<u8>)
    requires
        submatch::tree_ok(input@, *mt),
        substream::tables_wf(anchor@),
        1 <= seeds <= NUM_SEEDS,
        sub_packed(input@, best@, false),
    ensures
        sub_packed(input@, out@, false),
        exists|others: Seq<Option<Seq<u8>>>|
            {
                &&& #[trigger] start_streams(input@, anchor@, others)
                &&& others.len() == seeds - 1
                &&& out@ == shortest(best@, others, seeds - 1)
            },
{
    let ghost first = best@;
    let mut best: Vec<u8> = best;
    let ghost mut others = Seq::<Option<Seq<u8>>>::empty();
    let mut k: usize = 1;
    while k < seeds
        invariant
            submatch::tree_ok(input@, *mt),
            substream::tables_wf(anchor@),
            1 <= k <= seeds <= NUM_SEEDS,
            sub_packed(input@, best@, false),
            others.len() == k - 1,
            start_streams(input@, anchor@, others),
            best@ == shortest(first, others, k - 1),
        decreases seeds - k,
    {
        let (p, e): (Vec<PathStep>, EncodingSet) = trajectory(input, mt, anchor, k);
        let (next, stream) = consider(&p, input, &e, best);
        proof {
            let more = others.push(stream@);
            assert(start_gives(input@, anchor@, k as int, p@, e@));
            assert forall|j: int| 0 <= j < more.len() implies start_stream(
                input@,
                anchor@,
                j + 1,
                #[trigger] more[j],
            ) by {
                if j < k - 1 {
                    assert(more[j] == others[j]);
                }
            }
            lemma_shortest_prefix(first, others, more, k - 1);
            others = more;
        }
        best = next;
        k += 1;
    }
    best
}

/// The shortest stream of the first `seeds` starts. The first start is always
/// among them.
fn crunch_normal_int_seeds(input: &[u8], seeds: usize) -> (out: Vec<u8>)
    requires
        input@.len() <= MAX_INPUT,
    ensures
        sub_packed(input@, out@, false),
        seeds_stream(input@, clamped_seeds(seeds as int), out@),
{
    let seeds: usize = if seeds < 1 {
        1
    } else if seeds > NUM_SEEDS {
        NUM_SEEDS
    } else {
        seeds
    };
    let mt: MatchTree = build_match(input);
    let (path, es): (Vec<PathStep>, EncodingSet) = run_native(input, &mt);
    let anchor: Vec<u8> = generate(&path, input, &es, false).0;
    proof {
        reveal(seeds_stream);
        assert(first_start(input@, path@, es@));
        assert(first_stream(input@, es@, anchor@, false));
    }
    best_of(input, &mt, &es, anchor, seeds)
}

// ---------------------------------------------------------------------------
// Streams with a marker
// ---------------------------------------------------------------------------
pub open spec fn byte_after(b: u8) -> u8 {
    if b == 255 {
        0
    } else {
        (b + 1) as u8
    }
}

/// The stream inside a container: its first byte stands fourth from the end,
/// its end marker, less one, is the last byte, and the rest stands in front in
/// reverse.
pub open spec fn marker_inner(s: Seq<u8>) -> Seq<u8> {
    let n = s.len() as int;
    seq![s[n - 4], byte_after(s[n - 1])] + s.take(n - 4).reverse()
}

/// What a container decodes to: the stream in it gives the output in reverse.
pub open spec fn marker_decoded(s: Seq<u8>) -> Option<Seq<u8>> {
    if s.len() < 4 {
        Some(Seq::empty())
    } else {
        match shifted_decoded(marker_inner(s)) {
            Some(o) => Some(o.reverse()),
            None => None,
        }
    }
}

fn unwrap_marker(stream: &[u8]) -> (inner: Vec<u8>)
    requires
        stream@.len() >= 4,
    ensures
        inner@ == marker_inner(stream@),
{
    let n: usize = stream.len();
    let mut inner: Vec<u8> = Vec::with_capacity(n - 2);
    inner.push(stream[n - 4]);
    let last: u8 = stream[n - 1];
    inner.push(
        if last == 255 {
            0
        } else {
            last + 1
        },
    );
    let mut i: usize = n - 4;
    while i > 0
        invariant
            n == stream@.len(),
            n >= 4,
            i <= n - 4,
            inner@.len() == 2 + (n - 4 - i),
            inner@[0] == stream@[n - 4],
            inner@[1] == byte_after(stream@[n - 1]),
            forall|k: int| 2 <= k < inner@.len() ==> #[trigger] inner@[k] == stream@[n - 5 - (k - 2)],
        decreases i,
    {
        i -= 1;
        inner.push(stream[i]);
    }
    assert(inner@ =~= marker_inner(stream@));
    inner
}

/// The container of a stream.
fn wrap_marker(stream: &[u8], dest_end: u16) -> (out: Vec<u8>)
    requires
        stream@.len() >= 2,
        stream@[1] >= 1,
    ensures
        out@.len() == stream@.len() + 2,
        marker_inner(out@) == stream@,
        out@[out@.len() - 3] + 256 * out@[out@.len() - 2] == dest_end,
{
    let n: usize = stream.len();
    let mut out: Vec<u8> = Vec::new();
    let mut i: usize = n;
    while i > 2
        invariant
            n == stream@.len(),
            2 <= i <= n,
            out@.len() == n - i,
            forall|k: int| 0 <= k < out@.len() ==> #[trigger] out@[k] == stream@[n - 1 - k],
        decreases i,
    {
        i -= 1;
        out.push(stream[i]);
    }
    out.push(stream[0]);
    out.push((dest_end % 256) as u8);
    out.push((dest_end / 256) as u8);
    out.push(stream[1] - 1);
    proof {
        let m = out@.len() as int;
        assert(m == n + 2);
        assert forall|k: int| 0 <= k < n implies marker_inner(out@)[k] == stream@[k] by {
            if k >= 2 {
                assert(marker_inner(out@)[k] == out@.take(m - 4).reverse()[k - 2]);
                assert(out@.take(m - 4).reverse()[k - 2] == out@[m - 5 - (k - 2)]);
            }
        }
        assert(marker_inner(out@) =~= stream@);
    }
    out
}

/// `out` is the container of an input whose decoder writes downwards from `end`.
pub open spec fn marker_at(input: Seq<u8>, end: u16, out: Seq<u8>) -> bool {
    &&& out.len() >= 4
    &&& out[out.len() - 3] + 256 * out[out.len() - 2] == end
    &&& exists|s: Seq<u8>, t: Tables|
        #[trigger] first_stream(input.reverse(), t, s, true) && out.len() == s.len() + 2
            && marker_inner(out) == s
}

/// A container of the input, whose decoder writes downwards from `dest_end`.
fn crunch_normal_marker_int(input: &[u8], dest_end: u16) -> (out: Vec<u8>)
    requires
        input@.len() <= MAX_INPUT,
    ensures
        marker_decoded(out@) == Some(input@),
        marker_at(input@, dest_end, out@),
{
    let rev: Vec<u8> = reversed(input);
    let stream: Vec<u8> = crunch_normal_anchor(rev.as_slice(), true);
    let out: Vec<u8> = wrap_marker(stream.as_slice(), dest_end);
    proof {
        assert(sub_packed(input@.reverse(), stream@, true));
        lz::lemma_reverse_twice(input@);
    }
    out
}

// ---------------------------------------------------------------------------
// Interface
// ---------------------------------------------------------------------------
/// The order of a stream or of an input, reversed where it is backward.
pub open spec fn sub_order(s: Seq<u8>, backward: bool) -> Seq<u8> {
    if backward {
        s.reverse()
    } else {
        s
    }
}

/// The forward or backward stream of the input: nothing for nothing.
pub open spec fn sub_compressed(input: Seq<u8>, out: Seq<u8>, backward: bool) -> bool {
    if input.len() == 0 {
        out.len() == 0
    } else {
        sub_packed(sub_order(input, backward), sub_order(out, backward), false)
    }
}

/// The same of a number of starts.
pub open spec fn sub_compressed_by(input: Seq<u8>, seeds: int, out: Seq<u8>, backward: bool) -> bool {
    &&& sub_compressed(input, out, backward)
    &&& input.len() > 0 ==> seeds_stream(
        sub_order(input, backward),
        clamped_seeds(seeds),
        sub_order(out, backward),
    )
}

/// How many starts a level follows.
pub open spec fn level_seeds(level: u8) -> int {
    if level <= 1 {
        1
    } else {
        NUM_SEEDS as int
    }
}

/// A stream of level 2 is no longer than that of level 1, in either direction.
pub proof fn lemma_level_two_no_longer(
    input: Seq<u8>,
    one: Seq<u8>,
    two: Seq<u8>,
    backward: bool,
)
    requires
        sub_compressed_by(input, level_seeds(1), one, backward),
        sub_compressed_by(input, level_seeds(2), two, backward),
    ensures
        two.len() <= one.len(),
{
    if input.len() > 0 {
        lemma_more_starts(
            sub_order(input, backward),
            1,
            NUM_SEEDS as int,
            sub_order(one, backward),
            sub_order(two, backward),
        );
    }
}

/// Levels above 2 are level 2, and more starts than there are, are all: what
/// follows the same starts is the same.
pub proof fn lemma_same_starts(
    input: Seq<u8>,
    a: int,
    b: int,
    x: Seq<u8>,
    y: Seq<u8>,
    backward: bool,
)
    requires
        clamped_seeds(a) == clamped_seeds(b),
        sub_compressed_by(input, a, x, backward),
        sub_compressed_by(input, b, y, backward),
    ensures
        x == y,
{
    if input.len() > 0 {
        lemma_one_stream(
            sub_order(input, backward),
            clamped_seeds(a),
            sub_order(x, backward),
            sub_order(y, backward),
        );
        lz::lemma_reverse_twice(x);
        lz::lemma_reverse_twice(y);
    } else {
        assert(x =~= y);
    }
}

/// The backward stream is the forward stream of the reversed input, turned round.
pub proof fn lemma_backward_is_mirrored(input: Seq<u8>, seeds: int, back: Seq<u8>, fwd: Seq<u8>)
    requires
        sub_compressed_by(input, seeds, back, true),
        sub_compressed_by(input.reverse(), seeds, fwd, false),
    ensures
        back == fwd.reverse(),
{
    if input.len() > 0 {
        lemma_one_stream(input.reverse(), clamped_seeds(seeds), back.reverse(), fwd);
        lz::lemma_reverse_twice(back);
    } else {
        assert(back =~= fwd.reverse());
    }
}

/// A compressed input decodes to itself.
pub proof fn lemma_subsizer_roundtrip(input: Seq<u8>, out: Seq<u8>, backward: bool)
    requires
        sub_compressed(input, out, backward),
    ensures
        subsizer_decoded(sub_order(out, backward)) matches Some(o) && sub_order(o, backward)
            == input,
{
    lz::lemma_reverse_twice(input);
    if input.len() == 0 {
        assert(sub_order(Seq::<u8>::empty(), backward) =~= input);
    }
}

fn crunch(input: &[u8], seeds: usize, backward: bool) -> (out: Vec<u8>)
    requires
        input@.len() <= MAX_INPUT,
    ensures
        sub_compressed_by(input@, seeds as int, out@, backward),
{
    if input.len() == 0 {
        return Vec::new();
    }
    if !backward {
        return crunch_normal_int_seeds(input, seeds);
    }
    let rev: Vec<u8> = reversed(input);
    let out: Vec<u8> = crunch_normal_int_seeds(rev.as_slice(), seeds);
    let r: Vec<u8> = reversed(out.as_slice());
    proof {
        lz::lemma_reverse_twice(out@);
    }
    r
}

/// Compresses to a forward stream, the best of all starts.
pub fn compress_subsizer(input: &[u8]) -> (out: Vec<u8>)
    requires
        input@.len() <= MAX_INPUT,
    ensures
        sub_compressed_by(input@, NUM_SEEDS as int, out@, false),
{
    crunch(input, NUM_SEEDS, false)
}

/// Compresses to a backward stream, the best of all starts.
pub fn compress_subsizer_backward(input: &[u8]) -> (out: Vec<u8>)
    requires
        input@.len() <= MAX_INPUT,
    ensures
        sub_compressed_by(input@, NUM_SEEDS as int, out@, true),
{
    crunch(input, NUM_SEEDS, true)
}

/// Compresses to a container for a decoder that runs in place: it writes the
/// output downwards, ending just below `dest_end`.
pub fn compress_subsizer_marker_at(input: &[u8], dest_end: u16) -> (out: Vec<u8>)
    requires
        input@.len() <= MAX_INPUT,
    ensures
        marker_decoded(out@) == Some(input@),
        input@.len() == 0 ==> out@.len() == 0,
        input@.len() > 0 ==> marker_at(input@, dest_end, out@),
{
    if input.len() == 0 {
        assert(Seq::<u8>::empty() =~= input@);
        return Vec::new();
    }
    crunch_normal_marker_int(input, dest_end)
}

/// The same for an output at address 0, of the low 16 bits of its length.
pub fn compress_subsizer_marker(input: &[u8]) -> (out: Vec<u8>)
    requires
        input@.len() <= MAX_INPUT,
    ensures
        marker_decoded(out@) == Some(input@),
        input@.len() == 0 ==> out@.len() == 0,
        input@.len() > 0 ==> marker_at(input@, (input@.len() % 65536) as u16, out@),
{
    compress_subsizer_marker_at(input, (input.len() % 65536) as u16)
}

/// Decodes a container.
pub fn decompress_subsizer_marker(stream: &[u8]) -> (out: Vec<u8>)
    requires
        marker_decoded(stream@) is Some,
    ensures
        Some(out@) == marker_decoded(stream@),
{
    if stream.len() < 4 {
        return Vec::new();
    }
    let inner: Vec<u8> = unwrap_marker(stream);
    let r: (Vec<u8>, i128) = decode_shifted(inner);
    reversed(r.0.as_slice())
}

/// Decodes a stream with a marker.
fn decode_shifted(inner: Vec<u8>) -> (r: (Vec<u8>, i128))
    requires
        inner@.len() >= 1,
        substream::sub_decoded(substream::unshifted(inner@), substream::shifted_start()) is Some,
    ensures
        substream::sub_decoded(substream::unshifted(inner@), substream::shifted_start()) == Some(
            (r.0@, r.1 as int),
        ),
        0 <= r.1 <= r.0@.len(),
{
    let mut inner: Vec<u8> = inner;
    let ghost whole = inner@;
    let b: u8 = inner[0];
    inner.set(0, b >> 1u8);
    assert(inner@ == substream::unshifted(whole));
    let mut r: BitReader = BitReader::new(inner.as_slice());
    let _marker: u32 = r.read_bit();
    assert(r.st() == substream::shifted_start());
    decode_from(&mut r)
}

/// Compresses at `level`: 1 and below follow one start, others all.
pub fn compress(input: &[u8], level: u8, backward: bool) -> (out: Vec<u8>)
    requires
        input@.len() <= MAX_INPUT,
    ensures
        sub_compressed_by(input@, level_seeds(level), out@, backward),
{
    if level <= 1 {
        crunch(input, 1, backward)
    } else {
        crunch(input, NUM_SEEDS, backward)
    }
}

/// Compresses with the first `seeds` starts, at least one and at most all.
pub fn compress_native(input: &[u8], seeds: usize, backward: bool) -> (out: Vec<u8>)
    requires
        input@.len() <= MAX_INPUT,
    ensures
        sub_compressed_by(input@, seeds as int, out@, backward),
{
    crunch(input, seeds, backward)
}

/// Decompresses a forward stream.
pub fn decompress_subsizer(input: &[u8]) -> (out: Vec<u8>)
    requires
        subsizer_decoded(input@) is Some,
    ensures
        Some(out@) == subsizer_decoded(input@),
{
    if input.len() == 0 {
        return Vec::new();
    }
    let mut r: BitReader = BitReader::new(input);
    decode_from(&mut r).0
}

/// Decompresses a backward stream.
pub fn decompress_subsizer_backward(input: &[u8]) -> (out: Vec<u8>)
    requires
        subsizer_decoded(input@.reverse()) is Some,
    ensures
        subsizer_decoded(input@.reverse()) matches Some(o) && out@ == o.reverse(),
{
    let rev: Vec<u8> = reversed(input);
    let out: Vec<u8> = decompress_subsizer(rev.as_slice());
    reversed(out.as_slice())
}

/// Decompresses a forward or backward stream.
pub fn decompress(input: &[u8], backward: bool) -> (out: Vec<u8>)
    requires
        subsizer_decoded(sub_order(input@, backward)) is Some,
    ensures
        subsizer_decoded(sub_order(input@, backward)) matches Some(o) && out@ == sub_order(
            o,
            backward,
        ),
{
    if backward {
        decompress_subsizer_backward(input)
    } else {
        decompress_subsizer(input)
    }
}

/// In-place gap of a decoded stream of `n` bytes.
fn gap_of(r: &(Vec<u8>, i128), n: usize) -> (gap: usize)
    requires
        0 <= r.1 <= r.0@.len(),
    ensures
        gap == substream::sub_gap((r.0@, r.1 as int), n as int),
        gap <= n,
{
    let end: i128 = r.0.len() as i128 - n as i128;
    if r.1 > end {
        (r.1 - end) as usize
    } else {
        0
    }
}

/// In-place gap of a forward stream: how far the output may run ahead of the
/// bytes taken, against where both end.
pub fn max_gap_forward(stream: &[u8]) -> (gap: usize)
    requires
        subsizer_decoded(stream@) is Some,
    ensures
        stream@.len() == 0 ==> gap == 0,
        stream@.len() > 0 ==> (substream::sub_decoded(stream@, bitio::bit_start()) matches Some(r)
            && gap == substream::sub_gap(r, stream@.len() as int)),
        gap <= stream@.len(),
{
    let n: usize = stream.len();
    if n == 0 {
        return 0;
    }
    let mut r: BitReader = BitReader::new(stream);
    let res: (Vec<u8>, i128) = decode_from(&mut r);
    gap_of(&res, n)
}

/// In-place gap of a container.
pub fn max_gap_backward(stream: &[u8]) -> (gap: usize)
    requires
        marker_decoded(stream@) is Some,
    ensures
        stream@.len() < 4 ==> gap == 0,
        stream@.len() >= 4 ==> (substream::sub_decoded(
            substream::unshifted(marker_inner(stream@)),
            substream::shifted_start(),
        ) matches Some(r) && gap == substream::sub_gap(r, stream@.len() - 2)),
        gap <= stream@.len(),
{
    if stream.len() < 4 {
        return 0;
    }
    let inner: Vec<u8> = unwrap_marker(stream);
    let n: usize = inner.len();
    let res: (Vec<u8>, i128) = decode_shifted(inner);
    gap_of(&res, n)
}

/// Containers of one stream differ in the two bytes of the end address alone.
pub proof fn lemma_marker_address(a: Seq<u8>, b: Seq<u8>)
    requires
        a.len() >= 4,
        b.len() >= 4,
        marker_inner(a) == marker_inner(b),
    ensures
        a.len() == b.len(),
        forall|k: int|
            0 <= k < a.len() && k != a.len() - 3 && k != a.len() - 2 ==> #[trigger] a[k] == b[k],
{
    let n = a.len() as int;
    let (x, y) = (marker_inner(a), marker_inner(b));
    assert(x.len() == n - 2);
    assert(y.len() == b.len() - 2);
    assert(x[0] == y[0] && x[1] == y[1]);
    assert forall|k: int| 0 <= k < n && k != n - 3 && k != n - 2 implies #[trigger] a[k] == b[k] by {
        if k < n - 4 {
            let j = n - 5 - k + 2;
            assert(x[j] == a.take(n - 4).reverse()[j - 2]);
            assert(y[j] == b.take(n - 4).reverse()[j - 2]);
        }
    }
}

} // verus!
