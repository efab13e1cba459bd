//! PuCrunch: literals, matches and runs behind an escape value of variable
//! width. The standalone file carries its parameters in a `pu` header; the
//! container for a 6502 decoder has a header of fixed shape, at the end where
//! the stream is read backward.
use crate::lz;
use crate::lz::reversed;
use crate::matchfinder::{find_matches, find_matches_exact, MatchSet};
use crate::puparse;
use crate::puparse::{
    joint_budget_ok, run_lengths, solve_joint, solve_separate, Scene, Solution, MAX_INPUT,
};
use crate::pustream;
use crate::pustream::{
    decode_stream_gap, PuMode, StreamParams, MAX_LZ_LEN, MAX_OUTPUT, SHORT_RLE_LIMIT,
};
pub use crate::pustream::{gamma_cost, BitReader, BitWriter, PuError, MAX_GAMMA};
use crate::putoken;
use crate::putoken::{emit, token_len, Plan, Tok};
use crate::zx;
use vstd::arithmetic::power2::pow2;
use vstd::prelude::*;

verus! {

// ---------------------------------------------------------------------------
// Table of frequent run bytes
// ---------------------------------------------------------------------------
/// `a` comes before `b`: it is more frequent, or as frequent and smaller.
pub open spec fn ranks_before(counts: Seq<u32>, a: int, b: int) -> bool {
    counts[a] > counts[b] || (counts[a] == counts[b] && a < b)
}

/// The table holds the most frequent bytes in order, at most 15, and only bytes
/// that occur.
pub open spec fn ranked(counts: Seq<u32>, table: Seq<u8>) -> bool {
    &&& table.len() <= 15
    &&& forall|i: int| 0 <= i < table.len() ==> counts[#[trigger] table[i] as int] > 0
    &&& forall|i: int, j: int|
        0 <= i < j < table.len() ==> ranks_before(counts, #[trigger] table[i] as int, #[trigger] table[j] as int)
    &&& forall|i: int, b: int|
        0 <= i < table.len() && 0 <= b < 256 && counts[b] > 0 && !table.contains(b as u8)
            ==> #[trigger] ranks_before(counts, table[i] as int, b)
    &&& table.len() < 15 ==> forall|b: int|
        0 <= b < 256 && counts[b] > 0 ==> table.contains(#[trigger] (b as u8))
}

/// The ranks are those of the table, and every byte of the table has its own.
pub open spec fn full_ranks(table: Seq<u8>, rank_of: Seq<u8>) -> bool {
    &&& putoken::rank_ok(table, rank_of)
    &&& forall|i: int| 0 <= i < table.len() ==> rank_of[#[trigger] table[i] as int] == i + 1
}

/// The runs of at least two bytes `b` from position `i` on, which starts a run.
pub open spec fn run_starts(data: Seq<u8>, rle: Seq<u32>, i: int, b: int) -> int
    decreases
        if i < data.len() {
            data.len() - i
        } else {
            0
        },
{
    if i < 0 || i >= data.len() || rle[i] < 1 {
        0
    } else {
        (if rle[i] >= 2 && data[i] == b {
            1int
        } else {
            0
        }) + run_starts(data, rle, i + rle[i], b)
    }
}

/// The runs of the byte `b` among the first `k` tokens.
pub open spec fn run_tokens(data: Seq<u8>, toks: Seq<Tok>, k: int, b: int) -> int
    decreases k,
{
    if k <= 0 {
        0
    } else {
        run_tokens(data, toks, k - 1, b) + if toks[k - 1] is Rle && data[putoken::tok_pos(
            toks,
            k - 1,
        )] == b {
            1int
        } else {
            0
        }
    }
}

/// The table of the bytes that most runs of the data start with.
pub open spec fn first_table(data: Seq<u8>, rle: Seq<u32>, table: Seq<u8>) -> bool {
    exists|counts: Seq<u32>| #[trigger]
        ranked(counts, table) && counts.len() == 256 && forall|b: int|
            0 <= b < 256 ==> #[trigger] counts[b] == run_starts(data, rle, 0, b)
}

/// The table of the bytes that most runs of a parse hold.
pub open spec fn next_table(data: Seq<u8>, toks: Seq<Tok>, table: Seq<u8>) -> bool {
    exists|counts: Seq<u32>| #[trigger]
        ranked(counts, table) && counts.len() == 256 && forall|b: int|
            0 <= b < 256 ==> #[trigger] counts[b] == run_tokens(
                data,
                toks,
                toks.len() as int,
                b,
            )
}

/// The first byte of highest count that has no rank, if any occurs.
fn top_unranked(counts: &Vec<u32>, rank_of: &Vec<u8>) -> (top: Option<usize>)
    requires
        counts@.len() == 256,
        rank_of@.len() == 256,
    ensures
        match top {
            Some(t) => {
                &&& t < 256
                &&& counts@[t as int] > 0
                &&& rank_of@[t as int] == 0
                &&& forall|b: int|
                    0 <= b < 256 && b != t && counts@[b] > 0 && rank_of@[b] == 0
                        ==> #[trigger] ranks_before(counts@, t as int, b)
            },
            None => forall|b: int|
                0 <= b < 256 && rank_of@[b] == 0 ==> #[trigger] counts@[b] == 0,
        },
{
    let mut top: Option<usize> = None;
    let mut b: usize = 0;
    while b < 256
        invariant
            b <= 256,
            counts@.len() == 256,
            rank_of@.len() == 256,
            match top {
                Some(t) => {
                    &&& t < b
                    &&& counts@[t as int] > 0
                    &&& rank_of@[t as int] == 0
                    &&& forall|c: int|
                        0 <= c < b && c != t && counts@[c] > 0 && rank_of@[c] == 0
                            ==> #[trigger] ranks_before(counts@, t as int, c)
                },
                None => forall|c: int|
                    0 <= c < b && rank_of@[c] == 0 ==> #[trigger] counts@[c] == 0,
            },
        decreases 256 - b,
    {
        if rank_of[b] == 0 && counts[b] > 0 {
            match top {
                None => {
                    top = Some(b);
                },
                Some(t) => {
                    if counts[b] > counts[t] {
                        top = Some(b);
                        assert forall|c: int|
                            0 <= c <= b && c != b && counts@[c] > 0 && rank_of@[c] == 0 implies
                            #[trigger] ranks_before(counts@, b as int, c) by {
                            if c != t {
                                assert(ranks_before(counts@, t as int, c));
                            }
                        }
                    }
                },
            }
        }
        b += 1;
    }
    top
}

/// Table of the most frequent bytes, and the ranks.
#[verifier::rlimit(40)]
fn rank_table(counts: &Vec<u32>) -> (r: (Vec<u8>, Vec<u8>))
    requires
        counts@.len() == 256,
    ensures
        ranked(counts@, r.0@),
        full_ranks(r.0@, r.1@),
        puparse::ranks_small(r.1@),
{
    let mut table: Vec<u8> = Vec::new();
    let mut rank_of: Vec<u8> = vec![0u8; 256];
    let mut done: bool = false;
    while table.len() < 15 && !done
        invariant
            counts@.len() == 256,
            table@.len() <= 15,
            putoken::rank_ok(table@, rank_of@),
            puparse::ranks_small(rank_of@),
            forall|i: int|
                0 <= i < table@.len() ==> counts@[#[trigger] table@[i] as int] > 0
                    && rank_of@[table@[i] as int] == i + 1,
            forall|i: int, j: int|
                0 <= i < j < table@.len() ==> ranks_before(
                    counts@,
                    #[trigger] table@[i] as int,
                    #[trigger] table@[j] as int,
                ),
            forall|i: int, b: int|
                0 <= i < table@.len() && 0 <= b < 256 && counts@[b] > 0 && rank_of@[b] == 0
                    ==> #[trigger] ranks_before(counts@, table@[i] as int, b),
            done ==> forall|b: int| 0 <= b < 256 && rank_of@[b] == 0 ==> #[trigger] counts@[b] == 0,
        decreases 16 - table@.len() + if done {
            0int
        } else {
            1int
        },
    {
        match top_unranked(counts, &rank_of) {
            None => {
                done = true;
            },
            Some(t) => {
                let ghost t0 = table@;
                let ghost r0 = rank_of@;
                table.push(t as u8);
                rank_of.set(t, table.len() as u8);
                proof {
                    assert forall|i: int| 0 <= i < table@.len() implies counts@[#[trigger] table@[i] as int]
                        > 0 && rank_of@[table@[i] as int] == i + 1 by {
                        if i < t0.len() {
                            assert(table@[i] == t0[i]);
                        }
                    }
                    assert forall|i: int, j: int| 0 <= i < j < table@.len() implies ranks_before(
                        counts@,
                        #[trigger] table@[i] as int,
                        #[trigger] table@[j] as int,
                    ) by {
                        assert(table@[i] == t0[i]);
                        if j < t0.len() {
                            assert(table@[j] == t0[j]);
                        } else {
                            assert(ranks_before(counts@, t0[i] as int, t as int));
                        }
                    }
                    assert forall|i: int, b: int|
                        0 <= i < table@.len() && 0 <= b < 256 && counts@[b] > 0 && rank_of@[b]
                            == 0 implies #[trigger] ranks_before(counts@, table@[i] as int, b) by {
                        assert(r0[b] == 0 && b != t);
                        if i < t0.len() {
                            assert(table@[i] == t0[i]);
                            assert(ranks_before(counts@, t0[i] as int, b));
                        }
                    }
                    assert forall|b: int| 0 <= b < 256 && #[trigger] rank_of@[b] > 0 implies rank_of@[b]
                        <= table@.len() && table@[rank_of@[b] - 1] == b by {
                        if b != t {
                            assert(r0[b] > 0);
                            assert(t0[r0[b] - 1] == b);
                        }
                    }
                }
            },
        }
    }
    proof {
        assert forall|b: int| 0 <= b < 256 && rank_of@[b] > 0 implies table@.contains(
            #[trigger] (b as u8),
        ) by {
            assert(table@[rank_of@[b] - 1] == b);
        }
        assert forall|i: int, b: int|
            0 <= i < table@.len() && 0 <= b < 256 && counts@[b] > 0 && !table@.contains(b as u8)
                implies #[trigger] ranks_before(counts@, table@[i] as int, b) by {
            assert(rank_of@[b] == 0);
        }
        if table@.len() < 15 {
            assert forall|b: int| 0 <= b < 256 && counts@[b] > 0 implies table@.contains(
                #[trigger] (b as u8),
            ) by {
                assert(rank_of@[b] > 0);
            }
        }
    }
    (table, rank_of)
}

/// Table from the bytes that runs start with.
fn initial_table(data: &[u8], rle: &Vec<u32>) -> (r: (Vec<u8>, Vec<u8>))
    requires
        data@.len() <= MAX_INPUT,
        puparse::runs_ok(data@, rle@),
    ensures
        full_ranks(r.0@, r.1@),
        first_table(data@, rle@, r.0@),
        puparse::ranks_small(r.1@),
{
    let n: usize = data.len();
    let mut counts: Vec<u32> = vec![0u32; 256];
    let mut i: usize = 0;
    while i < n
        invariant
            n == data@.len(),
            n <= MAX_INPUT,
            puparse::runs_ok(data@, rle@),
            i <= n,
            counts@.len() == 256,
            forall|b: int| 0 <= b < 256 ==> #[trigger] counts@[b] <= i,
            forall|b: int|
                0 <= b < 256 ==> #[trigger] counts@[b] + run_starts(data@, rle@, i as int, b)
                    == run_starts(data@, rle@, 0, b),
        decreases n - i,
    {
        let run: usize = rle[i] as usize;
        assert(rle@[i as int] >= 1);
        if run >= 2 {
            let b: usize = data[i] as usize;
            let c: u32 = counts[b];
            counts.set(b, c + 1);
        }
        i += run;
    }
    rank_table(&counts)
}

/// Table from the runs that a parse has.
fn retune_table(data: &[u8], toks: &Vec<Tok>, Ghost(x): Ghost<nat>) -> (r: (Vec<u8>, Vec<u8>))
    requires
        data@.len() <= MAX_INPUT,
        putoken::toks_ok(data@, toks@, x),
    ensures
        full_ranks(r.0@, r.1@),
        next_table(data@, toks@, r.0@),
        puparse::ranks_small(r.1@),
{
    let n: usize = data.len();
    let count: usize = toks.len();
    let mut counts: Vec<u32> = vec![0u32; 256];
    let mut i: usize = 0;
    let mut k: usize = 0;
    while k < count
        invariant
            n == data@.len(),
            n <= MAX_INPUT,
            count == toks@.len(),
            k <= count,
            putoken::toks_ok(data@, toks@, x),
            i == putoken::tok_pos(toks@, k as int),
            i <= n,
            counts@.len() == 256,
            forall|b: int| 0 <= b < 256 ==> #[trigger] counts@[b] <= i,
            forall|b: int|
                0 <= b < 256 ==> #[trigger] counts@[b] == run_tokens(data@, toks@, k as int, b),
        decreases count - k,
    {
        let t: Tok = toks[k];
        proof {
            assert(putoken::tok_fits(data@, toks@, x, k as int));
        }
        match t {
            Tok::Rle { .. } => {
                let b: usize = data[i] as usize;
                let c: u32 = counts[b];
                counts.set(b, c + 1);
            },
            _ => {},
        }
        i += token_len(&t) as usize;
        k += 1;
    }
    rank_table(&counts)
}

/// The ranks of the bytes of a table whose bytes all differ.
fn ranks_of(table: &Vec<u8>) -> (rank_of: Vec<u8>)
    requires
        table@.len() <= 15,
        forall|i: int, k: int| 0 <= i < k < table@.len() ==> #[trigger] table@[i] != #[trigger] table@[k],
    ensures
        full_ranks(table@, rank_of@),
        puparse::ranks_small(rank_of@),
{
    let n: usize = table.len();
    let mut rank_of: Vec<u8> = vec![0u8; 256];
    let mut r: usize = 0;
    while r < n
        invariant
            n == table@.len(),
            n <= 15,
            r <= n,
            rank_of@.len() == 256,
            forall|b: int|
                0 <= b < 256 && #[trigger] rank_of@[b] > 0 ==> rank_of@[b] <= r && table@[rank_of@[b]
                    - 1] == b,
            forall|i: int, k: int|
                0 <= i < k < table@.len() ==> #[trigger] table@[i] != #[trigger] table@[k],
            forall|i: int| 0 <= i < r ==> rank_of@[#[trigger] table@[i] as int] == i + 1,
        decreases n - r,
    {
        rank_of.set(table[r] as usize, r as u8 + 1);
        r += 1;
    }
    assert forall|b: int| 0 <= b < 256 implies #[trigger] rank_of@[b] <= 15 by {
        assert(rank_of@[b] == 0 || rank_of@[b] <= n);
    }
    rank_of
}

// ---------------------------------------------------------------------------
// Parameter search
// ---------------------------------------------------------------------------
/// A compressed stream and its parameters. `gap` is that of its decoder.
pub struct Packed {
    pub bitstream: Vec<u8>,
    pub start_esc: u8,
    pub esc_bits: u32,
    pub extra: u32,
    pub table: Vec<u8>,
    pub gap: i64,
}

impl Packed {
    /// The stream decodes to `data` with the parameters.
    pub open spec fn holds(&self, data: Seq<u8>) -> bool {
        &&& self.esc_bits <= 8
        &&& self.extra <= 4
        &&& self.table@.len() <= 15
        &&& pustream::pu_stream(
            self.bitstream@,
            putoken::out_mode(self.esc_bits as nat, self.extra as nat, self.table@),
            self.start_esc as nat,
        ) == Ok::<(Seq<u8>, int), PuError>((data, self.gap as int))
        &&& self.gap < data.len()
        &&& self.bitstream@.len() <= 0x2_0000_0000
    }
}

/// A plan with its table.
pub struct Choice {
    pub sol: Solution,
    pub table: Vec<u8>,
    pub rank_of: Vec<u8>,
}

impl Choice {
    pub open spec fn ok(&self, data: Seq<u8>) -> bool {
        &&& full_ranks(self.table@, self.rank_of@)
        &&& self.table@.len() <= 15
        &&& puparse::ranks_small(self.rank_of@)
        &&& self.sol.ok(data, self.rank_of@)
    }

    /// The stream of the plan.
    pub open spec fn bytes(&self, data: Seq<u8>) -> Seq<u8> {
        let plan = self.sol.plan;
        putoken::plan_bytes(
            data,
            plan.tokens@,
            plan.newesc@,
            plan.start_esc as nat,
            plan.esc_bits as nat,
            plan.extra as nat,
            self.rank_of@,
        )
    }

    /// The best of one round with its table.
    pub open spec fn is_round(&self, data: &[u8], ms: &MatchSet, rle: &Vec<u32>) -> bool {
        &&& self.ok(data@)
        &&& is_solved(data, ms, rle, &self.rank_of, self.sol)
        &&& round_best(data, ms, rle, &self.rank_of, self.sol.total as int)
        &&& round_found(data, ms, rle, &self.rank_of, self.sol)
    }

    /// Bits with those of the table in the header.
    pub open spec fn header_bits(&self, bits_per_entry: int) -> int {
        self.sol.total + bits_per_entry * self.table@.len()
    }

    /// Bits with those of the table in the header.
    fn with_header(&self, bits_per_entry: u64) -> (bits: u64)
        requires
            bits_per_entry <= 8,
            self.table@.len() <= 15,
        ensures
            self.sol.total <= 0x8000_0000_0000_0000 ==> bits == self.sol.total + bits_per_entry
                * self.table@.len(),
    {
        let n: u64 = self.table.len() as u64;
        proof {
            assert(bits_per_entry * n <= 8 * 15) by (nonlinear_arith)
                requires
                    bits_per_entry <= 8,
                    n <= 15,
            ;
        }
        self.sol.total.saturating_add(bits_per_entry * n)
    }
}

/// What the search works on, for given widths.
pub open spec fn scene<'a>(
    data: &'a [u8],
    ms: &'a MatchSet,
    rle: &'a Vec<u32>,
    rank_of: &'a Vec<u8>,
    e: u32,
    x: u32,
) -> Scene<'a> {
    Scene { data, ms, rle, rank_of, esc_bits: e, extra: x }
}

/// A solution with these widths takes at least `total` bits.
pub open spec fn not_below(
    data: &[u8],
    ms: &MatchSet,
    rle: &Vec<u32>,
    rank_of: &Vec<u8>,
    e: u32,
    x: u32,
    joint: bool,
    total: int,
) -> bool {
    exists|s: Solution| #[trigger]
        puparse::solved(&scene(data, ms, rle, rank_of, e, x), joint, s) && total <= s.total
}

/// A solution of one of the two kinds, with its own widths.
pub open spec fn is_solved(
    data: &[u8],
    ms: &MatchSet,
    rle: &Vec<u32>,
    rank_of: &Vec<u8>,
    s: Solution,
) -> bool {
    exists|joint: bool| #[trigger]
        puparse::solved(
            &scene(data, ms, rle, rank_of, s.plan.esc_bits, s.plan.extra),
            joint,
            s,
        )
}

/// `total` is no more than separate passes take with any widths.
pub open spec fn least_separate(
    data: &[u8],
    ms: &MatchSet,
    rle: &Vec<u32>,
    rank_of: &Vec<u8>,
    total: int,
) -> bool {
    forall|e: u32, x: u32|
        e <= 8 && x <= 4 ==> #[trigger] not_below(data, ms, rle, rank_of, e, x, false, total)
}

/// The joint parse is affordable.
pub open spec fn affords_joint(n: int, e: u32) -> bool {
    vstd::arithmetic::power2::pow2(e as nat) * n <= 4_000_000
}

/// `total` is no more than the joint parse takes with the widths `be` and `bx` or
/// neighbouring ones, as far as it is affordable.
pub open spec fn least_joint(
    data: &[u8],
    ms: &MatchSet,
    rle: &Vec<u32>,
    rank_of: &Vec<u8>,
    be: u32,
    bx: u32,
    total: int,
) -> bool {
    forall|e: u32, x: u32|
        e <= 8 && x <= 4 && (x == bx && be - 1 <= e <= be + 1 || e == be && bx - 1 <= x <= bx + 1)
            && affords_joint(data@.len() as int, e) ==> #[trigger] not_below(
            data,
            ms,
            rle,
            rank_of,
            e,
            x,
            true,
            total,
        )
}

/// A solution with these widths takes more than `total` bits.
pub open spec fn above(
    data: &[u8],
    ms: &MatchSet,
    rle: &Vec<u32>,
    rank_of: &Vec<u8>,
    e: u32,
    x: u32,
    total: int,
) -> bool {
    exists|s: Solution| #[trigger]
        puparse::solved(&scene(data, ms, rle, rank_of, e, x), false, s) && total < s.total
}

/// The first of the best solutions by separate passes, in the order of the widths.
pub open spec fn first_separate(
    data: &[u8],
    ms: &MatchSet,
    rle: &Vec<u32>,
    rank_of: &Vec<u8>,
    s: Solution,
) -> bool {
    &&& s.plan.esc_bits <= 8
    &&& s.plan.extra <= 4
    &&& puparse::solved(
        &scene(data, ms, rle, rank_of, s.plan.esc_bits, s.plan.extra),
        false,
        s,
    )
    &&& least_separate(data, ms, rle, rank_of, s.total as int)
    &&& forall|e: u32, x: u32|
        tried(e, x, s.plan.esc_bits as int, s.plan.extra as int) ==> #[trigger] above(
            data,
            ms,
            rle,
            rank_of,
            e,
            x,
            s.total as int,
        )
}

/// The better of `a` and the joint parse with these widths, if there are such and
/// it is affordable.
pub open spec fn joined(
    data: &[u8],
    ms: &MatchSet,
    rle: &Vec<u32>,
    rank_of: &Vec<u8>,
    e: int,
    x: int,
    a: Solution,
    b: Solution,
) -> bool {
    if 0 <= e <= 8 && 0 <= x <= 4 && affords_joint(data@.len() as int, e as u32) {
        exists|s: Solution| #[trigger]
            puparse::solved(&scene(data, ms, rle, rank_of, e as u32, x as u32), true, s) && b
                == if s.total < a.total {
                s
            } else {
                a
            }
    } else {
        b == a
    }
}

/// The widths that the joint parse is tried with.
pub open spec fn joint_widths(be: int, bx: int, k: int) -> (int, int) {
    if k == 0 {
        (be, bx)
    } else if k == 1 {
        (be - 1, bx)
    } else if k == 2 {
        (be + 1, bx)
    } else if k == 3 {
        (be, bx - 1)
    } else {
        (be, bx + 1)
    }
}

/// The best of `a` and the joint parse with the first `k` of these widths.
pub open spec fn all_joined(
    data: &[u8],
    ms: &MatchSet,
    rle: &Vec<u32>,
    rank_of: &Vec<u8>,
    be: int,
    bx: int,
    k: nat,
    a: Solution,
    b: Solution,
) -> bool
    decreases k,
{
    if k == 0 {
        b == a
    } else {
        let (e, x) = joint_widths(be, bx, k - 1);
        exists|m: Solution| #[trigger]
            joined(data, ms, rle, rank_of, e, x, m, b) && all_joined(
                data,
                ms,
                rle,
                rank_of,
                be,
                bx,
                (k - 1) as nat,
                a,
                m,
            )
    }
}

/// The solution of one round: that of separate passes, or the first that is better
/// by the joint parse around its widths.
pub open spec fn round_found(
    data: &[u8],
    ms: &MatchSet,
    rle: &Vec<u32>,
    rank_of: &Vec<u8>,
    b: Solution,
) -> bool {
    exists|a: Solution| #[trigger]
        first_separate(data, ms, rle, rank_of, a) && all_joined(
            data,
            ms,
            rle,
            rank_of,
            a.plan.esc_bits as int,
            a.plan.extra as int,
            5,
            a,
            b,
        )
}

/// The best of one round: no more than separate passes take with any widths, nor
/// than the joint parse takes around the best of these.
pub open spec fn round_best(
    data: &[u8],
    ms: &MatchSet,
    rle: &Vec<u32>,
    rank_of: &Vec<u8>,
    total: int,
) -> bool {
    &&& least_separate(data, ms, rle, rank_of, total)
    &&& exists|be: u32, bx: u32, s: Solution|
        {
            &&& be <= 8 && bx <= 4
            &&& #[trigger] puparse::solved(&scene(data, ms, rle, rank_of, be, bx), false, s)
            &&& least_separate(data, ms, rle, rank_of, s.total as int)
            &&& least_joint(data, ms, rle, rank_of, be, bx, total)
        }
}

proof fn lemma_not_below(
    data: &[u8],
    ms: &MatchSet,
    rle: &Vec<u32>,
    rank_of: &Vec<u8>,
    e: u32,
    x: u32,
    joint: bool,
    total: int,
    less: int,
)
    requires
        not_below(data, ms, rle, rank_of, e, x, joint, total),
        less <= total,
    ensures
        not_below(data, ms, rle, rank_of, e, x, joint, less),
{
    let s = choose|s: Solution| #[trigger]
        puparse::solved(&scene(data, ms, rle, rank_of, e, x), joint, s) && total <= s.total;
    assert(puparse::solved(&scene(data, ms, rle, rank_of, e, x), joint, s));
}

proof fn lemma_least_separate(
    data: &[u8],
    ms: &MatchSet,
    rle: &Vec<u32>,
    rank_of: &Vec<u8>,
    total: int,
    less: int,
)
    requires
        least_separate(data, ms, rle, rank_of, total),
        less <= total,
    ensures
        least_separate(data, ms, rle, rank_of, less),
{
    assert forall|e: u32, x: u32| e <= 8 && x <= 4 implies #[trigger] not_below(
        data,
        ms,
        rle,
        rank_of,
        e,
        x,
        false,
        less,
    ) by {
        assert(not_below(data, ms, rle, rank_of, e, x, false, total));
        lemma_not_below(data, ms, rle, rank_of, e, x, false, total, less);
    }
}

/// A solution for given widths.
fn solve(
    data: &[u8],
    ms: &MatchSet,
    rle: &Vec<u32>,
    rank_of: &Vec<u8>,
    e: u32,
    x: u32,
    joint: bool,
) -> (s: Solution)
    requires
        data@.len() <= MAX_INPUT,
        ms.of(data@),
        puparse::runs_ok(data@, rle@),
        puparse::ranks_small(rank_of@),
        e <= 8,
        x <= 4,
    ensures
        s.ok(data@, rank_of@),
        s.plan.esc_bits == e,
        s.plan.extra == x,
        puparse::solved(&scene(data, ms, rle, rank_of, e, x), joint, s),
{
    let sc: Scene = Scene { data, ms, rle, rank_of, esc_bits: e, extra: x };
    proof {
        reveal(puparse::solved);
    }
    if joint {
        solve_joint(&sc)
    } else {
        solve_separate(&sc)
    }
}

/// The widths up to `e` and `x` in the order in which they are tried.
pub open spec fn tried(a: u32, b: u32, e: int, x: int) -> bool {
    b <= 4 && (a < e || (a == e && b < x))
}

/// The widths before those of the solution take more.
spec fn first_so_far(data: &[u8], ms: &MatchSet, rle: &Vec<u32>, rank_of: &Vec<u8>, s: Solution) -> bool {
    forall|e: u32, x: u32|
        tried(e, x, s.plan.esc_bits as int, s.plan.extra as int) ==> #[trigger] above(
            data,
            ms,
            rle,
            rank_of,
            e,
            x,
            s.total as int,
        )
}

proof fn lemma_all_above(
    data: &[u8],
    ms: &MatchSet,
    rle: &Vec<u32>,
    rank_of: &Vec<u8>,
    e: u32,
    x: u32,
    a: Solution,
    b: Solution,
)
    requires
        b.total < a.total,
        b.plan.esc_bits == e,
        b.plan.extra == x,
        forall|c: u32, d: u32|
            tried(c, d, e as int, x as int) ==> #[trigger] not_below(
                data,
                ms,
                rle,
                rank_of,
                c,
                d,
                false,
                a.total as int,
            ),
    ensures
        first_so_far(data, ms, rle, rank_of, b),
{
    assert forall|c: u32, d: u32| tried(c, d, e as int, x as int) implies #[trigger] above(
        data,
        ms,
        rle,
        rank_of,
        c,
        d,
        b.total as int,
    ) by {
        assert(not_below(data, ms, rle, rank_of, c, d, false, a.total as int));
        let s = choose|s: Solution| #[trigger]
            puparse::solved(&scene(data, ms, rle, rank_of, c, d), false, s) && a.total <= s.total;
        assert(puparse::solved(&scene(data, ms, rle, rank_of, c, d), false, s));
    }
}

/// The best of all widths by separate passes.
#[verifier::rlimit(40)]
fn best_separate(data: &[u8], ms: &MatchSet, rle: &Vec<u32>, rank_of: &Vec<u8>) -> (best: Solution)
    requires
        data@.len() <= MAX_INPUT,
        ms.of(data@),
        puparse::runs_ok(data@, rle@),
        puparse::ranks_small(rank_of@),
    ensures
        best.ok(data@, rank_of@),
        best.plan.esc_bits <= 8,
        best.plan.extra <= 4,
        puparse::solved(
            &scene(data, ms, rle, rank_of, best.plan.esc_bits, best.plan.extra),
            false,
            best,
        ),
        least_separate(data, ms, rle, rank_of, best.total as int),
        first_separate(data, ms, rle, rank_of, best),
{
    let mut best: Solution = solve(data, ms, rle, rank_of, 0, 0, false);
    assert(not_below(data, ms, rle, rank_of, 0, 0, false, best.total as int));
    let mut e: u32 = 0;
    while e <= 8
        invariant
            e <= 9,
            data@.len() <= MAX_INPUT,
            ms.of(data@),
            puparse::runs_ok(data@, rle@),
            puparse::ranks_small(rank_of@),
            best.ok(data@, rank_of@),
            best.plan.esc_bits <= 8,
            best.plan.extra <= 4,
            puparse::solved(
                &scene(data, ms, rle, rank_of, best.plan.esc_bits, best.plan.extra),
                false,
                best,
            ),
            not_below(data, ms, rle, rank_of, 0, 0, false, best.total as int),
            first_so_far(data, ms, rle, rank_of, best),
            best.plan.esc_bits < e || (best.plan.esc_bits == 0 && best.plan.extra == 0),
            forall|a: u32, b: u32|
                tried(a, b, e as int, 0) ==> #[trigger] not_below(
                    data,
                    ms,
                    rle,
                    rank_of,
                    a,
                    b,
                    false,
                    best.total as int,
                ),
        decreases 9 - e,
    {
        let mut x: u32 = 0;
        while x <= 4
            invariant
                e <= 8,
                x <= 5,
                data@.len() <= MAX_INPUT,
                ms.of(data@),
                puparse::runs_ok(data@, rle@),
                puparse::ranks_small(rank_of@),
                best.ok(data@, rank_of@),
                best.plan.esc_bits <= 8,
                best.plan.extra <= 4,
                puparse::solved(
                    &scene(data, ms, rle, rank_of, best.plan.esc_bits, best.plan.extra),
                    false,
                    best,
                ),
                not_below(data, ms, rle, rank_of, 0, 0, false, best.total as int),
                first_so_far(data, ms, rle, rank_of, best),
                tried(best.plan.esc_bits, best.plan.extra, e as int, x as int) || (best.plan.esc_bits == 0 && best.plan.extra == 0),
                forall|a: u32, b: u32|
                    tried(a, b, e as int, x as int) ==> #[trigger] not_below(
                        data,
                        ms,
                        rle,
                        rank_of,
                        a,
                        b,
                        false,
                        best.total as int,
                    ),
            decreases 5 - x,
        {
            let ghost before = best.total as int;
            let ghost mut here = best;
            if e > 0 || x > 0 {
                let s: Solution = solve(data, ms, rle, rank_of, e, x, false);
                proof {
                    here = s;
                    assert(not_below(data, ms, rle, rank_of, e, x, false, s.total as int));
                }
                let ghost last = best;
                if s.total < best.total {
                    best = s;
                    proof {
                        lemma_all_above(data, ms, rle, rank_of, e, x, last, best);
                    }
                }
                proof {
                    lemma_not_below(
                        data,
                        ms,
                        rle,
                        rank_of,
                        e,
                        x,
                        false,
                        here.total as int,
                        best.total as int,
                    );
                    lemma_not_below(
                        data,
                        ms,
                        rle,
                        rank_of,
                        0,
                        0,
                        false,
                        before,
                        best.total as int,
                    );
                }
            }
            proof {
                assert forall|a: u32, b: u32| tried(a, b, e as int, x + 1) implies #[trigger] not_below(
                    data,
                    ms,
                    rle,
                    rank_of,
                    a,
                    b,
                    false,
                    best.total as int,
                ) by {
                    if tried(a, b, e as int, x as int) {
                        assert(not_below(data, ms, rle, rank_of, a, b, false, before));
                        lemma_not_below(
                            data,
                            ms,
                            rle,
                            rank_of,
                            a,
                            b,
                            false,
                            before,
                            best.total as int,
                        );
                    } else {
                        assert(a == e && b == x);
                    }
                }
            }
            x += 1;
        }
        proof {
            assert forall|a: u32, b: u32| tried(a, b, e + 1, 0) implies #[trigger] not_below(
                data,
                ms,
                rle,
                rank_of,
                a,
                b,
                false,
                best.total as int,
            ) by {
                assert(tried(a, b, e as int, 5));
            }
        }
        e += 1;
    }
    proof {
        assert forall|a: u32, b: u32| a <= 8 && b <= 4 implies #[trigger] not_below(
            data,
            ms,
            rle,
            rank_of,
            a,
            b,
            false,
            best.total as int,
        ) by {
            assert(tried(a, b, 9, 0));
        }
    }
    best
}

/// The better of a solution and the joint parse with the given widths.
fn try_joint(
    data: &[u8],
    ms: &MatchSet,
    rle: &Vec<u32>,
    rank_of: &Vec<u8>,
    e: u32,
    x: u32,
    best: Solution,
) -> (r: Solution)
    requires
        data@.len() <= MAX_INPUT,
        ms.of(data@),
        puparse::runs_ok(data@, rle@),
        puparse::ranks_small(rank_of@),
        e <= 8,
        x <= 4,
        best.ok(data@, rank_of@),
        is_solved(data, ms, rle, rank_of, best),
    ensures
        r.ok(data@, rank_of@),
        is_solved(data, ms, rle, rank_of, r),
        r.total <= best.total,
        joined(data, ms, rle, rank_of, e as int, x as int, best, r),
        affords_joint(data@.len() as int, e) ==> not_below(
            data,
            ms,
            rle,
            rank_of,
            e,
            x,
            true,
            r.total as int,
        ),
{
    if !joint_budget_ok(data.len(), e) {
        return best;
    }
    let s: Solution = solve(data, ms, rle, rank_of, e, x, true);
    assert(not_below(data, ms, rle, rank_of, e, x, true, s.total as int));
    let ghost all = s.total as int;
    let ghost whole = s;
    let ghost last = best;
    assert(puparse::solved(
        &scene(data, ms, rle, rank_of, (e as int) as u32, (x as int) as u32),
        true,
        whole,
    ));
    let r: Solution = if s.total < best.total {
        s
    } else {
        best
    };
    proof {
        lemma_not_below(data, ms, rle, rank_of, e, x, true, all, r.total as int);
        assert(r == if whole.total < last.total {
            whole
        } else {
            last
        });
    }
    r
}

proof fn lemma_next_joined(
    data: &[u8],
    ms: &MatchSet,
    rle: &Vec<u32>,
    rank_of: &Vec<u8>,
    be: int,
    bx: int,
    k: nat,
    a: Solution,
    m: Solution,
    b: Solution,
)
    requires
        all_joined(data, ms, rle, rank_of, be, bx, k, a, m),
        joined(
            data,
            ms,
            rle,
            rank_of,
            joint_widths(be, bx, k as int).0,
            joint_widths(be, bx, k as int).1,
            m,
            b,
        ),
    ensures
        all_joined(data, ms, rle, rank_of, be, bx, k + 1, a, b),
{
    let (e, x) = joint_widths(be, bx, (k + 1) - 1);
    assert(joined(data, ms, rle, rank_of, e, x, m, b));
}

proof fn lemma_five_joined(
    data: &[u8],
    ms: &MatchSet,
    rle: &Vec<u32>,
    rank_of: &Vec<u8>,
    be: int,
    bx: int,
    a: Solution,
    b0: Solution,
    b1: Solution,
    b2: Solution,
    b3: Solution,
    b: Solution,
)
    requires
        joined(data, ms, rle, rank_of, be, bx, a, b0),
        joined(data, ms, rle, rank_of, be - 1, bx, b0, b1),
        joined(data, ms, rle, rank_of, be + 1, bx, b1, b2),
        joined(data, ms, rle, rank_of, be, bx - 1, b2, b3),
        joined(data, ms, rle, rank_of, be, bx + 1, b3, b),
    ensures
        all_joined(data, ms, rle, rank_of, be, bx, 5, a, b),
{
    lemma_next_joined(data, ms, rle, rank_of, be, bx, 0, a, a, b0);
    lemma_next_joined(data, ms, rle, rank_of, be, bx, 1, a, b0, b1);
    lemma_next_joined(data, ms, rle, rank_of, be, bx, 2, a, b1, b2);
    lemma_next_joined(data, ms, rle, rank_of, be, bx, 3, a, b2, b3);
    lemma_next_joined(data, ms, rle, rank_of, be, bx, 4, a, b3, b);
}

/// The best widths by separate passes, and then the joint parse with those and
/// the neighbouring widths.
#[verifier::rlimit(40)]
fn best_round(data: &[u8], ms: &MatchSet, rle: &Vec<u32>, rank_of: &Vec<u8>) -> (best: Solution)
    requires
        data@.len() <= MAX_INPUT,
        ms.of(data@),
        puparse::runs_ok(data@, rle@),
        puparse::ranks_small(rank_of@),
    ensures
        best.ok(data@, rank_of@),
        is_solved(data, ms, rle, rank_of, best),
        round_best(data, ms, rle, rank_of, best.total as int),
        round_found(data, ms, rle, rank_of, best),
{
    let separate: Solution = best_separate(data, ms, rle, rank_of);
    let ghost first = separate;
    let be: u32 = separate.plan.esc_bits;
    let bx: u32 = separate.plan.extra;
    let b0: Solution = try_joint(data, ms, rle, rank_of, be, bx, separate);
    let ghost t0 = b0.total as int;
    let ghost g0 = b0;
    let b1: Solution = if be > 0 {
        try_joint(data, ms, rle, rank_of, be - 1, bx, b0)
    } else {
        b0
    };
    let ghost t1 = b1.total as int;
    let ghost g1 = b1;
    let b2: Solution = if be < 8 {
        try_joint(data, ms, rle, rank_of, be + 1, bx, b1)
    } else {
        b1
    };
    let ghost t2 = b2.total as int;
    let ghost g2 = b2;
    let b3: Solution = if bx > 0 {
        try_joint(data, ms, rle, rank_of, be, bx - 1, b2)
    } else {
        b2
    };
    let ghost t3 = b3.total as int;
    let ghost g3 = b3;
    let best: Solution = if bx < 4 {
        try_joint(data, ms, rle, rank_of, be, bx + 1, b3)
    } else {
        b3
    };
    proof {
        let t = best.total as int;
        lemma_least_separate(data, ms, rle, rank_of, first.total as int, t);
        assert forall|e: u32, x: u32|
            e <= 8 && x <= 4 && (x == bx && be - 1 <= e <= be + 1 || e == be && bx - 1 <= x <= bx + 1)
                && affords_joint(data@.len() as int, e) implies #[trigger] not_below(
            data,
            ms,
            rle,
            rank_of,
            e,
            x,
            true,
            t,
        ) by {
            if e == be && x == bx {
                lemma_not_below(data, ms, rle, rank_of, e, x, true, t0, t);
            } else if e < be {
                lemma_not_below(data, ms, rle, rank_of, e, x, true, t1, t);
            } else if e > be {
                lemma_not_below(data, ms, rle, rank_of, e, x, true, t2, t);
            } else if x < bx {
                lemma_not_below(data, ms, rle, rank_of, e, x, true, t3, t);
            }
        }
        assert(least_joint(data, ms, rle, rank_of, be, bx, t));
        lemma_five_joined(data, ms, rle, rank_of, be as int, bx as int, first, g0, g1, g2, g3, best);
        assert(first_separate(data, ms, rle, rank_of, first));
        assert(puparse::solved(&scene(data, ms, rle, rank_of, be, bx), false, first));
    }
    best
}

fn same_table(a: &Vec<u8>, b: &Vec<u8>) -> (r: bool)
    ensures
        r == (a@ == b@),
{
    crate::zxpack::same_bytes(a.as_slice(), b.as_slice())
}

fn copy_table(a: &Vec<u8>) -> (b: Vec<u8>)
    ensures
        b@ == a@,
{
    let mut b: Vec<u8> = Vec::with_capacity(a.len());
    b.extend_from_slice(a.as_slice());
    assert(b@ =~= a@);
    b
}

/// The choice with one entry of the table less, and the same widths.
pub open spec fn one_less(data: &[u8], ms: &MatchSet, rle: &Vec<u32>, a: Choice, c: Choice) -> bool {
    &&& c.ok(data@)
    &&& c.table@ == a.table@.drop_last()
    &&& puparse::solved(
        &scene(data, ms, rle, &c.rank_of, a.sol.plan.esc_bits, a.sol.plan.extra),
        affords_joint(data@.len() as int, a.sol.plan.esc_bits),
        c.sol,
    )
}

/// Entries are dropped from the end of the table while that makes the whole
/// smaller.
pub open spec fn prunes_to(
    data: &[u8],
    ms: &MatchSet,
    rle: &Vec<u32>,
    bits_per_entry: int,
    a: Choice,
    b: Choice,
) -> bool
    decreases a.table@.len(),
{
    if bits_per_entry == 0 || a.table@.len() == 0 {
        b == a
    } else {
        exists|c: Choice| #[trigger]
            one_less(data, ms, rle, a, c) && if c.table@.len() < a.table@.len() && c.header_bits(
                bits_per_entry,
            ) < a.header_bits(bits_per_entry) {
                prunes_to(data, ms, rle, bits_per_entry, c, b)
            } else {
                b == a
            }
    }
}

/// Drops entries from the end of the table while that makes the whole smaller.
fn prune(data: &[u8], ms: &MatchSet, rle: &Vec<u32>, best: Choice, bits_per_entry: u64) -> (r: Choice)
    requires
        data@.len() <= MAX_INPUT,
        ms.of(data@),
        puparse::runs_ok(data@, rle@),
        best.ok(data@),
        bits_per_entry <= 8,
    ensures
        r.ok(data@),
        prunes_to(data, ms, rle, bits_per_entry as int, best, r),
    decreases best.table@.len(),
{
    let n: usize = data.len();
    if bits_per_entry == 0 || best.table.len() == 0 {
        return best;
    }
    let mut table: Vec<u8> = copy_table(&best.table);
    table.pop();
    proof {
        assert(table@ =~= best.table@.drop_last());
        assert forall|i: int, k: int| 0 <= i < k < table@.len() implies #[trigger] table@[i]
            != #[trigger] table@[k] by {
            assert(best.rank_of@[best.table@[i] as int] == i + 1);
            assert(best.rank_of@[best.table@[k] as int] == k + 1);
        }
    }
    let rank_of: Vec<u8> = ranks_of(&table);
    let e: u32 = best.sol.plan.esc_bits;
    let x: u32 = best.sol.plan.extra;
    let joint: bool = joint_budget_ok(n, e);
    let sol: Solution = solve(data, ms, rle, &rank_of, e, x, joint);
    let cand: Choice = Choice { sol, table, rank_of };
    proof {
        putoken::lemma_plan_bits_bound(data@, &cand.sol.plan, cand.rank_of@);
        putoken::lemma_plan_bits_bound(data@, &best.sol.plan, best.rank_of@);
        assert(one_less(data, ms, rle, best, cand));
    }
    if cand.with_header(bits_per_entry) < best.with_header(bits_per_entry) {
        prune(data, ms, rle, cand, bits_per_entry)
    } else {
        best
    }
}

/// The best of a round with the table of the parse before.
pub open spec fn ranked_anew(
    data: &[u8],
    ms: &MatchSet,
    rle: &Vec<u32>,
    a: Choice,
    table: Seq<u8>,
    c: Choice,
) -> bool {
    &&& next_table(data@, a.sol.plan.tokens@, table)
    &&& table != a.table@ ==> c.is_round(data, ms, rle) && c.table@ == table
}

/// The table is ranked anew from the runs of the parse as long as that helps, at
/// most `left` times.
pub open spec fn rounds_to(
    data: &[u8],
    ms: &MatchSet,
    rle: &Vec<u32>,
    bits_per_entry: int,
    left: int,
    a: Choice,
    b: Choice,
) -> bool
    decreases left,
{
    if left <= 0 {
        b == a
    } else {
        exists|table: Seq<u8>, c: Choice| #[trigger]
            ranked_anew(data, ms, rle, a, table, c) && if table != a.table@ && c.header_bits(
                bits_per_entry,
            ) < a.header_bits(bits_per_entry) {
                rounds_to(data, ms, rle, bits_per_entry, left - 1, c, b)
            } else {
                b == a
            }
    }
}

/// Rounds with the table ranked anew, as long as that helps.
fn rounds(
    data: &[u8],
    ms: &MatchSet,
    rle: &Vec<u32>,
    best: Choice,
    bits_per_entry: u64,
    left: usize,
) -> (r: Choice)
    requires
        data@.len() <= MAX_INPUT,
        ms.of(data@),
        puparse::runs_ok(data@, rle@),
        best.ok(data@),
        bits_per_entry <= 8,
    ensures
        r.ok(data@),
        rounds_to(data, ms, rle, bits_per_entry as int, left as int, best, r),
    decreases left,
{
    if left == 0 {
        return best;
    }
    let (table, rank_of) = retune_table(
        data,
        &best.sol.plan.tokens,
        Ghost(best.sol.plan.extra as nat),
    );
    let ghost t = table@;
    if same_table(&table, &best.table) {
        assert(ranked_anew(data, ms, rle, best, t, best));
        return best;
    }
    let sol: Solution = best_round(data, ms, rle, &rank_of);
    let cand: Choice = Choice { sol, table, rank_of };
    proof {
        putoken::lemma_plan_bits_bound(data@, &cand.sol.plan, cand.rank_of@);
        putoken::lemma_plan_bits_bound(data@, &best.sol.plan, best.rank_of@);
        assert(cand.is_round(data, ms, rle));
        assert(ranked_anew(data, ms, rle, best, t, cand));
    }
    if cand.with_header(bits_per_entry) < best.with_header(bits_per_entry) {
        rounds(data, ms, rle, cand, bits_per_entry, left - 1)
    } else {
        best
    }
}

/// The choice that the search ends with: a round with the table of the data, up to
/// three more with the table ranked anew, and then entries dropped.
pub open spec fn searched(
    data: &[u8],
    ms: &MatchSet,
    rle: &Vec<u32>,
    bits_per_entry: int,
    first: Choice,
    mid: Choice,
    last: Choice,
) -> bool {
    &&& matches_of(data@, ms)
    &&& puparse::runs_ok(data@, rle@)
    &&& first_table(data@, rle@, first.table@)
    &&& first.is_round(data, ms, rle)
    &&& rounds_to(data, ms, rle, bits_per_entry, 3, first, mid)
    &&& prunes_to(data, ms, rle, bits_per_entry, mid, last)
    &&& last.ok(data@)
}

/// The matches that the search chooses from: of small data all, else those that
/// chains of places with the same two bytes lead to.
pub open spec fn matches_of(data: Seq<u8>, ms: &MatchSet) -> bool {
    &&& ms.of(data)
    &&& if data.len() <= 16384 {
        ms.complete(data, 2, 65535, MAX_LZ_LEN as int)
    } else {
        ms.chained(data, 2, 65535, MAX_LZ_LEN as int, 8192)
    }
}

/// Parameters and bytes of a stream: those of the choice that the search ends with.
#[verifier::opaque]
pub open spec fn core_best(
    data: Seq<u8>,
    bits_per_entry: int,
    start_esc: int,
    esc_bits: int,
    extra: int,
    table: Seq<u8>,
    bits: Seq<u8>,
) -> bool {
    exists|
        d: &[u8],
        ms: MatchSet,
        rle: Vec<u32>,
        first: Choice,
        mid: Choice,
        last: Choice,
    |
        {
            &&& #[trigger] searched(d, &ms, &rle, bits_per_entry, first, mid, last)
            &&& d@ == data
            &&& start_esc == last.sol.plan.start_esc
            &&& esc_bits == last.sol.plan.esc_bits
            &&& extra == last.sol.plan.extra
            &&& table == last.table@
            &&& bits == last.bytes(data)
            &&& bits.len() == zx::bytes_for(last.sol.total as int)
        }
}

/// Compresses. `bits_per_entry` is what an entry of the table costs in the
/// header.
pub fn compress_core(data: &[u8], bits_per_entry: u64) -> (p: Packed)
    requires
        data@.len() <= MAX_INPUT,
        bits_per_entry <= 8,
    ensures
        p.holds(data@),
        data@.len() > 0 ==> core_best(
            data@,
            bits_per_entry as int,
            p.start_esc as int,
            p.esc_bits as int,
            p.extra as int,
            p.table@,
            p.bitstream@,
        ),
        p.bitstream@.len() <= 8 * data@.len() + 12,
        data@.len() == 0 ==> p.start_esc == 0 && p.esc_bits == 2 && p.extra == 0 && p.table@.len()
            == 0 && p.bitstream@ == seq![0x27u8, 0xff, 0xe0],
{
    let n: usize = data.len();
    if n == 0 {
        let plan: Plan = Plan {
            tokens: Vec::new(),
            newesc: Vec::new(),
            start_esc: 0,
            esc_bits: 2,
            extra: 0,
        };
        let table: Vec<u8> = Vec::new();
        let rank_of: Vec<u8> = vec![0u8; 256];
        proof {
            pustream::lemma_small_values(2);
            vstd::arithmetic::power2::lemma_pow2_pos(2);
        }
        let (bitstream, gap) = emit(data, &plan, &table, &rank_of);
        proof {
            putoken::lemma_end_bytes();
            putoken::lemma_plan_bits_bound(data@, &plan, rank_of@);
        }
        return Packed { bitstream, start_esc: 0, esc_bits: 2, extra: 0, table, gap };
    }
    let rle: Vec<u32> = run_lengths(data);
    let ms: MatchSet = if n <= 16384 {
        find_matches_exact(data, 2, 65535, MAX_LZ_LEN)
    } else {
        find_matches(data, 2, 65535, MAX_LZ_LEN, 8192)
    };
    let (table, rank_of) = initial_table(data, &rle);
    let sol: Solution = best_round(data, &ms, &rle, &rank_of);
    let first: Choice = Choice { sol, table, rank_of };
    let ghost c1 = first;
    let mid: Choice = rounds(data, &ms, &rle, first, bits_per_entry, 3);
    let ghost c2 = mid;
    let best: Choice = prune(data, &ms, &rle, mid, bits_per_entry);
    let ghost c3 = best;
    let plan: Plan = best.sol.plan;
    let (bitstream, gap) = emit(data, &plan, &best.table, &best.rank_of);
    proof {
        putoken::lemma_plan_bits_bound(data@, &plan, best.rank_of@);
        reveal(core_best);
        assert(searched(data, &ms, &rle, bits_per_entry as int, c1, c2, c3));
    }
    Packed {
        bitstream,
        start_esc: plan.start_esc,
        esc_bits: plan.esc_bits,
        extra: plan.extra,
        table: best.table,
        gap,
    }
}

// ---------------------------------------------------------------------------
// Start address of a BASIC program
// ---------------------------------------------------------------------------
/// The first zero byte from `i` on.
pub open spec fn zero_from(p: Seq<u8>, i: int) -> Option<int>
    decreases p.len() - i,
{
    if i < 0 || i >= p.len() {
        None
    } else if p[i] == 0 {
        Some(i)
    } else {
        zero_from(p, i + 1)
    }
}

/// A byte that may stand between the keyword and the address.
pub open spec fn sys_filler(b: u8) -> bool {
    b == 0x20 || b == 0xa0 || b == 0x28
}

pub open spec fn after_filler(p: Seq<u8>, i: int, end: int) -> int
    decreases end - i,
{
    if 0 <= i < end && sys_filler(p[i]) {
        after_filler(p, i + 1, end)
    } else {
        i
    }
}

pub open spec fn is_digit(b: u8) -> bool {
    0x30 <= b <= 0x39
}

/// A number from 1 to 65535 at `i`, with `v` before it.
pub open spec fn number_at(p: Seq<u8>, i: int, end: int, v: int, any: bool) -> Option<int>
    decreases end - i,
{
    if 0 <= i < end && is_digit(p[i]) {
        let w = v * 10 + (p[i] - 0x30);
        if w > 0xffff {
            None
        } else {
            number_at(p, i + 1, end, w, true)
        }
    } else if any && v > 0 {
        Some(v)
    } else {
        None
    }
}

/// The address behind the first keyword from `i` on that has one.
pub open spec fn sys_in(p: Seq<u8>, i: int, end: int) -> Option<int>
    decreases end - i,
{
    if i < 0 || i >= end {
        None
    } else if p[i] == 0x9e {
        match number_at(p, after_filler(p, i + 1, end), end, 0, false) {
            Some(v) => Some(v),
            None => sys_in(p, i + 1, end),
        }
    } else {
        sys_in(p, i + 1, end)
    }
}

pub open spec fn le16(s: Seq<u8>, i: int) -> int {
    s[i] + 256 * s[i + 1]
}

/// The address in the `lines` lines from `at` on. A line has a link to the
/// next one, a number, and a body up to a zero byte.
pub open spec fn sys_lines(load: int, p: Seq<u8>, at: int, lines: nat) -> Option<int>
    decreases lines,
{
    if lines == 0 || at + 5 > p.len() {
        None
    } else {
        let link = le16(p, at);
        match zero_from(p, at + 4) {
            None => None,
            Some(end) => if link == 0 {
                None
            } else {
                match sys_in(p, at + 4, end) {
                    Some(v) => Some(v),
                    None => if link <= load + at || link - load > p.len() {
                        None
                    } else {
                        sys_lines(load, p, link - load, (lines - 1) as nat)
                    },
                }
            },
        }
    }
}

fn find_zero(p: &[u8], start: usize) -> (z: Option<usize>)
    requires
        start <= p@.len(),
    ensures
        match z {
            Some(i) => zero_from(p@, start as int) == Some(i as int) && start <= i < p@.len(),
            None => zero_from(p@, start as int) is None,
        },
{
    let n: usize = p.len();
    let mut i: usize = start;
    while i < n
        invariant
            n == p@.len(),
            start <= i <= n,
            zero_from(p@, start as int) == zero_from(p@, i as int),
        decreases n - i,
    {
        if p[i] == 0 {
            return Some(i);
        }
        i += 1;
    }
    None
}

/// The address behind a keyword, if there is one.
fn sys_number(p: &[u8], start: usize, end: usize) -> (v: Option<u16>)
    requires
        start <= end <= p@.len(),
    ensures
        match v {
            Some(a) => number_at(p@, after_filler(p@, start as int, end as int), end as int, 0, false)
                == Some(a as int),
            None => number_at(p@, after_filler(p@, start as int, end as int), end as int, 0, false) is None,
        },
{
    let ghost i0 = after_filler(p@, start as int, end as int);
    let mut i: usize = start;
    while i < end && (p[i] == 0x20 || p[i] == 0xa0 || p[i] == 0x28)
        invariant
            start <= i <= end <= p@.len(),
            i0 == after_filler(p@, i as int, end as int),
        decreases end - i,
    {
        i += 1;
    }
    let ghost goal = number_at(p@, i0, end as int, 0, false);
    let mut v: u32 = 0;
    let mut any: bool = false;
    while i < end && p[i] >= 0x30 && p[i] <= 0x39
        invariant
            i <= end <= p@.len(),
            v <= 0xffff,
            goal == number_at(p@, i as int, end as int, v as int, any),
            goal == number_at(p@, i0, end as int, 0, false),
            i0 == after_filler(p@, start as int, end as int),
        decreases end - i,
    {
        v = v * 10 + (p[i] - 0x30) as u32;
        any = true;
        if v > 0xffff {
            return None;
        }
        i += 1;
    }
    if any && v > 0 {
        Some(v as u16)
    } else {
        None
    }
}

fn sys_in_line(p: &[u8], start: usize, end: usize) -> (v: Option<u16>)
    requires
        start <= end <= p@.len(),
    ensures
        match v {
            Some(a) => sys_in(p@, start as int, end as int) == Some(a as int),
            None => sys_in(p@, start as int, end as int) is None,
        },
{
    let mut i: usize = start;
    while i < end
        invariant
            start <= i <= end <= p@.len(),
            sys_in(p@, start as int, end as int) == sys_in(p@, i as int, end as int),
        decreases end - i,
    {
        if p[i] == 0x9e {
            match sys_number(p, i + 1, end) {
                Some(a) => {
                    return Some(a);
                },
                None => {},
            }
        }
        i += 1;
    }
    None
}

/// The start address in the first lines of a BASIC program that loads at
/// `load`: the number behind the first keyword that has one.
pub fn detect_sys(load: u16, payload: &[u8]) -> (v: Option<u16>)
    requires
        payload@.len() <= MAX_OUTPUT,
    ensures
        match v {
            Some(a) => sys_lines(load as int, payload@, 0, 8) == Some(a as int),
            None => sys_lines(load as int, payload@, 0, 8) is None,
        },
{
    let n: usize = payload.len();
    let base: usize = load as usize;
    let mut at: usize = 0;
    let mut lines: usize = 8;
    while lines > 0
        invariant
            n == payload@.len(),
            n <= MAX_OUTPUT,
            base == load,
            lines <= 8,
            at <= n,
            sys_lines(load as int, payload@, 0, 8) == sys_lines(
                load as int,
                payload@,
                at as int,
                lines as nat,
            ),
        decreases lines,
    {
        if n < 5 || at > n - 5 {
            return None;
        }
        let link: usize = payload[at] as usize + 256 * payload[at + 1] as usize;
        if link == 0 {
            return None;
        }
        let end: usize = match find_zero(payload, at + 4) {
            None => {
                return None;
            },
            Some(z) => z,
        };
        match sys_in_line(payload, at + 4, end) {
            Some(a) => {
                return Some(a);
            },
            None => {},
        }
        if link <= base || link - base <= at || link - base > n {
            return None;
        }
        at = link - base;
        lines -= 1;
    }
    None
}

// ---------------------------------------------------------------------------
// Standalone file
// ---------------------------------------------------------------------------
/// Parameters and stream of a standalone file, or what is wrong with it.
pub open spec fn pu_header(file: Seq<u8>) -> Result<(PuMode, nat, Seq<u8>), PuError> {
    if file.len() < 16 {
        Err(PuError::ShortHeader)
    } else if file[2] != 0x70 || file[3] != 0x75 {
        Err(PuError::BadMagic)
    } else if file[10] == 0 {
        Err(PuError::ZeroMaxGamma)
    } else if file[9] > 8 {
        Err(PuError::EscBits { bits: file[9] as u32 })
    } else if !(6 <= file[10] <= 8) {
        Err(PuError::MaxGamma { max: (file[10] - 1) as u32 })
    } else if file[11] != pow2((file[10] - 1) as nat) {
        Err(PuError::ShortRleLimit)
    } else if file[12] > 4 {
        Err(PuError::ExtraBits { extra: file[12] as u32 })
    } else if file[15] > 15 {
        Err(PuError::RleUsed { used: file[15] as usize })
    } else if file.len() < 16 + file[15] {
        Err(PuError::ShortTable)
    } else {
        Ok(
            (
                PuMode {
                    esc_bits: file[9] as nat,
                    max_gamma: (file[10] - 1) as nat,
                    extra: file[12] as nat,
                    table: file.subrange(16, 16 + file[15]),
                },
                file[6] as nat,
                file.skip(16 + file[15]),
            ),
        )
    }
}

/// Payload and gap of a standalone file.
pub open spec fn pu_payload(file: Seq<u8>) -> Result<(Seq<u8>, int), PuError> {
    match pu_header(file) {
        Err(e) => Err(e),
        Ok((m, esc, bits)) => pustream::pu_stream(bits, m, esc),
    }
}

/// What a standalone file decodes to: the load address and the payload.
pub open spec fn pu_decoded(file: Seq<u8>) -> Result<Seq<u8>, PuError> {
    match pu_payload(file) {
        Err(e) => Err(e),
        Ok((o, _)) => Ok(file.subrange(7, 9) + o),
    }
}

/// Where a packed file loads: far enough above the output that the write head
/// does not reach what is still to be read, but not beyond the end of memory.
pub open spec fn pu_inpos(out_pos: int, gap: int, size: int) -> int {
    let want = out_pos + zx::max_of(gap, 0) + 4;
    let highest = zx::max_of(0x1_0000 - size, 0);
    if want < highest {
        want
    } else {
        highest
    }
}

pub open spec fn clamp16(v: int) -> int {
    if v < 0 {
        0
    } else if v > 0xffff {
        0xffff
    } else {
        v
    }
}

/// The file holds `data` for `out_pos` with the start address `exec_at`, and its
/// load address and end are those of its stream.
pub open spec fn pu_file(file: Seq<u8>, data: Seq<u8>, out_pos: u16, exec_at: u16) -> bool {
    &&& file.len() >= 16
    &&& file.len() <= 8 * data.len() + 43
    &&& file[10] == 8
    &&& file[11] == 128
    &&& pu_decoded(file) == Ok::<Seq<u8>, PuError>(
        seq![(out_pos % 256) as u8, (out_pos / 256) as u8] + data,
    )
    &&& le16(file, 13) == exec_at
    &&& pu_payload(file) matches Ok((_, gap)) && {
        &&& le16(file, 0) == clamp16(pu_inpos(out_pos as int, gap, file.len() - 2))
        &&& le16(file, 4) == clamp16(
            clamp16(pu_inpos(out_pos as int, gap, file.len() - 2)) + file.len() - 2 - 256,
        )
    }
}

/// Parameters and stream of the file are those that the search ends with.
pub open spec fn file_best(data: Seq<u8>, file: Seq<u8>) -> bool {
    let used = file[15] as int;
    core_best(
        data,
        8,
        file[6] as int,
        file[9] as int,
        file[12] as int,
        file.subrange(16, 16 + used),
        file.skip(16 + used),
    )
}

fn push16(out: &mut Vec<u8>, v: u16)
    ensures
        final(out)@ == old(out)@ + seq![(v % 256) as u8, (v / 256) as u8],
{
    out.push((v % 256) as u8);
    out.push((v / 256) as u8);
    assert(out@ =~= old(out)@ + seq![(v % 256) as u8, (v / 256) as u8]);
}

/// What the header of a file with the stream `p` says.
spec fn head_of(h: Seq<u8>, p: &Packed, inpos: u16, end16: u16, out_pos: u16, exec_at: u16) -> bool {
    &&& h.len() == 16
    &&& le16(h, 0) == inpos
    &&& h[2] == 0x70
    &&& h[3] == 0x75
    &&& le16(h, 4) == end16
    &&& h[6] == p.start_esc
    &&& h[7] == out_pos % 256
    &&& h[8] == out_pos / 256
    &&& h[9] == p.esc_bits
    &&& h[10] == 8
    &&& h[11] == 128
    &&& h[12] == p.extra
    &&& le16(h, 13) == exec_at
    &&& h[15] == p.table@.len()
}

fn file_head(p: &Packed, inpos: u16, end16: u16, out_pos: u16, exec_at: u16) -> (h: Vec<u8>)
    requires
        p.esc_bits <= 8,
        p.extra <= 4,
        p.table@.len() <= 15,
    ensures
        head_of(h@, p, inpos, end16, out_pos, exec_at),
{
    let mut out: Vec<u8> = Vec::with_capacity(16);
    push16(&mut out, inpos);
    out.push(0x70);
    out.push(0x75);
    push16(&mut out, end16);
    out.push(p.start_esc);
    push16(&mut out, out_pos);
    out.push(p.esc_bits as u8);
    out.push(MAX_GAMMA as u8 + 1);
    out.push(SHORT_RLE_LIMIT as u8);
    out.push(p.extra as u8);
    push16(&mut out, exec_at);
    out.push(p.table.len() as u8);
    out
}

/// A header, a table and a stream make a file that holds the payload.
proof fn lemma_file(h: Seq<u8>, p: &Packed, data: Seq<u8>, inpos: u16, end16: u16, out_pos: u16, exec_at: u16)
    requires
        head_of(h, p, inpos, end16, out_pos, exec_at),
        p.holds(data),
    ensures
        ({
            let file = h + p.table@ + p.bitstream@;
            &&& file.len() == 16 + p.table@.len() + p.bitstream@.len()
            &&& pu_payload(file) == Ok::<(Seq<u8>, int), PuError>((data, p.gap as int))
            &&& pu_decoded(file) == Ok::<Seq<u8>, PuError>(
                seq![(out_pos % 256) as u8, (out_pos / 256) as u8] + data,
            )
            &&& le16(file, 0) == inpos
            &&& le16(file, 4) == end16
            &&& le16(file, 13) == exec_at
        }),
{
    let file = h + p.table@ + p.bitstream@;
    let used = p.table@.len() as int;
    assert(forall|k: int| 0 <= k < 16 ==> file[k] == h[k]);
    assert(file.subrange(16, 16 + used) =~= p.table@);
    assert(file.skip(16 + used) =~= p.bitstream@);
    pustream::lemma_small_values(7);
    assert(pu_header(file) == Ok::<(PuMode, nat, Seq<u8>), PuError>(
        (
            putoken::out_mode(p.esc_bits as nat, p.extra as nat, p.table@),
            p.start_esc as nat,
            p.bitstream@,
        ),
    ));
    assert(file.subrange(7, 9) =~= seq![(out_pos % 256) as u8, (out_pos / 256) as u8]);
}

/// Compresses to a standalone file that decompresses to `out_pos` and starts at
/// `exec_at`.
#[verifier::rlimit(60)]
pub fn compress_pucrunch_raw(data: &[u8], out_pos: u16, exec_at: u16) -> (file: Vec<u8>)
    requires
        data@.len() <= MAX_INPUT,
    ensures
        pu_file(file@, data@, out_pos, exec_at),
        data@.len() > 0 ==> file_best(data@, file@),
{
    let p: Packed = compress_core(data, 8);
    let used: usize = p.table.len();
    let gap: i64 = if p.gap > 0 {
        p.gap
    } else {
        0
    };
    let size: i64 = 14 + used as i64 + p.bitstream.len() as i64;
    let want: i64 = out_pos as i64 + gap + 4;
    let highest: i64 = if size < 0x1_0000 {
        0x1_0000 - size
    } else {
        0
    };
    let at: i64 = if want < highest {
        want
    } else {
        highest
    };
    let inpos: u16 = if at > 0xffff {
        0xffff
    } else {
        at as u16
    };
    let end: i64 = inpos as i64 + size - 256;
    let end16: u16 = if end < 0 {
        0
    } else if end > 0xffff {
        0xffff
    } else {
        end as u16
    };
    let mut out: Vec<u8> = file_head(&p, inpos, end16, out_pos, exec_at);
    let ghost h = out@;
    out.extend_from_slice(p.table.as_slice());
    out.extend_from_slice(p.bitstream.as_slice());
    proof {
        assert(out@ =~= h + p.table@ + p.bitstream@);
        lemma_file(h, &p, data@, inpos, end16, out_pos, exec_at);
        assert(out@[10] == 8 && out@[11] == 128);
        assert(out@.subrange(16, 16 + used as int) =~= p.table@);
        assert(out@.skip(16 + used as int) =~= p.bitstream@);
    }
    out
}

/// A load address and the bytes behind it.
proof fn lemma_word_first(prg: Seq<u8>, load: u16)
    requires
        prg.len() >= 2,
        load == prg[0] + 256 * prg[1],
    ensures
        seq![(load % 256) as u8, (load / 256) as u8] + prg.skip(2) == prg,
{
    assert(seq![(load % 256) as u8, (load / 256) as u8] + prg.skip(2) =~= prg);
}

/// The file holds the program, and starts it where its BASIC line says, or else at
/// the load address.
pub open spec fn prg_file(prg: Seq<u8>, file: Seq<u8>) -> bool {
    let load = (prg[0] + 256 * prg[1]) as u16;
    &&& pu_file(
        file,
        prg.skip(2),
        load,
        match sys_lines(load as int, prg.skip(2), 0, 8) {
            Some(a) => a as u16,
            None => load,
        },
    )
    &&& pu_decoded(file) == Ok::<Seq<u8>, PuError>(prg)
}

/// Compresses a program file: a load address and the payload. It starts where
/// its BASIC line says, or else at the load address.
pub fn compress_pucrunch_prg(prg: &[u8]) -> (file: Vec<u8>)
    requires
        2 <= prg@.len() <= MAX_INPUT,
    ensures
        prg_file(prg@, file@),
        prg@.len() > 2 ==> file_best(prg@.skip(2), file@),
{
    let load: u16 = prg[0] as u16 + 256 * prg[1] as u16;
    let payload: &[u8] = vstd::slice::slice_subrange(prg, 2, prg.len());
    assert(payload@ =~= prg@.skip(2));
    let exec_at: u16 = match detect_sys(load, payload) {
        Some(a) => a,
        None => load,
    };
    let file: Vec<u8> = compress_pucrunch_raw(payload, load, exec_at);
    proof {
        lemma_word_first(prg@, load);
    }
    file
}

/// Decompresses a standalone file to a program file.
pub fn decompress_pucrunch(file: &[u8]) -> (r: Result<Vec<u8>, PuError>)
    requires
        file@.len() <= MAX_OUTPUT,
    ensures
        match r {
            Ok(out) => pu_decoded(file@) == Ok::<Seq<u8>, PuError>(out@),
            Err(e) => pu_decoded(file@) == Err::<Seq<u8>, PuError>(e),
        },
{
    let n: usize = file.len();
    if n < 16 {
        return Err(PuError::ShortHeader);
    }
    if file[2] != 0x70 || file[3] != 0x75 {
        return Err(PuError::BadMagic);
    }
    if file[10] == 0 {
        return Err(PuError::ZeroMaxGamma);
    }
    let esc_bits: u32 = file[9] as u32;
    let max_gamma: u32 = file[10] as u32 - 1;
    let extra: u32 = file[12] as u32;
    let used: usize = file[15] as usize;
    if esc_bits > 8 {
        return Err(PuError::EscBits { bits: esc_bits });
    }
    if max_gamma < 5 || max_gamma > 7 {
        return Err(PuError::MaxGamma { max: max_gamma });
    }
    if file[11] as u32 != crate::pustream::two_to(max_gamma) {
        return Err(PuError::ShortRleLimit);
    }
    if extra > 4 {
        return Err(PuError::ExtraBits { extra });
    }
    if used > 15 {
        return Err(PuError::RleUsed { used });
    }
    if n < 16 + used {
        return Err(PuError::ShortTable);
    }
    let entries: &[u8] = vstd::slice::slice_subrange(file, 16, 16 + used);
    let mut table: Vec<u8> = Vec::with_capacity(used);
    table.extend_from_slice(entries);
    assert(table@ =~= file@.subrange(16, 16 + used));
    let prm: StreamParams = StreamParams {
        start_esc: file[6] as u32,
        esc_bits,
        max_gamma,
        extra,
        table,
    };
    let bits: &[u8] = vstd::slice::slice_subrange(file, 16 + used, n);
    assert(bits@ =~= file@.skip(16 + used));
    match decode_stream_gap(bits, &prm) {
        Err(e) => Err(e),
        Ok((payload, _)) => {
            let mut out: Vec<u8> = Vec::with_capacity(2);
            out.push(file[7]);
            out.push(file[8]);
            out.extend_from_slice(payload.as_slice());
            assert(out@ =~= file@.subrange(7, 9) + payload@);
            Ok(out)
        },
    }
}

// ---------------------------------------------------------------------------
// Container for a 6502 decoder
// ---------------------------------------------------------------------------
/// Length of the header: first escape value, its width and the width of the
/// rest of a byte, middle bits, and fifteen table entries.
pub const HDR_6502: usize = 19;

/// Parameters and stream of a forward container, or what is wrong with it.
pub open spec fn pu6502_header(c: Seq<u8>) -> Result<(PuMode, nat, Seq<u8>), PuError> {
    if c.len() < HDR_6502 {
        Err(PuError::ShortContainer)
    } else if c[1] > 8 {
        Err(PuError::EscBits { bits: c[1] as u32 })
    } else if c[2] != 8 - c[1] {
        Err(PuError::LitBits)
    } else if c[3] > 4 {
        Err(PuError::ExtraBits { extra: c[3] as u32 })
    } else {
        Ok(
            (
                PuMode {
                    esc_bits: c[1] as nat,
                    max_gamma: 7,
                    extra: c[3] as nat,
                    table: c.subrange(4, 19),
                },
                c[0] as nat,
                c.skip(19),
            ),
        )
    }
}

/// Output and gap of a forward container.
pub open spec fn pu6502_run(c: Seq<u8>) -> Result<(Seq<u8>, int), PuError> {
    match pu6502_header(c) {
        Err(e) => Err(e),
        Ok((m, esc, bits)) => pustream::pu_stream(bits, m, esc),
    }
}

/// What a forward container decodes to.
pub open spec fn pu6502_decoded(c: Seq<u8>) -> Result<Seq<u8>, PuError> {
    match pu6502_run(c) {
        Err(e) => Err(e),
        Ok((o, _)) => Ok(o),
    }
}

/// The forward container of a backward one: the four parameters stand at the
/// end in reverse, the table before them, and the stream in reverse in front.
pub open spec fn pu6502_forward(c: Seq<u8>) -> Seq<u8> {
    let n = c.len() as int;
    if n < HDR_6502 {
        c
    } else {
        c.subrange(n - 4, n).reverse() + c.subrange(n - 19, n - 4) + c.take(n - 19).reverse()
    }
}

/// What a backward container decodes to.
pub open spec fn pu6502_decoded_backward(c: Seq<u8>) -> Result<Seq<u8>, PuError> {
    match pu6502_run(pu6502_forward(c)) {
        Err(e) => Err(e),
        Ok((o, _)) => Ok(o.reverse()),
    }
}

/// A table with entries behind its own changes nothing that decodes.
proof fn lemma_longer_table(data: Seq<u8>, m: PuMode, k: PuMode, d: pustream::PuState, fuel: nat)
    requires
        m.esc_bits == k.esc_bits,
        m.max_gamma == k.max_gamma,
        m.extra == k.extra,
        m.table.len() <= k.table.len(),
        forall|i: int| 0 <= i < m.table.len() ==> m.table[i] == k.table[i],
        pustream::pu_run(data, m, d, fuel) is Ok,
        m.wf(),
    ensures
        pustream::pu_run(data, k, d, fuel) == pustream::pu_run(data, m, d, fuel),
    decreases fuel,
{
    if fuel > 0 {
        let s = pustream::pu_step(data, m, d);
        assert(!(s is Fail));
        lemma_longer_table_step(data, m, k, d);
        if let pustream::PuStep::Next(e) = s {
            lemma_longer_table(data, m, k, e, (fuel - 1) as nat);
        }
    }
}

proof fn lemma_longer_table_step(data: Seq<u8>, m: PuMode, k: PuMode, d: pustream::PuState)
    requires
        m.esc_bits == k.esc_bits,
        m.max_gamma == k.max_gamma,
        m.extra == k.extra,
        m.table.len() <= k.table.len(),
        forall|i: int| 0 <= i < m.table.len() ==> m.table[i] == k.table[i],
        !(pustream::pu_step(data, m, d) is Fail),
        m.wf(),
    ensures
        pustream::pu_step(data, k, d) == pustream::pu_step(data, m, d),
{
    let g = m.max_gamma;
    if let Some((sel, s1)) = pustream::pu_bits(data, d.s, m.esc_bits) {
        if let Some((a, s2)) = pustream::pu_gamma(data, s1, g) {
            pustream::lemma_gamma_positive(data, s2, g);
            if let Some((b, s3)) = crate::zx02::z_bit(data, s2) {
                if let Some((c, s4)) = crate::zx02::z_bit(data, s3) {
                    if let Some((n, s5)) = pustream::pu_read_run(data, m, s4) {
                        pustream::lemma_gamma_positive(data, s5, g);
                        assert(pustream::pu_read_run(data, k, s4) == Some((n, s5)));
                        if let Ok((byte, s6)) = pustream::pu_read_byte(data, m, s5) {
                            assert(pustream::pu_read_byte(data, k, s5)
                                == pustream::pu_read_byte(data, m, s5));
                        }
                    }
                }
            }
        }
    }
}

/// The four parameters and the table, filled up with zeros.
fn header_6502(p: &Packed) -> (r: (Vec<u8>, Vec<u8>))
    requires
        p.esc_bits <= 8,
        p.extra <= 4,
        p.table@.len() <= 15,
    ensures
        r.0@ == seq![p.start_esc, p.esc_bits as u8, (8 - p.esc_bits) as u8, p.extra as u8],
        r.1@.len() == 15,
        forall|i: int| 0 <= i < p.table@.len() ==> r.1@[i] == p.table@[i],
        forall|i: int| p.table@.len() <= i < 15 ==> r.1@[i] == 0,
{
    let mut head: Vec<u8> = Vec::new();
    head.push(p.start_esc);
    head.push(p.esc_bits as u8);
    head.push(8 - p.esc_bits as u8);
    head.push(p.extra as u8);
    assert(head@ =~= seq![p.start_esc, p.esc_bits as u8, (8 - p.esc_bits) as u8, p.extra as u8]);
    let mut table: Vec<u8> = copy_table(&p.table);
    let n: usize = table.len();
    let mut i: usize = n;
    while i < 15
        invariant
            n == p.table@.len(),
            n <= i <= 15,
            table@.len() == i,
            forall|j: int| 0 <= j < n ==> table@[j] == p.table@[j],
            forall|j: int| n <= j < i ==> table@[j] == 0,
        decreases 15 - i,
    {
        table.push(0);
        i += 1;
    }
    (head, table)
}

/// The container of a compressed stream decodes like the stream.
proof fn lemma_container(data: Seq<u8>, p: &Packed, head: Seq<u8>, table: Seq<u8>, c: Seq<u8>)
    requires
        p.holds(data),
        head == seq![p.start_esc, p.esc_bits as u8, (8 - p.esc_bits) as u8, p.extra as u8],
        table.len() == 15,
        forall|i: int| 0 <= i < p.table@.len() ==> table[i] == p.table@[i],
        c == head + table + p.bitstream@,
    ensures
        pu6502_run(c) == Ok::<(Seq<u8>, int), PuError>((data, p.gap as int)),
        pu6502_decoded(c) == Ok::<Seq<u8>, PuError>(data),
{
    let m = putoken::out_mode(p.esc_bits as nat, p.extra as nat, p.table@);
    let k = putoken::out_mode(p.esc_bits as nat, p.extra as nat, table);
    assert(c.subrange(4, 19) =~= table);
    assert(c.skip(19) =~= p.bitstream@);
    assert(c[0] == head[0] && c[1] == head[1] && c[2] == head[2] && c[3] == head[3]);
    lemma_longer_table(
        p.bitstream@,
        m,
        k,
        pustream::pu_start(p.start_esc as nat),
        crate::zx02::z_fuel(p.bitstream@),
    );
}

/// Parameters and stream of a container are those that the search ends with; its
/// table has zeros behind the entries.
#[verifier::opaque]
pub open spec fn container_best(data: Seq<u8>, c: Seq<u8>) -> bool {
    exists|used: int|
        {
            &&& 0 <= used <= 15
            &&& #[trigger] core_best(
                data,
                0,
                c[0] as int,
                c[1] as int,
                c[3] as int,
                c.subrange(4, 4 + used),
                c.skip(19),
            )
            &&& forall|k: int| 4 + used <= k < 19 ==> #[trigger] c[k] == 0
        }
}

proof fn lemma_container_best(data: Seq<u8>, p: &Packed, head: Seq<u8>, table: Seq<u8>, c: Seq<u8>)
    requires
        p.esc_bits <= 8,
        p.extra <= 4,
        p.table@.len() <= 15,
        head == seq![p.start_esc, p.esc_bits as u8, (8 - p.esc_bits) as u8, p.extra as u8],
        table.len() == 15,
        forall|i: int| 0 <= i < p.table@.len() ==> table[i] == p.table@[i],
        forall|i: int| p.table@.len() <= i < 15 ==> table[i] == 0,
        c == head + table + p.bitstream@,
        core_best(
            data,
            0,
            p.start_esc as int,
            p.esc_bits as int,
            p.extra as int,
            p.table@,
            p.bitstream@,
        ),
    ensures
        container_best(data, c),
{
    reveal(container_best);
    let used = p.table@.len() as int;
    assert(c.subrange(4, 4 + used) =~= p.table@);
    assert(c.skip(19) =~= p.bitstream@);
    assert(core_best(
        data,
        0,
        c[0] as int,
        c[1] as int,
        c[3] as int,
        c.subrange(4, 4 + used),
        c.skip(19),
    ));
    assert forall|k: int| 4 + used <= k < 19 implies #[trigger] c[k] == 0 by {
        assert(c[k] == table[k - 4]);
    }
}

/// The container of no bytes: the parameters, an empty table and the end.
pub open spec fn empty_container() -> Seq<u8> {
    seq![0u8, 2, 6, 0] + Seq::new(15, |i: int| 0u8) + seq![0x27u8, 0xff, 0xe0]
}

proof fn lemma_empty_container(head: Seq<u8>, table: Seq<u8>, c: Seq<u8>)
    requires
        head == seq![0u8, 2, 6, 0],
        table.len() == 15,
        forall|i: int| 0 <= i < 15 ==> table[i] == 0,
        c == head + table + seq![0x27u8, 0xff, 0xe0],
    ensures
        c == empty_container(),
{
    assert(c =~= empty_container());
}

/// Compresses to a forward container.
#[verifier::rlimit(60)]
#[verifier::spinoff_prover]
pub fn compress_pucrunch_6502(input: &[u8]) -> (c: Vec<u8>)
    requires
        input@.len() <= MAX_INPUT,
    ensures
        pu6502_decoded(c@) == Ok::<Seq<u8>, PuError>(input@),
        c@.len() <= 8 * input@.len() + 31,
        input@.len() <= 0x0fff_fff0 ==> c@.len() <= MAX_OUTPUT,
        input@.len() == 0 ==> c@ == empty_container(),
        input@.len() > 0 ==> container_best(input@, c@),
{
    let p: Packed = compress_core(input, 0);
    let (head, table) = header_6502(&p);
    let ghost h = head@;
    let mut c: Vec<u8> = head;
    c.extend_from_slice(table.as_slice());
    c.extend_from_slice(p.bitstream.as_slice());
    proof {
        assert(c@ =~= h + table@ + p.bitstream@);
        lemma_container(input@, &p, h, table@, c@);
        if input@.len() == 0 {
            lemma_empty_container(h, table@, c@);
        } else {
            lemma_container_best(input@, &p, h, table@, c@);
        }
    }
    c
}

/// The forward layout of a backward container is a container of the reversed
/// input; where there is input, the one that the search ends with.
pub open spec fn backward_of(input: Seq<u8>, c: Seq<u8>) -> bool {
    &&& pu6502_decoded(pu6502_forward(c)) == Ok::<Seq<u8>, PuError>(input.reverse())
    &&& pu6502_forward(c).len() == c.len()
    &&& input.len() == 0 ==> pu6502_forward(c) == empty_container()
    &&& input.len() > 0 ==> container_best(input.reverse(), pu6502_forward(c))
}

/// The layout of a backward container.
proof fn lemma_layout(bits: Seq<u8>, table: Seq<u8>, head: Seq<u8>, c: Seq<u8>)
    requires
        head.len() == 4,
        table.len() == 15,
        c == bits.reverse() + table + head.reverse(),
    ensures
        pu6502_forward(c) == head + table + bits,
{
    let n = c.len() as int;
    assert(c.subrange(n - 4, n) =~= head.reverse());
    assert(c.subrange(n - 19, n - 4) =~= table);
    assert(c.take(n - 19) =~= bits.reverse());
    lz::lemma_reverse_twice(bits);
    lz::lemma_reverse_twice(head);
    assert(pu6502_forward(c) =~= head + table + bits);
}

/// Compresses to a backward container: the stream of the reversed input, laid
/// out for a reader that goes down.
#[verifier::rlimit(60)]
#[verifier::spinoff_prover]
pub fn compress_pucrunch_6502_backward(input: &[u8]) -> (c: Vec<u8>)
    requires
        input@.len() <= MAX_INPUT,
    ensures
        pu6502_decoded_backward(c@) == Ok::<Seq<u8>, PuError>(input@),
        c@.len() <= 8 * input@.len() + 31,
        input@.len() <= 0x0fff_fff0 ==> c@.len() <= MAX_OUTPUT,
        c@.len() >= 19,
        backward_of(input@, c@),
{
    let rev: Vec<u8> = reversed(input);
    let p: Packed = compress_core(rev.as_slice(), 0);
    let (head, table) = header_6502(&p);
    let mut c: Vec<u8> = reversed(p.bitstream.as_slice());
    c.extend_from_slice(table.as_slice());
    let tail: Vec<u8> = reversed(head.as_slice());
    c.extend_from_slice(tail.as_slice());
    proof {
        assert(c@ =~= p.bitstream@.reverse() + table@ + head@.reverse());
        lemma_layout(p.bitstream@, table@, head@, c@);
        lz::lemma_reverse_twice(input@);
        lemma_container(rev@, &p, head@, table@, pu6502_forward(c@));
        if input@.len() > 0 {
            lemma_container_best(rev@, &p, head@, table@, pu6502_forward(c@));
        } else {
            lemma_empty_container(head@, table@, pu6502_forward(c@));
        }
    }
    c
}

/// Decodes a forward container and gives its gap.
fn run_6502(stream: &[u8]) -> (r: Result<(Vec<u8>, i64), PuError>)
    requires
        stream@.len() <= MAX_OUTPUT,
    ensures
        match r {
            Ok((o, g)) => pu6502_run(stream@) == Ok::<(Seq<u8>, int), PuError>((o@, g as int)),
            Err(e) => pu6502_run(stream@) == Err::<(Seq<u8>, int), PuError>(e),
        },
{
    let n: usize = stream.len();
    if n < HDR_6502 {
        return Err(PuError::ShortContainer);
    }
    let esc_bits: u32 = stream[1] as u32;
    if esc_bits > 8 {
        return Err(PuError::EscBits { bits: esc_bits });
    }
    if stream[2] as u32 != 8 - esc_bits {
        return Err(PuError::LitBits);
    }
    if stream[3] > 4 {
        return Err(PuError::ExtraBits { extra: stream[3] as u32 });
    }
    let entries: &[u8] = vstd::slice::slice_subrange(stream, 4, 19);
    let mut table: Vec<u8> = Vec::with_capacity(15);
    table.extend_from_slice(entries);
    assert(table@ =~= stream@.subrange(4, 19));
    let prm: StreamParams = StreamParams {
        start_esc: stream[0] as u32,
        esc_bits,
        max_gamma: MAX_GAMMA,
        extra: stream[3] as u32,
        table,
    };
    let bits: &[u8] = vstd::slice::slice_subrange(stream, HDR_6502, n);
    assert(bits@ =~= stream@.skip(19));
    decode_stream_gap(bits, &prm)
}

/// The forward container of a backward one.
fn forward_6502(stream: &[u8]) -> (fwd: Vec<u8>)
    requires
        stream@.len() >= HDR_6502,
    ensures
        fwd@ == pu6502_forward(stream@),
        fwd@.len() == stream@.len(),
{
    let n: usize = stream.len();
    let tail: &[u8] = vstd::slice::slice_subrange(stream, n - 4, n);
    let table: &[u8] = vstd::slice::slice_subrange(stream, n - 19, n - 4);
    let bits: &[u8] = vstd::slice::slice_subrange(stream, 0, n - 19);
    assert(bits@ =~= stream@.take(n - 19));
    let mut fwd: Vec<u8> = reversed(tail);
    fwd.extend_from_slice(table);
    let turned: Vec<u8> = reversed(bits);
    fwd.extend_from_slice(turned.as_slice());
    assert(fwd@ =~= pu6502_forward(stream@));
    fwd
}

/// In-place gap of a forward container: how far a token's last byte lies from
/// the byte of the stream that the token starts in, at most.
pub fn container_max_gap(stream: &[u8]) -> (r: Result<i64, PuError>)
    requires
        stream@.len() <= MAX_OUTPUT,
    ensures
        match r {
            Ok(g) => pu6502_run(stream@) matches Ok((_, gap)) && gap == g,
            Err(e) => pu6502_run(stream@) == Err::<(Seq<u8>, int), PuError>(e),
        },
{
    match run_6502(stream) {
        Ok((_, g)) => Ok(g),
        Err(e) => Err(e),
    }
}

/// In-place gap of a backward container.
pub fn container_max_gap_backward(stream: &[u8]) -> (r: Result<i64, PuError>)
    requires
        stream@.len() <= MAX_OUTPUT,
    ensures
        match r {
            Ok(g) => pu6502_run(pu6502_forward(stream@)) matches Ok((_, gap)) && gap == g,
            Err(e) => pu6502_run(pu6502_forward(stream@)) == Err::<(Seq<u8>, int), PuError>(e),
        },
{
    if stream.len() < HDR_6502 {
        return Err(PuError::ShortContainer);
    }
    let fwd: Vec<u8> = forward_6502(stream);
    container_max_gap(fwd.as_slice())
}

/// Decompresses a forward container.
pub fn decompress_pucrunch_6502(stream: &[u8]) -> (r: Result<Vec<u8>, PuError>)
    requires
        stream@.len() <= MAX_OUTPUT,
    ensures
        match r {
            Ok(out) => pu6502_decoded(stream@) == Ok::<Seq<u8>, PuError>(out@),
            Err(e) => pu6502_decoded(stream@) == Err::<Seq<u8>, PuError>(e),
        },
{
    match run_6502(stream) {
        Ok((out, _)) => Ok(out),
        Err(e) => Err(e),
    }
}

/// Decompresses a backward container.
pub fn decompress_pucrunch_6502_backward(stream: &[u8]) -> (r: Result<Vec<u8>, PuError>)
    requires
        stream@.len() <= MAX_OUTPUT,
    ensures
        match r {
            Ok(out) => pu6502_decoded_backward(stream@) == Ok::<Seq<u8>, PuError>(out@),
            Err(e) => pu6502_decoded_backward(stream@) == Err::<Seq<u8>, PuError>(e),
        },
{
    if stream.len() < HDR_6502 {
        return Err(PuError::ShortContainer);
    }
    let fwd: Vec<u8> = forward_6502(stream);
    match run_6502(fwd.as_slice()) {
        Ok((out, _)) => Ok(reversed(out.as_slice())),
        Err(e) => Err(e),
    }
}

/// A backward container holds the parts of the forward one in mirrored order: the
/// stream turned round, the table as it is, and the parameters turned round.
pub proof fn lemma_backward_mirrors(c: Seq<u8>)
    requires
        c.len() >= 19,
    ensures
        ({
            let f = pu6502_forward(c);
            let n = c.len() as int;
            &&& f.len() == n
            &&& c.take(n - 19) == f.skip(19).reverse()
            &&& c.subrange(n - 19, n - 4) == f.subrange(4, 19)
            &&& c.skip(n - 4) == f.take(4).reverse()
        }),
{
    let f = pu6502_forward(c);
    let n = c.len() as int;
    assert(c.take(n - 19) =~= f.skip(19).reverse());
    assert(c.subrange(n - 19, n - 4) =~= f.subrange(4, 19));
    assert(c.skip(n - 4) =~= f.take(4).reverse());
}

} // verus!
