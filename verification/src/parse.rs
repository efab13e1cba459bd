//! Optimal parses by forward dynamic programming, where every position keeps
//! several arrivals with their own recent offsets: one for byte-coded commands
//! under a table of costs, one for the ZX stream.
use crate::bitio;
use crate::lz;
use crate::matchfinder;
use crate::matchfinder::{Match, MatchSet};
use crate::zx;
use crate::zx0opt;
use crate::zx::{ZxCommand, MAX_OFFSET};
use crate::zxbest;
use crate::zxbest::{
    build_zx_commands_from_best, commands_to_best, eval_best_cost, reduce_commands_zx, zero_table,
};
use crate::zxdp;
use crate::zxreach;
use crate::zxdp::{
    dp_extra, dp_front, dp_literal, dp_near_front, dp_near_probe, dp_rep, fresh_for_offset, fresh_for_rep,
    Limits, ZxArr, NEAR_PROBE_ARRIVALS, NEAR_REP_DELTA_MAX, ZX_ARRIVALS, ZX_INF, ZX_RELAX_SPAN, ZX_REP_PROBE_MAX,
};
use crate::zxsearch;
use crate::zxseed;
use crate::zxseed::{
    build_extra_candidates, build_forward_rep_candidates, collect_used_offsets, copy_pairs,
    merge_extra, zx_is_repetitive, zx_seed_forward_reps,
};
use vstd::prelude::*;
use vstd::std_specs::bits::*;

verus! {

/// Costs are bits times this.
pub const SCALE: u32 = 16;

pub const INF: u32 = 0x7fff_ffff;

/// Longer matches are only tried at full length.
pub const LEAVE_ALONE: u32 = 300;

/// Longest repeat that a recent offset is probed for.
pub const REP_MAX_LEN: usize = 64;

pub const MIN_MATCH: u32 = 2;

/// A literal run and the match after it; `match_off == 0` marks the last
/// command, which has no match.
#[derive(Clone, Copy)]
pub struct Command {
    pub lit_len: u32,
    pub lit_start: usize,
    pub match_off: u32,
    pub match_len: u32,
}

/// Costs of the parts of a command, in bits times `SCALE`.
pub struct CostModel {
    pub lit: [u32; 256],
    pub tok_explicit: u32,
    pub off_slot: [u32; 33],
    pub ext_byte: u32,
}

/// Number of bits of `v`.
pub open spec fn bit_length(v: nat) -> nat {
    if v == 0 {
        0
    } else {
        1 + bitio::floor_log2(v)
    }
}

/// Slot of an offset: the number of bits of `off - 1`.
pub fn offset_slot(off: u32) -> (slot: u32)
    requires
        off >= 1,
    ensures
        slot == bit_length((off - 1) as nat),
        slot <= 32,
{
    proof {
        if off > 1 {
            bitio::lemma_floor_log2_lz((off - 1) as u32);
        }
        axiom_u32_leading_zeros((off - 1) as u32);
    }
    32 - (off - 1).leading_zeros()
}

impl CostModel {
    /// Cost of an offset: its slot, and one bit each for the bits below the
    /// leading one.
    pub open spec fn offset_cost_of(&self, off: int) -> int {
        let slot = bit_length((off - 1) as nat) as int;
        self.off_slot@[slot] + (if slot > 0 {
            slot - 1
        } else {
            0
        }) * 16
    }

    /// Cost of the bytes that extend a length: one up to 263, five beyond.
    pub open spec fn ext_cost_of(&self, len: int) -> int {
        if len < 9 {
            0
        } else if len - 9 < 255 {
            self.ext_byte as int
        } else {
            5 * self.ext_byte
        }
    }

    pub open spec fn match_cost_of(&self, off: int, len: int) -> int {
        self.tok_explicit + self.offset_cost_of(off) + self.ext_cost_of(len)
    }

    pub open spec fn match_cost_rep_of(&self, len: int) -> int {
        self.tok_explicit + self.ext_cost_of(len)
    }

    /// No step of a parse of `input` costs more than what stands for no way at all.
    #[verifier::opaque]
    pub open spec fn small(&self, input: Seq<u8>) -> bool {
        &&& forall|p: int| 0 <= p < input.len() ==> self.lit@[(#[trigger] input[p]) as int] <= INF
        &&& forall|off: int|
            1 <= off < input.len() ==> #[trigger] self.match_cost_of(off, input.len() as int) <= INF
    }

    /// Eight bits for a literal, a token and an extension byte; three bits for
    /// a slot and one for each bit below the leading one.
    pub fn static_model() -> (model: Self)
        ensures
            forall|b: int| 0 <= b < 256 ==> #[trigger] model.lit@[b] == 128,
            forall|s: int|
                0 <= s < 33 ==> #[trigger] model.off_slot@[s] == 48 + (if s > 0 {
                    s - 1
                } else {
                    0
                }) * 16,
            model.tok_explicit == 128,
            model.ext_byte == 128,
            forall|input: Seq<u8>|
                input.len() <= u32::MAX ==> #[trigger] model.small(input),
    {
        let mut off_slot: [u32; 33] = [0; 33];
        let mut k: usize = 0;
        while k < 33
            invariant
                k <= 33,
                forall|s: int|
                    0 <= s < k ==> #[trigger] off_slot@[s] == 48 + (if s > 0 {
                        s - 1
                    } else {
                        0
                    }) * 16,
            decreases 33 - k,
        {
            off_slot[k] = 3 * SCALE + (k as u32).saturating_sub(1) * SCALE;
            k += 1;
        }
        let model: CostModel = CostModel {
            lit: [128; 256],
            tok_explicit: 8 * SCALE,
            off_slot,
            ext_byte: 8 * SCALE,
        };
        assert forall|input: Seq<u8>| input.len() <= u32::MAX implies #[trigger] model.small(
            input,
        ) by {
            reveal(CostModel::small);
            assert forall|off: int| 1 <= off < input.len() implies #[trigger] model.match_cost_of(
                off,
                input.len() as int,
            ) <= INF by {
                if off > 1 {
                    bitio::lemma_floor_log2_lz((off - 1) as u32);
                }
                let slot = bit_length((off - 1) as nat) as int;
                assert(0 <= slot <= 32);
                assert(model.off_slot@[slot] <= 48 + 31 * 16);
            }
        }
        model
    }

    fn offset_cost(&self, off: u32) -> (cost: u32)
        requires
            off >= 1,
            self.offset_cost_of(off as int) <= u32::MAX,
        ensures
            cost == self.offset_cost_of(off as int),
    {
        let slot: u32 = offset_slot(off);
        self.off_slot[slot as usize] + slot.saturating_sub(1) * SCALE
    }

    fn matchlen_ext_cost(&self, len: u32) -> (cost: u32)
        requires
            self.ext_cost_of(len as int) <= u32::MAX,
        ensures
            cost == self.ext_cost_of(len as int),
    {
        if len < 9 {
            0
        } else {
            let v: u32 = len - 9;
            if v < 255 {
                self.ext_byte
            } else {
                5 * self.ext_byte
            }
        }
    }

    /// Cost of a match with a new offset.
    pub fn match_cost(&self, off: u32, len: u32) -> (cost: u32)
        requires
            off >= 1,
            self.match_cost_of(off as int, len as int) <= u32::MAX,
        ensures
            cost == self.match_cost_of(off as int, len as int),
    {
        self.tok_explicit + self.offset_cost(off) + self.matchlen_ext_cost(len)
    }

    /// Cost of a match with a recent offset: no offset bytes.
    pub fn match_cost_rep(&self, len: u32) -> (cost: u32)
        requires
            self.match_cost_rep_of(len as int) <= u32::MAX,
        ensures
            cost == self.match_cost_rep_of(len as int),
    {
        self.tok_explicit + self.matchlen_ext_cost(len)
    }
}

// ---------------------------------------------------------------------------
// Parse under a table of costs
// ---------------------------------------------------------------------------
/// One way to reach a position; `match_len == 0` means by a literal.
#[derive(Clone, Copy)]
pub struct Arrival {
    pub cost: u32,
    pub reps: [u32; 4],
    pub from_pos: u32,
    pub from_slot: u8,
    pub match_len: u32,
    pub match_off: u32,
}

/// The row of a position.
pub open spec fn row_of(arr: Seq<Arrival>, pos: int) -> Seq<Arrival> {
    arr.subrange(pos * 16, pos * 16 + 16)
}

/// The first place from `k` on that is dearer than `cand`, if none before it has
/// the same recent offsets.
spec fn place_for(row: Seq<Arrival>, cand: Arrival, k: int) -> Option<int>
    decreases 16 - k,
{
    if k >= 16 {
        None
    } else if row[k].cost > cand.cost {
        Some(k)
    } else if row[k].cost < INF && row[k].reps@ == cand.reps@ {
        None
    } else {
        place_for(row, cand, k + 1)
    }
}

/// A row after `cand` was offered to it.
spec fn relaxed(row: Seq<Arrival>, cand: Arrival) -> Seq<Arrival> {
    if cand.cost >= row[15].cost {
        row
    } else {
        match place_for(row, cand, 0) {
            None => row,
            Some(k) => row.remove(15).insert(k, cand),
        }
    }
}

/// A row in order of cost.
pub open spec fn row_in_order(row: Seq<Arrival>) -> bool {
    forall|j: int, k: int| 0 <= j < k < 16 ==> (#[trigger] row[j]).cost <= (#[trigger] row[k]).cost
}

pub open spec fn rows_in_order(arr: Seq<Arrival>, n: int) -> bool {
    forall|pos: int| 0 <= pos <= n ==> row_in_order(#[trigger] row_of(arr, pos))
}

/// A live arrival with these recent offsets that is as cheap.
pub open spec fn stands_for(a: Arrival, reps: Seq<u32>, cost: u32) -> bool {
    a.cost < INF && a.reps@ == reps && a.cost <= cost
}

/// A row has no use for an arrival: it costs too much for any, or one with the
/// same recent offsets that is as cheap is in the row, or all of the row is as
/// cheap.
pub open spec fn covers(row: Seq<Arrival>, reps: Seq<u32>, cost: u32) -> bool {
    ||| cost >= INF
    ||| row[15].cost <= cost
    ||| exists|k: int| 0 <= k < 16 && #[trigger] stands_for(row[k], reps, cost)
}

/// The table `b` came from `a` by offering it the arrivals `offers`, each a
/// position and an arrival there. None of them is of use any more, nor is any
/// that was of none before, and every place holds an arrival that was in the
/// row or was offered.
#[verifier::opaque]
spec fn took(a: Seq<Arrival>, b: Seq<Arrival>, n: int, offers: Set<(int, Arrival)>) -> bool {
    &&& a.len() == b.len()
    &&& forall|pos: int, c: Arrival|
        0 <= pos <= n && #[trigger] offers.contains((pos, c)) ==> covers(
            row_of(b, pos),
            c.reps@,
            c.cost,
        )
    &&& forall|pos: int, reps: Seq<u32>, cost: u32|
        0 <= pos <= n && #[trigger] covers(row_of(a, pos), reps, cost) ==> covers(
            row_of(b, pos),
            reps,
            cost,
        )
    &&& forall|pos: int, k: int|
        #![trigger row_of(b, pos)[k]]
        0 <= pos <= n && 0 <= k < 16 ==> row_of(a, pos).contains(row_of(b, pos)[k])
            || offers.contains((pos, row_of(b, pos)[k]))
}

proof fn lemma_took_none(a: Seq<Arrival>, n: int)
    requires
        a.len() == (n + 1) * 16,
    ensures
        took(a, a, n, Set::empty()),
{
    reveal(took);
    assert forall|pos: int, k: int|
        #![trigger row_of(a, pos)[k]]
        0 <= pos <= n && 0 <= k < 16 implies row_of(a, pos).contains(row_of(a, pos)[k]) by {
        assert(row_of(a, pos).len() == 16);
    }
}

/// Offers one after the other.
proof fn lemma_took_more(
    a: Seq<Arrival>,
    b: Seq<Arrival>,
    c: Seq<Arrival>,
    n: int,
    s: Set<(int, Arrival)>,
    t: Set<(int, Arrival)>,
    u: Set<(int, Arrival)>,
)
    requires
        a.len() == (n + 1) * 16,
        took(a, b, n, s),
        took(b, c, n, t),
        s.subset_of(u),
        t.subset_of(u),
        forall|pos: int, x: Arrival| #[trigger]
            u.contains((pos, x)) && 0 <= pos <= n ==> s.contains((pos, x)) || t.contains((pos, x))
                || covers(row_of(c, pos), x.reps@, x.cost),
    ensures
        took(a, c, n, u),
{
    reveal(took);
    assert forall|pos: int, x: Arrival| 0 <= pos <= n && #[trigger] u.contains((pos, x)) implies covers(
        row_of(c, pos),
        x.reps@,
        x.cost,
    ) by {
        if s.contains((pos, x)) {
            assert(covers(row_of(b, pos), x.reps@, x.cost));
        }
    }
    assert forall|pos: int, k: int|
        #![trigger row_of(c, pos)[k]]
        0 <= pos <= n && 0 <= k < 16 implies row_of(a, pos).contains(row_of(c, pos)[k])
        || u.contains((pos, row_of(c, pos)[k])) by {
        let x = row_of(c, pos)[k];
        if row_of(b, pos).contains(x) {
            let j = choose|j: int| 0 <= j < row_of(b, pos).len() && row_of(b, pos)[j] == x;
            assert(row_of(b, pos).len() == 16);
            assert(row_of(b, pos)[j] == x);
            if s.contains((pos, x)) {
                assert(u.contains((pos, x)));
            }
        } else {
            assert(t.contains((pos, x)));
            assert(u.contains((pos, x)));
        }
    }
}

proof fn lemma_took_use(
    a: Seq<Arrival>,
    b: Seq<Arrival>,
    n: int,
    s: Set<(int, Arrival)>,
    pos: int,
    c: Arrival,
)
    requires
        took(a, b, n, s),
        0 <= pos <= n,
    ensures
        s.contains((pos, c)) ==> covers(row_of(b, pos), c.reps@, c.cost),
        covers(row_of(a, pos), c.reps@, c.cost) ==> covers(row_of(b, pos), c.reps@, c.cost),
{
    reveal(took);
}

proof fn lemma_took_place(
    a: Seq<Arrival>,
    b: Seq<Arrival>,
    n: int,
    s: Set<(int, Arrival)>,
    pos: int,
    k: int,
)
    requires
        took(a, b, n, s),
        0 <= pos <= n,
        0 <= k < 16,
    ensures
        row_of(a, pos).contains(row_of(b, pos)[k]) || s.contains((pos, row_of(b, pos)[k])),
{
    reveal(took);
}

proof fn lemma_place_for(row: Seq<Arrival>, c: Arrival, k: int)
    requires
        row.len() == 16,
        0 <= k < 16,
        forall|j: int| 0 <= j < k ==> (#[trigger] row[j]).cost <= c.cost,
        c.cost < row[15].cost,
    ensures
        match place_for(row, c, k) {
            Some(x) => k <= x < 16 && row[x].cost > c.cost && forall|j: int|
                0 <= j < x ==> (#[trigger] row[j]).cost <= c.cost,
            None => covers(row, c.reps@, c.cost),
        },
    decreases 16 - k,
{
    if row[k].cost > c.cost {
    } else if row[k].cost < INF && row[k].reps@ == c.reps@ {
        assert(stands_for(row[k], c.reps@, c.cost));
    } else {
        lemma_place_for(row, c, k + 1);
    }
}

/// A row in order stays in order, has no use for the arrival any more, and none
/// for what it had none for.
proof fn lemma_relaxed(row: Seq<Arrival>, c: Arrival)
    requires
        row.len() == 16,
        row_in_order(row),
    ensures
        relaxed(row, c).len() == 16,
        row_in_order(relaxed(row, c)),
        covers(relaxed(row, c), c.reps@, c.cost),
        forall|reps: Seq<u32>, cost: u32| #[trigger]
            covers(row, reps, cost) ==> covers(relaxed(row, c), reps, cost),
        forall|k: int|
            0 <= k < 16 ==> row.contains(#[trigger] relaxed(row, c)[k]) || relaxed(row, c)[k] == c,
{
    let r = relaxed(row, c);
    assert forall|k: int| 0 <= k < 16 implies row.contains(#[trigger] row[k]) by {}
    if c.cost < row[15].cost {
        lemma_place_for(row, c, 0);
        if let Some(at) = place_for(row, c, 0) {
            assert(r == row.remove(15).insert(at, c));
            assert forall|k: int| 0 <= k < 16 implies #[trigger] r[k] == if k < at {
                row[k]
            } else if k == at {
                c
            } else {
                row[k - 1]
            } by {}
            assert forall|k: int| 0 <= k < 16 implies row.contains(#[trigger] r[k]) || r[k] == c by {
                if k > at {
                    assert(row.contains(row[k - 1]));
                } else if k < at {
                    assert(row.contains(row[k]));
                }
            }
            assert forall|j: int, k: int| 0 <= j < k < 16 implies (#[trigger] r[j]).cost <= (
            #[trigger] r[k]).cost by {
                if j == at {
                    assert(row[at].cost <= row[k - 1].cost);
                } else if k == at {
                    assert(row[j].cost <= c.cost);
                } else {
                    let k0 = if at < k { k - 1 } else { k };
                    let j0 = if at < j { j - 1 } else { j };
                    assert(row[j0].cost <= row[k0].cost);
                }
            }
            if c.cost < INF {
                assert(stands_for(r[at], c.reps@, c.cost));
            }
            assert forall|reps: Seq<u32>, cost: u32| #[trigger] covers(row, reps, cost) implies covers(
                r,
                reps,
                cost,
            ) by {
                assert(row[14].cost <= row[15].cost);
                if cost < INF && row[15].cost > cost {
                    let k = choose|k: int| 0 <= k < 16 && #[trigger] stands_for(row[k], reps, cost);
                    assert(k < 15);
                    if k < at {
                        assert(stands_for(r[k], reps, cost));
                    } else {
                        assert(r[k + 1] == row[k]);
                        assert(stands_for(r[k + 1], reps, cost));
                    }
                }
            }
        }
    }
}

/// Puts `cand` into the row of `pos` in order of cost, unless one as cheap has
/// the same recent offsets.
fn relax_into(arr: &mut Vec<Arrival>, pos: usize, cand: Arrival)
    requires
        (pos + 1) * 16 <= old(arr)@.len(),
    ensures
        final(arr)@.len() == old(arr)@.len(),
        row_of(final(arr)@, pos as int) == relaxed(row_of(old(arr)@, pos as int), cand),
        forall|x: int|
            0 <= x < old(arr)@.len() && !(pos * 16 <= x < pos * 16 + 16) ==> #[trigger] final(arr)@[x]
                == old(arr)@[x],
        forall|x: int|
            pos * 16 <= x < pos * 16 + 16 ==> #[trigger] final(arr)@[x] == cand || final(arr)@[x]
                == old(arr)@[x] || (x > pos * 16 && final(arr)@[x] == old(arr)@[x - 1]),
{
    let total: usize = arr.len();
    let base: usize = pos * 16;
    let ghost row = row_of(arr@, pos as int);
    assert(row[15] == arr@[base + 15]);
    if cand.cost >= arr[base + 15].cost {
        return;
    }
    let mut idx: usize = 0;
    while idx < 16
        invariant_except_break
            idx < 16,
            place_for(row, cand, 0) == place_for(row, cand, idx as int),
        invariant
            base == pos * 16,
            total == arr@.len(),
            base + 16 <= total,
            arr@ == old(arr)@,
            row == row_of(arr@, pos as int),
            cand.cost < row[15].cost,
        ensures
            idx < 16,
            place_for(row, cand, 0) == Some(idx as int),
        decreases 16 - idx,
    {
        let a: &Arrival = &arr[base + idx];
        assert(row[idx as int] == *a);
        if a.cost > cand.cost {
            break;
        }
        if a.cost < INF && zxdp::same_reps(&a.reps, &cand.reps) {
            return;
        }
        idx += 1;
    }
    let mut k: usize = 15;
    while k > idx
        invariant
            base == pos * 16,
            total == arr@.len(),
            base + 16 <= total,
            idx <= k < 16,
            arr@.len() == old(arr)@.len(),
            forall|x: int|
                0 <= x < arr@.len() && !(base <= x < base + 16) ==> #[trigger] arr@[x]
                    == old(arr)@[x],
            forall|x: int| base <= x <= base + k ==> #[trigger] arr@[x] == old(arr)@[x],
            forall|x: int| base + k < x < base + 16 ==> #[trigger] arr@[x] == old(arr)@[x - 1],
        decreases k,
    {
        let a: Arrival = arr[base + k - 1];
        arr.set(base + k, a);
        k -= 1;
    }
    arr.set(base + idx, cand);
    assert(row_of(arr@, pos as int) =~= row.remove(15).insert(idx as int, cand));
}

/// A live arrival comes from a live one before `lim`, by a literal or by a
/// match of at least two bytes.
spec fn arrival_ok(input: Seq<u8>, arr: Seq<Arrival>, lim: int, pos: int, a: Arrival) -> bool {
    a.cost < INF ==> {
        &&& a.from_pos < lim
        &&& a.from_pos < pos
        &&& a.from_slot < 16
        &&& arr[a.from_pos * 16 + a.from_slot].cost < INF
        &&& a.match_len == 0 ==> a.from_pos + 1 == pos
        &&& a.match_len != 0 ==> {
            &&& a.match_len >= 2
            &&& a.from_pos + a.match_len == pos
            &&& lz::is_match(input, a.from_pos as int, a.match_off as int, a.match_len as int)
        }
    }
}

spec fn place_ok(input: Seq<u8>, arr: Seq<Arrival>, lim: int, pos: int, slot: int) -> bool {
    arrival_ok(input, arr, lim, pos, arr[pos * 16 + slot])
}

spec fn rows_ok(input: Seq<u8>, arr: Seq<Arrival>, lim: int) -> bool {
    &&& arr.len() == (input.len() + 1) * 16
    &&& forall|pos: int, slot: int|
        1 <= pos <= input.len() && 0 <= slot < 16 ==> #[trigger] place_ok(
            input,
            arr,
            lim,
            pos,
            slot,
        )
}

spec fn rows_same(a: Seq<Arrival>, b: Seq<Arrival>, lim: int) -> bool {
    &&& a.len() == b.len()
    &&& forall|x: int| 0 <= x < lim * 16 ==> #[trigger] a[x] == b[x]
}

/// Sizes that the table can have.
pub open spec fn parse_fits(n: int) -> bool {
    n <= 0x3fff_ffff && (n + 1) * 16 <= usize::MAX
}

fn push_arrival(arr: &mut Vec<Arrival>, pos: usize, cand: Arrival, Ghost(input): Ghost<Seq<u8>>, Ghost(lim): Ghost<int>)
    requires
        rows_ok(input, old(arr)@, lim),
        1 <= lim <= pos <= input.len(),
        parse_fits(input.len() as int),
        arrival_ok(input, old(arr)@, lim, pos as int, cand),
        rows_in_order(old(arr)@, input.len() as int),
    ensures
        rows_ok(input, final(arr)@, lim),
        rows_same(old(arr)@, final(arr)@, lim),
        rows_in_order(final(arr)@, input.len() as int),
        row_of(final(arr)@, pos as int) == relaxed(row_of(old(arr)@, pos as int), cand),
        forall|q: int|
            0 <= q <= input.len() && q != pos ==> #[trigger] row_of(final(arr)@, q) == row_of(
                old(arr)@,
                q,
            ),
        took(old(arr)@, final(arr)@, input.len() as int, set![(pos as int, cand)]),
{
    let ghost a0 = arr@;
    relax_into(arr, pos, cand);
    proof {
        let a1 = arr@;
        assert forall|q: int, slot: int| 1 <= q <= input.len() && 0 <= slot < 16 implies
            #[trigger] place_ok(input, a1, lim, q, slot) by {
            assert(place_ok(input, a0, lim, q, slot));
            let x = q * 16 + slot;
            if q == pos {
                assert(a1[x] == cand || a1[x] == a0[x] || (x > pos * 16 && a1[x] == a0[x - 1]));
                if slot > 0 {
                    assert(place_ok(input, a0, lim, q, slot - 1));
                    assert(a0[q * 16 + (slot - 1)] == a0[x - 1]);
                }
            } else {
                assert(a1[x] == a0[x]);
            }
            let a = a1[x];
            if a.cost < INF {
                let y = a.from_pos * 16 + a.from_slot;
                assert(a1[y] == a0[y]);
            }
        }
        assert forall|q: int| 0 <= q <= input.len() && q != pos implies #[trigger] row_of(a1, q)
            == row_of(a0, q) by {
            assert(row_of(a1, q) =~= row_of(a0, q));
        }
        lemma_push_took(a0, a1, input.len() as int, pos as int, cand);
    }
}

/// A table of which one row was relaxed.
proof fn lemma_push_took(a: Seq<Arrival>, b: Seq<Arrival>, n: int, pos: int, cand: Arrival)
    requires
        a.len() == (n + 1) * 16,
        b.len() == a.len(),
        0 <= pos <= n,
        rows_in_order(a, n),
        row_of(b, pos) == relaxed(row_of(a, pos), cand),
        forall|q: int| 0 <= q <= n && q != pos ==> #[trigger] row_of(b, q) == row_of(a, q),
    ensures
        rows_in_order(b, n),
        took(a, b, n, set![(pos, cand)]),
{
    reveal(took);
    assert(row_in_order(row_of(a, pos)));
    lemma_relaxed(row_of(a, pos), cand);
    assert forall|q: int| 0 <= q <= n implies row_in_order(#[trigger] row_of(b, q)) by {
        assert(row_in_order(row_of(a, q)));
    }
    assert forall|q: int, k: int|
        #![trigger row_of(b, q)[k]]
        0 <= q <= n && 0 <= k < 16 implies row_of(a, q).contains(row_of(b, q)[k]) || set![
        (pos, cand),
    ].contains((q, row_of(b, q)[k])) by {
        if q != pos {
            assert(row_of(a, q)[k] == row_of(b, q)[k]);
        }
    }
}

proof fn lemma_same_row(a: Seq<Arrival>, b: Seq<Arrival>, i: int)
    requires
        rows_same(a, b, i + 1),
        0 <= i,
        (i + 1) * 16 <= a.len(),
    ensures
        row_of(a, i) == row_of(b, i),
{
    assert(row_of(a, i) =~= row_of(b, i));
}

/// A step out of position `i`: where it comes from, what it costs, the recent
/// offsets behind it, and its match, if it has one.
pub struct Step {
    pub i: int,
    pub slot: int,
    pub cost: int,
    pub reps: Seq<u32>,
    pub len: int,
    pub off: int,
}

/// The arrival comes by the step.
pub open spec fn comes_by(st: Step, c: Arrival) -> bool {
    &&& c.cost == st.cost
    &&& c.reps@ == st.reps
    &&& c.from_pos == st.i
    &&& c.from_slot == st.slot
    &&& c.match_len == st.len
    &&& c.match_off == st.off
}

/// One more step, whose arrival was taken.
proof fn lemma_step_took(
    a0: Seq<Arrival>,
    a1: Seq<Arrival>,
    a2: Seq<Arrival>,
    n: int,
    pos: int,
    st: Step,
    cand: Arrival,
    s: Set<(int, Arrival)>,
    u: Set<(int, Arrival)>,
)
    requires
        a0.len() == (n + 1) * 16,
        0 <= pos <= n,
        took(a0, a1, n, s),
        took(a1, a2, n, set![(pos, cand)]),
        comes_by(st, cand),
        s.subset_of(u),
        u.contains((pos, cand)),
        forall|p: int, x: Arrival| #[trigger]
            u.contains((p, x)) ==> s.contains((p, x)) || (p == pos && comes_by(st, x)),
    ensures
        took(a0, a2, n, u),
{
    let t = set![(pos, cand)];
    lemma_took_use(a1, a2, n, t, pos, cand);
    assert forall|p: (int, Arrival)| #[trigger] t.contains(p) implies u.contains(p) by {
        assert(p == (pos, cand));
    }
    lemma_took_more(a0, a1, a2, n, s, t, u);
}

/// The literal step from `slot`.
pub open spec fn literal_step(row: Seq<Arrival>, i: int, slot: int, add: int) -> Step {
    Step {
        i,
        slot,
        cost: row[slot].cost + add,
        reps: row[slot].reps@,
        len: 0,
        off: 0,
    }
}

/// What the first `k` places of the row of `i` lead to by a literal.
pub open spec fn literal_offers(row: Seq<Arrival>, i: int, add: int, k: int) -> Set<(int, Arrival)> {
    Set::new(
        |p: (int, Arrival)|
            p.0 == i + 1 && exists|s: int|
                0 <= s < k && row[s].cost < INF && comes_by(
                    #[trigger] literal_step(row, i, s, add),
                    p.1,
                ),
    )
}

/// The step from `slot` by a match.
pub open spec fn match_step(row: Seq<Arrival>, i: int, slot: int, off: u32, l: int, model: &CostModel, use_rep: bool) -> Step {
    let a = row[slot];
    let hit = if use_rep {
        zx::reps_find(a.reps@, off, 4)
    } else {
        None
    };
    match hit {
        Some(idx) => Step {
            i,
            slot,
            cost: a.cost + model.match_cost_rep_of(l),
            reps: a.reps@.remove(idx as int).insert(0, a.reps@[idx as int]),
            len: l,
            off: off as int,
        },
        None => Step {
            i,
            slot,
            cost: a.cost + model.match_cost_of(off as int, l),
            reps: seq![off, a.reps@[0], a.reps@[1], a.reps@[2]],
            len: l,
            off: off as int,
        },
    }
}

/// What the first `k` places of the row of `i` lead to by a match.
pub open spec fn match_offers(
    row: Seq<Arrival>,
    i: int,
    off: u32,
    l: int,
    model: &CostModel,
    use_rep: bool,
    k: int,
) -> Set<(int, Arrival)> {
    Set::new(
        |p: (int, Arrival)|
            p.0 == i + l && exists|s: int|
                0 <= s < k && row[s].cost < INF && comes_by(
                    #[trigger] match_step(row, i, s, off, l, model, use_rep),
                    p.1,
                ),
    )
}

/// The lengths that candidate `c` of a front is tried with: from one more than
/// the candidate before it has; very long ones only in full.
pub open spec fn front_len(list: Seq<Match>, c: int, l: int) -> bool {
    zxdp::front_lo(list, c) <= l <= list[c].length && (l < LEAVE_ALONE || l == list[c].length)
}

/// What the row of `i` leads to by the first `k` candidates of a front, and by
/// the lengths of candidate `k` below `below`.
pub open spec fn front_offers(
    row: Seq<Arrival>,
    i: int,
    list: Seq<Match>,
    model: &CostModel,
    use_rep: bool,
    k: int,
    below: int,
) -> Set<(int, Arrival)> {
    Set::new(
        |p: (int, Arrival)|
            exists|c: int|
                0 <= c <= k && (c == k ==> p.0 - i < below) && #[trigger] front_len(
                    list,
                    c,
                    p.0 - i,
                ) && match_offers(row, i, list[c].offset, p.0 - i, model, use_rep, 16).contains(p),
    )
}

/// The step from `slot` by its recent offset `ridx`.
pub open spec fn rep_step(row: Seq<Arrival>, i: int, slot: int, ridx: int, l: int, model: &CostModel) -> Step {
    let a = row[slot];
    Step {
        i,
        slot,
        cost: a.cost + model.match_cost_rep_of(l),
        reps: a.reps@.remove(ridx).insert(0, a.reps@[ridx]),
        len: l,
        off: a.reps@[ridx] as int,
    }
}

/// The lengths that recent offset `ridx` of `slot` is tried with.
pub open spec fn rep_len_ok(input: Seq<u8>, row: Seq<Arrival>, i: int, cap: int, slot: int, ridx: int, l: int) -> bool {
    let r = row[slot].reps@[ridx] as int;
    1 <= r <= i && 2 <= l <= zxdp::capped_run(input, i, r, cap)
}

/// What the row of `i` leads to by the recent offsets: of the places before
/// `slot` all, of `slot` the first `k`, and of that behind them the lengths
/// below `below`.
pub open spec fn rep_offers(
    input: Seq<u8>,
    row: Seq<Arrival>,
    i: int,
    cap: int,
    model: &CostModel,
    slot: int,
    k: int,
    below: int,
) -> Set<(int, Arrival)> {
    Set::new(
        |p: (int, Arrival)|
            exists|s: int, r: int|
                #![trigger rep_step(row, i, s, r, p.0 - i, model)]
                0 <= r < 4 && row[s].cost < INF && rep_len_ok(input, row, i, cap, s, r, p.0 - i) && (
                0 <= s < slot || (s == slot && (r < k || (r == k && p.0 - i < below)))) && comes_by(
                    rep_step(row, i, s, r, p.0 - i, model),
                    p.1,
                ),
    )
}

proof fn lemma_cost_bounds(model: &CostModel, input: Seq<u8>, off: int, len: int)
    requires
        model.small(input),
        1 <= off < input.len() <= u32::MAX,
        len <= input.len(),
    ensures
        0 <= model.match_cost_of(off, len) <= INF,
        0 <= model.match_cost_rep_of(len) <= INF,
        0 <= model.offset_cost_of(off) <= INF,
{
    if off > 1 {
        bitio::lemma_floor_log2_lz((off - 1) as u32);
    }
    let slot = bit_length((off - 1) as nat) as int;
    assert(0 <= slot <= 32);
    reveal(CostModel::small);
    assert(model.match_cost_of(off, input.len() as int) <= INF);
}

/// Literal step from every arrival.
fn relax_literal(arr: &mut Vec<Arrival>, i: usize, lit_add: u32, Ghost(input): Ghost<Seq<u8>>)
    requires
        rows_ok(input, old(arr)@, i + 1),
        rows_in_order(old(arr)@, input.len() as int),
        parse_fits(input.len() as int),
        i < input.len(),
        lit_add <= INF,
    ensures
        rows_ok(input, final(arr)@, i + 1),
        rows_in_order(final(arr)@, input.len() as int),
        rows_same(old(arr)@, final(arr)@, i + 1),
        took(
            old(arr)@,
            final(arr)@,
            input.len() as int,
            literal_offers(row_of(old(arr)@, i as int), i as int, lit_add as int, 16),
        ),
{
    let ghost a0 = arr@;
    let ghost n = input.len() as int;
    let ghost row = row_of(a0, i as int);
    let mut slot: usize = 0;
    proof {
        lemma_took_none(a0, n);
        assert(literal_offers(row, i as int, lit_add as int, 0) =~= Set::empty());
        assert(row_in_order(row));
    }
    while slot < 16
        invariant_except_break
            took(a0, arr@, n, literal_offers(row, i as int, lit_add as int, slot as int)),
        invariant
            slot <= 16,
            i < input.len(),
            n == input.len(),
            a0.len() == (n + 1) * 16,
            row == row_of(a0, i as int),
            row_in_order(row),
            parse_fits(input.len() as int),
            lit_add <= INF,
            rows_ok(input, arr@, i + 1),
            rows_in_order(arr@, n),
            rows_same(a0, arr@, i + 1),
        ensures
            took(a0, arr@, n, literal_offers(row, i as int, lit_add as int, 16)),
        decreases 16 - slot,
    {
        let a: Arrival = arr[i * 16 + slot];
        assert(a == row[slot as int]);
        if a.cost >= INF {
            proof {
                assert forall|s: int| slot < s < 16 implies (#[trigger] row[s]).cost >= INF by {
                    assert(row[slot as int].cost <= row[s].cost);
                }
                assert(literal_offers(row, i as int, lit_add as int, slot as int) =~= literal_offers(
                    row,
                    i as int,
                    lit_add as int,
                    16,
                ));
            }
            break;
        }
        let cand: Arrival = Arrival {
            cost: a.cost + lit_add,
            reps: a.reps,
            from_pos: i as u32,
            from_slot: slot as u8,
            match_len: 0,
            match_off: 0,
        };
        let ghost before = arr@;
        push_arrival(arr, i + 1, cand, Ghost(input), Ghost(i + 1));
        proof {
            let st = literal_step(row, i as int, slot as int, lit_add as int);
            let s = literal_offers(row, i as int, lit_add as int, slot as int);
            let u = literal_offers(row, i as int, lit_add as int, slot + 1);
            let p = (i + 1, cand);
            assert(comes_by(st, p.1));
            assert(u.contains(p));
            lemma_step_took(a0, before, arr@, n, i + 1, st, cand, s, u);
        }
        slot += 1;
    }
}

/// A match of length `l` from every arrival.
fn relax_match(arr: &mut Vec<Arrival>, i: usize, off: u32, l: u32, model: &CostModel, use_rep: bool, Ghost(input): Ghost<Seq<u8>>)
    requires
        rows_ok(input, old(arr)@, i + 1),
        rows_in_order(old(arr)@, input.len() as int),
        parse_fits(input.len() as int),
        i < input.len(),
        model.small(input),
        l >= 2,
        lz::is_match(input, i as int, off as int, l as int),
    ensures
        rows_ok(input, final(arr)@, i + 1),
        rows_in_order(final(arr)@, input.len() as int),
        rows_same(old(arr)@, final(arr)@, i + 1),
        took(
            old(arr)@,
            final(arr)@,
            input.len() as int,
            match_offers(
                row_of(old(arr)@, i as int),
                i as int,
                off,
                l as int,
                model,
                use_rep,
                16,
            ),
        ),
{
    let ghost a0 = arr@;
    let ghost n = input.len() as int;
    let ghost row = row_of(a0, i as int);
    proof {
        lemma_cost_bounds(model, input, off as int, l as int);
        lemma_took_none(a0, n);
        assert(match_offers(row, i as int, off, l as int, model, use_rep, 0) =~= Set::empty());
        assert(row_in_order(row));
    }
    let new_cost: u32 = model.match_cost(off, l);
    let rep_cost: u32 = model.match_cost_rep(l);
    let mut slot: usize = 0;
    while slot < 16
        invariant_except_break
            took(
                a0,
                arr@,
                n,
                match_offers(row, i as int, off, l as int, model, use_rep, slot as int),
            ),
        invariant
            slot <= 16,
            i < input.len(),
            n == input.len(),
            a0.len() == (n + 1) * 16,
            row == row_of(a0, i as int),
            row_in_order(row),
            parse_fits(input.len() as int),
            new_cost == model.match_cost_of(off as int, l as int),
            rep_cost == model.match_cost_rep_of(l as int),
            new_cost <= INF,
            rep_cost <= INF,
            l >= 2,
            lz::is_match(input, i as int, off as int, l as int),
            rows_ok(input, arr@, i + 1),
            rows_in_order(arr@, n),
            rows_same(a0, arr@, i + 1),
        ensures
            took(a0, arr@, n, match_offers(row, i as int, off, l as int, model, use_rep, 16)),
        decreases 16 - slot,
    {
        let a: Arrival = arr[i * 16 + slot];
        assert(a == row[slot as int]);
        if a.cost >= INF {
            proof {
                assert forall|s: int| slot < s < 16 implies (#[trigger] row[s]).cost >= INF by {
                    assert(row[slot as int].cost <= row[s].cost);
                }
                assert(match_offers(
                    row,
                    i as int,
                    off,
                    l as int,
                    model,
                    use_rep,
                    slot as int,
                ) =~= match_offers(row, i as int, off, l as int, model, use_rep, 16));
            }
            break;
        }
        let hit: Option<usize> = if use_rep {
            zx::rep_find(&a.reps, off, 4)
        } else {
            None
        };
        let (reps, add) = match hit {
            Some(idx) => (zxdp::zx_rep_mtf(a.reps, idx), rep_cost),
            None => (zxdp::zx_rep_insert(a.reps, off), new_cost),
        };
        let cand: Arrival = Arrival {
            cost: a.cost + add,
            reps,
            from_pos: i as u32,
            from_slot: slot as u8,
            match_len: l,
            match_off: off,
        };
        let ghost before = arr@;
        push_arrival(arr, i + l as usize, cand, Ghost(input), Ghost(i + 1));
        proof {
            let st = match_step(row, i as int, slot as int, off, l as int, model, use_rep);
            let s = match_offers(row, i as int, off, l as int, model, use_rep, slot as int);
            let u = match_offers(row, i as int, off, l as int, model, use_rep, slot + 1);
            let p = (i + l, cand);
            assert(comes_by(st, p.1));
            assert(u.contains(p));
            lemma_step_took(a0, before, arr@, n, i + l, st, cand, s, u);
        }
        slot += 1;
    }
}

/// One more length of a candidate.
proof fn lemma_front_step(
    a0: Seq<Arrival>,
    a1: Seq<Arrival>,
    a2: Seq<Arrival>,
    n: int,
    row: Seq<Arrival>,
    i: int,
    list: Seq<Match>,
    model: &CostModel,
    use_rep: bool,
    c: int,
    l: int,
    below: int,
)
    requires
        a0.len() == (n + 1) * 16,
        0 <= c,
        front_len(list, c, l),
        below <= l,
        forall|x: int| below <= x < l ==> !front_len(list, c, x),
        took(a0, a1, n, front_offers(row, i, list, model, use_rep, c, below)),
        took(a1, a2, n, match_offers(row, i, list[c].offset, l, model, use_rep, 16)),
    ensures
        took(a0, a2, n, front_offers(row, i, list, model, use_rep, c, l + 1)),
{
    let s = front_offers(row, i, list, model, use_rep, c, below);
    let t = match_offers(row, i, list[c].offset, l, model, use_rep, 16);
    let u = front_offers(row, i, list, model, use_rep, c, l + 1);
    assert forall|p: (int, Arrival)| #[trigger] t.contains(p) implies u.contains(p) by {
        assert(p.0 == i + l);
        assert(front_len(list, c, p.0 - i));
    }
    assert forall|p: (int, Arrival)| #[trigger] s.contains(p) implies u.contains(p) by {
        let y = choose|y: int|
            0 <= y <= c && (y == c ==> p.0 - i < below) && #[trigger] front_len(list, y, p.0 - i)
                && match_offers(row, i, list[y].offset, p.0 - i, model, use_rep, 16).contains(p);
        assert(front_len(list, y, p.0 - i));
    }
    assert forall|pos: int, x: Arrival| #[trigger] u.contains((pos, x)) && 0 <= pos <= n implies s.contains(
        (pos, x),
    ) || t.contains((pos, x)) by {
        let p = (pos, x);
        let y = choose|y: int|
            0 <= y <= c && (y == c ==> p.0 - i < l + 1) && #[trigger] front_len(list, y, p.0 - i)
                && match_offers(row, i, list[y].offset, p.0 - i, model, use_rep, 16).contains(p);
        assert(front_len(list, y, p.0 - i));
        if y == c && p.0 - i >= below {
            assert(p.0 - i == l);
        }
    }
    lemma_took_more(a0, a1, a2, n, s, t, u);
}

/// A candidate that is done.
proof fn lemma_front_done(
    row: Seq<Arrival>,
    i: int,
    list: Seq<Match>,
    model: &CostModel,
    use_rep: bool,
    c: int,
    below: int,
)
    requires
        0 <= c,
        forall|x: int| below <= x ==> !front_len(list, c, x),
    ensures
        front_offers(row, i, list, model, use_rep, c, below) == front_offers(
            row,
            i,
            list,
            model,
            use_rep,
            c + 1,
            0,
        ),
{
    let s = front_offers(row, i, list, model, use_rep, c, below);
    let u = front_offers(row, i, list, model, use_rep, c + 1, 0);
    assert forall|p: (int, Arrival)| #[trigger] s.contains(p) implies u.contains(p) by {
        let y = choose|y: int|
            0 <= y <= c && (y == c ==> p.0 - i < below) && #[trigger] front_len(list, y, p.0 - i)
                && match_offers(row, i, list[y].offset, p.0 - i, model, use_rep, 16).contains(p);
        assert(front_len(list, y, p.0 - i));
    }
    assert forall|p: (int, Arrival)| #[trigger] u.contains(p) implies s.contains(p) by {
        let y = choose|y: int|
            0 <= y <= c + 1 && (y == c + 1 ==> p.0 - i < 0) && #[trigger] front_len(
                list,
                y,
                p.0 - i,
            ) && match_offers(row, i, list[y].offset, p.0 - i, model, use_rep, 16).contains(p);
        assert(front_len(list, y, p.0 - i));
    }
    assert(s =~= u);
}

/// Matches from the front of the set; very long ones only at full length.
fn relax_front(arr: &mut Vec<Arrival>, i: usize, ms: &MatchSet, model: &CostModel, use_rep: bool, Ghost(input): Ghost<Seq<u8>>)
    requires
        rows_ok(input, old(arr)@, i + 1),
        rows_in_order(old(arr)@, input.len() as int),
        parse_fits(input.len() as int),
        i < input.len(),
        model.small(input),
        ms.of(input),
    ensures
        rows_ok(input, final(arr)@, i + 1),
        rows_in_order(final(arr)@, input.len() as int),
        rows_same(old(arr)@, final(arr)@, i + 1),
        took(
            old(arr)@,
            final(arr)@,
            input.len() as int,
            front_offers(
                row_of(old(arr)@, i as int),
                i as int,
                ms.list(i as int),
                model,
                use_rep,
                ms.list(i as int).len() as int,
                0,
            ),
        ),
{
    let ghost a0 = arr@;
    let ghost n = input.len() as int;
    let ghost row = row_of(a0, i as int);
    let list: &Vec<Match> = ms.matches_for(i);
    let mut prev_len: u32 = MIN_MATCH - 1;
    let mut c: usize = 0;
    proof {
        lemma_took_none(a0, n);
        assert forall|p: (int, Arrival)|
            !(#[trigger] front_offers(row, i as int, list@, model, use_rep, 0, 0).contains(p)) by {
            if front_offers(row, i as int, list@, model, use_rep, 0, 0).contains(p) {
                let y = choose|y: int|
                    0 <= y <= 0 && (y == 0 ==> p.0 - i < 0) && #[trigger] front_len(
                        list@,
                        y,
                        p.0 - i,
                    ) && match_offers(
                        row,
                        i as int,
                        list@[y].offset,
                        p.0 - i,
                        model,
                        use_rep,
                        16,
                    ).contains(p);
                assert(front_len(list@, y, p.0 - i));
            }
        }
        assert(front_offers(row, i as int, list@, model, use_rep, 0, 0) =~= Set::empty());
    }
    while c < list.len()
        invariant
            c <= list@.len(),
            i < input.len(),
            n == input.len(),
            a0.len() == (n + 1) * 16,
            row == row_of(a0, i as int),
            parse_fits(input.len() as int),
            model.small(input),
            1 <= prev_len <= 0x3fff_ffff,
            prev_len + 1 == zxdp::front_lo(list@, c as int),
            matchfinder::candidates_ok(input, i as int, list@, ms.max_offset()),
            rows_ok(input, arr@, i + 1),
            rows_in_order(arr@, n),
            rows_same(a0, arr@, i + 1),
            took(a0, arr@, n, front_offers(row, i as int, list@, model, use_rep, c as int, 0)),
        decreases list@.len() - c,
    {
        let cand: Match = list[c];
        let ghost c0 = c as int;
        let lo: u32 = prev_len + 1;
        let hi: u32 = cand.length;
        let off: u32 = cand.offset;
        assert(lz::is_match(input, i as int, off as int, hi as int));
        prev_len = hi;
        c += 1;
        let mid: u32 = if hi >= LEAVE_ALONE {
            LEAVE_ALONE - 1
        } else {
            hi
        };
        let mut l: u32 = lo;
        let ghost mut below: int = 0;
        while l <= mid
            invariant
                2 <= lo <= l,
                l <= mid + 1 || l == lo,
                mid <= hi <= 0x3fff_ffff,
                mid < LEAVE_ALONE,
                lo == zxdp::front_lo(list@, c0),
                hi == list@[c0].length,
                off == list@[c0].offset,
                0 <= c0 < list@.len(),
                i < input.len(),
                n == input.len(),
                a0.len() == (n + 1) * 16,
                row == row_of(a0, i as int),
                parse_fits(input.len() as int),
                model.small(input),
                lz::is_match(input, i as int, off as int, hi as int),
                rows_ok(input, arr@, i + 1),
                rows_in_order(arr@, n),
                rows_same(a0, arr@, i + 1),
                below <= l,
                below == if l == lo {
                    0
                } else {
                    l as int
                },
                took(a0, arr@, n, front_offers(row, i as int, list@, model, use_rep, c0, below)),
            decreases mid + 1 - l,
        {
            proof {
                zxdp::lemma_shorter_match(input, i as int, off as int, hi as int, l as int);
                lemma_same_row(a0, arr@, i as int);
            }
            let ghost before = arr@;
            relax_match(arr, i, off, l, model, use_rep, Ghost(input));
            proof {
                lemma_front_step(
                    a0,
                    before,
                    arr@,
                    n,
                    row,
                    i as int,
                    list@,
                    model,
                    use_rep,
                    c0,
                    l as int,
                    below,
                );
                below = l + 1;
            }
            l += 1;
        }
        if hi >= lo && hi > mid {
            let ghost before = arr@;
            proof {
                lemma_same_row(a0, arr@, i as int);
            }
            relax_match(arr, i, off, hi, model, use_rep, Ghost(input));
            proof {
                lemma_front_step(
                    a0,
                    before,
                    arr@,
                    n,
                    row,
                    i as int,
                    list@,
                    model,
                    use_rep,
                    c0,
                    hi as int,
                    below,
                );
                below = hi + 1;
            }
        }
        proof {
            lemma_front_done(row, i as int, list@, model, use_rep, c0, below);
        }
    }
}

proof fn lemma_rep_offers_eq(
    input: Seq<u8>,
    row: Seq<Arrival>,
    i: int,
    cap: int,
    model: &CostModel,
    s1: int,
    k1: int,
    b1: int,
    s2: int,
    k2: int,
    b2: int,
)
    requires
        forall|s: int, r: int, l: int|
            0 <= r < 4 && row[s].cost < INF && #[trigger] rep_len_ok(input, row, i, cap, s, r, l)
                ==> ((0 <= s < s1 || (s == s1 && (r < k1 || (r == k1 && l < b1)))) <==> (0 <= s < s2
                || (s == s2 && (r < k2 || (r == k2 && l < b2))))),
    ensures
        rep_offers(input, row, i, cap, model, s1, k1, b1) == rep_offers(
            input,
            row,
            i,
            cap,
            model,
            s2,
            k2,
            b2,
        ),
{
    let x = rep_offers(input, row, i, cap, model, s1, k1, b1);
    let y = rep_offers(input, row, i, cap, model, s2, k2, b2);
    assert forall|p: (int, Arrival)| #[trigger] x.contains(p) implies y.contains(p) by {
        let (s, r) = choose|s: int, r: int|
            #![trigger rep_step(row, i, s, r, p.0 - i, model)]
            0 <= r < 4 && row[s].cost < INF && rep_len_ok(input, row, i, cap, s, r, p.0 - i) && (0
                <= s < s1 || (s == s1 && (r < k1 || (r == k1 && p.0 - i < b1)))) && comes_by(
                rep_step(row, i, s, r, p.0 - i, model),
                p.1,
            );
        assert(comes_by(rep_step(row, i, s, r, p.0 - i, model), p.1));
    }
    assert forall|p: (int, Arrival)| #[trigger] y.contains(p) implies x.contains(p) by {
        let (s, r) = choose|s: int, r: int|
            #![trigger rep_step(row, i, s, r, p.0 - i, model)]
            0 <= r < 4 && row[s].cost < INF && rep_len_ok(input, row, i, cap, s, r, p.0 - i) && (0
                <= s < s2 || (s == s2 && (r < k2 || (r == k2 && p.0 - i < b2)))) && comes_by(
                rep_step(row, i, s, r, p.0 - i, model),
                p.1,
            );
        assert(comes_by(rep_step(row, i, s, r, p.0 - i, model), p.1));
    }
    assert(x =~= y);
}

/// One more length of a recent offset.
proof fn lemma_rep_step(
    a0: Seq<Arrival>,
    a1: Seq<Arrival>,
    a2: Seq<Arrival>,
    n: int,
    input: Seq<u8>,
    row: Seq<Arrival>,
    i: int,
    cap: int,
    model: &CostModel,
    slot: int,
    k: int,
    l: int,
    cand: Arrival,
)
    requires
        a0.len() == (n + 1) * 16,
        0 <= i,
        0 <= l,
        i + l <= n,
        0 <= slot < 16,
        0 <= k < 4,
        row[slot].cost < INF,
        rep_len_ok(input, row, i, cap, slot, k, l),
        comes_by(rep_step(row, i, slot, k, l, model), cand),
        took(a0, a1, n, rep_offers(input, row, i, cap, model, slot, k, l)),
        took(a1, a2, n, set![(i + l, cand)]),
    ensures
        took(a0, a2, n, rep_offers(input, row, i, cap, model, slot, k, l + 1)),
{
    let s = rep_offers(input, row, i, cap, model, slot, k, l);
    let u = rep_offers(input, row, i, cap, model, slot, k, l + 1);
    let st = rep_step(row, i, slot, k, l, model);
    let q = (i + l, cand);
    assert(comes_by(rep_step(row, i, slot, k, q.0 - i, model), q.1));
    assert(u.contains(q));
    assert forall|p: (int, Arrival)| #[trigger] s.contains(p) implies u.contains(p) by {
        let (y, r) = choose|y: int, r: int|
            #![trigger rep_step(row, i, y, r, p.0 - i, model)]
            0 <= r < 4 && row[y].cost < INF && rep_len_ok(input, row, i, cap, y, r, p.0 - i) && (0
                <= y < slot || (y == slot && (r < k || (r == k && p.0 - i < l)))) && comes_by(
                rep_step(row, i, y, r, p.0 - i, model),
                p.1,
            );
        assert(comes_by(rep_step(row, i, y, r, p.0 - i, model), p.1));
    }
    assert forall|pos: int, x: Arrival| #[trigger] u.contains((pos, x)) implies s.contains((pos, x)) || (
    pos == i + l && comes_by(st, x)) by {
        let p = (pos, x);
        let (y, r) = choose|y: int, r: int|
            #![trigger rep_step(row, i, y, r, p.0 - i, model)]
            0 <= r < 4 && row[y].cost < INF && rep_len_ok(input, row, i, cap, y, r, p.0 - i) && (0
                <= y < slot || (y == slot && (r < k || (r == k && p.0 - i < l + 1)))) && comes_by(
                rep_step(row, i, y, r, p.0 - i, model),
                p.1,
            );
        assert(comes_by(rep_step(row, i, y, r, p.0 - i, model), p.1));
        if !(0 <= y < slot || (y == slot && (r < k || (r == k && p.0 - i < l)))) {
            assert(y == slot && r == k && p.0 - i == l);
        } else {
            assert(s.contains(p));
        }
    }
    lemma_step_took(a0, a1, a2, n, i + l, st, cand, s, u);
}

/// Recent offsets of every arrival, probed for short repeats.
fn relax_reps(input: &[u8], arr: &mut Vec<Arrival>, i: usize, model: &CostModel)
    requires
        rows_ok(input@, old(arr)@, i + 1),
        rows_in_order(old(arr)@, input@.len() as int),
        parse_fits(input@.len() as int),
        i < input@.len(),
        model.small(input@),
    ensures
        rows_ok(input@, final(arr)@, i + 1),
        rows_in_order(final(arr)@, input@.len() as int),
        rows_same(old(arr)@, final(arr)@, i + 1),
        took(
            old(arr)@,
            final(arr)@,
            input@.len() as int,
            rep_offers(
                input@,
                row_of(old(arr)@, i as int),
                i as int,
                zxdp::probe_cap_of(input@.len() as int, i as int, REP_MAX_LEN as int),
                model,
                16,
                0,
                0,
            ),
        ),
{
    let ghost a0 = arr@;
    let n: usize = input.len();
    let ghost row = row_of(a0, i as int);
    let cap: usize = if n - i < REP_MAX_LEN {
        n - i
    } else {
        REP_MAX_LEN
    };
    let mut slot: usize = 0;
    proof {
        lemma_took_none(a0, n as int);
        assert(row_in_order(row));
        assert(rep_offers(input@, row, i as int, cap as int, model, 0, 0, 0) =~= Set::empty());
    }
    while slot < 16
        invariant_except_break
            took(
                a0,
                arr@,
                n as int,
                rep_offers(input@, row, i as int, cap as int, model, slot as int, 0, 0),
            ),
        invariant
            slot <= 16,
            n == input@.len(),
            i < n,
            i + cap <= n,
            cap <= 64,
            a0.len() == (n + 1) * 16,
            row == row_of(a0, i as int),
            row_in_order(row),
            parse_fits(n as int),
            model.small(input@),
            rows_ok(input@, arr@, i + 1),
            rows_in_order(arr@, n as int),
            rows_same(a0, arr@, i + 1),
        ensures
            took(
                a0,
                arr@,
                n as int,
                rep_offers(input@, row, i as int, cap as int, model, 16, 0, 0),
            ),
        decreases 16 - slot,
    {
        let a: Arrival = arr[i * 16 + slot];
        assert(a == row[slot as int]);
        if a.cost >= INF {
            proof {
                assert forall|s: int| slot < s < 16 implies (#[trigger] row[s]).cost >= INF by {
                    assert(row[slot as int].cost <= row[s].cost);
                }
                lemma_rep_offers_eq(
                    input@,
                    row,
                    i as int,
                    cap as int,
                    model,
                    slot as int,
                    0,
                    0,
                    16,
                    0,
                    0,
                );
            }
            break;
        }
        let mut ridx: usize = 0;
        while ridx < 4
            invariant
                ridx <= 4,
                slot < 16,
                n == input@.len(),
                i < n,
                i + cap <= n,
                cap <= 64,
                a0.len() == (n + 1) * 16,
                row == row_of(a0, i as int),
                parse_fits(n as int),
                model.small(input@),
                a.cost < INF,
                a == row[slot as int],
                a0[i * 16 + slot] == a,
                rows_ok(input@, arr@, i + 1),
                rows_in_order(arr@, n as int),
                rows_same(a0, arr@, i + 1),
                took(
                    a0,
                    arr@,
                    n as int,
                    rep_offers(
                        input@,
                        row,
                        i as int,
                        cap as int,
                        model,
                        slot as int,
                        ridx as int,
                        0,
                    ),
                ),
            decreases 4 - ridx,
        {
            let r: u32 = a.reps[ridx];
            let ru: usize = r as usize;
            proof {
                lemma_rep_offers_eq(
                    input@,
                    row,
                    i as int,
                    cap as int,
                    model,
                    slot as int,
                    ridx as int,
                    0,
                    slot as int,
                    ridx as int,
                    2,
                );
            }
            if ru != 0 && ru <= i {
                let l: usize = lz::match_run(input, i - ru, i, cap);
                proof {
                    matchfinder::lemma_run_is(input@, i as int, ru as int, l as int, cap as int);
                    assert(l == zxdp::capped_run(input@, i as int, r as int, cap as int));
                }
                let reps: [u32; 4] = zxdp::zx_rep_mtf(a.reps, ridx);
                let mut ll: u32 = MIN_MATCH;
                while ll as usize <= l
                    invariant
                        2 <= ll <= 65,
                        ll == 2 || ll <= l + 1,
                        l <= 64,
                        slot < 16,
                        ridx < 4,
                        n == input@.len(),
                        i < n,
                        i + l <= n,
                        a0.len() == (n + 1) * 16,
                        row == row_of(a0, i as int),
                        a == row[slot as int],
                        r == a.reps@[ridx as int],
                        reps@ == a.reps@.remove(ridx as int).insert(0, r),
                        l == zxdp::capped_run(input@, i as int, r as int, cap as int),
                        parse_fits(n as int),
                        model.small(input@),
                        a.cost < INF,
                        a0[i * 16 + slot] == a,
                        1 <= r <= i,
                        l >= 2 ==> lz::is_match(input@, i as int, r as int, l as int),
                        rows_ok(input@, arr@, i + 1),
                        rows_in_order(arr@, n as int),
                        rows_same(a0, arr@, i + 1),
                        took(
                            a0,
                            arr@,
                            n as int,
                            rep_offers(
                                input@,
                                row,
                                i as int,
                                cap as int,
                                model,
                                slot as int,
                                ridx as int,
                                ll as int,
                            ),
                        ),
                    decreases 65 - ll,
                {
                    proof {
                        lemma_cost_bounds(model, input@, 1, ll as int);
                        zxdp::lemma_shorter_match(
                            input@,
                            i as int,
                            r as int,
                            l as int,
                            ll as int,
                        );
                        assert(arr@[i * 16 + slot] == a0[i * 16 + slot]);
                    }
                    let cand: Arrival = Arrival {
                        cost: a.cost + model.match_cost_rep(ll),
                        reps,
                        from_pos: i as u32,
                        from_slot: slot as u8,
                        match_len: ll,
                        match_off: r,
                    };
                    let ghost before = arr@;
                    push_arrival(arr, i + ll as usize, cand, Ghost(input@), Ghost(i + 1));
                    proof {
                        lemma_rep_step(
                            a0,
                            before,
                            arr@,
                            n as int,
                            input@,
                            row,
                            i as int,
                            cap as int,
                            model,
                            slot as int,
                            ridx as int,
                            ll as int,
                            cand,
                        );
                    }
                    ll += 1;
                }
                proof {
                    lemma_rep_offers_eq(
                        input@,
                        row,
                        i as int,
                        cap as int,
                        model,
                        slot as int,
                        ridx as int,
                        ll as int,
                        slot as int,
                        ridx + 1,
                        0,
                    );
                }
            } else {
                proof {
                    lemma_rep_offers_eq(
                        input@,
                        row,
                        i as int,
                        cap as int,
                        model,
                        slot as int,
                        ridx as int,
                        2,
                        slot as int,
                        ridx + 1,
                        0,
                    );
                }
            }
            ridx += 1;
        }
        proof {
            lemma_rep_offers_eq(
                input@,
                row,
                i as int,
                cap as int,
                model,
                slot as int,
                4,
                0,
                slot + 1,
                0,
                0,
            );
        }
        slot += 1;
    }
}

/// Where command `k` starts.
pub open spec fn cmd_pos(cmds: Seq<Command>, k: int) -> int
    decreases k,
{
    if k <= 0 {
        0
    } else {
        cmd_pos(cmds, k - 1) + cmds[k - 1].lit_len + cmds[k - 1].match_len
    }
}

/// Command `k` stands for the bytes of `input` at its place.
pub open spec fn cmd_ok(input: Seq<u8>, cmds: Seq<Command>, k: int) -> bool {
    let c = cmds[k];
    let p = cmd_pos(cmds, k);
    &&& c.lit_len > 0 ==> c.lit_start == p
    &&& p + c.lit_len <= input.len()
    &&& c.match_off == 0 ==> k == cmds.len() - 1 && c.match_len == 0 && c.lit_len > 0
    &&& c.match_off != 0 ==> c.match_len >= 2 && lz::is_match(
        input,
        p + c.lit_len,
        c.match_off as int,
        c.match_len as int,
    )
}

/// The commands stand for `input`.
pub open spec fn cmds_tile(input: Seq<u8>, cmds: Seq<Command>) -> bool {
    &&& forall|k: int| 0 <= k < cmds.len() ==> #[trigger] cmd_ok(input, cmds, k)
    &&& cmd_pos(cmds, cmds.len() as int) == input.len()
}

proof fn lemma_cmd_prefix(a: Seq<Command>, b: Seq<Command>, k: int)
    requires
        0 <= k <= a.len(),
        k <= b.len(),
        forall|j: int| 0 <= j < k ==> a[j] == b[j],
    ensures
        cmd_pos(a, k) == cmd_pos(b, k),
    decreases k,
{
    if k > 0 {
        lemma_cmd_prefix(a, b, k - 1);
    }
}

/// Whether a match has one of the recent offsets, and these behind it.
pub open spec fn match_next(reps: Seq<u32>, off: u32, use_rep: bool) -> (bool, Seq<u32>) {
    match if use_rep {
        zx::reps_find(reps, off, 4)
    } else {
        None
    } {
        Some(idx) => (true, reps.remove(idx as int).insert(0, reps[idx as int])),
        None => (false, seq![off, reps[0], reps[1], reps[2]]),
    }
}

/// What a match costs behind these recent offsets.
pub open spec fn match_price(model: &CostModel, reps: Seq<u32>, off: u32, len: int, use_rep: bool) -> int {
    if match_next(reps, off, use_rep).0 {
        model.match_cost_rep_of(len)
    } else {
        model.match_cost_of(off as int, len)
    }
}

/// What the literals from `a` to `b` cost.
pub open spec fn literals_price(model: &CostModel, input: Seq<u8>, a: int, b: int) -> int
    decreases b - a,
{
    if a >= b {
        0
    } else {
        model.lit@[input[a] as int] + literals_price(model, input, a + 1, b)
    }
}

/// What the commands from `k` on cost behind these recent offsets.
pub open spec fn cmds_price(
    model: &CostModel,
    input: Seq<u8>,
    cmds: Seq<Command>,
    use_rep: bool,
    k: int,
    reps: Seq<u32>,
) -> int
    decreases cmds.len() - k,
{
    if k < 0 || k >= cmds.len() {
        0
    } else {
        let c = cmds[k];
        let p = cmd_pos(cmds, k);
        literals_price(model, input, p, p + c.lit_len) + if c.match_off == 0 {
            cmds_price(model, input, cmds, use_rep, k + 1, reps)
        } else {
            match_price(model, reps, c.match_off, c.match_len as int, use_rep) + cmds_price(
                model,
                input,
                cmds,
                use_rep,
                k + 1,
                match_next(reps, c.match_off, use_rep).1,
            )
        }
    }
}

/// What a table of matches costs from `p` on, behind these recent offsets.
spec fn table_price(
    model: &CostModel,
    input: Seq<u8>,
    best: Seq<(u32, u32)>,
    use_rep: bool,
    p: int,
    reps: Seq<u32>,
) -> int
    decreases
        if p < best.len() {
            best.len() - p
        } else {
            0
        },
{
    if p < 0 || p >= best.len() {
        0
    } else if best[p].0 == 0 {
        model.lit@[input[p] as int] + table_price(model, input, best, use_rep, p + 1, reps)
    } else {
        match_price(model, reps, best[p].1, best[p].0 as int, use_rep) + table_price(
            model,
            input,
            best,
            use_rep,
            p + best[p].0,
            match_next(reps, best[p].1, use_rep).1,
        )
    }
}

/// The commands of a table: those from `k` on stand for it from `p` on.
spec fn cmds_follow(best: Seq<(u32, u32)>, cmds: Seq<Command>, k: int) -> bool {
    let p = cmd_pos(cmds, k);
    let c = cmds[k];
    &&& forall|q: int| p <= q < p + c.lit_len ==> (#[trigger] best[q]).0 == 0
    &&& c.match_off != 0 ==> best[p + c.lit_len] == (c.match_len, c.match_off) && c.match_len > 0
    &&& c.match_off == 0 ==> p + c.lit_len == best.len()
}

proof fn lemma_table_literals(
    model: &CostModel,
    input: Seq<u8>,
    best: Seq<(u32, u32)>,
    use_rep: bool,
    a: int,
    b: int,
    reps: Seq<u32>,
)
    requires
        0 <= a <= b <= best.len(),
        forall|q: int| a <= q < b ==> (#[trigger] best[q]).0 == 0,
    ensures
        table_price(model, input, best, use_rep, a, reps) == literals_price(model, input, a, b)
            + table_price(model, input, best, use_rep, b, reps),
    decreases b - a,
{
    if a < b {
        assert(best[a].0 == 0);
        lemma_table_literals(model, input, best, use_rep, a + 1, b, reps);
    }
}

proof fn lemma_cmds_price(
    model: &CostModel,
    input: Seq<u8>,
    best: Seq<(u32, u32)>,
    cmds: Seq<Command>,
    use_rep: bool,
    k: int,
    reps: Seq<u32>,
)
    requires
        0 <= k <= cmds.len(),
        cmds_tile(input, cmds),
        best.len() == input.len(),
        forall|j: int| 0 <= j < cmds.len() ==> #[trigger] cmds_follow(best, cmds, j),
        k > 0 ==> cmds[k - 1].match_off != 0 || k == cmds.len(),
    ensures
        cmds_price(model, input, cmds, use_rep, k, reps) == table_price(
            model,
            input,
            best,
            use_rep,
            cmd_pos(cmds, k),
            reps,
        ),
    decreases cmds.len() - k,
{
    if k < cmds.len() {
        assert(cmds_follow(best, cmds, k));
        assert(cmd_ok(input, cmds, k));
        let c = cmds[k];
        let p = cmd_pos(cmds, k);
        lemma_cmd_pos(cmds, 0, k);
        lemma_table_literals(model, input, best, use_rep, p, p + c.lit_len, reps);
        if c.match_off == 0 {
            lemma_cmds_price(model, input, best, cmds, use_rep, k + 1, reps);
        } else {
            lemma_cmds_price(
                model,
                input,
                best,
                cmds,
                use_rep,
                k + 1,
                match_next(reps, c.match_off, use_rep).1,
            );
        }
    }
}

proof fn lemma_cmd_pos(cmds: Seq<Command>, j: int, k: int)
    requires
        j <= k,
    ensures
        cmd_pos(cmds, j) <= cmd_pos(cmds, k),
    decreases k - j,
{
    if j < k {
        lemma_cmd_pos(cmds, j, k - 1);
    }
}

/// Groups a table of matches of at least two bytes into commands.
fn group_commands(input: &[u8], best: &Vec<(u32, u32)>) -> (cmds: Vec<Command>)
    requires
        zxbest::best_ok(input@, best@),
        forall|p: int| 0 <= p < best@.len() ==> (#[trigger] best@[p]).0 != 1,
        input@.len() <= 0x3fff_ffff,
    ensures
        cmds_tile(input@, cmds@),
        forall|k: int| 0 <= k < cmds@.len() ==> #[trigger] cmds_follow(best@, cmds@, k),
{
    let n: usize = input.len();
    let mut cmds: Vec<Command> = Vec::new();
    let mut p: usize = 0;
    let mut run: u32 = 0;
    while p < n
        invariant
            n == input@.len(),
            n == best@.len(),
            n <= 0x3fff_ffff,
            zxbest::best_ok(input@, best@),
            forall|q: int| 0 <= q < best@.len() ==> (#[trigger] best@[q]).0 != 1,
            p <= n,
            run <= p,
            cmd_pos(cmds@, cmds@.len() as int) == p - run,
            forall|k: int| 0 <= k < cmds@.len() ==> #[trigger] cmd_ok(input@, cmds@, k),
            forall|k: int| 0 <= k < cmds@.len() ==> (#[trigger] cmds@[k]).match_off != 0,
            forall|k: int| 0 <= k < cmds@.len() ==> #[trigger] cmds_follow(best@, cmds@, k),
            forall|q: int| p - run <= q < p ==> (#[trigger] best@[q]).0 == 0,
        decreases n - p,
    {
        let (len, off) = best[p];
        if len == 0 {
            run += 1;
            p += 1;
        } else {
            assert(lz::is_match(input@, p as int, off as int, len as int));
            let ghost c0 = cmds@;
            cmds.push(
                Command {
                    lit_len: run,
                    lit_start: p - run as usize,
                    match_off: off,
                    match_len: len,
                },
            );
            run = 0;
            p += len as usize;
            proof {
                lemma_cmd_prefix(c0, cmds@, c0.len() as int);
                assert forall|k: int| 0 <= k < cmds@.len() implies #[trigger] cmd_ok(
                    input@,
                    cmds@,
                    k,
                ) by {
                    if k < c0.len() {
                        lemma_cmd_prefix(c0, cmds@, k);
                        assert(cmd_ok(input@, c0, k));
                        assert(c0[k].match_off != 0);
                    }
                }
                assert forall|k: int| 0 <= k < cmds@.len() implies #[trigger] cmds_follow(
                    best@,
                    cmds@,
                    k,
                ) by {
                    if k < c0.len() {
                        lemma_cmd_prefix(c0, cmds@, k);
                        assert(cmds_follow(best@, c0, k));
                    }
                }
                assert forall|k: int| 0 <= k < cmds@.len() implies (#[trigger] cmds@[k]).match_off
                    != 0 by {
                    if k < c0.len() {
                        assert(c0[k].match_off != 0);
                    }
                }
            }
        }
    }
    if run > 0 {
        let ghost c0 = cmds@;
        cmds.push(
            Command { lit_len: run, lit_start: p - run as usize, match_off: 0, match_len: 0 },
        );
        proof {
            lemma_cmd_prefix(c0, cmds@, c0.len() as int);
            assert forall|k: int| 0 <= k < cmds@.len() implies #[trigger] cmd_ok(
                input@,
                cmds@,
                k,
            ) by {
                if k < c0.len() {
                    lemma_cmd_prefix(c0, cmds@, k);
                    assert(cmd_ok(input@, c0, k));
                    assert(c0[k].match_off != 0);
                }
            }
            assert forall|k: int| 0 <= k < cmds@.len() implies #[trigger] cmds_follow(
                best@,
                cmds@,
                k,
            ) by {
                if k < c0.len() {
                    lemma_cmd_prefix(c0, cmds@, k);
                    assert(cmds_follow(best@, c0, k));
                }
            }
        }
    }
    cmds
}

/// Everything that a row offers: a literal, the front, and with `use_rep` the
/// recent offsets.
#[verifier::opaque]
pub open spec fn row_offers(
    input: Seq<u8>,
    ms: &MatchSet,
    model: &CostModel,
    use_rep: bool,
    row: Seq<Arrival>,
    i: int,
) -> Set<(int, Arrival)> {
    let list = ms.list(i);
    Set::new(
        |p: (int, Arrival)|
            {
                ||| literal_offers(row, i, model.lit@[input[i] as int] as int, 16).contains(p)
                ||| front_offers(row, i, list, model, use_rep, list.len() as int, 0).contains(p)
                ||| (use_rep && rep_offers(
                    input,
                    row,
                    i,
                    zxdp::probe_cap_of(input.len() as int, i, REP_MAX_LEN as int),
                    model,
                    16,
                    0,
                    0,
                ).contains(p))
            },
    )
}

/// What the row of `i` offers is in the table, or of no use there.
pub open spec fn row_taken(
    input: Seq<u8>,
    ms: &MatchSet,
    model: &CostModel,
    use_rep: bool,
    arr: Seq<Arrival>,
    i: int,
) -> bool {
    forall|pos: int, c: Arrival|
        0 <= pos <= input.len() && #[trigger] row_offers(
            input,
            ms,
            model,
            use_rep,
            row_of(arr, i),
            i,
        ).contains((pos, c)) ==> covers(row_of(arr, pos), c.reps@, c.cost)
}

/// The arrival was offered by the row of one of the first `upto` positions.
pub open spec fn row_offered(
    input: Seq<u8>,
    ms: &MatchSet,
    model: &CostModel,
    use_rep: bool,
    arr: Seq<Arrival>,
    upto: int,
    pos: int,
    c: Arrival,
) -> bool {
    exists|i: int|
        0 <= i < upto && #[trigger] row_offers(
            input,
            ms,
            model,
            use_rep,
            row_of(arr, i),
            i,
        ).contains((pos, c))
}

/// The first `upto` rows have made their offers, and nothing else is in the table.
pub open spec fn table_filled(
    input: Seq<u8>,
    ms: &MatchSet,
    model: &CostModel,
    use_rep: bool,
    arr: Seq<Arrival>,
    upto: int,
) -> bool {
    &&& arr.len() == (input.len() + 1) * 16
    &&& rows_in_order(arr, input.len() as int)
    &&& arr[0].cost == 0
    &&& arr[0].reps@ == seq![1u32, 1, 1, 1]
    &&& forall|k: int| 1 <= k < 16 ==> (#[trigger] arr[k]).cost == INF
    &&& forall|i: int| 0 <= i < upto ==> #[trigger] row_taken(input, ms, model, use_rep, arr, i)
    &&& forall|pos: int, k: int|
        #![trigger row_of(arr, pos)[k]]
        1 <= pos <= input.len() && 0 <= k < 16 && row_of(arr, pos)[k].cost < INF ==> row_offered(
            input,
            ms,
            model,
            use_rep,
            arr,
            upto,
            pos,
            row_of(arr, pos)[k],
        )
    &&& forall|i: int|
        0 <= i <= upto && i <= input.len() ==> no_dearer_than_literals(model, input, arr, i)
}

/// The cheapest arrival costs no more than literals, as far as costs can be
/// counted.
pub open spec fn no_dearer_than_literals(
    model: &CostModel,
    input: Seq<u8>,
    arr: Seq<Arrival>,
    i: int,
) -> bool {
    lits_upto(model, input, i) < INF ==> (#[trigger] row_of(arr, i))[0].cost <= lits_upto(
        model,
        input,
        i,
    )
}

/// What the first `i` bytes cost as literals.
pub open spec fn lits_upto(model: &CostModel, input: Seq<u8>, i: int) -> int
    decreases i,
{
    if i <= 0 {
        0
    } else {
        lits_upto(model, input, i - 1) + model.lit@[input[i - 1] as int]
    }
}

/// The same in the middle of the step out of `i`, with the offers in `got` made.
spec fn half_filled(
    input: Seq<u8>,
    ms: &MatchSet,
    model: &CostModel,
    use_rep: bool,
    arr: Seq<Arrival>,
    i: int,
    got: Set<(int, Arrival)>,
) -> bool {
    &&& arr.len() == (input.len() + 1) * 16
    &&& arr[0].cost == 0
    &&& arr[0].reps@ == seq![1u32, 1, 1, 1]
    &&& forall|k: int| 1 <= k < 16 ==> (#[trigger] arr[k]).cost == INF
    &&& forall|k: int| 0 <= k < i ==> #[trigger] row_taken(input, ms, model, use_rep, arr, k)
    &&& forall|pos: int, k: int|
        #![trigger row_of(arr, pos)[k]]
        1 <= pos <= input.len() && 0 <= k < 16 && row_of(arr, pos)[k].cost < INF ==> row_offered(
            input,
            ms,
            model,
            use_rep,
            arr,
            i + 1,
            pos,
            row_of(arr, pos)[k],
        )
    &&& forall|k: int| 0 <= k <= i ==> no_dearer_than_literals(model, input, arr, k)
    &&& forall|pos: int, c: Arrival|
        0 <= pos <= input.len() && #[trigger] got.contains((pos, c)) ==> covers(
            row_of(arr, pos),
            c.reps@,
            c.cost,
        )
}

proof fn lemma_half_filled(
    input: Seq<u8>,
    ms: &MatchSet,
    model: &CostModel,
    use_rep: bool,
    a: Seq<Arrival>,
    b: Seq<Arrival>,
    i: int,
    got: Set<(int, Arrival)>,
    s: Set<(int, Arrival)>,
)
    requires
        half_filled(input, ms, model, use_rep, a, i, got),
        took(a, b, input.len() as int, s),
        rows_same(a, b, i + 1),
        0 <= i < input.len(),
        forall|p: (int, Arrival)| #[trigger]
            s.contains(p) ==> row_offers(input, ms, model, use_rep, row_of(a, i), i).contains(p),
    ensures
        half_filled(input, ms, model, use_rep, b, i, got.union(s)),
        row_of(b, i) == row_of(a, i),
{
    let n = input.len() as int;
    assert(b.len() == a.len());
    assert forall|k: int| 0 <= k <= i implies #[trigger] row_of(b, k) == row_of(a, k) by {
        assert(row_of(b, k) =~= row_of(a, k));
    }
    assert forall|k: int| 0 <= k < 16 implies b[k] == a[k] by {
        assert(0 <= k < (i + 1) * 16);
    }
    assert forall|k: int| 0 <= k < i implies #[trigger] row_taken(input, ms, model, use_rep, b, k) by {
        assert(row_taken(input, ms, model, use_rep, a, k));
        assert forall|pos: int, c: Arrival|
            0 <= pos <= n && #[trigger] row_offers(
                input,
                ms,
                model,
                use_rep,
                row_of(b, k),
                k,
            ).contains((pos, c)) implies covers(row_of(b, pos), c.reps@, c.cost) by {
            assert(row_offers(input, ms, model, use_rep, row_of(a, k), k).contains((pos, c)));
            lemma_took_use(a, b, n, s, pos, c);
        }
    }
    assert forall|pos: int, k: int|
        #![trigger row_of(b, pos)[k]]
        1 <= pos <= n && 0 <= k < 16 && row_of(b, pos)[k].cost < INF implies row_offered(
        input,
        ms,
        model,
        use_rep,
        b,
        i + 1,
        pos,
        row_of(b, pos)[k],
    ) by {
        let c = row_of(b, pos)[k];
        lemma_took_place(a, b, n, s, pos, k);
        if s.contains((pos, c)) {
            assert(row_offers(input, ms, model, use_rep, row_of(b, i), i).contains((pos, c)));
        } else {
            let j = choose|j: int| 0 <= j < row_of(a, pos).len() && row_of(a, pos)[j] == c;
            assert(row_of(a, pos).len() == 16);
            assert(row_of(a, pos)[j] == c);
            assert(row_offered(input, ms, model, use_rep, a, i + 1, pos, c));
            let q = choose|q: int|
                0 <= q < i + 1 && #[trigger] row_offers(
                    input,
                    ms,
                    model,
                    use_rep,
                    row_of(a, q),
                    q,
                ).contains((pos, c));
            assert(row_offers(input, ms, model, use_rep, row_of(b, q), q).contains((pos, c)));
        }
    }
    assert forall|k: int| 0 <= k <= i implies no_dearer_than_literals(model, input, b, k) by {
        assert(no_dearer_than_literals(model, input, a, k));
    }
    assert forall|pos: int, c: Arrival|
        0 <= pos <= n && #[trigger] got.union(s).contains((pos, c)) implies covers(
        row_of(b, pos),
        c.reps@,
        c.cost,
    ) by {
        lemma_took_use(a, b, n, s, pos, c);
    }
}

proof fn lemma_fill_begin(
    input: Seq<u8>,
    ms: &MatchSet,
    model: &CostModel,
    use_rep: bool,
    arr: Seq<Arrival>,
    i: int,
)
    requires
        table_filled(input, ms, model, use_rep, arr, i),
        0 <= i < input.len(),
    ensures
        half_filled(input, ms, model, use_rep, arr, i, Set::empty()),
{
    assert forall|pos: int, k: int|
        #![trigger row_of(arr, pos)[k]]
        1 <= pos <= input.len() && 0 <= k < 16 && row_of(arr, pos)[k].cost < INF implies row_offered(
        input,
        ms,
        model,
        use_rep,
        arr,
        i + 1,
        pos,
        row_of(arr, pos)[k],
    ) by {
        let c = row_of(arr, pos)[k];
        assert(row_offered(input, ms, model, use_rep, arr, i, pos, c));
        let q = choose|q: int|
            0 <= q < i && #[trigger] row_offers(
                input,
                ms,
                model,
                use_rep,
                row_of(arr, q),
                q,
            ).contains((pos, c));
        assert(row_offers(input, ms, model, use_rep, row_of(arr, q), q).contains((pos, c)));
    }
    assert forall|k: int| 0 <= k <= i implies no_dearer_than_literals(model, input, arr, k) by {}
}

proof fn lemma_fill_done(
    input: Seq<u8>,
    ms: &MatchSet,
    model: &CostModel,
    use_rep: bool,
    arr: Seq<Arrival>,
    i: int,
    got: Set<(int, Arrival)>,
)
    requires
        half_filled(input, ms, model, use_rep, arr, i, got),
        rows_in_order(arr, input.len() as int),
        0 <= i < input.len() <= 0x3fff_ffff,
        model.small(input),
        forall|p: (int, Arrival)| #[trigger]
            row_offers(input, ms, model, use_rep, row_of(arr, i), i).contains(p) ==> got.contains(p),
    ensures
        table_filled(input, ms, model, use_rep, arr, i + 1),
{
    let n = input.len() as int;
    let row = row_of(arr, i);
    assert forall|k: int| 0 <= k < i + 1 implies #[trigger] row_taken(input, ms, model, use_rep, arr, k) by {
        if k == i {
            assert forall|pos: int, x: Arrival|
                0 <= pos <= n && #[trigger] row_offers(
                    input,
                    ms,
                    model,
                    use_rep,
                    row_of(arr, k),
                    k,
                ).contains((pos, x)) implies covers(row_of(arr, pos), x.reps@, x.cost) by {
                assert(got.contains((pos, x)));
            }
        }
    }
    let lit = model.lit@[input[i] as int] as int;
    assert(lits_upto(model, input, i + 1) == lits_upto(model, input, i) + lit);
    assert(no_dearer_than_literals(model, input, arr, i + 1)) by {
        if lits_upto(model, input, i + 1) < INF {
            assert(no_dearer_than_literals(model, input, arr, i));
            let a = row[0];
            let c = Arrival {
                cost: (a.cost + lit) as u32,
                reps: a.reps,
                from_pos: i as u32,
                from_slot: 0,
                match_len: 0,
                match_off: 0,
            };
            assert(a.cost + lit < INF);
            let p = (i + 1, c);
            assert(comes_by(literal_step(row, i, 0, lit), p.1));
            assert(literal_offers(row, i, lit, 16).contains(p));
            assert(row_offers(input, ms, model, use_rep, row, i).contains(p)) by {
                reveal(row_offers);
            }
            assert(got.contains((i + 1, c)));
            let next = row_of(arr, i + 1);
            assert(covers(next, c.reps@, c.cost));
            assert(row_in_order(next));
            if next[15].cost <= c.cost {
                assert(next[0].cost <= next[15].cost);
            } else {
                let k = choose|k: int| 0 <= k < 16 && #[trigger] stands_for(next[k], c.reps@, c.cost);
                if k > 0 {
                    assert(next[0].cost <= next[k].cost);
                }
            }
        }
    }
}

/// Every offset among the recent ones `d` is among `a`, no further back.
spec fn as_recent(a: Seq<u32>, d: Seq<u32>) -> bool {
    &&& a.len() == 4
    &&& d.len() == 4
    &&& forall|v: u32|
        #![trigger zx::reps_find(d, v, 4)]
        match zx::reps_find(d, v, 4) {
            Some(i) => zx::reps_find(a, v, 4) matches Some(j) && j <= i,
            None => true,
        }
}

/// The recent offset in place `r` moved to the front.
spec fn moved(d: Seq<u32>, r: int) -> Seq<u32> {
    d.remove(r).insert(0, d[r])
}

/// After the same match the recent offsets compare as before, whichever of equal
/// ones is moved.
#[verifier::rlimit(60)]
proof fn lemma_moved(a: Seq<u32>, d: Seq<u32>, r: int)
    requires
        as_recent(a, d),
        0 <= r < 4,
    ensures
        match_next(a, d[r], true).0,
        as_recent(match_next(a, d[r], true).1, moved(d, r)),
{
    let v = d[r];
    let fd = zx::reps_find(d, v, 4);
    assert(fd is Some && fd->Some_0 <= r);
    let ja = zx::reps_find(a, v, 4)->Some_0 as int;
    let a2 = match_next(a, v, true).1;
    let d2 = moved(d, r);
    assert(a2 == moved(a, ja));
    assert(d2[0] == v && a2[0] == v);
    assert forall|k: int| 1 <= k < 4 implies #[trigger] d2[k] == if k <= r {
        d[k - 1]
    } else {
        d[k]
    } by {}
    assert forall|k: int| 1 <= k < 4 implies #[trigger] a2[k] == if k <= ja {
        a[k - 1]
    } else {
        a[k]
    } by {}
    assert forall|u: u32| #![trigger zx::reps_find(d2, u, 4)] match zx::reps_find(d2, u, 4) {
        Some(i) => zx::reps_find(a2, u, 4) matches Some(j) && j <= i,
        None => true,
    } by {
        let x = zx::reps_find(d, u, 4);
        if u != v && zx::reps_find(d2, u, 4) is Some {
            assert(x is Some);
        }
    }
}

#[verifier::rlimit(60)]
proof fn lemma_inserted(a: Seq<u32>, d: Seq<u32>, v: u32, use_rep: bool)
    requires
        as_recent(a, d),
        use_rep ==> zx::reps_find(d, v, 4) is None,
    ensures
        use_rep ==> as_recent(match_next(a, v, use_rep).1, seq![v, d[0], d[1], d[2]]),
{
    if use_rep {
        let a2 = match_next(a, v, use_rep).1;
        let d2 = seq![v, d[0], d[1], d[2]];
        assert(a2.len() == 4);
        if zx::reps_find(a, v, 4) is Some {
            let ja = zx::reps_find(a, v, 4)->Some_0 as int;
            assert(a2 == moved(a, ja));
            assert forall|k: int| 1 <= k < 4 implies #[trigger] a2[k] == if k <= ja {
                a[k - 1]
            } else {
                a[k]
            } by {}
        }
        assert forall|u: u32| #![trigger zx::reps_find(d2, u, 4)] match zx::reps_find(d2, u, 4) {
            Some(i) => zx::reps_find(a2, u, 4) matches Some(j) && j <= i,
            None => true,
        } by {
            let x = zx::reps_find(d, u, 4);
            if u != v && zx::reps_find(d2, u, 4) is Some {
                assert(x is Some);
            }
        }
    }
}

/// A table costs no more behind recent offsets that are as recent.
proof fn lemma_price_falls(
    model: &CostModel,
    input: Seq<u8>,
    best: Seq<(u32, u32)>,
    use_rep: bool,
    p: int,
    a: Seq<u32>,
    d: Seq<u32>,
)
    requires
        use_rep ==> as_recent(a, d),
        model.small(input),
        input.len() <= u32::MAX,
        zxbest::best_ok(input, best),
        0 <= p,
    ensures
        table_price(model, input, best, use_rep, p, a) <= table_price(
            model,
            input,
            best,
            use_rep,
            p,
            d,
        ),
    decreases
        if p < best.len() {
            best.len() - p
        } else {
            0
        },
{
    if p < best.len() {
        if best[p].0 == 0 {
            lemma_price_falls(model, input, best, use_rep, p + 1, a, d);
        } else {
            let (len, off) = best[p];
            assert(lz::is_match(input, p, off as int, len as int));
            let a2 = match_next(a, off, use_rep).1;
            let d2 = match_next(d, off, use_rep).1;
            lemma_cost_bounds(model, input, off as int, len as int);
            if use_rep {
                match zx::reps_find(d, off, 4) {
                    Some(i) => {
                        lemma_moved(a, d, i as int);
                    },
                    None => {
                        lemma_inserted(a, d, off, use_rep);
                    },
                }
            }
            lemma_price_falls(model, input, best, use_rep, p + len, a2, d2);
        }
    }
}

proof fn lemma_as_recent_self(a: Seq<u32>)
    requires
        a.len() == 4,
    ensures
        as_recent(a, a),
{
}

/// How a live arrival `c` at `pos` comes from the one before it: the rest of the
/// parse costs no more than the two differ by.
proof fn lemma_came_by(
    input: Seq<u8>,
    ms: &MatchSet,
    model: &CostModel,
    use_rep: bool,
    arr: Seq<Arrival>,
    pos: int,
    slot: int,
    best: Seq<(u32, u32)>,
)
    requires
        table_filled(input, ms, model, use_rep, arr, input.len() as int),
        input.len() <= u32::MAX,
        model.small(input),
        zxbest::best_ok(input, best),
        rows_ok(input, arr, input.len() as int),
        1 <= pos <= input.len(),
        0 <= slot < 16,
        arr[pos * 16 + slot].cost < INF,
        ({
            let c = arr[pos * 16 + slot];
            best[c.from_pos as int] == if c.match_len == 0 {
                (0u32, 0u32)
            } else {
                (c.match_len, c.match_off)
            }
        }),
    ensures
        ({
            let c = arr[pos * 16 + slot];
            let f = arr[c.from_pos * 16 + c.from_slot];
            f.cost + table_price(model, input, best, use_rep, c.from_pos as int, f.reps@) <= c.cost
                + table_price(model, input, best, use_rep, pos, c.reps@)
        }),
{
    let c = arr[pos * 16 + slot];
    assert(row_of(arr, pos)[slot] == c);
    assert(place_ok(input, arr, input.len() as int, pos, slot));
    assert(row_offered(input, ms, model, use_rep, arr, input.len() as int, pos, c));
    let i = choose|i: int|
        0 <= i < input.len() && #[trigger] row_offers(
            input,
            ms,
            model,
            use_rep,
            row_of(arr, i),
            i,
        ).contains((pos, c));
    let row = row_of(arr, i);
    let list = ms.list(i);
    let p = (pos, c);
    reveal(row_offers);
    if literal_offers(row, i, model.lit@[input[i] as int] as int, 16).contains(p) {
        let s = choose|s: int|
            0 <= s < 16 && row[s].cost < INF && comes_by(
                #[trigger] literal_step(row, i, s, model.lit@[input[i] as int] as int),
                p.1,
            );
        assert(row[s] == arr[i * 16 + s]);
    } else if front_offers(row, i, list, model, use_rep, list.len() as int, 0).contains(p) {
        let k = choose|k: int|
            0 <= k <= list.len() && (k == list.len() ==> p.0 - i < 0) && #[trigger] front_len(
                list,
                k,
                p.0 - i,
            ) && match_offers(row, i, list[k].offset, p.0 - i, model, use_rep, 16).contains(p);
        let off = list[k].offset;
        let l = pos - i;
        let s = choose|s: int|
            0 <= s < 16 && row[s].cost < INF && comes_by(
                #[trigger] match_step(row, i, s, off, l, model, use_rep),
                p.1,
            );
        let f = row[s];
        assert(f == arr[i * 16 + s]);
        assert(c.match_len == l);
        assert(c.match_off == off);
        assert(c.match_len != 0);
        let d2 = match_next(f.reps@, off, use_rep).1;
        assert(c.reps@ == d2);
        assert(c.cost == f.cost + match_price(model, f.reps@, off, l, use_rep));
        assert(table_price(model, input, best, use_rep, i, f.reps@) == match_price(
            model,
            f.reps@,
            off,
            l,
            use_rep,
        ) + table_price(model, input, best, use_rep, pos, d2));
    } else {
        let cap = zxdp::probe_cap_of(input.len() as int, i, REP_MAX_LEN as int);
        let (s, r) = choose|s: int, r: int|
            #![trigger rep_step(row, i, s, r, p.0 - i, model)]
            0 <= r < 4 && row[s].cost < INF && rep_len_ok(input, row, i, cap, s, r, p.0 - i) && (0
                <= s < 16 || (s == 16 && (r < 0 || (r == 0 && p.0 - i < 0)))) && comes_by(
                rep_step(row, i, s, r, p.0 - i, model),
                p.1,
            );
        let f = row[s];
        let l = pos - i;
        assert(f == arr[i * 16 + s]);
        let off = f.reps@[r];
        assert(c.match_len == l && c.match_off == off);
        lemma_as_recent_self(f.reps@);
        lemma_moved(f.reps@, f.reps@, r);
        let a2 = match_next(f.reps@, off, true).1;
        assert(c.reps@ == moved(f.reps@, r));
        lemma_price_falls(model, input, best, use_rep, pos, a2, c.reps@);
    }
}

proof fn lemma_price_frame(
    model: &CostModel,
    input: Seq<u8>,
    a: Seq<(u32, u32)>,
    b: Seq<(u32, u32)>,
    use_rep: bool,
    p: int,
    reps: Seq<u32>,
)
    requires
        a.len() == b.len(),
        0 <= p,
        forall|q: int| p <= q < a.len() ==> a[q] == b[q],
    ensures
        table_price(model, input, a, use_rep, p, reps) == table_price(
            model,
            input,
            b,
            use_rep,
            p,
            reps,
        ),
    decreases
        if p < a.len() {
            a.len() - p
        } else {
            0
        },
{
    if p < a.len() {
        if a[p].0 == 0 {
            lemma_price_frame(model, input, a, b, use_rep, p + 1, reps);
        } else {
            lemma_price_frame(
                model,
                input,
                a,
                b,
                use_rep,
                p + a[p].0,
                match_next(reps, a[p].1, use_rep).1,
            );
        }
    }
}

/// What the commands cost from the start on.
pub open spec fn total_price(model: &CostModel, input: Seq<u8>, cmds: Seq<Command>, use_rep: bool) -> int {
    cmds_price(model, input, cmds, use_rep, 0, seq![1u32, 1, 1, 1])
}

/// The commands cost no more than the cheapest arrival at the end of a table that
/// the dynamic program has filled, and no more than literals alone, as far as
/// costs can be counted.
pub open spec fn parse_found(
    input: Seq<u8>,
    ms: &MatchSet,
    model: &CostModel,
    use_rep: bool,
    cmds: Seq<Command>,
) -> bool {
    &&& exists|arr: Seq<Arrival>| #[trigger]
        table_filled(input, ms, model, use_rep, arr, input.len() as int) && (row_of(
            arr,
            input.len() as int,
        )[0].cost < INF ==> total_price(model, input, cmds, use_rep) <= row_of(
            arr,
            input.len() as int,
        )[0].cost)
    &&& lits_upto(model, input, input.len() as int) < INF ==> total_price(
        model,
        input,
        cmds,
        use_rep,
    ) <= lits_upto(model, input, input.len() as int)
}

/// The step of the dynamic program out of `i`.
#[verifier::rlimit(40)]
fn parse_step(
    input: &[u8],
    arr: &mut Vec<Arrival>,
    i: usize,
    ms: &MatchSet,
    model: &CostModel,
    use_rep: bool,
)
    requires
        parse_fits(input@.len() as int),
        ms.of(input@),
        model.small(input@),
        i < input@.len(),
        rows_ok(input@, old(arr)@, i as int),
        rows_in_order(old(arr)@, input@.len() as int),
        table_filled(input@, ms, model, use_rep, old(arr)@, i as int),
    ensures
        rows_ok(input@, final(arr)@, i + 1),
        rows_in_order(final(arr)@, input@.len() as int),
        table_filled(input@, ms, model, use_rep, final(arr)@, i + 1),
{
    let ghost d = input@;
    let ghost k = i as int;
    let ghost row = row_of(arr@, k);
    let ghost all = row_offers(d, ms, model, use_rep, row, k);
    let ghost mut got = Set::<(int, Arrival)>::empty();
    let ghost a0 = arr@;
    proof {
        assert forall|pos: int, slot: int| 1 <= pos <= input@.len() && 0 <= slot < 16 implies
            #[trigger] place_ok(input@, arr@, i + 1, pos, slot) by {
            assert(place_ok(input@, arr@, i as int, pos, slot));
        }
        lemma_fill_begin(d, ms, model, use_rep, arr@, k);
    }
    assert(model.lit@[input@[i as int] as int] <= INF) by {
        reveal(CostModel::small);
    }
    relax_literal(arr, i, model.lit[input[i] as usize], Ghost(input@));
    let ghost s1 = literal_offers(row, k, model.lit@[d[k] as int] as int, 16);
    proof {
        assert forall|p: (int, Arrival)| #[trigger] s1.contains(p) implies all.contains(p) by {
            reveal(row_offers);
        }
        lemma_half_filled(d, ms, model, use_rep, a0, arr@, k, got, s1);
        got = got.union(s1);
    }
    let ghost a1 = arr@;
    relax_front(arr, i, ms, model, use_rep, Ghost(input@));
    let ghost list = ms.list(k);
    let ghost s2 = front_offers(row, k, list, model, use_rep, list.len() as int, 0);
    proof {
        assert forall|p: (int, Arrival)| #[trigger] s2.contains(p) implies all.contains(p) by {
            reveal(row_offers);
        }
        lemma_half_filled(d, ms, model, use_rep, a1, arr@, k, got, s2);
        got = got.union(s2);
    }
    let ghost mut s3 = Set::<(int, Arrival)>::empty();
    if use_rep {
        let ghost a2 = arr@;
        relax_reps(input, arr, i, model);
        proof {
            s3 = rep_offers(
                d,
                row,
                k,
                zxdp::probe_cap_of(d.len() as int, k, REP_MAX_LEN as int),
                model,
                16,
                0,
                0,
            );
            assert forall|p: (int, Arrival)| #[trigger] s3.contains(p) implies all.contains(p) by {
                reveal(row_offers);
            }
            lemma_half_filled(d, ms, model, use_rep, a2, arr@, k, got, s3);
            got = got.union(s3);
        }
    }
    proof {
        assert forall|p: (int, Arrival)| #[trigger] all.contains(p) implies got.contains(p) by {
            reveal(row_offers);
        }
        lemma_fill_done(d, ms, model, use_rep, arr@, k, got);
    }
}

/// Optimal parse under `model`. With `use_rep`, a match whose offset is among
/// the last four costs no offset. The commands stand for the input, and cost no
/// more than the cheapest arrival that the dynamic program keeps at the end.
pub fn parse(input: &[u8], ms: &MatchSet, model: &CostModel, use_rep: bool) -> (cmds: Vec<Command>)
    requires
        parse_fits(input@.len() as int),
        ms.of(input@),
        model.small(input@),
    ensures
        cmds_tile(input@, cmds@),
        parse_found(input@, ms, model, use_rep, cmds@),
{
    let n: usize = input.len();
    let total: usize = (n + 1) * 16;
    let mut arr: Vec<Arrival> = Vec::with_capacity(total);
    arr.push(
        Arrival {
            cost: 0,
            reps: [1, 1, 1, 1],
            from_pos: 0,
            from_slot: 0,
            match_len: 0,
            match_off: 0,
        },
    );
    assert(arr@[0].reps@ =~= seq![1u32, 1, 1, 1]);
    while arr.len() < total
        invariant
            1 <= arr@.len() <= total,
            arr@[0].cost == 0,
            arr@[0].reps@ == seq![1u32, 1, 1, 1],
            forall|x: int| 1 <= x < arr@.len() ==> (#[trigger] arr@[x]).cost == INF,
        decreases total - arr@.len(),
    {
        arr.push(
            Arrival {
                cost: INF,
                reps: [1, 1, 1, 1],
                from_pos: 0,
                from_slot: 0,
                match_len: 0,
                match_off: 0,
            },
        );
    }
    proof {
        assert forall|pos: int, slot: int| 1 <= pos <= input@.len() && 0 <= slot < 16 implies
            #[trigger] place_ok(input@, arr@, 0, pos, slot) by {
            assert(arr@[pos * 16 + slot].cost == INF);
        }
        assert forall|pos: int| 0 <= pos <= n implies row_in_order(#[trigger] row_of(arr@, pos)) by {
            assert forall|k: int| 0 <= k < 16 implies #[trigger] row_of(arr@, pos)[k] == arr@[pos * 16
                + k] by {}
        }
        assert forall|pos: int, k: int|
            #![trigger row_of(arr@, pos)[k]]
            1 <= pos <= n && 0 <= k < 16 && row_of(arr@, pos)[k].cost < INF implies row_offered(
            input@,
            ms,
            model,
            use_rep,
            arr@,
            0,
            pos,
            row_of(arr@, pos)[k],
        ) by {
            assert(row_of(arr@, pos)[k] == arr@[pos * 16 + k]);
        }
        assert(row_of(arr@, 0)[0] == arr@[0]);
        assert(no_dearer_than_literals(model, input@, arr@, 0));
        assert(table_filled(input@, ms, model, use_rep, arr@, 0));
    }
    let mut i: usize = 0;
    while i < n
        invariant
            n == input@.len(),
            i <= n,
            parse_fits(n as int),
            ms.of(input@),
            model.small(input@),
            rows_ok(input@, arr@, i as int),
            rows_in_order(arr@, n as int),
            table_filled(input@, ms, model, use_rep, arr@, i as int),
        decreases n - i,
    {
        parse_step(input, &mut arr, i, ms, model, use_rep);
        i += 1;
    }
    let mut best: Vec<(u32, u32)> = zero_table(n);
    let mut pos: usize = n;
    let mut slot: usize = 0;
    let ghost top = row_of(arr@, n as int)[0];
    assert(top == arr@[n * 16]);
    let ghost start = seq![1u32, 1, 1, 1];
    if n > 0 && arr[n * 16].cost < INF {
        while pos > 0
            invariant
                n == input@.len(),
                parse_fits(n as int),
                model.small(input@),
                rows_ok(input@, arr@, n as int),
                table_filled(input@, ms, model, use_rep, arr@, n as int),
                pos <= n,
                slot < 16,
                arr@[pos * 16 + slot].cost < INF,
                zxbest::best_ok(input@, best@),
                forall|p: int| 0 <= p < best@.len() ==> (#[trigger] best@[p]).0 != 1,
                forall|p: int| 0 <= p < pos ==> #[trigger] best@[p] == (0u32, 0u32),
                arr@[pos * 16 + slot].cost + table_price(
                    model,
                    input@,
                    best@,
                    use_rep,
                    pos as int,
                    arr@[pos * 16 + slot].reps@,
                ) <= top.cost,
            decreases pos,
        {
            assert(place_ok(input@, arr@, n as int, pos as int, slot as int));
            let a: Arrival = arr[pos * 16 + slot];
            let ghost before = best@;
            if a.match_len != 0 {
                best.set(a.from_pos as usize, (a.match_len, a.match_off));
            }
            proof {
                lemma_price_frame(model, input@, before, best@, use_rep, pos as int, a.reps@);
                lemma_came_by(
                    input@,
                    ms,
                    model,
                    use_rep,
                    arr@,
                    pos as int,
                    slot as int,
                    best@,
                );
            }
            pos = a.from_pos as usize;
            slot = a.from_slot as usize;
        }
        proof {
            assert(slot == 0) by {
                if slot > 0 {
                    assert(arr@[slot as int].cost == INF);
                }
            }
        }
    } else {
        proof {
            lemma_table_literals(model, input@, best@, use_rep, 0, n as int, start);
            lemma_lits_upto(model, input@, 0, n as int);
            assert(no_dearer_than_literals(model, input@, arr@, n as int));
        }
    }
    let cmds: Vec<Command> = group_commands(input, &best);
    proof {
        lemma_cmds_price(model, input@, best@, cmds@, use_rep, 0, start);
        assert(no_dearer_than_literals(model, input@, arr@, n as int));
        assert(table_filled(input@, ms, model, use_rep, arr@, n as int));
    }
    cmds
}

proof fn lemma_lits_upto(model: &CostModel, input: Seq<u8>, a: int, b: int)
    requires
        0 <= a <= b,
    ensures
        lits_upto(model, input, a) + literals_price(model, input, a, b) == lits_upto(
            model,
            input,
            b,
        ),
    decreases b - a,
{
    if a < b {
        lemma_lits_upto(model, input, a + 1, b);
    }
}

// ---------------------------------------------------------------------------
// ZX parse
// ---------------------------------------------------------------------------
/// Knobs of the ZX parsers.
#[derive(Clone, Copy, Debug)]
pub struct ZxTuning {
    /// Apply the reduction rules to parses with one recent offset.
    pub reduce: bool,
    /// Further candidates kept at a position.
    pub max_extra_per_pos: usize,
    /// How far the length of a further candidate is scanned.
    pub seed_probe: usize,
    /// Run the seeding pass.
    pub forward_seed: bool,
    /// Seed from the finished parse in its place.
    pub old_seed: bool,
    /// Candidates of the seeding pass kept at a position.
    pub forward_cap: usize,
    /// Rounds of seeding and parsing again.
    pub seed_rounds: usize,
    /// Offsets that are fed back.
    pub max_seed_offsets: usize,
    /// How often an offset must be used to be fed back.
    pub min_seed_count: u32,
    /// Offsets off the front that the seeding pass gathers at a position.
    pub supplement: usize,
}

impl Default for ZxTuning {
    fn default() -> (t: ZxTuning)
        ensures
            t == (ZxTuning {
                reduce: true,
                max_extra_per_pos: 16,
                seed_probe: 128,
                forward_seed: true,
                old_seed: false,
                forward_cap: 16,
                seed_rounds: 2,
                max_seed_offsets: 768,
                min_seed_count: 2,
                supplement: 64,
            }),
    {
        ZxTuning {
            reduce: true,
            max_extra_per_pos: 16,
            seed_probe: 128,
            forward_seed: true,
            old_seed: false,
            forward_cap: 16,
            seed_rounds: 2,
            max_seed_offsets: 768,
            min_seed_count: 2,
            supplement: 64,
        }
    }
}

/// The limits of the dynamic program: the longest probe of a recent offset, how
/// many lengths of a match are tried, and how far near offsets are tried.
fn search_limits(ms: &MatchSet, n: usize) -> (r: (usize, u32, u32))
    requires
        n <= ms.positions(),
        n <= 0x3fff_ffff,
    ensures
        forall|slots: int, near: bool, am: bool|
            {
                let se = #[trigger] zxsearch::search_of(ms, n as int, slots, near, am);
                r.0 == se.probe && r.1 == se.span && r.2 == se.delta
            },
        r.2 <= 96,
{
    if n > 65536 || zx_is_repetitive(ms, n) {
        (64, 32, 16)
    } else {
        (ZX_REP_PROBE_MAX, ZX_RELAX_SPAN, NEAR_REP_DELTA_MAX)
    }
}

/// What the row of position `i` leads to.
#[verifier::rlimit(60)]
fn dp_step(
    input: &[u8],
    arr: &mut Vec<ZxArr>,
    lim: &mut Limits,
    i: usize,
    ms: &MatchSet,
    extra: Option<&Vec<Vec<(u32, u32)>>>,
    rep_slots: usize,
    near_rep: bool,
    am_near_rep: bool,
    limits: (usize, u32, u32),
    Ghost(table): Ghost<Option<Seq<Vec<(u32, u32)>>>>,
)
    requires
        zxdp::dp_fits(input@.len() as int),
        ms.of(input@),
        extra matches Some(t) ==> matchfinder::table_ok(input@, t@),
        extra is Some == table is Some,
        extra matches Some(t) ==> table == Some(t@),
        1 <= rep_slots <= 4,
        i < input@.len(),
        limits.2 <= 96,
        zxdp::dp_ok(input@, old(arr)@, i as int),
        zxdp::in_step(old(arr)@, old(lim), 64, input@.len() as int),
        ({
            let se = zxsearch::search_of(
                ms,
                input@.len() as int,
                rep_slots as int,
                near_rep,
                am_near_rep,
            );
            &&& limits.0 == se.probe && limits.1 == se.span && limits.2 == se.delta
            &&& zxsearch::searched(input@, ms, table, se, old(arr)@, i as int)
        }),
    ensures
        zxdp::dp_ok(input@, final(arr)@, i + 1),
        zxdp::in_step(final(arr)@, final(lim), 64, input@.len() as int),
        zxsearch::searched(
            input@,
            ms,
            table,
            zxsearch::search_of(
                ms,
                input@.len() as int,
                rep_slots as int,
                near_rep,
                am_near_rep,
            ),
            final(arr)@,
            i + 1,
        ),
{
    let (rep_probe_max, relax_span, near_delta_max) = limits;
    let ghost d = input@;
    let ghost n = d.len() as int;
    let ghost k = i as int;
    let ghost se = zxsearch::search_of(ms, n, rep_slots as int, near_rep, am_near_rep);
    let ghost row = zxdp::row_of(arr@, k);
    let ghost all = zxsearch::step_offers(d, ms, table, se, row, k);
    let ghost list = ms.list(k);
    let ghost cap = zxdp::probe_cap_of(n, k, se.probe);
    let ghost mut got = Set::<(int, ZxArr)>::empty();
    proof {
        zxdp::lemma_dp_later(d, arr@, k, k + 1);
        zxsearch::lemma_begin(d, ms, table, se, arr@, k);
    }
    let ghost a0 = arr@;
    dp_literal(arr, lim, i, ZX_ARRIVALS, Ghost(input@));
    let ghost s1 = zxdp::literal_offers(row, k, 64);
    proof {
        assert forall|p: (int, ZxArr)| #[trigger] s1.contains(p) implies all.contains(p) by {
            reveal(zxsearch::step_offers);
        }
        zxsearch::lemma_half(d, ms, table, se, a0, arr@, k, got, s1);
        got = got.union(s1);
        zxsearch::lemma_same_row(a0, arr@, k + 1, k);
    }
    let ghost a1 = arr@;
    let fresh: Vec<bool> = fresh_for_offset(arr, i, ZX_ARRIVALS, rep_slots, am_near_rep);
    proof {
        zxsearch::lemma_offset_marks(arr@, k, 64, rep_slots as int, am_near_rep, fresh@);
    }
    dp_front(
        arr,
        lim,
        ms,
        i,
        ZX_ARRIVALS,
        rep_slots,
        am_near_rep,
        &fresh,
        relax_span,
        Ghost(input@),
    );
    let ghost s2 = zxdp::front_offers(
        row,
        k,
        list,
        64,
        se.slots,
        se.am,
        fresh@,
        se.span,
        list.len() as int,
    );
    proof {
        assert forall|p: (int, ZxArr)| #[trigger] s2.contains(p) implies all.contains(p) by {
            reveal(zxsearch::step_offers);
        }
        zxsearch::lemma_half(d, ms, table, se, a1, arr@, k, got, s2);
        got = got.union(s2);
        zxsearch::lemma_same_row(a1, arr@, k + 1, k);
    }
    let ghost mut s3 = Set::<(int, ZxArr)>::empty();
    match extra {
        Some(t) => {
            let ghost a2 = arr@;
            assert(matchfinder::pairs_ok(input@, i as int, t@[i as int]@));
            dp_extra(
                arr,
                lim,
                &t[i],
                i,
                ZX_ARRIVALS,
                rep_slots,
                am_near_rep,
                &fresh,
                relax_span,
                Ghost(input@),
            );
            proof {
                s3 = zxdp::extra_offers(
                    row,
                    k,
                    t@[k]@,
                    64,
                    se.slots,
                    se.am,
                    fresh@,
                    se.span,
                    t@[k]@.len() as int,
                );
                assert forall|p: (int, ZxArr)| #[trigger] s3.contains(p) implies all.contains(p) by {
                    reveal(zxsearch::step_offers);
                }
                zxsearch::lemma_half(d, ms, table, se, a2, arr@, k, got, s3);
                got = got.union(s3);
                zxsearch::lemma_same_row(a2, arr@, k + 1, k);
            }
        },
        None => {},
    }
    let ghost a3 = arr@;
    let after_lit: Vec<bool> = fresh_for_rep(arr, i, false);
    proof {
        zxsearch::lemma_state_marks(arr@, k, false, after_lit@, 64);
        assert(after_lit@.take(64) =~= after_lit@);
    }
    dp_rep(
        input,
        arr,
        lim,
        i,
        ZX_ARRIVALS,
        rep_slots,
        near_rep,
        rep_probe_max,
        &after_lit,
    );
    let ghost s4 = zxdp::rep_offers(d, row, k, se.slots, se.near, cap, after_lit@, 64);
    proof {
        assert forall|p: (int, ZxArr)| #[trigger] s4.contains(p) implies all.contains(p) by {
            reveal(zxsearch::step_offers);
        }
        zxsearch::lemma_half(d, ms, table, se, a3, arr@, k, got, s4);
        got = got.union(s4);
        zxsearch::lemma_same_row(a3, arr@, k + 1, k);
    }
    let ghost mut s5 = Set::<(int, ZxArr)>::empty();
    let ghost mut s6 = Set::<(int, ZxArr)>::empty();
    if near_rep {
        let g = dp_near_step(
            input,
            arr,
            lim,
            i,
            ms,
            false,
            &after_lit,
            limits,
            Ghost(table),
            Ghost(se),
            Ghost(got),
        );
        proof {
            s5 = zxdp::near_front_offers(row, k, list, false, after_lit@, se.span, 64);
            s6 = zxdp::near_probe_offers(
                d,
                row,
                k,
                false,
                cap,
                se.span,
                se.delta,
                after_lit@,
                NEAR_PROBE_ARRIVALS as int,
                0,
            );
            got = g@;
        }
    }
    let ghost mut s7 = Set::<(int, ZxArr)>::empty();
    let ghost mut s8 = Set::<(int, ZxArr)>::empty();
    let ghost mat = zxsearch::state_marks(row, true, 64);
    if am_near_rep {
        let after_match: Vec<bool> = fresh_for_rep(arr, i, true);
        proof {
            zxsearch::lemma_state_marks(arr@, k, true, after_match@, 64);
            assert(after_match@.take(64) =~= after_match@);
        }
        let g = dp_near_step(
            input,
            arr,
            lim,
            i,
            ms,
            true,
            &after_match,
            limits,
            Ghost(table),
            Ghost(se),
            Ghost(got),
        );
        proof {
            s7 = zxdp::near_front_offers(row, k, list, true, after_match@, se.span, 64);
            s8 = zxdp::near_probe_offers(
                d,
                row,
                k,
                true,
                cap,
                se.span,
                se.delta,
                after_match@,
                NEAR_PROBE_ARRIVALS as int,
                0,
            );
            got = g@;
        }
    }
    proof {
        assert(zxdp::row_of(arr@, k) == row);
        assert forall|p: (int, ZxArr)| #[trigger] all.contains(p) implies got.contains(p) by {
            reveal(zxsearch::step_offers);
        }
        zxsearch::lemma_step_done(d, ms, table, se, arr@, k, got);
    }
}

/// The near offsets of a step, in the state after a match (`am`) or after a
/// literal run. Returns the offers that have been made.
#[verifier::rlimit(40)]
fn dp_near_step(
    input: &[u8],
    arr: &mut Vec<ZxArr>,
    lim: &mut Limits,
    i: usize,
    ms: &MatchSet,
    am: bool,
    marks: &Vec<bool>,
    limits: (usize, u32, u32),
    Ghost(table): Ghost<Option<Seq<Vec<(u32, u32)>>>>,
    Ghost(se): Ghost<zxsearch::Search>,
    Ghost(got): Ghost<Set<(int, ZxArr)>>,
) -> (g: Ghost<Set<(int, ZxArr)>>)
    requires
        zxdp::dp_fits(input@.len() as int),
        ms.of(input@),
        i < input@.len(),
        limits.2 <= 96,
        marks@ == zxsearch::state_marks(zxdp::row_of(old(arr)@, i as int), am, 64),
        marks@.len() == 64,
        zxdp::dp_ok(input@, old(arr)@, i + 1),
        zxdp::in_step(old(arr)@, old(lim), 64, input@.len() as int),
        limits.0 == se.probe && limits.1 == se.span && limits.2 == se.delta,
        se.width == 64,
        if am {
            se.am
        } else {
            se.near
        },
        zxsearch::half_searched(input@, ms, table, se, old(arr)@, i as int, got),
    ensures
        zxdp::dp_ok(input@, final(arr)@, i + 1),
        zxdp::in_step(final(arr)@, final(lim), 64, input@.len() as int),
        zxdp::row_of(final(arr)@, i as int) == zxdp::row_of(old(arr)@, i as int),
        zxsearch::half_searched(input@, ms, table, se, final(arr)@, i as int, g@),
        g@ == got.union(
            zxdp::near_front_offers(
                zxdp::row_of(old(arr)@, i as int),
                i as int,
                ms.list(i as int),
                am,
                marks@,
                se.span,
                64,
            ),
        ).union(
            zxdp::near_probe_offers(
                input@,
                zxdp::row_of(old(arr)@, i as int),
                i as int,
                am,
                zxdp::probe_cap_of(input@.len() as int, i as int, se.probe),
                se.span,
                se.delta,
                marks@,
                NEAR_PROBE_ARRIVALS as int,
                0,
            ),
        ),
{
    let (rep_probe_max, relax_span, near_delta_max) = limits;
    let ghost d = input@;
    let ghost k = i as int;
    let ghost row = zxdp::row_of(arr@, k);
    let ghost all = zxsearch::step_offers(d, ms, table, se, row, k);
    let ghost a0 = arr@;
    dp_near_front(arr, lim, ms, i, am, marks, relax_span, Ghost(input@));
    let ghost s = zxdp::near_front_offers(row, k, ms.list(k), am, marks@, se.span, 64);
    let ghost a1 = arr@;
    proof {
        assert forall|p: (int, ZxArr)| #[trigger] s.contains(p) implies all.contains(p) by {
            reveal(zxsearch::step_offers);
        }
        zxsearch::lemma_half(d, ms, table, se, a0, a1, k, got, s);
        zxsearch::lemma_same_row(a0, a1, k + 1, k);
    }
    dp_near_probe(
        input,
        arr,
        lim,
        i,
        am,
        marks,
        near_delta_max,
        rep_probe_max,
        relax_span,
    );
    let ghost t = zxdp::near_probe_offers(
        d,
        row,
        k,
        am,
        zxdp::probe_cap_of(d.len() as int, k, se.probe),
        se.span,
        se.delta,
        marks@,
        NEAR_PROBE_ARRIVALS as int,
        0,
    );
    proof {
        assert forall|p: (int, ZxArr)| #[trigger] t.contains(p) implies all.contains(p) by {
            reveal(zxsearch::step_offers);
        }
        zxsearch::lemma_half(d, ms, table, se, a1, arr@, k, got.union(s), t);
        zxsearch::lemma_same_row(a1, arr@, k + 1, k);
    }
    Ghost(got.union(s).union(t))
}

/// The further candidates as a table.
pub open spec fn extra_table(extra: Option<&Vec<Vec<(u32, u32)>>>) -> Option<Seq<Vec<(u32, u32)>>> {
    match extra {
        Some(t) => Some(t@),
        None => None,
    }
}

/// The dynamic program over the whole input. The first table holds the parse
/// that its cheapest arrival at the end stands for, the second the recent offset
/// that a near offset is coded from, or -1.
fn zx_dp(
    input: &[u8],
    ms: &MatchSet,
    extra: Option<&Vec<Vec<(u32, u32)>>>,
    rep_slots: usize,
    near_rep: bool,
    am_near_rep: bool,
) -> (res: (Vec<(u32, u32)>, Vec<i8>))
    requires
        zxdp::dp_fits(input@.len() as int),
        ms.of(input@),
        extra matches Some(t) ==> matchfinder::table_ok(input@, t@),
        1 <= rep_slots <= 4,
    ensures
        zxbest::best_ok(input@, res.0@),
        res.1@.len() == input@.len(),
        forall|p: int| 0 <= p < res.1@.len() ==> -1 <= #[trigger] res.1@[p] <= 1,
        zxsearch::dp_parse(
            input@,
            ms,
            extra_table(extra),
            zxsearch::search_of(
                ms,
                input@.len() as int,
                rep_slots as int,
                near_rep,
                am_near_rep,
            ),
            res.0@,
            res.1@,
        ),
{
    let n: usize = input.len();
    let limits: (usize, u32, u32) = search_limits(ms, n);
    let ghost se = zxsearch::search_of(ms, n as int, rep_slots as int, near_rep, am_near_rep);
    let ghost table = extra_table(extra);
    let mut arr: Vec<ZxArr> = zxdp::new_table(n);
    let mut lim: Limits = Limits::new(n);
    proof {
        zxdp::lemma_new_in_step(arr@, &lim, 64, n as int);
        zxsearch::lemma_start(input@, ms, table, se, arr@);
    }
    let mut i: usize = 0;
    while i < n
        invariant
            n == input@.len(),
            i <= n,
            zxdp::dp_fits(n as int),
            ms.of(input@),
            extra matches Some(t) ==> matchfinder::table_ok(input@, t@),
            1 <= rep_slots <= 4,
            limits.2 <= 96,
            se == zxsearch::search_of(ms, n as int, rep_slots as int, near_rep, am_near_rep),
            limits.0 == se.probe && limits.1 == se.span && limits.2 == se.delta,
            table == extra_table(extra),
            zxdp::dp_ok(input@, arr@, i as int),
            zxdp::in_step(arr@, &lim, 64, n as int),
            zxsearch::searched(input@, ms, table, se, arr@, i as int),
        decreases n - i,
    {
        dp_step(
            input,
            &mut arr,
            &mut lim,
            i,
            ms,
            extra,
            rep_slots,
            near_rep,
            am_near_rep,
            limits,
            Ghost(table),
        );
        i += 1;
    }
    let mut best: Vec<(u32, u32)> = zero_table(n);
    let mut best_ri: Vec<i8> = vec![-1i8; n];
    let ghost zeros = Seq::new(n as nat, |p: int| (0u32, 0u32));
    let ghost none = Seq::new(n as nat, |p: int| -1i8);
    let ghost goal = zxsearch::read_off(arr@, n as int, 0, zeros, none);
    assert(best@ =~= zeros);
    assert(best_ri@ =~= none);
    let mut slot: usize = 0;
    let mut pos: usize = n;
    proof {
        assert(zxdp::row_of(arr@, n as int)[0] == arr@[n * 64]);
    }
    while pos > 0
        invariant
            n == input@.len(),
            zxdp::dp_fits(n as int),
            zxdp::dp_ok(input@, arr@, n as int),
            pos <= n,
            slot < 64,
            arr@[pos * 64 + slot].cost < ZX_INF,
            zxbest::best_ok(input@, best@),
            best_ri@.len() == n,
            forall|p: int| 0 <= p < best_ri@.len() ==> -1 <= #[trigger] best_ri@[p] <= 1,
            goal == zxsearch::read_off(arr@, pos as int, slot as int, best@, best_ri@),
            zxsearch::searched(input@, ms, table, se, arr@, n as int),
            !se.near && !se.am ==> zxsearch::no_near_taken(best_ri@),
        decreases pos,
    {
        proof {
            if !se.near && !se.am {
                let row = zxdp::row_of(arr@, pos as int);
                assert(row[slot as int] == arr@[pos * 64 + slot]);
                assert(zxsearch::was_offered(
                    input@,
                    ms,
                    table,
                    se,
                    arr@,
                    n as int,
                    pos as int,
                    row[slot as int],
                ));
                let i = choose|i: int|
                    0 <= i < n && #[trigger] zxsearch::step_offers(
                        input@,
                        ms,
                        table,
                        se,
                        zxdp::row_of(arr@, i),
                        i,
                    ).contains((pos as int, row[slot as int]));
                zxsearch::lemma_no_near_step(
                    input@,
                    ms,
                    table,
                    se,
                    zxdp::row_of(arr@, i),
                    i,
                    (pos as int, row[slot as int]),
                );
            }
        }
        assert(zxdp::zx_cell_ok(input@, arr@, n as int, pos as int, slot as int));
        let a: ZxArr = arr[pos * 64 + slot];
        if a.step_kind != 0 {
            best.set(a.from_pos as usize, (pos as u32 - a.from_pos, a.reps[0]));
            if a.step_kind == 3 {
                best_ri.set(a.from_pos as usize, a.step_ri);
            }
        }
        pos = a.from_pos as usize;
        slot = a.from_slot as usize;
    }
    proof {
        assert(goal == (best@, best_ri@));
        assert(zxsearch::searched(input@, ms, table, se, arr@, n as int));
    }
    (best, best_ri)
}

/// A parse, its near offsets, and its size in bits.
struct Scored {
    best: Vec<(u32, u32)>,
    ri: Vec<i8>,
    cost: u64,
}

/// Size in bits of the commands of a table.
pub open spec fn table_bits(best: Seq<(u32, u32)>, ri: Seq<i8>, m: zx::ZxMode) -> nat {
    zx::zx_bits(zxbest::best_cmds(best, ri), m, zxbest::best_cmds(best, ri).len() as int)
}

impl Scored {
    /// The entries are matches of the input, and the size is what the commands
    /// count.
    spec fn of(&self, input: Seq<u8>, m: zx::ZxMode) -> bool {
        &&& zxbest::best_ok(input, self.best@)
        &&& self.ri@.len() == self.best@.len()
        &&& self.cost == zxbest::table_count(self.best@, self.ri@, m)
        &&& zxbest::best_codable(self.best@, self.ri@, m) ==> self.cost == table_bits(
            self.best@,
            self.ri@,
            m,
        ) && self.cost < zx::NO_CODE
        &&& input.len() > 0 && self.best@[0].0 == 0 && !zxbest::best_codable(self.best@, self.ri@, m)
            ==> self.cost >= zx::NO_CODE
    }
}

/// The first byte of an input is no match.
proof fn lemma_first_is_literal(input: Seq<u8>, best: Seq<(u32, u32)>)
    requires
        zxbest::best_ok(input, best),
        input.len() > 0,
    ensures
        best[0].0 == 0,
{
    if best[0].0 > 0 {
        assert(lz::is_match(input, 0, best[0].1 as int, best[0].0 as int));
    }
}

/// A table and its size.
fn scored(
    input: &[u8],
    best: Vec<(u32, u32)>,
    ri: Vec<i8>,
    rep_slots: usize,
    near_rep: bool,
    am_near_rep: bool,
) -> (s: Scored)
    requires
        zxbest::best_ok(input@, best@),
        ri@.len() == best@.len(),
        best@.len() <= 0x3fff_ffff,
    ensures
        s.of(input@, raw_mode(rep_slots, near_rep, am_near_rep)),
        s.best == best,
        s.ri == ri,
{
    let cost: u64 = eval_best_cost(&best, &ri, rep_slots, near_rep, am_near_rep);
    Scored { best, ri, cost }
}

/// The mode of streams with these features.
pub open spec fn raw_mode(rep_slots: usize, near_rep: bool, am_near_rep: bool) -> zx::ZxMode {
    zx::ZxMode {
        slots: rep_slots as int,
        near: near_rep,
        am: am_near_rep,
        eof: false,
        style: zx::ZxStyle::Zx,
    }
}

/// The smaller of two parses, the first where they are equally large.
fn smaller(a: Scored, b: Scored) -> (s: Scored)
    ensures
        s == if b.cost < a.cost {
            b
        } else {
            a
        },
        s.cost <= a.cost,
        s.cost <= b.cost,
{
    if b.cost < a.cost {
        b
    } else {
        a
    }
}

fn same_table(a: &Vec<(u32, u32)>, b: &Vec<(u32, u32)>) -> (r: bool)
    ensures
        r == (a@ == b@),
{
    if a.len() != b.len() {
        return false;
    }
    let mut k: usize = 0;
    while k < a.len()
        invariant
            k <= a@.len(),
            a@.len() == b@.len(),
            forall|j: int| 0 <= j < k ==> a@[j] == b@[j],
        decreases a@.len() - k,
    {
        if a[k].0 != b[k].0 || a[k].1 != b[k].1 {
            return false;
        }
        k += 1;
    }
    assert(a@ =~= b@);
    true
}

fn same_offsets(a: &Vec<u32>, b: &Vec<u32>) -> (r: bool)
    ensures
        r == (a@ == b@),
{
    if a.len() != b.len() {
        return false;
    }
    let mut k: usize = 0;
    while k < a.len()
        invariant
            k <= a@.len(),
            a@.len() == b@.len(),
            forall|j: int| 0 <= j < k ==> a@[j] == b@[j],
        decreases a@.len() - k,
    {
        if a[k] != b[k] {
            return false;
        }
        k += 1;
    }
    assert(a@ =~= b@);
    true
}

/// No near offsets.
pub open spec fn no_near(n: int) -> Seq<i8> {
    Seq::new(n as nat, |p: int| -1i8)
}

/// A parse, or with `do_reduce` its reduction where that counts no more.
pub open spec fn finished(
    input: Seq<u8>,
    m: zx::ZxMode,
    do_reduce: bool,
    raw: (Seq<(u32, u32)>, Seq<i8>),
    r: (Seq<(u32, u32)>, Seq<i8>),
) -> bool {
    if do_reduce {
        exists|red: Seq<(u32, u32)>| #[trigger]
            zxbest::reduces_to(input, raw.0, red) && r == if zxbest::table_count(
                raw.0,
                raw.1,
                m,
            ) < zxbest::table_count(red, no_near(red.len() as int), m) {
                raw
            } else {
                (red, no_near(red.len() as int))
            }
    } else {
        r == raw
    }
}

/// Scores a parse, and with `do_reduce` its reduction, and keeps the smaller.
fn finish_parse(
    input: &[u8],
    best: &Vec<(u32, u32)>,
    ri: Vec<i8>,
    rep_slots: usize,
    near_rep: bool,
    am_near_rep: bool,
    do_reduce: bool,
) -> (s: Scored)
    requires
        zxbest::best_ok(input@, best@),
        ri@.len() == best@.len(),
        best@.len() <= 0x3fff_ffff,
    ensures
        ({
            let m = raw_mode(rep_slots, near_rep, am_near_rep);
            &&& s.of(input@, m)
            &&& zxbest::best_codable(best@, ri@, m) ==> s.cost <= table_bits(best@, ri@, m) && s.cost
                < zx::NO_CODE
            &&& finished(input@, m, do_reduce, (best@, ri@), (s.best@, s.ri@))
            &&& !do_reduce ==> s.best@ == best@ && s.ri@ == ri@
        }),
{
    let raw: Scored = scored(input, copy_pairs(best), ri, rep_slots, near_rep, am_near_rep);
    if !do_reduce {
        return raw;
    }
    let mut r: Vec<(u32, u32)> = copy_pairs(best);
    reduce_commands_zx(input, &mut r);
    let r_ri: Vec<i8> = vec![-1i8; r.len()];
    let ghost red = r@;
    assert(r_ri@ =~= no_near(red.len() as int));
    assert(zxbest::reduces_to(input@, best@, red));
    let reduced: Scored = scored(input, r, r_ri, rep_slots, near_rep, am_near_rep);
    assert(raw.best@ == best@);
    assert(reduced.best@ == red && reduced.ri@ == no_near(red.len() as int));
    let s: Scored = smaller(reduced, raw);
    proof {
        let m = raw_mode(rep_slots, near_rep, am_near_rep);
        let was = (best@, ri@);
        let now = (s.best@, s.ri@);
        assert(zxbest::reduces_to(input@, was.0, red));
        assert(now == if zxbest::table_count(was.0, was.1, m) < zxbest::table_count(
            red,
            no_near(red.len() as int),
            m,
        ) {
            was
        } else {
            (red, no_near(red.len() as int))
        });
        assert(finished(input@, m, true, was, now));
    }
    s
}

/// Literals among the bytes from `p` on.
pub open spec fn literal_bytes(best: Seq<(u32, u32)>, p: int) -> nat
    decreases
        if p < best.len() {
            best.len() - p
        } else {
            0
        },
{
    if p < 0 || p >= best.len() {
        0
    } else if best[p].0 == 0 {
        1 + literal_bytes(best, p + 1)
    } else {
        literal_bytes(best, p + best[p].0)
    }
}

/// Literals of less than three in a hundred bytes.
fn too_repetitive(input: &[u8], best: &Vec<(u32, u32)>) -> (r: bool)
    requires
        zxbest::best_ok(input@, best@),
        best@.len() <= 0x3fff_ffff,
    ensures
        r == (literal_bytes(best@, 0) * 100 < best@.len() * 3),
{
    let n: usize = best.len();
    let mut p: usize = 0;
    let mut lits: u64 = 0;
    while p < n
        invariant
            n == best@.len(),
            n <= 0x3fff_ffff,
            zxbest::best_ok(input@, best@),
            p <= n,
            lits <= p,
            lits + literal_bytes(best@, p as int) == literal_bytes(best@, 0),
        decreases n - p,
    {
        let (len, off) = best[p];
        if len == 0 {
            lits += 1;
            p += 1;
        } else {
            assert(lz::is_match(input@, p as int, off as int, len as int));
            p += len as usize;
        }
    }
    lits * 100 < (n as u64) * 3
}

/// The seeding pass is run.
pub open spec fn seeds_first(n: int, fast: bool, tuning: &ZxTuning) -> bool {
    !fast && !tuning.old_seed && tuning.forward_seed && 512 <= n <= 65536
}

/// The parse of the first round: the dynamic program over the match set, and over
/// the candidates of the seeding pass where it is run.
pub open spec fn first_round(
    input: Seq<u8>,
    ms: &MatchSet,
    m: zx::ZxMode,
    fast: bool,
    tuning: &ZxTuning,
    seeds: Seq<Vec<(u32, u32)>>,
    best: Seq<(u32, u32)>,
    ri: Seq<i8>,
) -> bool {
    let n = input.len() as int;
    let seeded = seeds_first(n, fast, tuning);
    &&& seeded ==> zxseed::seeds_of(
        input,
        ms,
        m.slots,
        tuning.forward_cap as int,
        tuning.seed_probe as int,
        tuning.supplement as int,
        seeds,
    )
    &&& zxsearch::dp_parse(
        input,
        ms,
        if seeded {
            Some(seeds)
        } else {
            None
        },
        zxsearch::search_of(ms, n, m.slots, m.near, m.am),
        best,
        ri,
    )
}

/// The bits are no more than those of a parse that can be written.
pub open spec fn no_larger(bits: int, best: Seq<(u32, u32)>, ri: Seq<i8>, m: zx::ZxMode) -> bool {
    zxbest::best_codable(best, ri, m) ==> bits <= table_bits(best, ri, m)
}

/// Size in bits of commands.
pub open spec fn bits_of(cmds: Seq<ZxCommand>, m: zx::ZxMode) -> int {
    zx::zx_bits(cmds, m, cmds.len() as int) as int
}

/// The candidates of a further round at position `p`: the offsets that the parse
/// before uses often and that match here, and those of the seeding pass, or with
/// `old_seed` those that its parse takes up later.
pub open spec fn round_row(
    input: Seq<u8>,
    m: zx::ZxMode,
    tuning: &ZxTuning,
    seeds: Seq<Vec<(u32, u32)>>,
    prev: Seq<(u32, u32)>,
    p: int,
) -> Seq<(u32, u32)> {
    let used = zxseed::used_offsets(
        prev,
        tuning.min_seed_count as int,
        tuning.max_seed_offsets as int,
    );
    let cap = tuning.max_extra_per_pos as int;
    let own = zxseed::at_most(
        zxseed::matching(input, used, p, tuning.seed_probe as int, used.len() as int),
        cap,
    );
    let more = if tuning.old_seed {
        zxseed::forward_reps(input, prev, m.slots, 9, tuning.seed_probe as int)[p]
    } else if seeds_first(input.len() as int, false, tuning) {
        seeds[p]@
    } else {
        Seq::empty()
    };
    if more.len() > 0 {
        zxseed::at_most(zxseed::joined_all(own, more, more.len() as int), cap)
    } else {
        own
    }
}

/// One further round: the dynamic program over its candidates, and the parse that
/// comes of it.
pub open spec fn one_round(
    input: Seq<u8>,
    ms: &MatchSet,
    m: zx::ZxMode,
    tuning: &ZxTuning,
    seeds: Seq<Vec<(u32, u32)>>,
    prev: Seq<(u32, u32)>,
    extra: Seq<Vec<(u32, u32)>>,
    raw: (Seq<(u32, u32)>, Seq<i8>),
    fin: (Seq<(u32, u32)>, Seq<i8>),
) -> bool {
    &&& extra.len() == input.len()
    &&& forall|p: int|
        0 <= p < input.len() ==> (#[trigger] extra[p])@ == round_row(input, m, tuning, seeds, prev, p)
    &&& zxsearch::dp_parse(
        input,
        ms,
        Some(extra),
        zxsearch::search_of(ms, input.len() as int, m.slots, m.near, m.am),
        raw.0,
        raw.1,
    )
    &&& raw.0 != prev ==> finished(input, m, m.slots == 1 && tuning.reduce, raw, fin)
}

/// The one of two parses that counts less, the first where they count the same.
pub open spec fn less_of(
    a: (Seq<(u32, u32)>, Seq<i8>),
    b: (Seq<(u32, u32)>, Seq<i8>),
    m: zx::ZxMode,
) -> (Seq<(u32, u32)>, Seq<i8>) {
    if zxbest::table_count(b.0, b.1, m) < zxbest::table_count(a.0, a.1, m) {
        b
    } else {
        a
    }
}

/// At most `left` further rounds, until the offsets that are fed back or the parse
/// stay as they are, lead from the best parse `top` to `res`.
pub open spec fn rounds_to(
    input: Seq<u8>,
    ms: &MatchSet,
    m: zx::ZxMode,
    tuning: &ZxTuning,
    seeds: Seq<Vec<(u32, u32)>>,
    left: int,
    top: (Seq<(u32, u32)>, Seq<i8>),
    prev: Seq<(u32, u32)>,
    used_before: Seq<u32>,
    res: (Seq<(u32, u32)>, Seq<i8>),
) -> bool
    decreases left,
{
    let used = zxseed::used_offsets(
        prev,
        tuning.min_seed_count as int,
        tuning.max_seed_offsets as int,
    );
    if left <= 0 || used.len() == 0 || used == used_before {
        res == top
    } else {
        exists|
            extra: Seq<Vec<(u32, u32)>>,
            raw: (Seq<(u32, u32)>, Seq<i8>),
            fin: (Seq<(u32, u32)>, Seq<i8>),
        |
            #[trigger] one_round(input, ms, m, tuning, seeds, prev, extra, raw, fin) && if raw.0
                == prev {
                res == top
            } else {
                rounds_to(
                    input,
                    ms,
                    m,
                    tuning,
                    seeds,
                    left - 1,
                    less_of(top, fin, m),
                    raw.0,
                    used,
                    res,
                )
            }
    }
}

/// Further rounds are run.
pub open spec fn runs_rounds(n: int, fast: bool, first: Seq<(u32, u32)>) -> bool {
    !fast && 512 <= n <= 65536 && !(literal_bytes(first, 0) * 100 < first.len() * 3)
}

/// `res` is the smallest parse of all rounds.
pub open spec fn rounds_parse(
    input: Seq<u8>,
    ms: &MatchSet,
    m: zx::ZxMode,
    fast: bool,
    tuning: &ZxTuning,
    seeds: Seq<Vec<(u32, u32)>>,
    first: (Seq<(u32, u32)>, Seq<i8>),
    fin: (Seq<(u32, u32)>, Seq<i8>),
    res: (Seq<(u32, u32)>, Seq<i8>),
) -> bool {
    &&& first_round(input, ms, m, fast, tuning, seeds, first.0, first.1)
    &&& finished(input, m, !fast && m.slots == 1 && tuning.reduce, first, fin)
    &&& if runs_rounds(input.len() as int, fast, first.0) {
        rounds_to(
            input,
            ms,
            m,
            tuning,
            seeds,
            tuning.seed_rounds as int,
            fin,
            first.0,
            Seq::empty(),
            res,
        )
    } else {
        res == fin
    }
}

proof fn lemma_finished_no_near(
    input: Seq<u8>,
    m: zx::ZxMode,
    do_reduce: bool,
    raw: (Seq<(u32, u32)>, Seq<i8>),
    r: (Seq<(u32, u32)>, Seq<i8>),
)
    requires
        finished(input, m, do_reduce, raw, r),
        zxsearch::no_near_taken(raw.1),
    ensures
        zxsearch::no_near_taken(r.1),
{
}

proof fn lemma_rounds_no_near(
    input: Seq<u8>,
    ms: &MatchSet,
    m: zx::ZxMode,
    tuning: &ZxTuning,
    seeds: Seq<Vec<(u32, u32)>>,
    left: int,
    top: (Seq<(u32, u32)>, Seq<i8>),
    prev: Seq<(u32, u32)>,
    used_before: Seq<u32>,
    res: (Seq<(u32, u32)>, Seq<i8>),
)
    requires
        rounds_to(input, ms, m, tuning, seeds, left, top, prev, used_before, res),
        zxsearch::no_near_taken(top.1),
        !m.near,
        !m.am,
    ensures
        zxsearch::no_near_taken(res.1),
    decreases left,
{
    let used = zxseed::used_offsets(
        prev,
        tuning.min_seed_count as int,
        tuning.max_seed_offsets as int,
    );
    if !(left <= 0 || used.len() == 0 || used == used_before) {
        let (extra, raw, fin) = choose|
            extra: Seq<Vec<(u32, u32)>>,
            raw: (Seq<(u32, u32)>, Seq<i8>),
            fin: (Seq<(u32, u32)>, Seq<i8>),
        |
            #[trigger] one_round(input, ms, m, tuning, seeds, prev, extra, raw, fin) && if raw.0
                == prev {
                res == top
            } else {
                rounds_to(
                    input,
                    ms,
                    m,
                    tuning,
                    seeds,
                    left - 1,
                    less_of(top, fin, m),
                    raw.0,
                    used,
                    res,
                )
            };
        if raw.0 != prev {
            lemma_finished_no_near(input, m, m.slots == 1 && tuning.reduce, raw, fin);
            lemma_rounds_no_near(
                input,
                ms,
                m,
                tuning,
                seeds,
                left - 1,
                less_of(top, fin, m),
                raw.0,
                used,
                res,
            );
        }
    }
}

/// Without near offsets no command of a parser has one.
proof fn lemma_parsed_no_near(
    input: Seq<u8>,
    ms: &MatchSet,
    m: zx::ZxMode,
    fast: bool,
    tuning: &ZxTuning,
    seeds: Seq<Vec<(u32, u32)>>,
    first: (Seq<(u32, u32)>, Seq<i8>),
    fin: (Seq<(u32, u32)>, Seq<i8>),
    res: (Seq<(u32, u32)>, Seq<i8>),
)
    requires
        rounds_parse(input, ms, m, fast, tuning, seeds, first, fin, res),
        !m.near,
        !m.am,
        res.1.len() == res.0.len(),
    ensures
        no_near_cmds(zxbest::built(res.0, res.1, m, u32::MAX as int)),
{
    lemma_finished_no_near(input, m, !fast && m.slots == 1 && tuning.reduce, first, fin);
    if runs_rounds(input.len() as int, fast, first.0) {
        lemma_rounds_no_near(
            input,
            ms,
            m,
            tuning,
            seeds,
            tuning.seed_rounds as int,
            fin,
            first.0,
            Seq::empty(),
            res,
        );
    }
    lemma_built_no_near(res.0, res.1, m, u32::MAX as int, 0, 0, Seq::empty());
}

/// No command has a near offset.
pub open spec fn no_near_cmds(cmds: Seq<ZxCommand>) -> bool {
    forall|k: int| 0 <= k < cmds.len() ==> (#[trigger] cmds[k]).near_rep_ri == -1
}

proof fn lemma_built_no_near(
    best: Seq<(u32, u32)>,
    ri: Seq<i8>,
    m: zx::ZxMode,
    max_off: int,
    p: int,
    run: nat,
    cmds: Seq<ZxCommand>,
)
    requires
        zxsearch::no_near_taken(ri),
        ri.len() == best.len(),
        no_near_cmds(cmds),
    ensures
        no_near_cmds(zxbest::built_from(best, ri, m, max_off, p, run, cmds)),
    decreases
        if p < best.len() {
            best.len() - p
        } else {
            0
        },
{
    if 0 <= p < best.len() {
        if best[p].0 == 0 {
            lemma_built_no_near(best, ri, m, max_off, p + 1, run + 1, cmds);
        } else {
            let reps = zx::zx_reps(cmds, m, cmds.len() as int);
            let c = zxbest::match_cmd(best, ri, m, p, run, reps);
            assert(c.near_rep_ri == -1);
            lemma_built_no_near(best, ri, m, max_off, p + best[p].0, 0, cmds.push(c));
            lemma_built_no_near(best, ri, m, max_off, p + 1, run + 1, cmds);
        }
    }
}

/// What a ZX parser promises: the commands of the smallest parse of all rounds.
/// They stand for the input, can be written in the mode, and are no larger than the
/// first round; the fast parse is the first round.
pub open spec fn zx_parsed(
    input: Seq<u8>,
    cmds: Seq<ZxCommand>,
    ms: &MatchSet,
    rep_slots: usize,
    near_rep: bool,
    am_near_rep: bool,
    fast: bool,
    tuning: &ZxTuning,
) -> bool {
    let m = zx::zx_mode(rep_slots, near_rep, am_near_rep);
    &&& zx::zx_legal(input, cmds, m)
    &&& zxbest::is_plain(cmds)
    &&& !m.near && !m.am ==> no_near_cmds(cmds)
    &&& exists|
        seeds: Seq<Vec<(u32, u32)>>,
        first: (Seq<(u32, u32)>, Seq<i8>),
        fin: (Seq<(u32, u32)>, Seq<i8>),
        res: (Seq<(u32, u32)>, Seq<i8>),
    |
        {
            &&& #[trigger] rounds_parse(input, ms, m, fast, tuning, seeds, first, fin, res)
            &&& cmds == zxbest::built(res.0, res.1, m, u32::MAX as int)
            &&& no_larger(bits_of(cmds, m), first.0, first.1, m)
            &&& zxbest::best_ok(input, first.0)
        }
}

/// The tuning of the entry points.
pub open spec fn plain_tuning() -> ZxTuning {
    ZxTuning {
        reduce: true,
        max_extra_per_pos: 16,
        seed_probe: 128,
        forward_seed: true,
        old_seed: false,
        forward_cap: 16,
        seed_rounds: 2,
        max_seed_offsets: 768,
        min_seed_count: 2,
        supplement: 64,
    }
}

/// ZX parse for `rep_slots` recent offsets.
pub fn parse_zx(input: &[u8], ms: &MatchSet, rep_slots: usize) -> (cmds: Vec<ZxCommand>)
    requires
        zxdp::dp_fits(input@.len() as int),
        ms.of(input@),
        1 <= rep_slots <= 4,
    ensures
        zx_parsed(input@, cmds@, ms, rep_slots, false, false, false, &plain_tuning()),
{
    parse_zx3(input, ms, rep_slots, false, false)
}

/// As `parse_zx`, with near offsets after a literal run.
pub fn parse_zx2(input: &[u8], ms: &MatchSet, rep_slots: usize, near_rep: bool) -> (cmds: Vec<
    ZxCommand,
>)
    requires
        zxdp::dp_fits(input@.len() as int),
        ms.of(input@),
        1 <= rep_slots <= 4,
    ensures
        zx_parsed(input@, cmds@, ms, rep_slots, near_rep, false, false, &plain_tuning()),
{
    parse_zx3(input, ms, rep_slots, near_rep, false)
}

/// As `parse_zx2`, with near offsets after a match.
pub fn parse_zx3(input: &[u8], ms: &MatchSet, rep_slots: usize, near_rep: bool, am_near_rep: bool) -> (cmds: Vec<ZxCommand>)
    requires
        zxdp::dp_fits(input@.len() as int),
        ms.of(input@),
        1 <= rep_slots <= 4,
    ensures
        zx_parsed(input@, cmds@, ms, rep_slots, near_rep, am_near_rep, false, &plain_tuning()),
{
    parse_zx3_inner(input, ms, rep_slots, near_rep, am_near_rep, false, &ZxTuning::default())
}

/// One pass of the dynamic program, without seeding and reduction.
pub fn parse_zx3_fast(input: &[u8], ms: &MatchSet, rep_slots: usize, near_rep: bool, am_near_rep: bool) -> (cmds: Vec<ZxCommand>)
    requires
        zxdp::dp_fits(input@.len() as int),
        ms.of(input@),
        1 <= rep_slots <= 4,
    ensures
        zx_parsed(input@, cmds@, ms, rep_slots, near_rep, am_near_rep, true, &plain_tuning()),
{
    parse_zx3_inner(input, ms, rep_slots, near_rep, am_near_rep, true, &ZxTuning::default())
}

/// The parse behind `parse_zx3` and `parse_zx3_fast`: a seeding pass, the
/// dynamic program, and rounds that feed recurring offsets back. The smallest
/// parse of all rounds is kept.
pub fn parse_zx3_inner(
    input: &[u8],
    ms: &MatchSet,
    rep_slots: usize,
    near_rep: bool,
    am_near_rep: bool,
    fast: bool,
    tuning: &ZxTuning,
) -> (cmds: Vec<ZxCommand>)
    requires
        zxdp::dp_fits(input@.len() as int),
        ms.of(input@),
        1 <= rep_slots <= 4,
    ensures
        zx_parsed(input@, cmds@, ms, rep_slots, near_rep, am_near_rep, fast, tuning),
{
    let near: bool = near_rep && rep_slots == 4;
    let am: bool = am_near_rep && rep_slots == 4;
    let (top, gh) = best_round(input, ms, rep_slots, near, am, fast, tuning);
    assert(zx::zx_mode(rep_slots, near_rep, am_near_rep) == raw_mode(rep_slots, near, am));
    let cmds: Vec<ZxCommand> = commands_of(input, &top, rep_slots, near, am);
    proof {
        let m = raw_mode(rep_slots, near, am);
        let (seeds, first, fin) = gh@;
        assert(rounds_parse(
            input@,
            ms,
            m,
            fast,
            tuning,
            seeds,
            first,
            fin,
            (top.best@, top.ri@),
        ));
        if !m.near && !m.am {
            lemma_parsed_no_near(
                input@,
                ms,
                m,
                fast,
                tuning,
                seeds,
                first,
                fin,
                (top.best@, top.ri@),
            );
        }
        if zxbest::best_codable(first.0, first.1, m) {
            assert(top.cost < zx::NO_CODE);
        }
    }
    cmds
}

/// The commands of a parse, and their size.
fn commands_of(input: &[u8], top: &Scored, rep_slots: usize, near: bool, am: bool) -> (cmds: Vec<
    ZxCommand,
>)
    requires
        input@.len() <= 0x3fff_ffff,
        1 <= rep_slots <= 4,
        top.of(input@, raw_mode(rep_slots, near, am)),
    ensures
        ({
            let m = raw_mode(rep_slots, near, am);
            &&& zx::zx_legal(input@, cmds@, m)
            &&& zxbest::is_plain(cmds@)
            &&& cmds@ == zxbest::built(top.best@, top.ri@, m, u32::MAX as int)
            &&& top.cost < zx::NO_CODE ==> top.cost == bits_of(cmds@, m) && cmds@ == zxbest::best_cmds(
                top.best@,
                top.ri@,
            )
        }),
{
    let cmds: Vec<ZxCommand> = build_zx_commands_from_best(
        input,
        &top.best,
        &top.ri,
        rep_slots,
        near,
        am,
        u32::MAX,
    );
    proof {
        let m = raw_mode(rep_slots, near, am);
        if input@.len() > 0 {
            lemma_first_is_literal(input@, top.best@);
        } else {
            assert(zxbest::best_codable(top.best@, top.ri@, m));
        }
        if zxbest::best_codable(top.best@, top.ri@, m) {
            assert(cmds@ == zxbest::best_cmds(top.best@, top.ri@));
            zx::lemma_zx_bits_bound(input@, cmds@, m, cmds@.len() as int);
        }
    }
    cmds
}

/// The rounds, and the smallest parse of them.
#[verifier::rlimit(60)]
fn best_round(
    input: &[u8],
    ms: &MatchSet,
    rep_slots: usize,
    near: bool,
    am: bool,
    fast: bool,
    tuning: &ZxTuning,
) -> (r: (
    Scored,
    Ghost<(Seq<Vec<(u32, u32)>>, (Seq<(u32, u32)>, Seq<i8>), (Seq<(u32, u32)>, Seq<i8>))>,
))
    requires
        zxdp::dp_fits(input@.len() as int),
        ms.of(input@),
        1 <= rep_slots <= 4,
    ensures
        ({
            let m = raw_mode(rep_slots, near, am);
            let (seeds, first, fin) = r.1@;
            &&& r.0.of(input@, m)
            &&& rounds_parse(
                input@,
                ms,
                m,
                fast,
                tuning,
                seeds,
                first,
                fin,
                (r.0.best@, r.0.ri@),
            )
            &&& no_larger(r.0.cost as int, first.0, first.1, m)
            &&& zxbest::best_ok(input@, first.0)
            &&& zxbest::best_codable(first.0, first.1, m) ==> r.0.cost < zx::NO_CODE
        }),
{
    let n: usize = input.len();
    let ghost m = raw_mode(rep_slots, near, am);
    let do_reduce: bool = !fast && rep_slots == 1 && tuning.reduce;
    let middling: bool = n >= 512 && n <= 65536;
    let seeded: bool = !fast && !tuning.old_seed && tuning.forward_seed && middling;
    let fwd: Vec<Vec<(u32, u32)>> = if seeded {
        zx_seed_forward_reps(
            input,
            ms,
            rep_slots,
            tuning.forward_cap,
            tuning.seed_probe,
            tuning.supplement,
        )
    } else {
        Vec::new()
    };
    let (raw1, raw1_ri) = if seeded {
        zx_dp(input, ms, Some(&fwd), rep_slots, near, am)
    } else {
        zx_dp(input, ms, None, rep_slots, near, am)
    };
    let ghost first = (raw1@, raw1_ri@);
    assert(first_round(input@, ms, m, fast, tuning, fwd@, first.0, first.1));
    let top: Scored = finish_parse(input, &raw1, raw1_ri, rep_slots, near, am, do_reduce);
    let ghost fin = (top.best@, top.ri@);
    if !fast && middling && !too_repetitive(input, &raw1) {
        let none: Vec<u32> = Vec::new();
        assert(none@ =~= Seq::<u32>::empty());
        let best: Scored = more_rounds(
            input,
            ms,
            rep_slots,
            near,
            am,
            tuning,
            &fwd,
            tuning.seed_rounds,
            top,
            &raw1,
            &none,
        );
        (best, Ghost((fwd@, first, fin)))
    } else {
        (top, Ghost((fwd@, first, fin)))
    }
}

/// The further rounds.
#[verifier::rlimit(60)]
fn more_rounds(
    input: &[u8],
    ms: &MatchSet,
    rep_slots: usize,
    near: bool,
    am: bool,
    tuning: &ZxTuning,
    fwd: &Vec<Vec<(u32, u32)>>,
    left: usize,
    top: Scored,
    prev: &Vec<(u32, u32)>,
    prev_used: &Vec<u32>,
) -> (res: Scored)
    requires
        zxdp::dp_fits(input@.len() as int),
        512 <= input@.len() <= 65536,
        ms.of(input@),
        1 <= rep_slots <= 4,
        seeds_first(input@.len() as int, false, tuning) ==> matchfinder::table_ok(input@, fwd@),
        zxbest::best_ok(input@, prev@),
        top.of(input@, raw_mode(rep_slots, near, am)),
    ensures
        res.of(input@, raw_mode(rep_slots, near, am)),
        res.cost <= top.cost,
        rounds_to(
            input@,
            ms,
            raw_mode(rep_slots, near, am),
            tuning,
            fwd@,
            left as int,
            (top.best@, top.ri@),
            prev@,
            prev_used@,
            (res.best@, res.ri@),
        ),
    decreases left,
{
    let n: usize = input.len();
    let ghost m = raw_mode(rep_slots, near, am);
    if left == 0 {
        return top;
    }
    let used: Vec<u32> = collect_used_offsets(
        input,
        prev,
        tuning.max_seed_offsets,
        tuning.min_seed_count,
    );
    if used.len() == 0 || same_offsets(&used, prev_used) {
        return top;
    }
    let mut extra: Vec<Vec<(u32, u32)>> = build_extra_candidates(
        input,
        &used,
        tuning.max_extra_per_pos,
        tuning.seed_probe,
    );
    if tuning.old_seed {
        let more: Vec<Vec<(u32, u32)>> = build_forward_rep_candidates(
            input,
            prev,
            rep_slots,
            9,
            tuning.seed_probe,
        );
        let ghost e0 = extra@;
        extra = merge_extra(extra, &more, tuning.max_extra_per_pos, Ghost(input@));
        proof {
            assert forall|p: int| 0 <= p < n implies (#[trigger] extra@[p])@ == round_row(
                input@,
                m,
                tuning,
                fwd@,
                prev@,
                p,
            ) by {
                assert(zxseed::rows_of(more@)[p] == more@[p]@);
            }
        }
    } else if tuning.forward_seed {
        extra = merge_extra(extra, fwd, tuning.max_extra_per_pos, Ghost(input@));
    }
    let (raw, raw_ri) = zx_dp(input, ms, Some(&extra), rep_slots, near, am);
    let ghost r = (raw@, raw_ri@);
    if same_table(&raw, prev) {
        assert(one_round(input@, ms, m, tuning, fwd@, prev@, extra@, r, r));
        return top;
    }
    let do_reduce: bool = rep_slots == 1 && tuning.reduce;
    let cand: Scored = finish_parse(input, &raw, raw_ri, rep_slots, near, am, do_reduce);
    let ghost f = (cand.best@, cand.ri@);
    assert(one_round(input@, ms, m, tuning, fwd@, prev@, extra@, r, f));
    let next: Scored = smaller(top, cand);
    more_rounds(
        input,
        ms,
        rep_slots,
        near,
        am,
        tuning,
        fwd,
        left - 1,
        next,
        &raw,
        &used,
    )
}

/// What the complete parse promises: it is no larger than the dynamic program
/// over the complete table of candidates, nor than the seeded parse, and for one
/// recent offset no parse at all is smaller. It holds the commands of the first of
/// these that counts least.
pub open spec fn zx_complete(
    input: Seq<u8>,
    cmds: Seq<ZxCommand>,
    ms: &MatchSet,
    extra: Seq<Vec<(u32, u32)>>,
    rep_slots: usize,
    near_rep: bool,
    am_near_rep: bool,
    tuning: &ZxTuning,
) -> bool {
    let m = zx::zx_mode(rep_slots, near_rep, am_near_rep);
    &&& zx::zx_legal(input, cmds, m)
    &&& exists|balanced: Seq<ZxCommand>|
        #[trigger] zx_parsed(
            input,
            balanced,
            ms,
            rep_slots,
            near_rep,
            am_near_rep,
            false,
            tuning,
        ) && bits_of(cmds, m) <= bits_of(balanced, m)
    &&& exists|best: Seq<(u32, u32)>, ri: Seq<i8>|
        #[trigger] zxsearch::dp_parse(
            input,
            ms,
            Some(extra),
            zxsearch::search_of(ms, input.len() as int, m.slots, m.near, m.am),
            best,
            ri,
        ) && no_larger(bits_of(cmds, m), best, ri, m)
    &&& exists|
        all: (Seq<(u32, u32)>, Seq<i8>),
        bal: (Seq<(u32, u32)>, Seq<i8>),
        balanced: Seq<ZxCommand>,
        exact: (Seq<(u32, u32)>, Seq<i8>),
    |
        {
            &&& #[trigger] candidates(
                input,
                ms,
                extra,
                rep_slots,
                near_rep,
                am_near_rep,
                tuning,
                all,
                bal,
                balanced,
                exact,
            )
            &&& cmds == zxbest::built(
                if rep_slots == 1 {
                    less_of(less_of(all, bal, m), exact, m).0
                } else {
                    less_of(all, bal, m).0
                },
                if rep_slots == 1 {
                    less_of(less_of(all, bal, m), exact, m).1
                } else {
                    less_of(all, bal, m).1
                },
                m,
                u32::MAX as int,
            )
        }
    &&& rep_slots == 1 ==> zxreach::least_bits(
        input,
        zx::MAX_OFFSET as int,
        bits_of(cmds, m),
    )
}

/// The parses that the complete parse chooses from: the dynamic program over the
/// complete table, the table of the commands of the seeded parse, and for one
/// recent offset a cheapest one.
pub open spec fn candidates(
    input: Seq<u8>,
    ms: &MatchSet,
    extra: Seq<Vec<(u32, u32)>>,
    rep_slots: usize,
    near_rep: bool,
    am_near_rep: bool,
    tuning: &ZxTuning,
    all: (Seq<(u32, u32)>, Seq<i8>),
    bal: (Seq<(u32, u32)>, Seq<i8>),
    balanced: Seq<ZxCommand>,
    exact: (Seq<(u32, u32)>, Seq<i8>),
) -> bool {
    let m = zx::zx_mode(rep_slots, near_rep, am_near_rep);
    &&& zxsearch::dp_parse(
        input,
        ms,
        Some(extra),
        zxsearch::search_of(ms, input.len() as int, m.slots, m.near, m.am),
        all.0,
        all.1,
    )
    &&& zx_parsed(input, balanced, ms, rep_slots, near_rep, am_near_rep, false, tuning)
    &&& bal.0.len() == input.len() && bal.1.len() == input.len()
    &&& zxbest::table_of(balanced, bal.0, bal.1, balanced.len() as int)
    &&& zxbest::rest_is_plain(bal.0, bal.1)
    &&& rep_slots == 1 ==> {
        &&& zxbest::best_ok(input, exact.0)
        &&& exact.1 == no_near(input.len() as int)
        &&& zxreach::least_bits(input, zx::MAX_OFFSET as int, table_bits(exact.0, exact.1, m) as int)
    }
}

/// The smallest of three parses: the dynamic program with the complete table
/// of candidates, the seeded parse, and for one recent offset the exact one.
pub fn parse_zx3_complete(
    input: &[u8],
    ms: &MatchSet,
    complete_extra: &Vec<Vec<(u32, u32)>>,
    rep_slots: usize,
    near_rep: bool,
    am_near_rep: bool,
) -> (cmds: Vec<ZxCommand>)
    requires
        zxdp::dp_fits(input@.len() as int),
        ms.of(input@),
        matchfinder::table_ok(input@, complete_extra@),
        1 <= rep_slots <= 4,
    ensures
        zx_complete(
            input@,
            cmds@,
            ms,
            complete_extra@,
            rep_slots,
            near_rep,
            am_near_rep,
            &plain_tuning(),
        ),
{
    parse_zx3_complete_tuned(
        input,
        ms,
        complete_extra,
        rep_slots,
        near_rep,
        am_near_rep,
        &ZxTuning::default(),
    )
}

/// The same with the seeded parse as `tuning` says.
#[verifier::rlimit(40)]
pub fn parse_zx3_complete_tuned(
    input: &[u8],
    ms: &MatchSet,
    complete_extra: &Vec<Vec<(u32, u32)>>,
    rep_slots: usize,
    near_rep: bool,
    am_near_rep: bool,
    tuning: &ZxTuning,
) -> (cmds: Vec<ZxCommand>)
    requires
        zxdp::dp_fits(input@.len() as int),
        ms.of(input@),
        matchfinder::table_ok(input@, complete_extra@),
        1 <= rep_slots <= 4,
    ensures
        zx_complete(
            input@,
            cmds@,
            ms,
            complete_extra@,
            rep_slots,
            near_rep,
            am_near_rep,
            tuning,
        ),
{
    let near: bool = near_rep && rep_slots == 4;
    let am: bool = am_near_rep && rep_slots == 4;
    let ghost m = zx::zx_mode(rep_slots, near_rep, am_near_rep);
    assert(m == raw_mode(rep_slots, near, am));
    let (raw_c, ri_c) = zx_dp(input, ms, Some(complete_extra), rep_slots, near, am);
    let ghost (b_c, r_c) = (raw_c@, ri_c@);
    let mut top: Scored = scored(input, raw_c, ri_c, rep_slots, near, am);
    let cmds_b: Vec<ZxCommand> = parse_zx3_inner(
        input,
        ms,
        rep_slots,
        near_rep,
        am_near_rep,
        false,
        tuning,
    );
    let (best_b, ri_b) = commands_to_best(input, &cmds_b, Ghost(m));
    let ghost bal = (best_b@, ri_b@);
    let ghost mut exact = bal;
    proof {
        zxbest::lemma_table_back(input@, cmds_b@, m, best_b@, ri_b@);
        assert(zxbest::best_cmds(best_b@, ri_b@) == cmds_b@);
    }
    let second: Scored = scored(input, best_b, ri_b, rep_slots, near, am);
    assert(second.cost == bits_of(cmds_b@, m));
    top = smaller(top, second);
    if rep_slots == 1 {
        let best_x: Vec<(u32, u32)> = zx0opt::optimize_table(input, MAX_OFFSET as usize);
        let ri_x: Vec<i8> = vec![-1i8; best_x.len()];
        let ghost (b_x, r_x) = (best_x@, ri_x@);
        proof {
            exact = (b_x, r_x);
            assert(r_x =~= no_near(input@.len() as int));
        }
        let third: Scored = scored(input, best_x, ri_x, rep_slots, near, am);
        proof {
            let x = zxbest::best_cmds(b_x, r_x);
            assert(m == zxreach::rep0_mode());
            assert(zxbest::best_codable(b_x, r_x, m));
            assert(third.cost == bits_of(x, m));
        }
        top = smaller(top, third);
        proof {
            assert(zxreach::least_bits(input@, zx::MAX_OFFSET as int, third.cost as int));
            lemma_least_less(input@, zx::MAX_OFFSET as int, third.cost as int, top.cost as int);
        }
    }
    let cmds: Vec<ZxCommand> = commands_of(input, &top, rep_slots, near, am);
    proof {
        assert(candidates(
            input@,
            ms,
            complete_extra@,
            rep_slots,
            near_rep,
            am_near_rep,
            tuning,
            (b_c, r_c),
            bal,
            cmds_b@,
            exact,
        ));
    }
    cmds
}

/// Fewer bits are still the least.
proof fn lemma_least_less(input: Seq<u8>, limit: int, bits: int, less: int)
    requires
        zxreach::least_bits(input, limit, bits),
        less <= bits,
    ensures
        zxreach::least_bits(input, limit, less),
{
    assert forall|c: Seq<ZxCommand>| #[trigger]
        zx::zx_legal(input, c, zxreach::rep0_mode()) && zxreach::cmds_within(c, limit) implies less
        <= zx::zx_bits(c, zxreach::rep0_mode(), c.len() as int) by {}
}

/// Below four recent offsets a parse promises the same with either flag for near
/// offsets.
pub proof fn lemma_near_needs_four_slots(
    input: Seq<u8>,
    cmds: Seq<ZxCommand>,
    ms: &MatchSet,
    rep_slots: usize,
    near_rep: bool,
    am_near_rep: bool,
    fast: bool,
    tuning: &ZxTuning,
)
    requires
        rep_slots < 4,
    ensures
        zx_parsed(input, cmds, ms, rep_slots, near_rep, am_near_rep, fast, tuning) == zx_parsed(
            input,
            cmds,
            ms,
            rep_slots,
            false,
            false,
            fast,
            tuning,
        ),
{
    assert(zx::zx_mode(rep_slots, near_rep, am_near_rep) == zx::zx_mode(rep_slots, false, false));
}

} // verus!
