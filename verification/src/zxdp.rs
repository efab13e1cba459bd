//! The forward dynamic program behind the ZX parsers. Every position keeps a
//! row of arrivals in order of cost, each with its own recent offsets.
use crate::bitio;
use crate::lz;
use crate::matchfinder;
use crate::matchfinder::{Match, MatchSet};
use crate::zx;
use crate::zx::{
    after_lit_prefix_bits, after_match_prefix_bits, lit_run_bits, near_rep_delta_bits,
    newoff_len_bits, offset_cost_bits_hc, rep_index_bits, rep_len_bits, AfterLit, AfterMatch,
    MAX_OFFSET,
};
use crate::zxrows;
use vstd::prelude::*;

verus! {

pub const ZX_INF: u64 = 0x3fff_ffff_ffff_ffff;

/// Arrivals kept at a position; also the distance between two rows.
pub const ZX_ARRIVALS: usize = 64;

/// Longest repeat that a recent offset is probed for.
pub const ZX_REP_PROBE_MAX: usize = 4096;

/// Lengths this far above the shortest are all tried; beyond, only the full
/// length is.
pub const ZX_RELAX_SPAN: u32 = 512;

/// Largest distance from a recent offset that is probed.
pub const NEAR_REP_DELTA_MAX: u32 = 96;

/// Arrivals whose recent offsets are probed for near ones.
pub const NEAR_PROBE_ARRIVALS: usize = 16;

pub const MIN_MATCH: u32 = 2;

/// One way to reach a position. `step_kind` is 0 for a literal byte, 1 for a
/// new offset, 2 for a recent offset, 3 for a near offset; the offset of a match
/// is the most recent one.
#[derive(Clone, Copy)]
pub struct ZxArr {
    pub cost: u64,
    pub reps: [u32; 4],
    pub num_lits: u32,
    pub last_is_match: bool,
    pub from_pos: u32,
    pub from_slot: u8,
    pub step_kind: u8,
    pub step_ri: i8,
    pub rep_pos: u32,
    pub score: u32,
}

impl ZxArr {
    pub fn empty() -> (a: Self)
        ensures
            a.cost == ZX_INF,
            a.reps@ == seq![1u32, 1, 1, 1],
            a.num_lits == 0 && !a.last_is_match && a.step_kind == 0 && a.score == 0,
    {
        ZxArr {
            cost: ZX_INF,
            reps: [1, 1, 1, 1],
            num_lits: 0,
            last_is_match: false,
            from_pos: 0,
            from_slot: 0,
            step_kind: 0,
            step_ri: -1,
            rep_pos: 0,
            score: 0,
        }
    }

    pub fn start() -> (a: Self)
        ensures
            a.cost == 0,
            a.reps@ == seq![1u32, 1, 1, 1],
            a.num_lits == 0 && !a.last_is_match && a.step_kind == 0 && a.score == 0,
    {
        ZxArr {
            cost: 0,
            reps: [1, 1, 1, 1],
            num_lits: 0,
            last_is_match: false,
            from_pos: 0,
            from_slot: 0,
            step_kind: 0,
            step_ri: -1,
            rep_pos: 0,
            score: 0,
        }
    }
}

/// Cheaper, or as cheap with the lower score.
pub fn zx_better(a_cost: u64, a_score: u32, b_cost: u64, b_score: u32) -> (r: bool)
    ensures
        r == (a_cost < b_cost || (a_cost == b_cost && a_score < b_score)),
{
    a_cost < b_cost || (a_cost == b_cost && a_score < b_score)
}

pub fn same_reps(a: &[u32; 4], b: &[u32; 4]) -> (r: bool)
    ensures
        r == (a@ == b@),
{
    let r: bool = a[0] == b[0] && a[1] == b[1] && a[2] == b[2] && a[3] == b[3];
    assert(r ==> a@ =~= b@);
    r
}

pub fn zx_rep_insert(r: [u32; 4], off: u32) -> (o: [u32; 4])
    ensures
        o@ == seq![off, r@[0], r@[1], r@[2]],
{
    let o: [u32; 4] = [off, r[0], r[1], r[2]];
    assert(o@ =~= seq![off, r@[0], r@[1], r@[2]]);
    o
}

/// Only the first entry is in use; the others stay put, so that they do not
/// tell arrivals apart.
pub fn zx_rep_insert1(off: u32) -> (o: [u32; 4])
    ensures
        o@ == seq![off, 1u32, 1u32, 1u32],
{
    let o: [u32; 4] = [off, 1, 1, 1];
    assert(o@ =~= seq![off, 1u32, 1u32, 1u32]);
    o
}

/// Moves an entry to the front.
pub fn zx_rep_mtf(r: [u32; 4], idx: usize) -> (o: [u32; 4])
    requires
        idx < 4,
    ensures
        o@ == r@.remove(idx as int).insert(0, r@[idx as int]),
        o@[0] == r@[idx as int],
{
    let o: [u32; 4] = if idx == 0 {
        r
    } else if idx == 1 {
        [r[1], r[0], r[2], r[3]]
    } else if idx == 2 {
        [r[2], r[0], r[1], r[3]]
    } else {
        [r[3], r[0], r[1], r[2]]
    };
    assert(o@ =~= r@.remove(idx as int).insert(0, r@[idx as int]));
    o
}

/// Cheaper, or as cheap with the lower score.
pub open spec fn betters(a: ZxArr, b: ZxArr) -> bool {
    a.cost < b.cost || (a.cost == b.cost && a.score < b.score)
}

/// What follows costs the same from both.
pub open spec fn same_state(a: ZxArr, b: ZxArr) -> bool {
    a.num_lits == b.num_lits && a.last_is_match == b.last_is_match && a.reps@ == b.reps@
}

/// The first place from `k` on that `cand` is better than, if none before it
/// has the same state.
pub open spec fn place_for(row: Seq<ZxArr>, width: int, cand: ZxArr, k: int) -> Option<int>
    decreases width - k,
{
    if k >= width {
        None
    } else if betters(cand, row[k]) {
        Some(k)
    } else if row[k].cost < ZX_INF && same_state(row[k], cand) {
        None
    } else {
        place_for(row, width, cand, k + 1)
    }
}

/// The first place from `k` on that is free, or the last of all.
pub open spec fn given_up(row: Seq<ZxArr>, width: int, k: int) -> int
    decreases width - k,
{
    if k >= width - 1 || row[k].cost >= ZX_INF {
        k
    } else {
        given_up(row, width, k + 1)
    }
}

/// A row after `cand` was offered to its first `width` places.
pub open spec fn relaxed(row: Seq<ZxArr>, width: int, cand: ZxArr) -> Seq<ZxArr> {
    if !betters(cand, row[width - 1]) {
        row
    } else {
        match place_for(row, width, cand, 0) {
            None => row,
            Some(k) => {
                let out = if row[width - 1].cost < ZX_INF {
                    width - 1
                } else {
                    given_up(row, width, k)
                };
                row.remove(out).insert(k, cand)
            },
        }
    }
}

/// The row of a position.
pub open spec fn row_of(arr: Seq<ZxArr>, pos: int) -> Seq<ZxArr> {
    arr.subrange(pos * 64, pos * 64 + 64)
}

/// Puts `cand` into the first `width` places of the row of `pos`, in order of
/// cost, unless a place as good already has the same state.
pub fn zx_relax(arr: &mut Vec<ZxArr>, pos: usize, width: usize, cand: ZxArr)
    requires
        (pos + 1) * 64 <= old(arr)@.len(),
        1 <= width <= 64,
    ensures
        final(arr)@.len() == old(arr)@.len(),
        row_of(final(arr)@, pos as int) == relaxed(row_of(old(arr)@, pos as int), width as int, cand),
        forall|x: int|
            0 <= x < old(arr)@.len() && !(pos * 64 <= x < pos * 64 + 64) ==> #[trigger] final(arr)@[x]
                == old(arr)@[x],
        forall|x: int|
            pos * 64 <= x < pos * 64 + 64 ==> #[trigger] final(arr)@[x] == cand || final(arr)@[x]
                == old(arr)@[x] || (x > pos * 64 && final(arr)@[x] == old(arr)@[x - 1]),
{
    let total: usize = arr.len();
    let base: usize = pos * 64;
    let ghost row = row_of(arr@, pos as int);
    let worst_cost: u64 = arr[base + width - 1].cost;
    let worst_score: u32 = arr[base + width - 1].score;
    assert(row[width - 1] == arr@[base + width - 1]);
    if !zx_better(cand.cost, cand.score, worst_cost, worst_score) {
        return;
    }
    let mut idx: usize = 0;
    while idx < width
        invariant_except_break
            idx < width,
            place_for(row, width as int, cand, 0) == place_for(row, width as int, cand, idx as int),
        invariant
            base == pos * 64,
            total == arr@.len(),
            base + 64 <= total,
            width <= 64,
            arr@ == old(arr)@,
            row == row_of(arr@, pos as int),
            betters(cand, row[width - 1]),
        ensures
            idx < width,
            place_for(row, width as int, cand, 0) == Some(idx as int),
        decreases width - idx,
    {
        let a: &ZxArr = &arr[base + idx];
        assert(row[idx as int] == *a);
        if zx_better(cand.cost, cand.score, a.cost, a.score) {
            break;
        }
        if a.cost < ZX_INF && a.num_lits == cand.num_lits && a.last_is_match == cand.last_is_match
            && same_reps(&a.reps, &cand.reps) {
            return;
        }
        idx += 1;
    }
    let mut k: usize = width - 1;
    if worst_cost >= ZX_INF {
        k = idx;
        while k < width - 1 && arr[base + k].cost < ZX_INF
            invariant
                base == pos * 64,
                total == arr@.len(),
                base + 64 <= total,
                idx <= k < width <= 64,
                row == row_of(arr@, pos as int),
                given_up(row, width as int, idx as int) == given_up(row, width as int, k as int),
            decreases width - k,
        {
            assert(row[k as int] == arr@[base + k]);
            k += 1;
        }
        assert(row[k as int] == arr@[base + k]);
    }
    let ghost out = k as int;
    while k > idx
        invariant
            base == pos * 64,
            total == arr@.len(),
            base + 64 <= total,
            idx <= k <= out < width <= 64,
            arr@.len() == old(arr)@.len(),
            forall|x: int|
                0 <= x < arr@.len() && !(base <= x < base + 64) ==> #[trigger] arr@[x]
                    == old(arr)@[x],
            forall|x: int| base <= x <= base + k ==> #[trigger] arr@[x] == old(arr)@[x],
            forall|x: int| base + k < x <= base + out ==> #[trigger] arr@[x] == old(arr)@[x - 1],
            forall|x: int| base + out < x < base + 64 ==> #[trigger] arr@[x] == old(arr)@[x],
        decreases k,
    {
        let a: ZxArr = arr[base + k - 1];
        arr.set(base + k, a);
        k -= 1;
    }
    arr.set(base + idx, cand);
    assert(row_of(arr@, pos as int) =~= row.remove(out).insert(idx as int, cand));
}

// ---------------------------------------------------------------------------
// What the table means
// ---------------------------------------------------------------------------
/// A live arrival at `pos` comes from a live one before `lim`, by one literal
/// byte or by a match of the input.
pub open spec fn zx_arr_ok(input: Seq<u8>, arr: Seq<ZxArr>, lim: int, pos: int, a: ZxArr) -> bool {
    a.cost < ZX_INF ==> {
        &&& a.from_pos < lim
        &&& a.from_pos < pos
        &&& a.from_slot < 64
        &&& arr[a.from_pos * 64 + a.from_slot].cost < ZX_INF
        &&& -1 <= a.step_ri <= 1
        &&& a.step_kind == 0 ==> a.from_pos + 1 == pos
        &&& a.step_kind != 0 ==> {
            &&& lz::is_match(input, a.from_pos as int, a.reps@[0] as int, pos - a.from_pos)
        }
    }
}

pub open spec fn zx_cell_ok(input: Seq<u8>, arr: Seq<ZxArr>, lim: int, pos: int, slot: int) -> bool {
    zx_arr_ok(input, arr, lim, pos, arr[pos * 64 + slot])
}

pub open spec fn dp_ok(input: Seq<u8>, arr: Seq<ZxArr>, lim: int) -> bool {
    &&& arr.len() == (input.len() + 1) * 64
    &&& forall|pos: int, slot: int|
        1 <= pos <= input.len() && 0 <= slot < 64 ==> #[trigger] zx_cell_ok(
            input,
            arr,
            lim,
            pos,
            slot,
        )
}

/// The rows before `lim` are the same.
pub open spec fn same_rows(a: Seq<ZxArr>, b: Seq<ZxArr>, lim: int) -> bool {
    &&& a.len() == b.len()
    &&& forall|x: int| 0 <= x < lim * 64 ==> #[trigger] a[x] == b[x]
}

/// Sizes that the table can have.
pub open spec fn dp_fits(n: int) -> bool {
    n <= 0x3fff_ffff && (n + 1) * 64 <= usize::MAX
}

pub proof fn lemma_dp_later(input: Seq<u8>, arr: Seq<ZxArr>, lim: int, lim2: int)
    requires
        dp_ok(input, arr, lim),
        lim <= lim2,
    ensures
        dp_ok(input, arr, lim2),
{
    assert forall|pos: int, slot: int| 1 <= pos <= input.len() && 0 <= slot < 64 implies
        #[trigger] zx_cell_ok(input, arr, lim2, pos, slot) by {
        assert(zx_cell_ok(input, arr, lim, pos, slot));
    }
}

pub proof fn lemma_shorter_match(s: Seq<u8>, p: int, off: int, len: int, l: int)
    requires
        lz::is_match(s, p, off, len),
        0 <= l <= len,
    ensures
        lz::is_match(s, p, off, l),
{
}

/// A table with one live arrival, at the start.
pub fn new_table(n: usize) -> (arr: Vec<ZxArr>)
    requires
        dp_fits(n as int),
    ensures
        arr@.len() == (n + 1) * 64,
        forall|input: Seq<u8>| input.len() == n ==> #[trigger] dp_ok(input, arr@, 0),
        arr@[0].cost == 0,
        arr@[0].score == 0 && arr@[0].num_lits == 0 && !arr@[0].last_is_match,
        arr@[0].reps@ == seq![1u32, 1, 1, 1],
        forall|x: int| 1 <= x < arr@.len() ==> (#[trigger] arr@[x]).cost == ZX_INF && arr@[x].score == 0,
        forall|width: int| 1 <= width <= 64 ==> #[trigger] zxrows::rows_in_order(arr@, width, n as int),
{
    let total: usize = (n + 1) * 64;
    let mut arr: Vec<ZxArr> = Vec::with_capacity(total);
    arr.push(ZxArr::start());
    while arr.len() < total
        invariant
            1 <= arr@.len() <= total,
            arr@[0].cost == 0,
            arr@[0].score == 0 && arr@[0].num_lits == 0 && !arr@[0].last_is_match,
            arr@[0].reps@ == seq![1u32, 1, 1, 1],
            forall|x: int| 1 <= x < arr@.len() ==> (#[trigger] arr@[x]).cost == ZX_INF && arr@[x].score == 0,
        decreases total - arr@.len(),
    {
        arr.push(ZxArr::empty());
    }
    assert forall|input: Seq<u8>| input.len() == n implies #[trigger] dp_ok(input, arr@, 0) by {
        assert forall|pos: int, slot: int| 1 <= pos <= input.len() && 0 <= slot < 64 implies
            #[trigger] zx_cell_ok(input, arr@, 0, pos, slot) by {
            assert(arr@[pos * 64 + slot].cost == ZX_INF);
        }
    }
    assert forall|width: int| 1 <= width <= 64 implies #[trigger] zxrows::rows_in_order(
        arr@,
        width,
        n as int,
    ) by {
        assert forall|pos: int| 0 <= pos <= n implies zxrows::row_in_order(
            #[trigger] row_of(arr@, pos),
            width,
        ) by {
            assert forall|k: int| 0 <= k < 64 implies #[trigger] row_of(arr@, pos)[k] == arr@[pos * 64
                + k] by {}
        }
    }
    arr
}

/// An arrival behind a match that was offered to a position.
#[derive(Clone, Copy)]
pub struct Offer {
    pub pos: u32,
    pub reps: [u32; 4],
    pub cost: u64,
    pub score: u32,
}

/// Places of a position in the list of offers.
const OFFERS: usize = 256;

/// Positions that the list of offers has room for at a time.
const OFFER_ROWS: usize = 128;

/// The place of an arrival among those of its position.
fn offer_place(reps: &[u32; 4]) -> (h: usize)
    ensures
        h < 256,
{
    let mut x: u32 = reps[0].wrapping_mul(0x9e37_79b1);
    x = (x ^ reps[1]).wrapping_mul(0x85eb_ca77);
    x = (x ^ reps[2]).wrapping_mul(0xc2b2_ae3d);
    x = (x ^ reps[3]).wrapping_mul(0x9e37_79b1);
    (x / 0x0100_0000) as usize
}

/// What tells at once that an arrival would not be kept: for every position the
/// cost and score in the last place of its row, and arrivals that it was offered
/// before.
pub struct Limits {
    pub worst: Vec<u64>,
    pub worst_score: Vec<u32>,
    pub offers: Vec<Offer>,
    pub rows: usize,
}

impl Limits {
    pub open spec fn of(&self, n: int) -> bool {
        &&& self.worst@.len() == n + 1
        &&& self.worst_score@.len() == n + 1
        &&& 1 <= self.rows <= 128
        &&& self.offers@.len() == self.rows * 256
    }

    /// The limits are those of the rows.
    pub open spec fn worst_right(&self, arr: Seq<ZxArr>, width: int) -> bool {
        forall|pos: int|
            0 <= pos < self.worst@.len() ==> #[trigger] self.worst@[pos] == arr[pos * 64 + width - 1].cost
                && self.worst_score@[pos] == arr[pos * 64 + width - 1].score
    }

    /// Nothing as good as an offer that was noted is of use.
    pub open spec fn offers_right(&self, arr: Seq<ZxArr>, width: int, n: int) -> bool {
        forall|k: int|
            0 <= k < self.offers@.len() && (#[trigger] self.offers@[k]).pos >= 1 ==> self.offers@[k].pos
                <= n && offer_met(arr, width, self.offers@[k])
    }

    /// What the limits say is true of the table.
    pub open spec fn tells(&self, arr: Seq<ZxArr>, width: int, n: int) -> bool {
        &&& self.of(n)
        &&& self.worst_right(arr, width)
        &&& self.offers_right(arr, width, n)
    }

    pub fn new(n: usize) -> (lim: Limits)
        requires
            dp_fits(n as int),
        ensures
            lim.of(n as int),
            forall|pos: int|
                0 <= pos <= n ==> #[trigger] lim.worst@[pos] == ZX_INF && lim.worst_score@[pos] == 0,
            forall|k: int| 0 <= k < lim.offers@.len() ==> (#[trigger] lim.offers@[k]).pos == 0,
    {
        let none: Offer = Offer { pos: 0, reps: [0, 0, 0, 0], cost: ZX_INF, score: 0 };
        let rows: usize = if n < OFFER_ROWS {
            n + 1
        } else {
            OFFER_ROWS
        };
        Limits {
            worst: vec![ZX_INF; n + 1],
            worst_score: vec![0; n + 1],
            offers: vec![none; rows * OFFERS],
            rows,
        }
    }

    /// Notes an arrival behind a match. False where one with the same recent
    /// offsets that is as good was offered before.
    fn offer(
        &mut self,
        pos: usize,
        place: usize,
        reps: &[u32; 4],
        cost: u64,
        score: u32,
        Ghost(n): Ghost<int>,
    ) -> (new: bool)
        requires
            old(self).of(n),
            pos <= n,
            place < 256,
        ensures
            final(self).of(n),
            final(self).rows == old(self).rows,
            final(self).worst == old(self).worst,
            final(self).worst_score == old(self).worst_score,
            ({
                let k = (pos % old(self).rows) * 256 + place;
                let o = old(self).offers@[k];
                &&& new == !(o.pos == pos as u32 && o.reps@ == reps@ && !(cost < o.cost || (cost
                    == o.cost && score < o.score)))
                &&& 0 <= k < old(self).offers@.len()
                &&& !new ==> final(self).offers@ == old(self).offers@
                &&& new ==> final(self).offers@ == old(self).offers@.update(
                    k,
                    Offer { pos: pos as u32, reps: *reps, cost, score },
                )
            }),
    {
        let row: usize = pos % self.rows;
        assert(row < self.rows) by (nonlinear_arith)
            requires
                row == pos % self.rows,
                self.rows >= 1,
        ;
        let k: usize = row * OFFERS + place;
        let o: &Offer = &self.offers[k];
        if o.pos == pos as u32 && same_reps(&o.reps, reps) && !zx_better(
            cost,
            score,
            o.cost,
            o.score,
        ) {
            return false;
        }
        self.offers.set(k, Offer { pos: pos as u32, reps: *reps, cost, score });
        true
    }
}

/// An arrival behind a match like the one that was offered is of no use.
pub open spec fn offer_met(arr: Seq<ZxArr>, width: int, o: Offer) -> bool {
    zxrows::has_use_no_more(row_of(arr, o.pos as int), width, 0, true, o.reps@, o.cost, o.score)
}

/// The rows are in order, and what the limits say is true of them.
pub open spec fn in_step(arr: Seq<ZxArr>, lim: &Limits, width: int, n: int) -> bool {
    &&& zxrows::rows_in_order(arr, width, n)
    &&& lim.tells(arr, width, n)
}

/// A new table and new limits are in step.
pub proof fn lemma_new_in_step(arr: Seq<ZxArr>, lim: &Limits, width: int, n: int)
    requires
        2 <= width <= 64,
        0 <= n,
        arr.len() == (n + 1) * 64,
        zxrows::rows_in_order(arr, width, n),
        forall|x: int| 1 <= x < arr.len() ==> (#[trigger] arr[x]).cost == ZX_INF && arr[x].score == 0,
        lim.of(n),
        forall|pos: int|
            0 <= pos <= n ==> #[trigger] lim.worst@[pos] == ZX_INF && lim.worst_score@[pos] == 0,
        forall|k: int| 0 <= k < lim.offers@.len() ==> (#[trigger] lim.offers@[k]).pos == 0,
    ensures
        in_step(arr, lim, width, n),
{
}

/// Offers that were met stay met.
proof fn lemma_offers_kept(lim: &Limits, a: Seq<ZxArr>, b: Seq<ZxArr>, width: int, n: int, s: Set<(int, ZxArr)>)
    requires
        lim.offers_right(a, width, n),
        zxrows::took(a, b, width, n, s),
    ensures
        lim.offers_right(b, width, n),
{
    reveal(zxrows::took);
    assert forall|k: int| 0 <= k < lim.offers@.len() && (#[trigger] lim.offers@[k]).pos >= 1 implies
        lim.offers@[k].pos <= n && offer_met(b, width, lim.offers@[k]) by {
        assert(offer_met(a, width, lim.offers@[k]));
    }
}

/// Relaxes one arrival and keeps what the table means.
fn dp_push(arr: &mut Vec<ZxArr>, lim: &mut Limits, pos: usize, width: usize, cand: ZxArr, Ghost(input): Ghost<Seq<u8>>, Ghost(upto): Ghost<int>)
    requires
        dp_ok(input, old(arr)@, upto),
        old(lim).of(input.len() as int),
        old(lim).worst_right(old(arr)@, width as int),
        zxrows::rows_in_order(old(arr)@, width as int, input.len() as int),
        1 <= upto <= pos <= input.len(),
        1 <= width <= 64,
        dp_fits(input.len() as int),
        zx_arr_ok(input, old(arr)@, upto, pos as int, cand),
    ensures
        dp_ok(input, final(arr)@, upto),
        final(lim).of(input.len() as int),
        final(lim).worst_right(final(arr)@, width as int),
        final(lim).offers == old(lim).offers,
        final(lim).rows == old(lim).rows,
        zxrows::rows_in_order(final(arr)@, width as int, input.len() as int),
        same_rows(old(arr)@, final(arr)@, upto),
        row_of(final(arr)@, pos as int) == relaxed(row_of(old(arr)@, pos as int), width as int, cand),
        forall|q: int|
            0 <= q <= input.len() && q != pos ==> #[trigger] row_of(final(arr)@, q) == row_of(
                old(arr)@,
                q,
            ),
        zxrows::took(
            old(arr)@,
            final(arr)@,
            width as int,
            input.len() as int,
            set![(pos as int, cand)],
        ),
{
    let ghost a0 = arr@;
    let ghost w0 = lim.worst@;
    let ghost s0 = lim.worst_score@;
    zx_relax(arr, pos, width, cand);
    lim.worst.set(pos, arr[pos * 64 + width - 1].cost);
    lim.worst_score.set(pos, arr[pos * 64 + width - 1].score);
    proof {
        let a1 = arr@;
        let n = input.len() as int;
        assert forall|q: int, slot: int| 1 <= q <= input.len() && 0 <= slot < 64 implies
            #[trigger] zx_cell_ok(input, a1, upto, q, slot) by {
            assert(zx_cell_ok(input, a0, upto, q, slot));
            let x = q * 64 + slot;
            if q == pos {
                assert(a1[x] == cand || a1[x] == a0[x] || (x > pos * 64 && a1[x] == a0[x - 1]));
                if slot > 0 {
                    assert(zx_cell_ok(input, a0, upto, q, slot - 1));
                    assert(a0[q * 64 + (slot - 1)] == a0[x - 1]);
                }
            } else {
                assert(a1[x] == a0[x]);
            }
            let a = a1[x];
            if a.cost < ZX_INF {
                let y = a.from_pos * 64 + a.from_slot;
                assert(a1[y] == a0[y]);
            }
        }
        assert forall|q: int| 0 <= q <= n && q != pos implies #[trigger] row_of(a1, q) == row_of(
            a0,
            q,
        ) by {
            assert(row_of(a1, q) =~= row_of(a0, q));
        }
        assert forall|q: int| 0 <= q < lim.worst@.len() implies #[trigger] lim.worst@[q] == a1[q * 64
            + width - 1].cost && lim.worst_score@[q] == a1[q * 64 + width - 1].score by {
            if q != pos {
                assert(w0[q] == a0[q * 64 + width - 1].cost);
            }
        }
        lemma_push_took(a0, a1, width as int, n, pos as int, cand);
    }
}

/// A table of which one row was relaxed.
proof fn lemma_push_took(a: Seq<ZxArr>, b: Seq<ZxArr>, width: int, n: int, pos: int, cand: ZxArr)
    requires
        a.len() == (n + 1) * 64,
        b.len() == a.len(),
        0 <= pos <= n,
        1 <= width <= 64,
        zxrows::rows_in_order(a, width, n),
        row_of(b, pos) == relaxed(row_of(a, pos), width, cand),
        forall|q: int| 0 <= q <= n && q != pos ==> #[trigger] row_of(b, q) == row_of(a, q),
    ensures
        zxrows::rows_in_order(b, width, n),
        zxrows::took(a, b, width, n, set![(pos, cand)]),
{
    reveal(zxrows::took);
    assert(zxrows::row_in_order(row_of(a, pos), width));
    zxrows::lemma_relaxed(row_of(a, pos), width, cand);
    assert forall|q: int| 0 <= q <= n implies zxrows::row_in_order(#[trigger] row_of(b, q), width) by {
        assert(zxrows::row_in_order(row_of(a, q), width));
    }
    assert forall|q: int, k: int|
        #![trigger row_of(b, q)[k]]
        0 <= q <= n && 0 <= k < 64 implies row_of(a, q).contains(row_of(b, q)[k]) || set![
        (pos, cand),
    ].contains((q, row_of(b, q)[k])) by {
        if q != pos {
            assert(row_of(a, q)[k] == row_of(b, q)[k]);
        }
    }
}

// ---------------------------------------------------------------------------
// Transitions out of position `i`
// ---------------------------------------------------------------------------
/// The sum of two numbers, or the largest.
pub open spec fn capped_sum(a: u32, b: u32) -> u32 {
    if a + b > u32::MAX {
        u32::MAX
    } else {
        (a + b) as u32
    }
}

/// The arrival `c` comes from the one in `slot` of position `i`, `a`, by a
/// literal byte.
pub open spec fn literal_after(a: ZxArr, i: int, slot: int, c: ZxArr) -> bool {
    &&& c.cost == a.cost + 8 + if a.num_lits == 0 {
        bitio::gamma_len(1) + if a.last_is_match {
            1int
        } else {
            0
        }
    } else {
        bitio::gamma_len(capped_sum(a.num_lits, 1) as nat) - bitio::gamma_len(a.num_lits as nat)
    }
    &&& c.reps@ == a.reps@
    &&& c.num_lits == capped_sum(a.num_lits, 1)
    &&& !c.last_is_match
    &&& c.from_pos == i
    &&& c.from_slot == slot
    &&& c.step_kind == 0
    &&& c.step_ri == -1
    &&& c.rep_pos == a.rep_pos
    &&& c.score == capped_sum(a.score, 1)
}

/// What the first `k` places of the row of `i` lead to by a literal byte.
pub open spec fn literal_offers(row: Seq<ZxArr>, i: int, k: int) -> Set<(int, ZxArr)> {
    Set::new(
        |p: (int, ZxArr)|
            p.0 == i + 1 && exists|s: int|
                0 <= s < k && row[s].cost < ZX_INF && #[trigger] literal_after(row[s], i, s, p.1),
    )
}

proof fn lemma_in_literal_offers(row: Seq<ZxArr>, i: int, k: int, s: int, c: ZxArr)
    requires
        0 <= s < k,
        row[s].cost < ZX_INF,
        literal_after(row[s], i, s, c),
    ensures
        literal_offers(row, i, k).contains((i + 1, c)),
{
    let p = (i + 1, c);
    assert(p.0 == i + 1 && literal_after(row[s], i, s, p.1));
    assert(exists|s: int|
        0 <= s < k && row[s].cost < ZX_INF && #[trigger] literal_after(row[s], i, s, p.1));
    assert(literal_offers(row, i, k).contains(p));
}

/// Literal byte: the pending run grows by one.
pub fn dp_literal(arr: &mut Vec<ZxArr>, lim: &mut Limits, i: usize, width: usize, Ghost(input): Ghost<Seq<u8>>)
    requires
        dp_ok(input, old(arr)@, i + 1),
        in_step(old(arr)@, old(lim), width as int, input.len() as int),
        i < input.len(),
        1 <= width <= 64,
        dp_fits(input.len() as int),
    ensures
        dp_ok(input, final(arr)@, i + 1),
        in_step(final(arr)@, final(lim), width as int, input.len() as int),
        same_rows(old(arr)@, final(arr)@, i + 1),
        zxrows::took(
            old(arr)@,
            final(arr)@,
            width as int,
            input.len() as int,
            literal_offers(row_of(old(arr)@, i as int), i as int, width as int),
        ),
{
    let ghost a0 = arr@;
    let ghost n = input.len() as int;
    let ghost row = row_of(a0, i as int);
    let mut slot: usize = 0;
    proof {
        zxrows::lemma_took_none(a0, width as int, n);
        assert(literal_offers(row, i as int, 0) =~= Set::empty());
        assert(zxrows::row_in_order(row, width as int));
    }
    while slot < width
        invariant_except_break
            zxrows::took(a0, arr@, width as int, n, literal_offers(row, i as int, slot as int)),
        invariant
            slot <= width <= 64,
            i < input.len(),
            n == input.len(),
            a0.len() == (n + 1) * 64,
            row == row_of(a0, i as int),
            zxrows::row_in_order(row, width as int),
            dp_fits(input.len() as int),
            dp_ok(input, arr@, i + 1),
            in_step(arr@, lim, width as int, n),
            same_rows(a0, arr@, i + 1),
        ensures
            zxrows::took(a0, arr@, width as int, n, literal_offers(row, i as int, width as int)),
        decreases width - slot,
    {
        let a: ZxArr = arr[i * 64 + slot];
        assert(a == row[slot as int]);
        if a.cost >= ZX_INF {
            proof {
                assert forall|s: int| slot < s < width implies (#[trigger] row[s]).cost >= ZX_INF by {
                    assert(zxrows::no_better(row[s].cost, row[s].score, row[slot as int]));
                }
                assert(literal_offers(row, i as int, slot as int) =~= literal_offers(
                    row,
                    i as int,
                    width as int,
                ));
            }
            break;
        }
        let old_lits: u32 = a.num_lits;
        let new_lits: u32 = old_lits.saturating_add(1);
        proof {
            bitio::lemma_gamma_monotone(old_lits as nat, new_lits as nat);
        }
        let delta: u32 = if old_lits == 0 {
            (if a.last_is_match {
                1
            } else {
                0
            }) + lit_run_bits(1)
        } else {
            lit_run_bits(new_lits) - lit_run_bits(old_lits)
        };
        let cand: ZxArr = ZxArr {
            cost: a.cost + delta as u64 + 8,
            reps: a.reps,
            num_lits: new_lits,
            last_is_match: false,
            from_pos: i as u32,
            from_slot: slot as u8,
            step_kind: 0,
            step_ri: -1,
            rep_pos: a.rep_pos,
            score: a.score.saturating_add(1),
        };
        let ghost before = arr@;
        dp_push(arr, lim, i + 1, width, cand, Ghost(input), Ghost(i + 1));
        proof {
            let t = set![(i + 1, cand)];
            let s = literal_offers(row, i as int, slot as int);
            let u = literal_offers(row, i as int, slot + 1);
            lemma_offers_kept(lim, before, arr@, width as int, n, t);
            assert(literal_after(row[slot as int], i as int, slot as int, cand));
            lemma_in_literal_offers(row, i as int, slot + 1, slot as int, cand);
            assert forall|p: (int, ZxArr)| #[trigger] t.contains(p) implies u.contains(p) by {
                assert(p == (i + 1, cand));
            }
            zxrows::lemma_took_use(before, arr@, width as int, n, t, i + 1, cand);
            assert forall|pos: int, x: ZxArr| #[trigger]
                u.contains((pos, x)) && 0 <= pos <= n implies s.contains((pos, x)) || t.contains(
                (pos, x),
            ) || zxrows::covers(row_of(arr@, pos), width as int, x) by {
                let y = choose|y: int|
                    0 <= y < slot + 1 && row[y].cost < ZX_INF && #[trigger] literal_after(
                        row[y],
                        i as int,
                        y,
                        x,
                    );
                if y < slot {
                    assert(s.contains((pos, x)));
                }
            }
            zxrows::lemma_took_more(a0, before, arr@, width as int, n, s, t, u);
        }
        slot += 1;
    }
}

/// A new offset makes the two arrivals alike.
pub open spec fn alike_behind_offset(a: ZxArr, b: ZxArr, am_near_rep: bool) -> bool {
    a.reps@.take(3) == b.reps@.take(3) && (am_near_rep ==> a.last_is_match == b.last_is_match)
}

/// The arrivals of position `i` from which a new offset leads to a state that no
/// earlier one leads to. The rows are in order of cost, so the others would only
/// be dropped.
pub fn fresh_for_offset(arr: &Vec<ZxArr>, i: usize, width: usize, rep_slots: usize, am_near_rep: bool) -> (fresh: Vec<bool>)
    requires
        (i + 1) * 64 <= arr@.len(),
        width <= 64,
    ensures
        fresh@.len() == width,
        forall|s: int|
            0 <= s < width ==> (#[trigger] fresh@[s] <==> s == 0 || (rep_slots > 1 && (arr@[i * 64
                + s].cost < ZX_INF ==> forall|k: int|
                0 <= k < s ==> !alike_behind_offset(
                    #[trigger] arr@[i * 64 + k],
                    arr@[i * 64 + s],
                    am_near_rep,
                )))),
{
    let total: usize = arr.len();
    let mut fresh: Vec<bool> = Vec::with_capacity(width);
    let mut s: usize = 0;
    while s < width
        invariant
            total == arr@.len(),
            (i + 1) * 64 <= total,
            s <= width <= 64,
            fresh@.len() == s,
            forall|t: int|
                0 <= t < s ==> (#[trigger] fresh@[t] <==> t == 0 || (rep_slots > 1 && (arr@[i * 64
                    + t].cost < ZX_INF ==> forall|k: int|
                    0 <= k < t ==> !alike_behind_offset(
                        #[trigger] arr@[i * 64 + k],
                        arr@[i * 64 + t],
                        am_near_rep,
                    )))),
        decreases width - s,
    {
        let a: &ZxArr = &arr[i * 64 + s];
        let mut new: bool = s == 0 || rep_slots > 1;
        let mut k: usize = 0;
        while new && k < s && a.cost < ZX_INF
            invariant
                total == arr@.len(),
                (i + 1) * 64 <= total,
                k <= s < width <= 64,
                *a == arr@[i * 64 + s],
                new ==> s == 0 || rep_slots > 1,
                new ==> forall|j: int|
                    0 <= j < k ==> !alike_behind_offset(
                        #[trigger] arr@[i * 64 + j],
                        *a,
                        am_near_rep,
                    ),
                !new && s > 0 ==> rep_slots <= 1 || (a.cost < ZX_INF && exists|j: int|
                    0 <= j < s && alike_behind_offset(
                        #[trigger] arr@[i * 64 + j],
                        *a,
                        am_near_rep,
                    )),
                s == 0 ==> new,
            decreases s - k,
        {
            let b: &ZxArr = &arr[i * 64 + k];
            proof {
                let (x, y) = (b.reps@.take(3), a.reps@.take(3));
                if x == y {
                    assert(x[0] == y[0] && x[1] == y[1] && x[2] == y[2]);
                }
                if b.reps@[0] == a.reps@[0] && b.reps@[1] == a.reps@[1] && b.reps@[2] == a.reps@[2] {
                    assert(x =~= y);
                }
            }
            if b.reps[0] == a.reps[0] && b.reps[1] == a.reps[1] && b.reps[2] == a.reps[2] && (
            !am_near_rep || b.last_is_match == a.last_is_match) {
                new = false;
            }
            k += 1;
        }
        fresh.push(new);
        s += 1;
    }
    fresh
}

/// The arrival is live, in the state after a match (`am`) or after a literal
/// run, and has other recent offsets than those before that were taken.
pub open spec fn first_of_its_kind(arr: Seq<ZxArr>, fresh: Seq<bool>, i: int, am: bool, s: int) -> bool {
    let a = arr[i * 64 + s];
    &&& a.cost < ZX_INF
    &&& in_near_state(a, am)
    &&& forall|k: int| 0 <= k < s && #[trigger] fresh[k] ==> arr[i * 64 + k].reps@ != a.reps@
}

/// The arrivals of position `i` in the state after a match (`am`) or after a
/// literal run whose recent offsets no earlier one of them has.
pub fn fresh_for_rep(arr: &Vec<ZxArr>, i: usize, am: bool) -> (fresh: Vec<bool>)
    requires
        (i + 1) * 64 <= arr@.len(),
    ensures
        fresh@.len() == 64,
        forall|s: int|
            0 <= s < 64 ==> (#[trigger] fresh@[s] <==> first_of_its_kind(arr@, fresh@, i as int, am, s)),
{
    let total: usize = arr.len();
    let mut fresh: Vec<bool> = Vec::with_capacity(64);
    let mut s: usize = 0;
    while s < 64
        invariant
            total == arr@.len(),
            (i + 1) * 64 <= total,
            s <= 64,
            fresh@.len() == s,
            forall|t: int|
                0 <= t < s ==> (#[trigger] fresh@[t] <==> first_of_its_kind(arr@, fresh@, i as int, am, t)),
        decreases 64 - s,
    {
        let ghost before = fresh@;
        let a: &ZxArr = &arr[i * 64 + s];
        let mut new: bool = a.cost < ZX_INF && near_state(a, am);
        let mut k: usize = 0;
        while new && k < s
            invariant
                total == arr@.len(),
                (i + 1) * 64 <= total,
                k <= s < 64,
                fresh@.len() == s,
                fresh@ == before,
                *a == arr@[i * 64 + s],
                new ==> a.cost < ZX_INF && in_near_state(*a, am) && forall|j: int|
                    0 <= j < k && #[trigger] fresh@[j] ==> arr@[i * 64 + j].reps@ != a.reps@,
                !new ==> !(a.cost < ZX_INF && in_near_state(*a, am)) || exists|j: int|
                    0 <= j < s && #[trigger] fresh@[j] && arr@[i * 64 + j].reps@ == a.reps@,
            decreases s - k,
        {
            if fresh[k] && same_reps(&a.reps, &arr[i * 64 + k].reps) {
                new = false;
            }
            k += 1;
        }
        fresh.push(new);
        assert forall|t: int| 0 <= t <= s implies (#[trigger] fresh@[t] <==> first_of_its_kind(
            arr@,
            fresh@,
            i as int,
            am,
            t,
        )) by {
            assert(forall|k: int| 0 <= k < s ==> #[trigger] fresh@[k] == before[k]);
            if t < s {
                assert(before[t] <==> first_of_its_kind(arr@, before, i as int, am, t));
                assert(first_of_its_kind(arr@, before, i as int, am, t) <==> first_of_its_kind(
                    arr@,
                    fresh@,
                    i as int,
                    am,
                    t,
                )) by {
                    assert(forall|k: int| 0 <= k < t ==> #[trigger] before[k] == fresh@[k]);
                }
            } else if !new && first_of_its_kind(arr@, fresh@, i as int, am, t) {
                let j = choose|j: int|
                    0 <= j < s && #[trigger] before[j] && arr@[i * 64 + j].reps@ == a.reps@;
                assert(fresh@[j]);
            }
        }
        s += 1;
    }
    fresh
}

/// Bits of the length `l` of a step.
pub open spec fn span_bits_of(kind: u8, l: int) -> int {
    bitio::gamma_len(
        (if kind == 2 {
            l
        } else {
            l - 1
        }) as nat,
    ) as int
}

/// The next length whose code is longer.
spec fn edge_of(kind: u8, l: int) -> int {
    if kind == 2 {
        top_of(l)
    } else {
        top_of(l - 1) + 1
    }
}

/// The next power of two.
spec fn top_of(v: int) -> int
    decreases v,
{
    if v <= 0 {
        1
    } else {
        2 * top_of(v / 2)
    }
}

proof fn lemma_top_of(v: int)
    requires
        v >= 1,
    ensures
        v < top_of(v) <= 2 * v,
        v + 1 < top_of(v) ==> top_of(v + 1) == top_of(v) && bitio::gamma_len((v + 1) as nat)
            == bitio::gamma_len(v as nat),
    decreases v,
{
    reveal_with_fuel(top_of, 3);
    if v >= 2 {
        lemma_top_of(v / 2);
        if v + 1 < top_of(v) {
            if (v + 1) / 2 != v / 2 {
                assert((v + 1) / 2 == v / 2 + 1);
            }
        }
    }
}

proof fn lemma_span_same(kind: u8, l: int)
    requires
        l >= 1,
        kind != 2 ==> l >= 2,
        l + 1 < edge_of(kind, l),
    ensures
        span_bits_of(kind, l + 1) == span_bits_of(kind, l),
        edge_of(kind, l + 1) == edge_of(kind, l),
{
    lemma_top_of(
        if kind == 2 {
            l
        } else {
            l - 1
        },
    );
}

fn span_bits(kind: u8, l: u32) -> (bits: u32)
    requires
        l >= 1,
        kind != 2 ==> l >= 2,
    ensures
        bits == span_bits_of(kind, l as int),
        bits <= 70,
{
    if kind == 2 {
        rep_len_bits(l)
    } else {
        newoff_len_bits(l - 1)
    }
}

fn next_edge(kind: u8, l: u32) -> (edge: u64)
    requires
        l >= 1,
        kind != 2 ==> l >= 2,
    ensures
        edge == edge_of(kind, l as int),
{
    let v: u64 = if kind == 2 {
        l as u64
    } else {
        l as u64 - 1
    };
    if kind == 2 {
        power_above(v)
    } else {
        power_above(v) + 1
    }
}

fn power_above(v: u64) -> (top: u64)
    requires
        v <= 0xffff_ffff,
    ensures
        top == top_of(v as int),
        top <= 2 * v + 1,
    decreases v,
{
    if v == 0 {
        1
    } else {
        proof {
            lemma_top_of(v as int);
        }
        2 * power_above(v / 2)
    }
}

/// The lengths of a match that are tried: those up to `span` above the
/// shortest, and the full length.
pub open spec fn in_span(lo: int, hi: int, span: int, l: int) -> bool {
    lo <= l <= hi && (l - lo <= span || l == hi)
}

/// A step by a match out of position `i`: where it comes from, what it costs
/// without its length, and the recent offsets behind it.
pub struct Step {
    pub i: int,
    pub slot: int,
    pub base: int,
    pub reps: Seq<u32>,
    pub kind: u8,
    pub ri: int,
    pub score: u32,
}

/// The arrival `c` comes by the step, of length `l`.
pub open spec fn match_after(st: Step, l: int, c: ZxArr) -> bool {
    &&& c.cost == st.base + span_bits_of(st.kind, l)
    &&& c.reps@ == st.reps
    &&& c.num_lits == 0
    &&& c.last_is_match
    &&& c.from_pos == st.i
    &&& c.from_slot == st.slot
    &&& c.step_kind == st.kind
    &&& c.step_ri == st.ri
    &&& c.rep_pos == st.i
    &&& c.score == st.score
}

/// What the step leads to by the lengths below `below`.
pub open spec fn span_offers(st: Step, lo: int, hi: int, span: int, below: int) -> Set<(int, ZxArr)> {
    Set::new(
        |p: (int, ZxArr)|
            in_span(lo, hi, span, p.0 - st.i) && p.0 - st.i < below && match_after(
                st,
                p.0 - st.i,
                p.1,
            ),
    )
}

/// With some length below `below` the step costs at most a bit more than the
/// last place of the row that it leads to.
pub open spec fn some_hope(
    arr: Seq<ZxArr>,
    width: int,
    st: Step,
    lo: int,
    hi: int,
    span: int,
    below: int,
) -> bool {
    exists|l: int| #[trigger]
        in_span(lo, hi, span, l) && l < below && st.base + span_bits_of(st.kind, l) <= arr[(st.i + l)
            * 64 + width - 1].cost + 1
}

/// What is of no use is of none when it is worse.
proof fn lemma_worse_of_no_use(
    row: Seq<ZxArr>,
    width: int,
    reps: Seq<u32>,
    cost: u64,
    score: u32,
    cost2: u64,
    score2: u32,
)
    requires
        zxrows::has_use_no_more(row, width, 0, true, reps, cost, score),
        cost < cost2 || (cost == cost2 && score <= score2),
    ensures
        zxrows::has_use_no_more(row, width, 0, true, reps, cost2, score2),
{
    if cost2 < ZX_INF && !zxrows::no_better(cost2, score2, row[width - 1]) {
        let k = choose|k: int|
            0 <= k < width && #[trigger] zxrows::stands_for(row[k], 0, true, reps, cost, score);
        assert(zxrows::stands_for(row[k], 0, true, reps, cost2, score2));
    }
}

/// One more length, whose arrival was taken or is of no use.
proof fn lemma_span_step(
    a0: Seq<ZxArr>,
    a1: Seq<ZxArr>,
    a2: Seq<ZxArr>,
    width: int,
    n: int,
    st: Step,
    lo: int,
    hi: int,
    span: int,
    l: int,
    cand: ZxArr,
    t: Set<(int, ZxArr)>,
)
    requires
        a0.len() == (n + 1) * 64,
        0 <= st.i,
        st.i + l <= n,
        in_span(lo, hi, span, l),
        lo >= 0,
        match_after(st, l, cand),
        t.subset_of(set![(st.i + l, cand)]),
        zxrows::took(a0, a1, width, n, span_offers(st, lo, hi, span, l)),
        zxrows::took(a1, a2, width, n, t),
        zxrows::covers(row_of(a2, st.i + l), width, cand),
    ensures
        zxrows::took(a0, a2, width, n, span_offers(st, lo, hi, span, l + 1)),
{
    let s = span_offers(st, lo, hi, span, l);
    let u = span_offers(st, lo, hi, span, l + 1);
    assert(u.contains((st.i + l, cand)));
    assert forall|p: (int, ZxArr)| #[trigger] t.contains(p) implies u.contains(p) by {
        assert(set![(st.i + l, cand)].contains(p));
    }
    zxrows::lemma_took_more(a0, a1, a2, width, n, s, t, u);
}

/// A match of every length from `lo` up; far above `lo` only the full length.
/// False where no arrival of this cost, or one bit cheaper, would be kept.
fn dp_span(
    arr: &mut Vec<ZxArr>,
    lim: &mut Limits,
    i: usize,
    slot: usize,
    width: usize,
    base: u64,
    reps: [u32; 4],
    kind: u8,
    ri: i8,
    off: u32,
    lo: u32,
    hi: u32,
    span: u32,
    score: u32,
    Ghost(input): Ghost<Seq<u8>>,
) -> (hope: bool)
    requires
        dp_ok(input, old(arr)@, i + 1),
        in_step(old(arr)@, old(lim), width as int, input.len() as int),
        dp_fits(input.len() as int),
        i < input.len(),
        slot < width <= 64,
        old(arr)@[i * 64 + slot].cost < ZX_INF,
        base <= ZX_INF + 0x1000,
        1 <= kind,
        -1 <= ri <= 1,
        1 <= lo <= hi,
        kind != 2 ==> lo >= 2,
        reps@[0] == off,
        lz::is_match(input, i as int, off as int, hi as int),
    ensures
        dp_ok(input, final(arr)@, i + 1),
        in_step(final(arr)@, final(lim), width as int, input.len() as int),
        same_rows(old(arr)@, final(arr)@, i + 1),
        ({
            let st = Step {
                i: i as int,
                slot: slot as int,
                base: base as int,
                reps: reps@,
                kind,
                ri: ri as int,
                score,
            };
            &&& zxrows::took(
                old(arr)@,
                final(arr)@,
                width as int,
                input.len() as int,
                span_offers(st, lo as int, hi as int, span as int, hi + 1),
            )
            &&& hope == some_hope(
                old(arr)@,
                width as int,
                st,
                lo as int,
                hi as int,
                span as int,
                hi + 1,
            )
        }),
{
    let ghost a0 = arr@;
    let ghost n = input.len() as int;
    let ghost st = Step {
        i: i as int,
        slot: slot as int,
        base: base as int,
        reps: reps@,
        kind,
        ri: ri as int,
        score,
    };
    let place: usize = offer_place(&reps);
    let mut hope: bool = false;
    let mut l: u32 = lo;
    let mut add: u32 = span_bits(kind, lo);
    let mut edge: u64 = next_edge(kind, lo);
    proof {
        zxrows::lemma_took_none(a0, width as int, n);
        assert(span_offers(st, lo as int, hi as int, span as int, lo as int) =~= Set::empty());
    }
    loop
        invariant_except_break
            in_span(lo as int, hi as int, span as int, l as int),
            zxrows::took(
                a0,
                arr@,
                width as int,
                n,
                span_offers(st, lo as int, hi as int, span as int, l as int),
            ),
            hope == some_hope(
                a0,
                width as int,
                st,
                lo as int,
                hi as int,
                span as int,
                l as int,
            ),
            forall|q: int| i + l <= q <= n ==> #[trigger] row_of(arr@, q) == row_of(a0, q),
        invariant
            i < input.len(),
            n == input.len(),
            a0.len() == (n + 1) * 64,
            slot < width <= 64,
            dp_fits(input.len() as int),
            a0[i * 64 + slot].cost < ZX_INF,
            base <= ZX_INF + 0x1000,
            1 <= kind,
            -1 <= ri <= 1,
            1 <= lo <= l <= hi,
            kind != 2 ==> lo >= 2,
            reps@[0] == off,
            place < 256,
            add == span_bits_of(kind, l as int),
            add <= 70,
            edge == edge_of(kind, l as int),
            st == (Step {
                i: i as int,
                slot: slot as int,
                base: base as int,
                reps: reps@,
                kind,
                ri: ri as int,
                score,
            }),
            lz::is_match(input, i as int, off as int, hi as int),
            dp_ok(input, arr@, i + 1),
            in_step(arr@, lim, width as int, n),
            same_rows(a0, arr@, i + 1),
        ensures
            zxrows::took(
                a0,
                arr@,
                width as int,
                n,
                span_offers(st, lo as int, hi as int, span as int, hi + 1),
            ),
            hope == some_hope(
                a0,
                width as int,
                st,
                lo as int,
                hi as int,
                span as int,
                hi + 1,
            ),
        decreases hi - l,
    {
        let ghost before = arr@;
        let ghost lim0 = *lim;
        proof {
            lemma_shorter_match(input, i as int, off as int, hi as int, l as int);
            assert(a0[i * 64 + slot] == arr@[i * 64 + slot]);
            assert(i + l <= input.len());
            assert(row_of(arr@, i + l)[width - 1] == arr@[(i + l) * 64 + width - 1]);
            assert(row_of(a0, i + l)[width - 1] == a0[(i + l) * 64 + width - 1]);
            zxrows::lemma_took_none(before, width as int, n);
        }
        let cost: u64 = base + add as u64;
        let limit: u64 = lim.worst[i + l as usize];
        let cand: ZxArr = ZxArr {
            cost,
            reps,
            num_lits: 0,
            last_is_match: true,
            from_pos: i as u32,
            from_slot: slot as u8,
            step_kind: kind,
            step_ri: ri,
            rep_pos: i as u32,
            score,
        };
        assert(match_after(st, l as int, cand));
        let ghost hope0 = hope;
        if cost <= limit.saturating_add(1) {
            hope = true;
        }
        proof {
            lemma_hope_step(
                a0,
                width as int,
                st,
                lo as int,
                hi as int,
                span as int,
                l as int,
                hope0,
            );
        }
        let ghost mut took_now: Set<(int, ZxArr)> = Set::empty();
        if cost < limit || (cost == limit && score < lim.worst_score[i + l as usize]) {
            if lim.offer(
                i + l as usize,
                place,
                &reps,
                cost,
                score,
                Ghost(input.len() as int),
            ) {
                let ghost lim1 = *lim;
                dp_push(arr, lim, i + l as usize, width, cand, Ghost(input), Ghost(i + 1));
                proof {
                    took_now = set![(i + l, cand)];
                    zxrows::lemma_took_use(before, arr@, width as int, n, took_now, i + l, cand);
                    lemma_offers_kept(&lim0, before, arr@, width as int, n, took_now);
                    assert(lim.offers@ == lim1.offers@);
                    assert forall|k: int|
                        0 <= k < lim.offers@.len() && (#[trigger] lim.offers@[k]).pos >= 1 implies
                        lim.offers@[k].pos <= n && offer_met(arr@, width as int, lim.offers@[k]) by {
                        let at = ((i + l) % lim0.rows as int) * 256 + place;
                        if k != at {
                            assert(lim.offers@[k] == lim0.offers@[k]);
                        }
                    }
                    assert(lim.offers_right(arr@, width as int, n));
                    assert(in_step(arr@, lim, width as int, n));
                }
            } else {
                assert(lim.of(n));
                assert(lim.worst_right(arr@, width as int));
                assert(lim.offers_right(arr@, width as int, n));
                proof {
                    let at = ((i + l) % lim0.rows as int) * 256 + place;
                    let o = lim0.offers@[at];
                    assert(offer_met(before, width as int, o));
                    lemma_worse_of_no_use(
                        row_of(before, i + l),
                        width as int,
                        reps@,
                        o.cost,
                        o.score,
                        cost,
                        score,
                    );
                }
            }
        }
        proof {
            lemma_span_step(
                a0,
                before,
                arr@,
                width as int,
                n,
                st,
                lo as int,
                hi as int,
                span as int,
                l as int,
                cand,
                took_now,
            );
        }
        if l == hi {
            break;
        }
        let ghost l0 = l as int;
        if l - lo >= span {
            l = hi;
            add = span_bits(kind, l);
            edge = next_edge(kind, l);
        } else {
            l = l + 1;
            if l as u64 >= edge {
                add = span_bits(kind, l);
                edge = next_edge(kind, l);
            } else {
                proof {
                    lemma_span_same(kind, l - 1);
                }
            }
        }
        proof {
            assert forall|x: int| #[trigger]
                in_span(lo as int, hi as int, span as int, x) && x < l implies x < l0 + 1 by {}
            assert(span_offers(st, lo as int, hi as int, span as int, l0 + 1) =~= span_offers(
                st,
                lo as int,
                hi as int,
                span as int,
                l as int,
            ));
            assert(some_hope(
                a0,
                width as int,
                st,
                lo as int,
                hi as int,
                span as int,
                l0 + 1,
            ) == some_hope(a0, width as int, st, lo as int, hi as int, span as int, l as int));
        }
    }
    hope
}

proof fn lemma_hope_step(
    arr: Seq<ZxArr>,
    width: int,
    st: Step,
    lo: int,
    hi: int,
    span: int,
    l: int,
    hope: bool,
)
    requires
        in_span(lo, hi, span, l),
        hope == some_hope(arr, width, st, lo, hi, span, l),
    ensures
        some_hope(arr, width, st, lo, hi, span, l + 1) == (hope || st.base + span_bits_of(
            st.kind,
            l,
        ) <= arr[(st.i + l) * 64 + width - 1].cost + 1),
{
    if hope {
        let x = choose|x: int| #[trigger]
            in_span(lo, hi, span, x) && x < l && st.base + span_bits_of(st.kind, x) <= arr[(st.i + x)
                * 64 + width - 1].cost + 1;
        assert(in_span(lo, hi, span, x) && x < l + 1);
    }
}

/// The step that the arrival in `slot` makes by the new offset `off`.
pub open spec fn new_offset_step(
    row: Seq<ZxArr>,
    i: int,
    slot: int,
    rep_slots: int,
    am_near_rep: bool,
    off: u32,
) -> Step {
    let a = row[slot];
    Step {
        i,
        slot,
        base: a.cost + zx::off_len(off as int) + if am_near_rep && a.last_is_match {
            2
        } else {
            1int
        },
        reps: if rep_slots == 1 {
            seq![off, 1u32, 1u32, 1u32]
        } else {
            seq![off, a.reps@[0], a.reps@[1], a.reps@[2]]
        },
        kind: 1,
        ri: -1,
        score: capped_sum(a.score, 3),
    }
}

/// What the first `k` places of the row of `i` that are marked lead to by the
/// new offset `off`.
pub open spec fn new_offset_offers(
    row: Seq<ZxArr>,
    i: int,
    rep_slots: int,
    am_near_rep: bool,
    fresh: Seq<bool>,
    off: u32,
    lo: int,
    hi: int,
    span: int,
    k: int,
) -> Set<(int, ZxArr)> {
    Set::new(
        |p: (int, ZxArr)|
            exists|s: int|
                0 <= s < k && row[s].cost < ZX_INF && fresh[s] && #[trigger] span_offers(
                    new_offset_step(row, i, s, rep_slots, am_near_rep, off),
                    lo,
                    hi,
                    span,
                    hi + 1,
                ).contains(p),
    )
}

/// Where one place has no hope, those behind it lead to nothing of use.
proof fn lemma_no_hope(
    arr: Seq<ZxArr>,
    row: Seq<ZxArr>,
    width: int,
    n: int,
    i: int,
    rep_slots: int,
    am_near_rep: bool,
    off: u32,
    lo: int,
    hi: int,
    span: int,
    slot: int,
    s: int,
    pos: int,
    x: ZxArr,
)
    requires
        arr.len() == (n + 1) * 64,
        0 <= i,
        i + hi <= n,
        1 <= lo <= hi,
        1 <= width <= 64,
        zxrows::row_in_order(row, width),
        0 <= slot < s < width,
        !some_hope(
            arr,
            width,
            new_offset_step(row, i, slot, rep_slots, am_near_rep, off),
            lo,
            hi,
            span,
            hi + 1,
        ),
        span_offers(
            new_offset_step(row, i, s, rep_slots, am_near_rep, off),
            lo,
            hi,
            span,
            hi + 1,
        ).contains((pos, x)),
    ensures
        0 <= pos <= n ==> zxrows::covers(row_of(arr, pos), width, x),
{
    let l = pos - i;
    assert(in_span(lo, hi, span, l));
    assert(zxrows::no_better(row[s].cost, row[s].score, row[slot]));
    assert(row_of(arr, pos)[width - 1] == arr[pos * 64 + width - 1]);
}

/// One new-offset candidate from every arrival.
pub fn dp_new_offset(
    arr: &mut Vec<ZxArr>,
    lim: &mut Limits,
    i: usize,
    width: usize,
    rep_slots: usize,
    am_near_rep: bool,
    fresh: &Vec<bool>,
    off: u32,
    lo: u32,
    hi: u32,
    span: u32,
    Ghost(input): Ghost<Seq<u8>>,
)
    requires
        dp_ok(input, old(arr)@, i + 1),
        in_step(old(arr)@, old(lim), width as int, input.len() as int),
        dp_fits(input.len() as int),
        i < input.len(),
        1 <= width <= 64,
        fresh@.len() == width,
        2 <= lo <= hi,
        lz::is_match(input, i as int, off as int, hi as int),
    ensures
        dp_ok(input, final(arr)@, i + 1),
        in_step(final(arr)@, final(lim), width as int, input.len() as int),
        same_rows(old(arr)@, final(arr)@, i + 1),
        zxrows::took(
            old(arr)@,
            final(arr)@,
            width as int,
            input.len() as int,
            new_offset_offers(
                row_of(old(arr)@, i as int),
                i as int,
                rep_slots as int,
                am_near_rep,
                fresh@,
                off,
                lo as int,
                hi as int,
                span as int,
                width as int,
            ),
        ),
{
    let ghost a0 = arr@;
    let ghost n = input.len() as int;
    let ghost row = row_of(a0, i as int);
    let off_c: u64 = offset_cost_bits_hc(off) as u64;
    let mut slot: usize = 0;
    let ghost offers = |k: int|
        new_offset_offers(
            row,
            i as int,
            rep_slots as int,
            am_near_rep,
            fresh@,
            off,
            lo as int,
            hi as int,
            span as int,
            k,
        );
    proof {
        zxrows::lemma_took_none(a0, width as int, n);
        assert(offers(0) =~= Set::empty());
        assert(zxrows::row_in_order(row, width as int));
    }
    while slot < width
        invariant_except_break
            zxrows::took(a0, arr@, width as int, n, offers(slot as int)),
        invariant
            slot <= width <= 64,
            i < input.len(),
            n == input.len(),
            a0.len() == (n + 1) * 64,
            row == row_of(a0, i as int),
            zxrows::row_in_order(row, width as int),
            offers == (|k: int|
                new_offset_offers(
                    row,
                    i as int,
                    rep_slots as int,
                    am_near_rep,
                    fresh@,
                    off,
                    lo as int,
                    hi as int,
                    span as int,
                    k,
                )),
            dp_fits(input.len() as int),
            2 <= lo <= hi,
            off_c == zx::off_len(off as int),
            off_c <= 70,
            fresh@.len() == width,
            lz::is_match(input, i as int, off as int, hi as int),
            dp_ok(input, arr@, i + 1),
            in_step(arr@, lim, width as int, n),
            same_rows(a0, arr@, i + 1),
        ensures
            zxrows::took(a0, arr@, width as int, n, offers(width as int)),
        decreases width - slot,
    {
        let a: ZxArr = arr[i * 64 + slot];
        assert(a == row[slot as int]);
        if a.cost >= ZX_INF {
            proof {
                assert forall|s: int| slot < s < width implies (#[trigger] row[s]).cost >= ZX_INF by {
                    assert(zxrows::no_better(row[s].cost, row[s].score, row[slot as int]));
                }
                assert(offers(slot as int) =~= offers(width as int));
            }
            break;
        }
        if !fresh[slot] {
            proof {
                assert(offers(slot as int) =~= offers(slot + 1));
            }
            slot += 1;
            continue;
        }
        let flag: u64 = if am_near_rep && a.last_is_match {
            2
        } else {
            1
        };
        let reps: [u32; 4] = if rep_slots == 1 {
            zx_rep_insert1(off)
        } else {
            zx_rep_insert(a.reps, off)
        };
        let ghost before = arr@;
        let ghost st = new_offset_step(
            row,
            i as int,
            slot as int,
            rep_slots as int,
            am_near_rep,
            off,
        );
        let hope: bool = dp_span(
            arr,
            lim,
            i,
            slot,
            width,
            a.cost + flag + off_c,
            reps,
            1,
            -1,
            off,
            lo,
            hi,
            span,
            a.score.saturating_add(3),
            Ghost(input),
        );
        proof {
            let t = span_offers(st, lo as int, hi as int, span as int, hi + 1);
            let s = offers(slot as int);
            let u = offers(slot + 1);
            assert(zxrows::took(before, arr@, width as int, n, t));
            assert forall|p: (int, ZxArr)| #[trigger] t.contains(p) implies u.contains(p) by {}
            zxrows::lemma_took_more(a0, before, arr@, width as int, n, s, t, u);
        }
        if !hope {
            proof {
                let s = offers(slot + 1);
                let u = offers(width as int);
                assert forall|pos: int, x: ZxArr| #[trigger]
                    u.contains((pos, x)) && 0 <= pos <= n implies s.contains((pos, x))
                    || zxrows::covers(row_of(arr@, pos), width as int, x) by {
                    let y = choose|y: int|
                        0 <= y < width && row[y].cost < ZX_INF && fresh@[y]
                            && #[trigger] span_offers(
                            new_offset_step(
                                row,
                                i as int,
                                y,
                                rep_slots as int,
                                am_near_rep,
                                off,
                            ),
                            lo as int,
                            hi as int,
                            span as int,
                            hi + 1,
                        ).contains((pos, x));
                    if y <= slot {
                        assert(s.contains((pos, x)));
                    } else {
                        lemma_no_hope(
                            before,
                            row,
                            width as int,
                            n,
                            i as int,
                            rep_slots as int,
                            am_near_rep,
                            off,
                            lo as int,
                            hi as int,
                            span as int,
                            slot as int,
                            y,
                            pos,
                            x,
                        );
                        zxrows::lemma_took_use(
                            before,
                            arr@,
                            width as int,
                            n,
                            span_offers(st, lo as int, hi as int, span as int, hi + 1),
                            pos,
                            x,
                        );
                    }
                }
                zxrows::lemma_took_none(arr@, width as int, n);
                zxrows::lemma_took_more(a0, arr@, arr@, width as int, n, s, Set::empty(), u);
            }
            break;
        }
        slot += 1;
    }
}

proof fn lemma_same_row(a: Seq<ZxArr>, b: Seq<ZxArr>, i: int)
    requires
        same_rows(a, b, i + 1),
        0 <= i,
        (i + 1) * 64 <= a.len(),
    ensures
        row_of(a, i) == row_of(b, i),
{
    assert(row_of(a, i) =~= row_of(b, i));
}

/// The shortest length that candidate `c` of a front is tried with: one more
/// than the candidate before it has.
pub open spec fn front_lo(list: Seq<Match>, c: int) -> int {
    if c <= 0 {
        2
    } else {
        list[c - 1].length + 1
    }
}

/// Candidate `c` is tried.
pub open spec fn front_tried(list: Seq<Match>, c: int) -> bool {
    front_lo(list, c) <= list[c].length && list[c].offset <= MAX_OFFSET
}

/// What the row of `i` leads to by the first `k` candidates of a front.
pub open spec fn front_offers(
    row: Seq<ZxArr>,
    i: int,
    list: Seq<Match>,
    width: int,
    rep_slots: int,
    am_near_rep: bool,
    fresh: Seq<bool>,
    span: int,
    k: int,
) -> Set<(int, ZxArr)> {
    Set::new(
        |p: (int, ZxArr)|
            exists|c: int|
                0 <= c < k && front_tried(list, c) && #[trigger] new_offset_offers(
                    row,
                    i,
                    rep_slots,
                    am_near_rep,
                    fresh,
                    list[c].offset,
                    front_lo(list, c),
                    list[c].length as int,
                    span,
                    width,
                ).contains(p),
    )
}

/// New offsets from the front of the match set.
pub fn dp_front(
    arr: &mut Vec<ZxArr>,
    lim: &mut Limits,
    ms: &MatchSet,
    i: usize,
    width: usize,
    rep_slots: usize,
    am_near_rep: bool,
    fresh: &Vec<bool>,
    span: u32,
    Ghost(input): Ghost<Seq<u8>>,
)
    requires
        dp_ok(input, old(arr)@, i + 1),
        in_step(old(arr)@, old(lim), width as int, input.len() as int),
        dp_fits(input.len() as int),
        i < input.len(),
        1 <= width <= 64,
        fresh@.len() == width,
        ms.of(input),
    ensures
        dp_ok(input, final(arr)@, i + 1),
        in_step(final(arr)@, final(lim), width as int, input.len() as int),
        same_rows(old(arr)@, final(arr)@, i + 1),
        zxrows::took(
            old(arr)@,
            final(arr)@,
            width as int,
            input.len() as int,
            front_offers(
                row_of(old(arr)@, i as int),
                i as int,
                ms.list(i as int),
                width as int,
                rep_slots as int,
                am_near_rep,
                fresh@,
                span as int,
                ms.list(i as int).len() as int,
            ),
        ),
{
    let ghost a0 = arr@;
    let ghost n = input.len() as int;
    let ghost row = row_of(a0, i as int);
    let list: &Vec<Match> = ms.matches_for(i);
    let mut prev_len: u32 = MIN_MATCH - 1;
    let mut c: usize = 0;
    let ghost offers = |k: int|
        front_offers(
            row,
            i as int,
            list@,
            width as int,
            rep_slots as int,
            am_near_rep,
            fresh@,
            span as int,
            k,
        );
    proof {
        zxrows::lemma_took_none(a0, width as int, n);
        assert(offers(0) =~= Set::empty());
    }
    while c < list.len()
        invariant
            c <= list@.len(),
            i < input.len(),
            n == input.len(),
            a0.len() == (n + 1) * 64,
            row == row_of(a0, i as int),
            1 <= width <= 64,
            fresh@.len() == width,
            dp_fits(input.len() as int),
            1 <= prev_len <= 0x3fff_ffff,
            prev_len + 1 == front_lo(list@, c as int),
            matchfinder::candidates_ok(input, i as int, list@, ms.max_offset()),
            dp_ok(input, arr@, i + 1),
            in_step(arr@, lim, width as int, n),
            same_rows(a0, arr@, i + 1),
            offers == (|k: int|
                front_offers(
                    row,
                    i as int,
                    list@,
                    width as int,
                    rep_slots as int,
                    am_near_rep,
                    fresh@,
                    span as int,
                    k,
                )),
            zxrows::took(a0, arr@, width as int, n, offers(c as int)),
        decreases list@.len() - c,
    {
        let cand: Match = list[c];
        let ghost c0 = c as int;
        let ghost before = arr@;
        c += 1;
        let lo: u32 = prev_len + 1;
        let hi: u32 = cand.length;
        prev_len = hi;
        if hi >= lo && cand.offset <= MAX_OFFSET {
            dp_new_offset(
                arr,
                lim,
                i,
                width,
                rep_slots,
                am_near_rep,
                fresh,
                cand.offset,
                lo,
                hi,
                span,
                Ghost(input),
            );
            proof {
                lemma_same_row(a0, before, i as int);
                let t = new_offset_offers(
                    row,
                    i as int,
                    rep_slots as int,
                    am_near_rep,
                    fresh@,
                    list@[c0].offset,
                    front_lo(list@, c0),
                    list@[c0].length as int,
                    span as int,
                    width as int,
                );
                let s = offers(c0);
                let u = offers(c0 + 1);
                assert(zxrows::took(before, arr@, width as int, n, t));
                assert(front_tried(list@, c0));
                assert forall|p: (int, ZxArr)| #[trigger] t.contains(p) implies u.contains(p) by {}
                zxrows::lemma_took_more(a0, before, arr@, width as int, n, s, t, u);
            }
        } else {
            proof {
                assert(!front_tried(list@, c0));
                assert(offers(c0) =~= offers(c0 + 1));
            }
        }
    }
}

/// What the row of `i` leads to by the first `k` pairs of a list.
pub open spec fn extra_offers(
    row: Seq<ZxArr>,
    i: int,
    list: Seq<(u32, u32)>,
    width: int,
    rep_slots: int,
    am_near_rep: bool,
    fresh: Seq<bool>,
    span: int,
    k: int,
) -> Set<(int, ZxArr)> {
    Set::new(
        |p: (int, ZxArr)|
            exists|c: int|
                0 <= c < k && list[c].0 <= MAX_OFFSET && #[trigger] new_offset_offers(
                    row,
                    i,
                    rep_slots,
                    am_near_rep,
                    fresh,
                    list[c].0,
                    2,
                    list[c].1 as int,
                    span,
                    width,
                ).contains(p),
    )
}

/// New offsets from a list of further candidates.
pub fn dp_extra(
    arr: &mut Vec<ZxArr>,
    lim: &mut Limits,
    list: &Vec<(u32, u32)>,
    i: usize,
    width: usize,
    rep_slots: usize,
    am_near_rep: bool,
    fresh: &Vec<bool>,
    span: u32,
    Ghost(input): Ghost<Seq<u8>>,
)
    requires
        dp_ok(input, old(arr)@, i + 1),
        in_step(old(arr)@, old(lim), width as int, input.len() as int),
        dp_fits(input.len() as int),
        i < input.len(),
        1 <= width <= 64,
        fresh@.len() == width,
        matchfinder::pairs_ok(input, i as int, list@),
    ensures
        dp_ok(input, final(arr)@, i + 1),
        in_step(final(arr)@, final(lim), width as int, input.len() as int),
        same_rows(old(arr)@, final(arr)@, i + 1),
        zxrows::took(
            old(arr)@,
            final(arr)@,
            width as int,
            input.len() as int,
            extra_offers(
                row_of(old(arr)@, i as int),
                i as int,
                list@,
                width as int,
                rep_slots as int,
                am_near_rep,
                fresh@,
                span as int,
                list@.len() as int,
            ),
        ),
{
    let ghost a0 = arr@;
    let ghost n = input.len() as int;
    let ghost row = row_of(a0, i as int);
    let mut c: usize = 0;
    let ghost offers = |k: int|
        extra_offers(
            row,
            i as int,
            list@,
            width as int,
            rep_slots as int,
            am_near_rep,
            fresh@,
            span as int,
            k,
        );
    proof {
        zxrows::lemma_took_none(a0, width as int, n);
        assert(offers(0) =~= Set::empty());
    }
    while c < list.len()
        invariant
            c <= list@.len(),
            i < input.len(),
            n == input.len(),
            a0.len() == (n + 1) * 64,
            row == row_of(a0, i as int),
            1 <= width <= 64,
            fresh@.len() == width,
            dp_fits(input.len() as int),
            matchfinder::pairs_ok(input, i as int, list@),
            dp_ok(input, arr@, i + 1),
            in_step(arr@, lim, width as int, n),
            same_rows(a0, arr@, i + 1),
            offers == (|k: int|
                extra_offers(
                    row,
                    i as int,
                    list@,
                    width as int,
                    rep_slots as int,
                    am_near_rep,
                    fresh@,
                    span as int,
                    k,
                )),
            zxrows::took(a0, arr@, width as int, n, offers(c as int)),
        decreases list@.len() - c,
    {
        let pair: (u32, u32) = list[c];
        let ghost c0 = c as int;
        let ghost before = arr@;
        c += 1;
        if pair.0 <= MAX_OFFSET {
            dp_new_offset(
                arr,
                lim,
                i,
                width,
                rep_slots,
                am_near_rep,
                fresh,
                pair.0,
                MIN_MATCH,
                pair.1,
                span,
                Ghost(input),
            );
            proof {
                lemma_same_row(a0, before, i as int);
                let t = new_offset_offers(
                    row,
                    i as int,
                    rep_slots as int,
                    am_near_rep,
                    fresh@,
                    list@[c0].0,
                    2,
                    list@[c0].1 as int,
                    span as int,
                    width as int,
                );
                let s = offers(c0);
                let u = offers(c0 + 1);
                assert(zxrows::took(before, arr@, width as int, n, t));
                assert forall|p: (int, ZxArr)| #[trigger] t.contains(p) implies u.contains(p) by {}
                zxrows::lemma_took_more(a0, before, arr@, width as int, n, s, t, u);
            }
        } else {
            proof {
                assert(offers(c0) =~= offers(c0 + 1));
            }
        }
    }
}

/// What may still be spent at position `i` to reach `i + l` in time.
pub open spec fn room_for(worst: Seq<u64>, i: int, l: int) -> int {
    worst[i + l] - bitio::gamma_len(l as nat)
}

/// No arrival of position `i` that costs more leads by a recent offset to one
/// that is kept.
fn rep_limit(lim: &Limits, i: usize, cap: usize, Ghost(n): Ghost<int>) -> (limit: u64)
    requires
        lim.of(n),
        i + cap <= n,
        n <= 0x3fff_ffff,
    ensures
        forall|l: int| 1 <= l <= cap ==> #[trigger] room_for(lim.worst@, i as int, l) <= limit,
        limit == 0 || exists|l: int|
            1 <= l <= cap && #[trigger] room_for(lim.worst@, i as int, l) == limit,
{
    let mut limit: u64 = 0;
    let mut l: usize = 1;
    let mut bits: u64 = 1;
    let mut edge: usize = 2;
    while l <= cap
        invariant
            lim.of(n),
            i + cap <= n,
            n <= 0x3fff_ffff,
            1 <= l <= cap + 1,
            l == 1 ==> edge == 2 && bits == 1,
            l > 1 ==> edge == top_of(l - 1) && bits == bitio::gamma_len((l - 1) as nat),
            edge <= 2 * l,
            bits <= 2 * l,
            forall|k: int| 1 <= k < l ==> #[trigger] room_for(lim.worst@, i as int, k) <= limit,
            limit == 0 || exists|k: int|
                1 <= k < l && #[trigger] room_for(lim.worst@, i as int, k) == limit,
        decreases cap + 1 - l,
    {
        let ghost limit0 = limit;
        proof {
            if l > 1 {
                lemma_top_of(l - 1);
                lemma_top_next(l - 1);
            } else {
                reveal_with_fuel(top_of, 3);
                reveal_with_fuel(bitio::floor_log2, 2);
            }
        }
        if l == edge {
            bits += 2;
            edge = 2 * edge;
        }
        proof {
            lemma_top_of(l as int);
        }
        assert(bits == bitio::gamma_len(l as nat));
        assert(edge == top_of(l as int));
        let room: u64 = lim.worst[i + l].saturating_sub(bits);
        if room > limit {
            limit = room;
            assert(room_for(lim.worst@, i as int, l as int) == limit);
        } else {
            proof {
                if limit0 > 0 {
                    let k = choose|k: int|
                        1 <= k < l && #[trigger] room_for(lim.worst@, i as int, k) == limit0;
                    assert(room_for(lim.worst@, i as int, k) == limit);
                }
            }
        }
        l += 1;
    }
    limit
}

/// What a power of two does to both.
proof fn lemma_top_next(v: int)
    requires
        v >= 1,
    ensures
        v + 1 == top_of(v) ==> top_of(v + 1) == 2 * top_of(v) && bitio::gamma_len((v + 1) as nat)
            == bitio::gamma_len(v as nat) + 2,
    decreases v,
{
    reveal_with_fuel(top_of, 3);
    reveal_with_fuel(bitio::floor_log2, 3);
    if v >= 2 && v + 1 == top_of(v) {
        assert(v % 2 == 1);
        assert((v + 1) / 2 == v / 2 + 1);
        lemma_top_next(v / 2);
    }
}

/// Length of the run of `off`, at most `cap`.
pub open spec fn capped_run(input: Seq<u8>, p: int, off: int, cap: int) -> int {
    if matchfinder::run_at(input, p, off) > cap {
        cap
    } else {
        matchfinder::run_at(input, p, off) as int
    }
}

/// Bits in front of the length of a match with recent offset `ridx`.
pub open spec fn rep_prefix(near_rep: bool, rep_slots: int, ridx: int) -> int {
    if near_rep {
        zx::after_lit_len(AfterLit::ExactRep(ridx as usize)) as int
    } else if rep_slots > 1 {
        1 + zx::rep_index_len(ridx) as int
    } else {
        1
    }
}

/// The step that the arrival in `slot` makes by its recent offset `ridx`.
pub open spec fn rep_step(row: Seq<ZxArr>, i: int, slot: int, rep_slots: int, near_rep: bool, ridx: int) -> Step {
    let a = row[slot];
    Step {
        i,
        slot,
        base: a.cost + rep_prefix(near_rep, rep_slots, ridx),
        reps: a.reps@.remove(ridx).insert(0, a.reps@[ridx]),
        kind: 2,
        ri: -1,
        score: capped_sum(a.score, 2),
    }
}

/// What the arrival in `slot` leads to by its first `k` recent offsets.
pub open spec fn rep_slot_offers(
    input: Seq<u8>,
    row: Seq<ZxArr>,
    i: int,
    slot: int,
    rep_slots: int,
    near_rep: bool,
    cap: int,
    k: int,
) -> Set<(int, ZxArr)> {
    Set::new(
        |p: (int, ZxArr)|
            exists|r: int|
                0 <= r < k && 1 <= row[slot].reps@[r] <= i && #[trigger] span_offers(
                    rep_step(row, i, slot, rep_slots, near_rep, r),
                    1,
                    capped_run(input, i, row[slot].reps@[r] as int, cap),
                    0xffff_ffff,
                    capped_run(input, i, row[slot].reps@[r] as int, cap) + 1,
                ).contains(p),
    )
}

/// What the first `k` places of the row of `i` that are marked lead to by their
/// recent offsets.
pub open spec fn rep_offers(
    input: Seq<u8>,
    row: Seq<ZxArr>,
    i: int,
    rep_slots: int,
    near_rep: bool,
    cap: int,
    fresh: Seq<bool>,
    k: int,
) -> Set<(int, ZxArr)> {
    Set::new(
        |p: (int, ZxArr)|
            exists|s: int|
                0 <= s < k && row[s].cost < ZX_INF && fresh[s] && #[trigger] rep_slot_offers(
                    input,
                    row,
                    i,
                    s,
                    rep_slots,
                    near_rep,
                    cap,
                    rep_slots,
                ).contains(p),
    )
}

/// Behind the limit nothing is of use.
proof fn lemma_past_limit(
    input: Seq<u8>,
    arr: Seq<ZxArr>,
    worst: Seq<u64>,
    row: Seq<ZxArr>,
    width: int,
    n: int,
    i: int,
    rep_slots: int,
    near_rep: bool,
    cap: int,
    limit: u64,
    slot: int,
    s: int,
    pos: int,
    x: ZxArr,
)
    requires
        arr.len() == (n + 1) * 64,
        worst.len() == n + 1,
        0 <= i,
        i + cap <= n,
        1 <= width <= 64,
        forall|p: int| 0 <= p < worst.len() ==> #[trigger] worst[p] == arr[p * 64 + width - 1].cost,
        forall|l: int| 1 <= l <= cap ==> #[trigger] room_for(worst, i, l) <= limit,
        zxrows::row_in_order(row, width),
        0 <= slot <= s < width,
        row[slot].cost >= limit,
        rep_slot_offers(input, row, i, s, rep_slots, near_rep, cap, rep_slots).contains((pos, x)),
    ensures
        0 <= pos <= n ==> zxrows::covers(row_of(arr, pos), width, x),
{
    let r = choose|r: int|
        0 <= r < rep_slots && 1 <= row[s].reps@[r] <= i && #[trigger] span_offers(
            rep_step(row, i, s, rep_slots, near_rep, r),
            1,
            capped_run(input, i, row[s].reps@[r] as int, cap),
            0xffff_ffff,
            capped_run(input, i, row[s].reps@[r] as int, cap) + 1,
        ).contains((pos, x));
    let l = pos - i;
    assert(in_span(1, capped_run(input, i, row[s].reps@[r] as int, cap), 0xffff_ffff, l));
    assert(1 <= l <= cap);
    assert(room_for(worst, i, l) <= limit);
    assert(worst[pos] == arr[pos * 64 + width - 1].cost);
    if slot < s {
        assert(zxrows::no_better(row[s].cost, row[s].score, row[slot]));
    }
    assert(row_of(arr, pos)[width - 1] == arr[pos * 64 + width - 1]);
}

/// Recent offsets; only right after a literal run.
pub fn dp_rep(
    input: &[u8],
    arr: &mut Vec<ZxArr>,
    lim: &mut Limits,
    i: usize,
    width: usize,
    rep_slots: usize,
    near_rep: bool,
    probe_max: usize,
    fresh: &Vec<bool>,
)
    requires
        dp_ok(input@, old(arr)@, i + 1),
        in_step(old(arr)@, old(lim), width as int, input@.len() as int),
        dp_fits(input@.len() as int),
        i < input@.len(),
        1 <= width <= 64,
        1 <= rep_slots <= 4,
        fresh@.len() == 64,
    ensures
        dp_ok(input@, final(arr)@, i + 1),
        in_step(final(arr)@, final(lim), width as int, input@.len() as int),
        same_rows(old(arr)@, final(arr)@, i + 1),
        zxrows::took(
            old(arr)@,
            final(arr)@,
            width as int,
            input@.len() as int,
            rep_offers(
                input@,
                row_of(old(arr)@, i as int),
                i as int,
                rep_slots as int,
                near_rep,
                probe_cap_of(input@.len() as int, i as int, probe_max as int),
                fresh@,
                width as int,
            ),
        ),
{
    let ghost a0 = arr@;
    let ghost row = row_of(a0, i as int);
    let n: usize = input.len();
    let cap: usize = if n - i < probe_max {
        n - i
    } else {
        probe_max
    };
    let mut slot: usize = 0;
    let ghost offers = |k: int|
        rep_offers(
            input@,
            row,
            i as int,
            rep_slots as int,
            near_rep,
            cap as int,
            fresh@,
            k,
        );
    proof {
        zxrows::lemma_took_none(a0, width as int, n as int);
        assert(offers(0) =~= Set::empty());
        assert(zxrows::row_in_order(row, width as int));
    }
    while slot < width
        invariant_except_break
            zxrows::took(a0, arr@, width as int, n as int, offers(slot as int)),
        invariant
            slot <= width <= 64,
            fresh@.len() == 64,
            n == input@.len(),
            i < n,
            i + cap <= n,
            1 <= rep_slots <= 4,
            a0.len() == (n + 1) * 64,
            row == row_of(a0, i as int),
            zxrows::row_in_order(row, width as int),
            offers == (|k: int|
                rep_offers(
                    input@,
                    row,
                    i as int,
                    rep_slots as int,
                    near_rep,
                    cap as int,
                    fresh@,
                    k,
                )),
            dp_fits(input@.len() as int),
            dp_ok(input@, arr@, i + 1),
            in_step(arr@, lim, width as int, n as int),
            same_rows(a0, arr@, i + 1),
        ensures
            zxrows::took(a0, arr@, width as int, n as int, offers(width as int)),
        decreases width - slot,
    {
        let a: ZxArr = arr[i * 64 + slot];
        assert(a == row[slot as int]);
        if a.cost >= ZX_INF {
            proof {
                assert forall|s: int| slot < s < width implies (#[trigger] row[s]).cost >= ZX_INF by {
                    assert(zxrows::no_better(row[s].cost, row[s].score, row[slot as int]));
                }
                assert(offers(slot as int) =~= offers(width as int));
            }
            break;
        }
        let limit: u64 = rep_limit(lim, i, cap, Ghost(input@.len() as int));
        if a.cost >= limit {
            proof {
                let s = offers(slot as int);
                let u = offers(width as int);
                assert forall|pos: int, x: ZxArr| #[trigger]
                    u.contains((pos, x)) && 0 <= pos <= n implies s.contains((pos, x))
                    || zxrows::covers(row_of(arr@, pos), width as int, x) by {
                    let y = choose|y: int|
                        0 <= y < width && row[y].cost < ZX_INF && fresh@[y]
                            && #[trigger] rep_slot_offers(
                            input@,
                            row,
                            i as int,
                            y,
                            rep_slots as int,
                            near_rep,
                            cap as int,
                            rep_slots as int,
                        ).contains((pos, x));
                    if y < slot {
                        assert(s.contains((pos, x)));
                    } else {
                        lemma_past_limit(
                            input@,
                            arr@,
                            lim.worst@,
                            row,
                            width as int,
                            n as int,
                            i as int,
                            rep_slots as int,
                            near_rep,
                            cap as int,
                            limit,
                            slot as int,
                            y,
                            pos,
                            x,
                        );
                    }
                }
                zxrows::lemma_took_none(arr@, width as int, n as int);
                zxrows::lemma_took_more(a0, arr@, arr@, width as int, n as int, s, Set::empty(), u);
            }
            break;
        }
        let ghost before = arr@;
        if fresh[slot] {
            dp_rep_slot(input, arr, lim, i, slot, width, rep_slots, near_rep, cap);
            proof {
                lemma_same_row(a0, before, i as int);
                let t = rep_slot_offers(
                    input@,
                    row,
                    i as int,
                    slot as int,
                    rep_slots as int,
                    near_rep,
                    cap as int,
                    rep_slots as int,
                );
                let s = offers(slot as int);
                let u = offers(slot + 1);
                assert(zxrows::took(before, arr@, width as int, n as int, t));
                assert forall|p: (int, ZxArr)| #[trigger] t.contains(p) implies u.contains(p) by {}
                zxrows::lemma_took_more(a0, before, arr@, width as int, n as int, s, t, u);
            }
        } else {
            proof {
                assert(offers(slot as int) =~= offers(slot + 1));
            }
        }
        slot += 1;
    }
}

/// How far an offset is probed.
pub open spec fn probe_cap_of(n: int, i: int, probe_max: int) -> int {
    if n - i < probe_max {
        n - i
    } else {
        probe_max
    }
}

/// The recent offsets of one arrival.
fn dp_rep_slot(
    input: &[u8],
    arr: &mut Vec<ZxArr>,
    lim: &mut Limits,
    i: usize,
    slot: usize,
    width: usize,
    rep_slots: usize,
    near_rep: bool,
    cap: usize,
)
    requires
        dp_ok(input@, old(arr)@, i + 1),
        in_step(old(arr)@, old(lim), width as int, input@.len() as int),
        dp_fits(input@.len() as int),
        i < input@.len(),
        i + cap <= input@.len(),
        slot < width <= 64,
        1 <= rep_slots <= 4,
        old(arr)@[i * 64 + slot].cost < ZX_INF,
    ensures
        dp_ok(input@, final(arr)@, i + 1),
        in_step(final(arr)@, final(lim), width as int, input@.len() as int),
        same_rows(old(arr)@, final(arr)@, i + 1),
        zxrows::took(
            old(arr)@,
            final(arr)@,
            width as int,
            input@.len() as int,
            rep_slot_offers(
                input@,
                row_of(old(arr)@, i as int),
                i as int,
                slot as int,
                rep_slots as int,
                near_rep,
                cap as int,
                rep_slots as int,
            ),
        ),
{
    let ghost a0 = arr@;
    let ghost row = row_of(a0, i as int);
    let n: usize = input.len();
    let a: ZxArr = arr[i * 64 + slot];
    assert(a == row[slot as int]);
    let mut ridx: usize = 0;
    let ghost offers = |k: int|
        rep_slot_offers(
            input@,
            row,
            i as int,
            slot as int,
            rep_slots as int,
            near_rep,
            cap as int,
            k,
        );
    proof {
        zxrows::lemma_took_none(a0, width as int, n as int);
        assert(offers(0) =~= Set::empty());
    }
    while ridx < rep_slots
        invariant
            ridx <= rep_slots <= 4,
            slot < width <= 64,
            n == input@.len(),
            i < n,
            i + cap <= n,
            a.cost < ZX_INF,
            a0[i * 64 + slot] == a,
            a0.len() == (n + 1) * 64,
            row == row_of(a0, i as int),
            a == row[slot as int],
            offers == (|k: int|
                rep_slot_offers(
                    input@,
                    row,
                    i as int,
                    slot as int,
                    rep_slots as int,
                    near_rep,
                    cap as int,
                    k,
                )),
            zxrows::took(a0, arr@, width as int, n as int, offers(ridx as int)),
            dp_fits(input@.len() as int),
            dp_ok(input@, arr@, i + 1),
            in_step(arr@, lim, width as int, n as int),
            same_rows(a0, arr@, i + 1),
        decreases rep_slots - ridx,
    {
        let r: u32 = a.reps[ridx];
        let ru: usize = r as usize;
        let ghost before = arr@;
        let ghost mut t: Set<(int, ZxArr)> = Set::empty();
        proof {
            zxrows::lemma_took_none(before, width as int, n as int);
        }
        if ru != 0 && ru <= i {
            let l: usize = lz::match_run(input, i - ru, i, cap);
            proof {
                matchfinder::lemma_run_is(input@, i as int, ru as int, l as int, cap as int);
                assert(l == capped_run(input@, i as int, ru as int, cap as int));
            }
            if l >= 1 {
                let prefix: u32 = if near_rep {
                    after_lit_prefix_bits(AfterLit::ExactRep(ridx))
                } else if rep_slots > 1 {
                    1 + rep_index_bits(ridx)
                } else {
                    1
                };
                assert(arr@[i * 64 + slot] == a0[i * 64 + slot]);
                let _ = dp_span(
                    arr,
                    lim,
                    i,
                    slot,
                    width,
                    a.cost + prefix as u64,
                    zx_rep_mtf(a.reps, ridx),
                    2,
                    -1,
                    r,
                    1,
                    l as u32,
                    0xffff_ffff,
                    a.score.saturating_add(2),
                    Ghost(input@),
                );
                proof {
                    t =
                    span_offers(
                        rep_step(
                            row,
                            i as int,
                            slot as int,
                            rep_slots as int,
                            near_rep,
                            ridx as int,
                        ),
                        1,
                        l as int,
                        0xffff_ffff,
                        l + 1,
                    );
                    assert(zxrows::took(before, arr@, width as int, n as int, t));
                }
            }
        }
        proof {
            let s = offers(ridx as int);
            let u = offers(ridx + 1);
            assert forall|p: (int, ZxArr)| #[trigger] t.contains(p) implies u.contains(p) by {
                assert(span_offers(
                    rep_step(row, i as int, slot as int, rep_slots as int, near_rep, ridx as int),
                    1,
                    capped_run(input@, i as int, row[slot as int].reps@[ridx as int] as int, cap as int),
                    0xffff_ffff,
                    capped_run(input@, i as int, row[slot as int].reps@[ridx as int] as int, cap as int)
                        + 1,
                ).contains(p));
            }
            zxrows::lemma_took_more(a0, before, arr@, width as int, n as int, s, t, u);
        }
        ridx += 1;
    }
}

/// Bits in front of the length of a match whose offset lies `delta` from recent
/// offset `ri`.
pub open spec fn near_bits(am: bool, ri: int, delta: int) -> int {
    1 + bitio::gamma_len(delta as nat) + if am {
        zx::after_match_len(AfterMatch::NearRep(ri as usize, 0)) as int
    } else {
        zx::after_lit_len(AfterLit::NearRep(ri as usize, 0)) as int
    }
}

/// Bits in front of the length of a match with a plain new offset.
pub open spec fn plain_bits(am: bool, off: int) -> int {
    zx::off_len(off) + if am {
        zx::after_match_len(AfterMatch::NewOffset) as int
    } else {
        zx::after_lit_len(AfterLit::NewOffset) as int
    }
}

/// Bits in front of a near offset, and of a plain new one, in the state that
/// an arrival is in.
fn near_prefix(am: bool, ri: usize, delta: u32) -> (bits: u64)
    requires
        delta >= 1,
    ensures
        bits == near_bits(am, ri as int, delta as int),
        bits <= 80,
{
    let p: u32 = if am {
        after_match_prefix_bits(AfterMatch::NearRep(ri, 0))
    } else {
        after_lit_prefix_bits(AfterLit::NearRep(ri, 0))
    };
    (p + near_rep_delta_bits(delta)) as u64
}

fn plain_prefix(am: bool, off: u32) -> (bits: u64)
    requires
        off >= 1,
    ensures
        bits == plain_bits(am, off as int),
        bits <= 80,
{
    let p: u32 = if am {
        after_match_prefix_bits(AfterMatch::NewOffset)
    } else {
        after_lit_prefix_bits(AfterLit::NewOffset)
    };
    (p + offset_cost_bits_hc(off)) as u64
}

/// The arrival is in the state after a match (`am`) or after a literal run.
pub open spec fn in_near_state(a: ZxArr, am: bool) -> bool {
    if am {
        a.num_lits == 0 && a.last_is_match
    } else {
        a.num_lits > 0
    }
}

fn near_state(a: &ZxArr, am: bool) -> (r: bool)
    ensures
        r == in_near_state(*a, am),
{
    if am {
        a.num_lits == 0 && a.last_is_match
    } else {
        a.num_lits > 0
    }
}

/// The distance of two offsets.
pub open spec fn apart(a: u32, b: u32) -> int {
    if a > b {
        a - b
    } else {
        b - a
    }
}

/// The recent offset that `off` is coded from at the least cost, the first
/// where both cost the same, if it is neither.
pub open spec fn near_choice(a: ZxArr, am: bool, off: u32) -> Option<int> {
    let (b0, b1) = (a.reps@[0], a.reps@[1]);
    if b0 == off && b1 == off {
        None
    } else if b1 == off {
        Some(0)
    } else if b0 == off {
        Some(1)
    } else if near_bits(am, 1, apart(off, b1)) < near_bits(am, 0, apart(off, b0)) {
        Some(1)
    } else {
        Some(0)
    }
}

/// The step that the arrival in `slot` makes by the offset `off`, coded from
/// recent offset `ri`.
pub open spec fn near_step(row: Seq<ZxArr>, i: int, slot: int, am: bool, ri: int, off: u32) -> Step {
    let a = row[slot];
    Step {
        i,
        slot,
        base: a.cost + near_bits(am, ri, apart(off, a.reps@[ri])),
        reps: seq![off, a.reps@[0], a.reps@[1], a.reps@[2]],
        kind: 3,
        ri,
        score: capped_sum(a.score, 3),
    }
}

/// It pays to code the offset from recent offset `ri`.
pub open spec fn near_pays(a: ZxArr, am: bool, ri: int, off: u32) -> bool {
    near_bits(am, ri, apart(off, a.reps@[ri])) < plain_bits(am, off as int)
}

/// What the arrival in `slot` leads to by the first `k` candidates of a front,
/// coded from a recent offset.
pub open spec fn near_slot_offers(
    row: Seq<ZxArr>,
    i: int,
    slot: int,
    list: Seq<Match>,
    am: bool,
    span: int,
    k: int,
) -> Set<(int, ZxArr)> {
    Set::new(
        |p: (int, ZxArr)|
            exists|c: int|
                #![trigger front_tried(list, c)]
                0 <= c < k && front_tried(list, c) && match near_choice(row[slot], am, list[c].offset) {
                    Some(ri) => near_pays(row[slot], am, ri, list[c].offset) && span_offers(
                        near_step(row, i, slot, am, ri, list[c].offset),
                        front_lo(list, c),
                        list[c].length as int,
                        span,
                        list[c].length + 1,
                    ).contains(p),
                    None => false,
                },
    )
}

/// What the first `k` places of the row of `i` that are marked lead to by the
/// candidates of a front, coded from a recent offset.
pub open spec fn near_front_offers(
    row: Seq<ZxArr>,
    i: int,
    list: Seq<Match>,
    am: bool,
    fresh: Seq<bool>,
    span: int,
    k: int,
) -> Set<(int, ZxArr)> {
    Set::new(
        |p: (int, ZxArr)|
            exists|s: int|
                0 <= s < k && row[s].cost < ZX_INF && fresh[s] && #[trigger] near_slot_offers(
                    row,
                    i,
                    s,
                    list,
                    am,
                    span,
                    list.len() as int,
                ).contains(p),
    )
}

/// Offsets of the front coded by their distance from a recent offset.
pub fn dp_near_front(
    arr: &mut Vec<ZxArr>,
    lim: &mut Limits,
    ms: &MatchSet,
    i: usize,
    am: bool,
    fresh: &Vec<bool>,
    span: u32,
    Ghost(input): Ghost<Seq<u8>>,
)
    requires
        dp_ok(input, old(arr)@, i + 1),
        in_step(old(arr)@, old(lim), 64, input.len() as int),
        dp_fits(input.len() as int),
        i < input.len(),
        ms.of(input),
        fresh@.len() == 64,
    ensures
        dp_ok(input, final(arr)@, i + 1),
        in_step(final(arr)@, final(lim), 64, input.len() as int),
        same_rows(old(arr)@, final(arr)@, i + 1),
        zxrows::took(
            old(arr)@,
            final(arr)@,
            64,
            input.len() as int,
            near_front_offers(
                row_of(old(arr)@, i as int),
                i as int,
                ms.list(i as int),
                am,
                fresh@,
                span as int,
                64,
            ),
        ),
{
    let ghost a0 = arr@;
    let ghost n = input.len() as int;
    let ghost row = row_of(a0, i as int);
    let list: &Vec<Match> = ms.matches_for(i);
    let mut slot: usize = 0;
    let ghost offers = |k: int|
        near_front_offers(row, i as int, list@, am, fresh@, span as int, k);
    proof {
        zxrows::lemma_took_none(a0, 64, n);
        assert(offers(0) =~= Set::empty());
        assert(zxrows::row_in_order(row, 64));
    }
    while slot < 64
        invariant_except_break
            zxrows::took(a0, arr@, 64, n, offers(slot as int)),
        invariant
            slot <= 64,
            fresh@.len() == 64,
            i < input.len(),
            n == input.len(),
            a0.len() == (n + 1) * 64,
            row == row_of(a0, i as int),
            zxrows::row_in_order(row, 64),
            offers == (|k: int|
                near_front_offers(row, i as int, list@, am, fresh@, span as int, k)),
            dp_fits(input.len() as int),
            matchfinder::candidates_ok(input, i as int, list@, ms.max_offset()),
            dp_ok(input, arr@, i + 1),
            in_step(arr@, lim, 64, n),
            same_rows(a0, arr@, i + 1),
        ensures
            zxrows::took(a0, arr@, 64, n, offers(64)),
        decreases 64 - slot,
    {
        let a: ZxArr = arr[i * 64 + slot];
        assert(a == row[slot as int]);
        if a.cost >= ZX_INF {
            proof {
                assert forall|s: int| slot < s < 64 implies (#[trigger] row[s]).cost >= ZX_INF by {
                    assert(zxrows::no_better(row[s].cost, row[s].score, row[slot as int]));
                }
                assert(offers(slot as int) =~= offers(64));
            }
            break;
        }
        let ghost before = arr@;
        if fresh[slot] {
            dp_near_slot(arr, lim, list, i, slot, am, span, Ghost(input), Ghost(ms.max_offset()));
            proof {
                lemma_same_row(a0, before, i as int);
                let t = near_slot_offers(
                    row,
                    i as int,
                    slot as int,
                    list@,
                    am,
                    span as int,
                    list@.len() as int,
                );
                let s = offers(slot as int);
                let u = offers(slot + 1);
                assert(zxrows::took(before, arr@, 64, n, t));
                assert forall|p: (int, ZxArr)| #[trigger] t.contains(p) implies u.contains(p) by {}
                zxrows::lemma_took_more(a0, before, arr@, 64, n, s, t, u);
            }
        } else {
            proof {
                assert(offers(slot as int) =~= offers(slot + 1));
            }
        }
        slot += 1;
    }
}

/// The candidates of a front from one arrival.
#[verifier::rlimit(30)]
fn dp_near_slot(
    arr: &mut Vec<ZxArr>,
    lim: &mut Limits,
    list: &Vec<Match>,
    i: usize,
    slot: usize,
    am: bool,
    span: u32,
    Ghost(input): Ghost<Seq<u8>>,
    Ghost(window): Ghost<int>,
)
    requires
        dp_ok(input, old(arr)@, i + 1),
        in_step(old(arr)@, old(lim), 64, input.len() as int),
        dp_fits(input.len() as int),
        i < input.len(),
        slot < 64,
        old(arr)@[i * 64 + slot].cost < ZX_INF,
        matchfinder::candidates_ok(input, i as int, list@, window),
    ensures
        dp_ok(input, final(arr)@, i + 1),
        in_step(final(arr)@, final(lim), 64, input.len() as int),
        same_rows(old(arr)@, final(arr)@, i + 1),
        zxrows::took(
            old(arr)@,
            final(arr)@,
            64,
            input.len() as int,
            near_slot_offers(
                row_of(old(arr)@, i as int),
                i as int,
                slot as int,
                list@,
                am,
                span as int,
                list@.len() as int,
            ),
        ),
{
    let ghost a0 = arr@;
    let ghost n = input.len() as int;
    let ghost row = row_of(a0, i as int);
    let a: ZxArr = arr[i * 64 + slot];
    assert(a == row[slot as int]);
    let mut prev_len: u32 = MIN_MATCH - 1;
    let mut c: usize = 0;
    let ghost offers = |k: int|
        near_slot_offers(row, i as int, slot as int, list@, am, span as int, k);
    proof {
        zxrows::lemma_took_none(a0, 64, n);
        assert(offers(0) =~= Set::empty());
    }
    while c < list.len()
        invariant
            c <= list@.len(),
            slot < 64,
            i < input.len(),
            n == input.len(),
            a0.len() == (n + 1) * 64,
            row == row_of(a0, i as int),
            a == row[slot as int],
            offers == (|k: int|
                near_slot_offers(row, i as int, slot as int, list@, am, span as int, k)),
            zxrows::took(a0, arr@, 64, n, offers(c as int)),
            dp_fits(input.len() as int),
            1 <= prev_len <= 0x3fff_ffff,
            prev_len + 1 == front_lo(list@, c as int),
            a.cost < ZX_INF,
            a0[i * 64 + slot] == a,
            matchfinder::candidates_ok(input, i as int, list@, window),
            dp_ok(input, arr@, i + 1),
            in_step(arr@, lim, 64, n),
            same_rows(a0, arr@, i + 1),
        decreases list@.len() - c,
    {
        let cand: Match = list[c];
        let ghost c0 = c as int;
        let ghost before = arr@;
        let ghost mut t: Set<(int, ZxArr)> = Set::empty();
        proof {
            zxrows::lemma_took_none(before, 64, n);
        }
        c += 1;
        let lo: u32 = prev_len + 1;
        let hi: u32 = cand.length;
        prev_len = hi;
        let off: u32 = cand.offset;
        if hi >= lo && off <= MAX_OFFSET {
            let b0: u32 = a.reps[0];
            let b1: u32 = a.reps[1];
            let mut best_prefix: u64 = 0xffff_ffff;
            let mut best_ri: i8 = -1;
            if b0 != off {
                best_prefix = near_prefix(
                    am,
                    0,
                    if off > b0 {
                        off - b0
                    } else {
                        b0 - off
                    },
                );
                best_ri = 0;
            }
            if b1 != off {
                let q: u64 = near_prefix(
                    am,
                    1,
                    if off > b1 {
                        off - b1
                    } else {
                        b1 - off
                    },
                );
                if q < best_prefix {
                    best_prefix = q;
                    best_ri = 1;
                }
            }
            if best_ri >= 0 && best_prefix < plain_prefix(am, off) {
                assert(arr@[i * 64 + slot] == a0[i * 64 + slot]);
                let _ = dp_span(
                    arr,
                    lim,
                    i,
                    slot,
                    64,
                    a.cost + best_prefix,
                    zx_rep_insert(a.reps, off),
                    3,
                    best_ri,
                    off,
                    lo,
                    hi,
                    span,
                    a.score.saturating_add(3),
                    Ghost(input),
                );
                proof {
                    assert(near_choice(a, am, off) == Some(best_ri as int));
                    t =
                    span_offers(
                        near_step(row, i as int, slot as int, am, best_ri as int, off),
                        lo as int,
                        hi as int,
                        span as int,
                        hi + 1,
                    );
                    assert(zxrows::took(before, arr@, 64, n, t));
                }
            }
        }
        proof {
            let s = offers(c0);
            let u = offers(c0 + 1);
            assert forall|p: (int, ZxArr)| #[trigger] t.contains(p) implies u.contains(p) by {
                assert(front_tried(list@, c0));
            }
            assert forall|pos: int, x: ZxArr| #[trigger]
                u.contains((pos, x)) && 0 <= pos <= n implies s.contains((pos, x)) || t.contains(
                (pos, x),
            ) by {
                let p = (pos, x);
                let y = choose|y: int|
                    #![trigger front_tried(list@, y)]
                    0 <= y < c0 + 1 && front_tried(list@, y) && match near_choice(
                        row[slot as int],
                        am,
                        list@[y].offset,
                    ) {
                        Some(ri) => near_pays(row[slot as int], am, ri, list@[y].offset)
                            && span_offers(
                            near_step(row, i as int, slot as int, am, ri, list@[y].offset),
                            front_lo(list@, y),
                            list@[y].length as int,
                            span as int,
                            list@[y].length + 1,
                        ).contains(p),
                        None => false,
                    };
                assert(front_tried(list@, y));
            }
            zxrows::lemma_took_more(a0, before, arr@, 64, n, s, t, u);
        }
    }
}

/// What the arrival in `slot` leads to by the offset `off`, coded from recent
/// offset `ri`.
pub open spec fn near_one_offers(
    input: Seq<u8>,
    row: Seq<ZxArr>,
    i: int,
    slot: int,
    am: bool,
    ri: int,
    off: u32,
    cap: int,
    span: int,
) -> Set<(int, ZxArr)> {
    let l = capped_run(input, i, off as int, cap);
    if near_pays(row[slot], am, ri, off) && l >= 2 {
        span_offers(near_step(row, i, slot, am, ri, off), 2, l, span, l + 1)
    } else {
        Set::empty()
    }
}

/// Tries the offset `off`, close to recent offset `ri`, from one arrival.
fn dp_near_one(
    input: &[u8],
    arr: &mut Vec<ZxArr>,
    lim: &mut Limits,
    i: usize,
    slot: usize,
    am: bool,
    ri: usize,
    off: u32,
    cap: usize,
    span: u32,
)
    requires
        dp_ok(input@, old(arr)@, i + 1),
        in_step(old(arr)@, old(lim), 64, input@.len() as int),
        dp_fits(input@.len() as int),
        i < input@.len(),
        i + cap <= input@.len(),
        slot < 64,
        ri < 2,
        1 <= off <= i,
        old(arr)@[i * 64 + slot].cost < ZX_INF,
        old(arr)@[i * 64 + slot].reps@[ri as int] != off,
    ensures
        dp_ok(input@, final(arr)@, i + 1),
        in_step(final(arr)@, final(lim), 64, input@.len() as int),
        same_rows(old(arr)@, final(arr)@, i + 1),
        zxrows::took(
            old(arr)@,
            final(arr)@,
            64,
            input@.len() as int,
            near_one_offers(
                input@,
                row_of(old(arr)@, i as int),
                i as int,
                slot as int,
                am,
                ri as int,
                off,
                cap as int,
                span as int,
            ),
        ),
{
    let n: usize = input.len();
    let a: ZxArr = arr[i * 64 + slot];
    let ghost row = row_of(arr@, i as int);
    proof {
        assert(row[slot as int] == a);
        zxrows::lemma_took_none(arr@, 64, n as int);
    }
    let base_off: u32 = a.reps[ri];
    let d: u32 = if off > base_off {
        off - base_off
    } else {
        base_off - off
    };
    let prefix: u64 = near_prefix(am, ri, d);
    if prefix >= plain_prefix(am, off) {
        return;
    }
    let l: usize = lz::match_run(input, i - off as usize, i, cap);
    proof {
        matchfinder::lemma_run_is(input@, i as int, off as int, l as int, cap as int);
    }
    if l < 2 {
        return;
    }
    let _ = dp_span(
        arr,
        lim,
        i,
        slot,
        64,
        a.cost + prefix,
        zx_rep_insert(a.reps, off),
        3,
        if ri == 0 {
            0
        } else {
            1
        },
        off,
        MIN_MATCH,
        l as u32,
        span,
        a.score.saturating_add(3),
        Ghost(input@),
    );
}

/// The offset `delta` above (`sign` 0) or below a recent one.
pub open spec fn probed_offset(base_off: u32, sign: int, delta: int) -> int {
    if sign == 0 {
        if base_off + delta > u32::MAX {
            u32::MAX as int
        } else {
            base_off + delta
        }
    } else if base_off < delta {
        0
    } else {
        base_off - delta
    }
}

/// The offset is worth a probe at `i`.
pub open spec fn worth_a_probe(input: Seq<u8>, i: int, base_off: u32, off: int) -> bool {
    1 <= off <= MAX_OFFSET && off <= i && off != base_off && input[i - off] == input[i]
}

/// What one probed offset leads to.
pub open spec fn probe_offers(
    input: Seq<u8>,
    row: Seq<ZxArr>,
    i: int,
    am: bool,
    cap: int,
    span: int,
    slot: int,
    ri: int,
    sign: int,
    delta: int,
) -> Set<(int, ZxArr)> {
    let base_off = row[slot].reps@[ri];
    let off = probed_offset(base_off, sign, delta);
    if worth_a_probe(input, i, base_off, off) {
        near_one_offers(input, row, i, slot, am, ri, off as u32, cap, span)
    } else {
        Set::empty()
    }
}

/// The probes around recent offset `ri` of the arrival in `slot`, the first `k`
/// distances on the side `sign`, and all on the side before it.
pub open spec fn probe_ring_offers(
    input: Seq<u8>,
    row: Seq<ZxArr>,
    i: int,
    am: bool,
    cap: int,
    span: int,
    delta_max: int,
    slot: int,
    ri: int,
    sign: int,
    k: int,
) -> Set<(int, ZxArr)> {
    Set::new(
        |p: (int, ZxArr)|
            exists|g: int, d: int|
                ((0 <= g < sign && 1 <= d <= delta_max) || (g == sign && 1 <= d <= k))
                    && #[trigger] probe_offers(
                    input,
                    row,
                    i,
                    am,
                    cap,
                    span,
                    slot,
                    ri,
                    g,
                    d,
                ).contains(p),
    )
}

/// The probes around the two most recent offsets of the first `k` places of the
/// row of `i` that are marked.
pub open spec fn near_probe_offers(
    input: Seq<u8>,
    row: Seq<ZxArr>,
    i: int,
    am: bool,
    cap: int,
    span: int,
    delta_max: int,
    fresh: Seq<bool>,
    k: int,
    r: int,
) -> Set<(int, ZxArr)> {
    Set::new(
        |p: (int, ZxArr)|
            exists|s: int, ri: int|
                ((0 <= s < k && 0 <= ri < 2) || (s == k && 0 <= ri < r)) && row[s].cost < ZX_INF
                    && fresh[s] && #[trigger] probe_ring_offers(
                    input,
                    row,
                    i,
                    am,
                    cap,
                    span,
                    delta_max,
                    s,
                    ri,
                    2,
                    0,
                ).contains(p),
    )
}

/// Probes the offsets around one recent offset of one arrival.
fn dp_near_ring(
    input: &[u8],
    arr: &mut Vec<ZxArr>,
    lim: &mut Limits,
    i: usize,
    slot: usize,
    am: bool,
    ri: usize,
    delta_max: u32,
    cap: usize,
    span: u32,
)
    requires
        dp_ok(input@, old(arr)@, i + 1),
        in_step(old(arr)@, old(lim), 64, input@.len() as int),
        dp_fits(input@.len() as int),
        i < input@.len(),
        i + cap <= input@.len(),
        slot < 64,
        ri < 2,
        delta_max <= 1000,
        old(arr)@[i * 64 + slot].cost < ZX_INF,
    ensures
        dp_ok(input@, final(arr)@, i + 1),
        in_step(final(arr)@, final(lim), 64, input@.len() as int),
        same_rows(old(arr)@, final(arr)@, i + 1),
        zxrows::took(
            old(arr)@,
            final(arr)@,
            64,
            input@.len() as int,
            probe_ring_offers(
                input@,
                row_of(old(arr)@, i as int),
                i as int,
                am,
                cap as int,
                span as int,
                delta_max as int,
                slot as int,
                ri as int,
                2,
                0,
            ),
        ),
{
    let ghost a0 = arr@;
    let n: usize = input.len();
    let ghost row = row_of(a0, i as int);
    let a: ZxArr = arr[i * 64 + slot];
    assert(a == row[slot as int]);
    let next0: u8 = input[i];
    let base_off: u32 = a.reps[ri];
    let ghost offers = |g: int, k: int|
        probe_ring_offers(
            input@,
            row,
            i as int,
            am,
            cap as int,
            span as int,
            delta_max as int,
            slot as int,
            ri as int,
            g,
            k,
        );
    let mut sign: u32 = 0;
    proof {
        zxrows::lemma_took_none(a0, 64, n as int);
        assert(offers(0, 0) =~= Set::empty());
    }
    while sign < 2
        invariant
            ri < 2,
            sign <= 2,
            slot < 64,
            n == input@.len(),
            i < n,
            i + cap <= n,
            next0 == input@[i as int],
            delta_max <= 1000,
            a.cost < ZX_INF,
            a0[i * 64 + slot] == a,
            a0.len() == (n + 1) * 64,
            row == row_of(a0, i as int),
            a == row[slot as int],
            base_off == a.reps@[ri as int],
            offers == (|g: int, k: int|
                probe_ring_offers(
                    input@,
                    row,
                    i as int,
                    am,
                    cap as int,
                    span as int,
                    delta_max as int,
                    slot as int,
                    ri as int,
                    g,
                    k,
                )),
            zxrows::took(a0, arr@, 64, n as int, offers(sign as int, 0)),
            dp_fits(input@.len() as int),
            dp_ok(input@, arr@, i + 1),
            in_step(arr@, lim, 64, n as int),
            same_rows(a0, arr@, i + 1),
        decreases 2 - sign,
    {
        let mut delta: u32 = 1;
        while delta <= delta_max
            invariant
                1 <= delta <= delta_max + 1,
                delta_max <= 1000,
                sign < 2,
                ri < 2,
                slot < 64,
                n == input@.len(),
                i < n,
                i + cap <= n,
                next0 == input@[i as int],
                a.cost < ZX_INF,
                a0[i * 64 + slot] == a,
                a0.len() == (n + 1) * 64,
                row == row_of(a0, i as int),
                a == row[slot as int],
                base_off == a.reps@[ri as int],
                offers == (|g: int, k: int|
                    probe_ring_offers(
                        input@,
                        row,
                        i as int,
                        am,
                        cap as int,
                        span as int,
                        delta_max as int,
                        slot as int,
                        ri as int,
                        g,
                        k,
                    )),
                zxrows::took(a0, arr@, 64, n as int, offers(sign as int, delta - 1)),
                dp_fits(input@.len() as int),
                dp_ok(input@, arr@, i + 1),
                in_step(arr@, lim, 64, n as int),
                same_rows(a0, arr@, i + 1),
            decreases delta_max + 1 - delta,
        {
            let off: u32 = if sign == 0 {
                base_off.saturating_add(delta)
            } else {
                base_off.saturating_sub(delta)
            };
            let ghost before = arr@;
            let ghost t = probe_offers(
                input@,
                row,
                i as int,
                am,
                cap as int,
                span as int,
                slot as int,
                ri as int,
                sign as int,
                delta as int,
            );
            proof {
                zxrows::lemma_took_none(before, 64, n as int);
                lemma_same_row(a0, before, i as int);
                assert(off == probed_offset(base_off, sign as int, delta as int));
            }
            if 1 <= off && off <= MAX_OFFSET && off as usize <= i && off != base_off && input[i
                - off as usize] == next0 {
                assert(arr@[i * 64 + slot] == a0[i * 64 + slot]);
                dp_near_one(input, arr, lim, i, slot, am, ri, off, cap, span);
            }
            proof {
                let s = offers(sign as int, delta - 1);
                let u = offers(sign as int, delta as int);
                assert(zxrows::took(before, arr@, 64, n as int, t));
                assert forall|p: (int, ZxArr)| #[trigger] t.contains(p) implies u.contains(p) by {}
                zxrows::lemma_took_more(a0, before, arr@, 64, n as int, s, t, u);
            }
            delta += 1;
        }
        proof {
            assert(offers(sign as int, delta_max as int) =~= offers(sign + 1, 0));
        }
        sign += 1;
    }
}

/// Probes offsets around the two most recent ones directly.
pub fn dp_near_probe(
    input: &[u8],
    arr: &mut Vec<ZxArr>,
    lim: &mut Limits,
    i: usize,
    am: bool,
    fresh: &Vec<bool>,
    delta_max: u32,
    probe_max: usize,
    span: u32,
)
    requires
        dp_ok(input@, old(arr)@, i + 1),
        in_step(old(arr)@, old(lim), 64, input@.len() as int),
        dp_fits(input@.len() as int),
        i < input@.len(),
        delta_max <= 1000,
        fresh@.len() == 64,
    ensures
        dp_ok(input@, final(arr)@, i + 1),
        in_step(final(arr)@, final(lim), 64, input@.len() as int),
        same_rows(old(arr)@, final(arr)@, i + 1),
        zxrows::took(
            old(arr)@,
            final(arr)@,
            64,
            input@.len() as int,
            near_probe_offers(
                input@,
                row_of(old(arr)@, i as int),
                i as int,
                am,
                probe_cap_of(input@.len() as int, i as int, probe_max as int),
                span as int,
                delta_max as int,
                fresh@,
                NEAR_PROBE_ARRIVALS as int,
                0,
            ),
        ),
{
    let ghost a0 = arr@;
    let n: usize = input.len();
    let ghost row = row_of(a0, i as int);
    let cap: usize = if n - i < probe_max {
        n - i
    } else {
        probe_max
    };
    let mut slot: usize = 0;
    let ghost offers = |k: int, r: int|
        near_probe_offers(
            input@,
            row,
            i as int,
            am,
            cap as int,
            span as int,
            delta_max as int,
            fresh@,
            k,
            r,
        );
    proof {
        zxrows::lemma_took_none(a0, 64, n as int);
        assert(offers(0, 0) =~= Set::empty());
        assert(zxrows::row_in_order(row, 64));
    }
    while slot < NEAR_PROBE_ARRIVALS
        invariant_except_break
            zxrows::took(a0, arr@, 64, n as int, offers(slot as int, 0)),
        invariant
            slot <= 16,
            fresh@.len() == 64,
            n == input@.len(),
            i < n,
            i + cap <= n,
            delta_max <= 1000,
            a0.len() == (n + 1) * 64,
            row == row_of(a0, i as int),
            zxrows::row_in_order(row, 64),
            offers == (|k: int, r: int|
                near_probe_offers(
                    input@,
                    row,
                    i as int,
                    am,
                    cap as int,
                    span as int,
                    delta_max as int,
                    fresh@,
                    k,
                    r,
                )),
            dp_fits(input@.len() as int),
            dp_ok(input@, arr@, i + 1),
            in_step(arr@, lim, 64, n as int),
            same_rows(a0, arr@, i + 1),
        ensures
            zxrows::took(a0, arr@, 64, n as int, offers(16, 0)),
        decreases 16 - slot,
    {
        let a: ZxArr = arr[i * 64 + slot];
        assert(a == row[slot as int]);
        if a.cost >= ZX_INF {
            proof {
                assert forall|s: int| slot < s < 64 implies (#[trigger] row[s]).cost >= ZX_INF by {
                    assert(zxrows::no_better(row[s].cost, row[s].score, row[slot as int]));
                }
                assert(offers(slot as int, 0) =~= offers(16, 0));
            }
            break;
        }
        if fresh[slot] {
            let mut ri: usize = 0;
            while ri < 2
                invariant
                    ri <= 2,
                    slot < 16,
                    fresh@.len() == 64,
                    fresh@[slot as int],
                    n == input@.len(),
                    i < n,
                    i + cap <= n,
                    delta_max <= 1000,
                    a.cost < ZX_INF,
                    a0[i * 64 + slot] == a,
                    a0.len() == (n + 1) * 64,
                    row == row_of(a0, i as int),
                    a == row[slot as int],
                    offers == (|k: int, r: int|
                        near_probe_offers(
                            input@,
                            row,
                            i as int,
                            am,
                            cap as int,
                            span as int,
                            delta_max as int,
                            fresh@,
                            k,
                            r,
                        )),
                    zxrows::took(a0, arr@, 64, n as int, offers(slot as int, ri as int)),
                    dp_fits(input@.len() as int),
                    dp_ok(input@, arr@, i + 1),
                    in_step(arr@, lim, 64, n as int),
                    same_rows(a0, arr@, i + 1),
                decreases 2 - ri,
            {
                let ghost before = arr@;
                assert(arr@[i * 64 + slot] == a0[i * 64 + slot]);
                dp_near_ring(input, arr, lim, i, slot, am, ri, delta_max, cap, span);
                proof {
                    lemma_same_row(a0, before, i as int);
                    let t = probe_ring_offers(
                        input@,
                        row,
                        i as int,
                        am,
                        cap as int,
                        span as int,
                        delta_max as int,
                        slot as int,
                        ri as int,
                        2,
                        0,
                    );
                    let s = offers(slot as int, ri as int);
                    let u = offers(slot as int, ri + 1);
                    assert(zxrows::took(before, arr@, 64, n as int, t));
                    assert forall|p: (int, ZxArr)| #[trigger] t.contains(p) implies u.contains(
                        p,
                    ) by {}
                    zxrows::lemma_took_more(a0, before, arr@, 64, n as int, s, t, u);
                }
                ri += 1;
            }
            proof {
                assert(offers(slot as int, 2) =~= offers(slot + 1, 0));
            }
        } else {
            proof {
                assert(offers(slot as int, 0) =~= offers(slot + 1, 0));
            }
        }
        slot += 1;
    }
}

} // verus!
