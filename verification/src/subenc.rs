//! The best part widths for a histogram of numbers. A table that covers only
//! part of the numbers pays for the others what they cost in another form, and
//! every part but the last has to leave some of that cost to the parts after
//! it.
use crate::substream::{Encoding, PARTS, SINGLE_BYTE_PARTS};
use vstd::arithmetic::power2::{lemma_pow2_pos, lemma_pow2_unfold, pow2};
use crate::substream;
use vstd::prelude::*;

verus! {

/// Numbers that a table may hold lie below this.
pub const MAX_VALUES: usize = 0x10000;

/// A table this dear is not better than the table of single numbers.
pub const NO_TABLE: i64 = 0x10000000;

/// Most numbers in a histogram.
pub const MAX_COUNT: i64 = 0x10000000;

/// Largest cost of one number in another form.
pub const MAX_ALT: i64 = 0x400000;

// ---------------------------------------------------------------------------
// What the best widths are
// ---------------------------------------------------------------------------
/// How often each number occurs, and what its occurrences cost in another form.
pub struct Tally {
    pub bins: Seq<i64>,
    pub costs: Seq<i64>,
}

/// Sum of the first `v` entries.
pub open spec fn sum_upto(s: Seq<i64>, v: int) -> int
    decreases v,
{
    if v <= 0 {
        0
    } else {
        sum_upto(s, v - 1) + if v - 1 < s.len() {
            s[v - 1] as int
        } else {
            0int
        }
    }
}

/// Sum of the entries from `v` on.
pub open spec fn sum_past(s: Seq<i64>, v: int) -> int
    decreases s.len() - v,
{
    if v >= s.len() {
        0
    } else {
        s[v] + sum_past(s, v + 1)
    }
}

pub open spec fn tally_ok(h: Tally) -> bool {
    &&& h.bins.len() == h.costs.len()
    &&& h.bins.len() <= MAX_VALUES
    &&& forall|v: int| 0 <= v < h.bins.len() ==> #[trigger] h.bins[v] >= 0
    &&& forall|v: int|
        0 <= v < h.costs.len() ==> -MAX_ALT * h.bins[v] <= #[trigger] h.costs[v] <= MAX_ALT
            * h.bins[v]
    &&& sum_upto(h.bins, h.bins.len() as int) <= MAX_COUNT
}

/// Bits that select part `bit` of `n`.
pub open spec fn part_select(unary: bool, n: int, bit: int) -> int {
    if !unary {
        if n == SINGLE_BYTE_PARTS {
            2
        } else {
            4
        }
    } else if bit == n - 1 {
        bit
    } else {
        bit + 1
    }
}

/// Where a part of width `i` at `base` ends. The last number stands for all
/// beyond it.
pub open spec fn part_end(base: int, i: int) -> int {
    if base + pow2(i as nat) >= MAX_VALUES {
        MAX_VALUES as int
    } else {
        base + pow2(i as nat)
    }
}

/// Part `bit` at `base` may be `i` wide.
pub open spec fn width_ok(h: Tally, n: int, bit: int, base: int, i: int) -> bool {
    bit == n - 1 || (base + pow2(i as nat) < MAX_VALUES && sum_past(h.costs, base + pow2(i as nat))
        != 0)
}

/// Bits of the numbers of one part.
pub open spec fn part_total(h: Tally, n: int, unary: bool, bit: int, base: int, i: int) -> int {
    (sum_upto(h.bins, part_end(base, i)) - sum_upto(h.bins, base)) * (part_select(unary, n, bit)
        + i)
}

/// The widths from part `bit` on, which starts at `base`, are permitted, and so
/// is every smaller width in the place of one of them.
pub open spec fn widths_ok(h: Tally, n: int, bit: int, base: int, parts: Seq<u8>) -> bool
    decreases n - bit,
{
    bit >= n || ({
        &&& parts[bit] <= 15
        &&& forall|j: int| 0 <= j <= parts[bit] ==> #[trigger] width_ok(h, n, bit, base, j)
        &&& widths_ok(h, n, bit + 1, part_end(base, parts[bit] as int), parts)
    })
}

/// Bits of the numbers from `base` on with these widths, and what the numbers
/// beyond the last part cost in another form.
pub open spec fn widths_total(
    h: Tally,
    n: int,
    unary: bool,
    bit: int,
    base: int,
    parts: Seq<u8>,
) -> int
    decreases n - bit,
{
    if bit >= n {
        sum_past(h.costs, base)
    } else {
        part_total(h, n, unary, bit, base, parts[bit] as int) + widths_total(
            h,
            n,
            unary,
            bit + 1,
            part_end(base, parts[bit] as int),
            parts,
        )
    }
}

/// Other permitted widths that are as good have a greater one where they first
/// differ from `parts`.
pub open spec fn widths_first(h: Tally, unary: bool, parts: Seq<u8>) -> bool {
    let n = parts.len() as int;
    forall|q: Seq<u8>, k: int|
        #![trigger widths_ok(h, n, 0, 1, q), q[k]]
        q.len() == n && 0 <= k < n && widths_ok(h, n, 0, 1, q) && widths_total(
            h,
            n,
            unary,
            0,
            1,
            q,
        ) == widths_total(h, n, unary, 0, 1, parts) && q.take(k) == parts.take(k) ==> parts[k]
            <= q[k]
}

/// No permitted widths are better than `parts`, which are the first of several;
/// where none are good, the parts hold one number each.
pub open spec fn widths_best(h: Tally, unary: bool, parts: Seq<u8>) -> bool {
    let n = parts.len() as int;
    ||| ({
        &&& widths_ok(h, n, 0, 1, parts)
        &&& widths_total(h, n, unary, 0, 1, parts) < NO_TABLE
        &&& widths_first(h, unary, parts)
        &&& forall|q: Seq<u8>|
            q.len() == n && #[trigger] widths_ok(h, n, 0, 1, q) ==> widths_total(
                h,
                n,
                unary,
                0,
                1,
                parts,
            ) <= widths_total(h, n, unary, 0, 1, q)
    })
    ||| ({
        &&& parts == Seq::new(n as nat, |k: int| 0u8)
        &&& forall|q: Seq<u8>|
            q.len() == n && #[trigger] widths_ok(h, n, 0, 1, q) ==> widths_total(
                h,
                n,
                unary,
                0,
                1,
                q,
            ) >= NO_TABLE
    })
}

// ---------------------------------------------------------------------------
// The recurrence
// ---------------------------------------------------------------------------
spec fn opt_len(h: Tally, n: int, unary: bool, bit: int, base: int) -> int
    decreases n - bit, 18int,
{
    if bit >= n {
        sum_past(h.costs, base)
    } else {
        opt_scan(h, n, unary, bit, base, 0)
    }
}

spec fn opt_scan(h: Tally, n: int, unary: bool, bit: int, base: int, i: int) -> int
    decreases n - bit, 17 - i,
{
    if bit >= n || i >= 16 || !width_ok(h, n, bit, base, i) {
        NO_TABLE as int
    } else {
        let here = part_total(h, n, unary, bit, base, i) + opt_len(
            h,
            n,
            unary,
            bit + 1,
            part_end(base, i),
        );
        let rest = opt_scan(h, n, unary, bit, base, i + 1);
        if here < rest {
            here
        } else {
            rest
        }
    }
}

/// Bits from part `bit` on when that part is `i` wide.
spec fn with_width(h: Tally, n: int, unary: bool, bit: int, base: int, i: int) -> int {
    part_total(h, n, unary, bit, base, i) + opt_len(h, n, unary, bit + 1, part_end(base, i))
}

/// From part `bit` on every part has the least of the best widths.
spec fn chosen(h: Tally, n: int, unary: bool, bit: int, base: int, parts: Seq<u8>) -> bool
    decreases n - bit,
{
    bit >= n || {
        let w = parts[bit] as int;
        &&& with_width(h, n, unary, bit, base, w) == opt_len(h, n, unary, bit, base)
        &&& forall|j: int|
            0 <= j < w ==> #[trigger] with_width(h, n, unary, bit, base, j) > opt_len(
                h,
                n,
                unary,
                bit,
                base,
            )
        &&& chosen(h, n, unary, bit + 1, part_end(base, w), parts)
    }
}

proof fn lemma_chosen_total(h: Tally, n: int, unary: bool, bit: int, base: int, parts: Seq<u8>)
    requires
        0 <= bit <= n,
        chosen(h, n, unary, bit, base, parts),
    ensures
        widths_total(h, n, unary, bit, base, parts) == opt_len(h, n, unary, bit, base),
    decreases n - bit,
{
    if bit < n {
        lemma_chosen_total(h, n, unary, bit + 1, part_end(base, parts[bit] as int), parts);
    }
}

/// Widths that are as good and begin as the chosen ones do go on no smaller.
proof fn lemma_chosen_first(
    h: Tally,
    n: int,
    unary: bool,
    bit: int,
    base: int,
    parts: Seq<u8>,
    q: Seq<u8>,
    k: int,
)
    requires
        0 <= bit <= k < n,
        parts.len() == n,
        q.len() == n,
        chosen(h, n, unary, bit, base, parts),
        widths_ok(h, n, bit, base, q),
        widths_total(h, n, unary, bit, base, q) == opt_len(h, n, unary, bit, base),
        forall|j: int| bit <= j < k ==> q[j] == parts[j],
    ensures
        parts[k] <= q[k],
    decreases n - bit,
{
    let w = q[bit] as int;
    lemma_opt_least(h, n, unary, bit + 1, part_end(base, w), q);
    if bit < k {
        lemma_chosen_first(h, n, unary, bit + 1, part_end(base, w), parts, q, k);
    } else if w < parts[bit] {
        assert(with_width(h, n, unary, bit, base, w) > opt_len(h, n, unary, bit, base));
    }
}

proof fn lemma_scan_least(h: Tally, n: int, unary: bool, bit: int, base: int, i: int, w: int)
    requires
        bit < n,
        0 <= i <= w <= 15,
        forall|j: int| i <= j <= w ==> #[trigger] width_ok(h, n, bit, base, j),
    ensures
        opt_scan(h, n, unary, bit, base, i) <= part_total(h, n, unary, bit, base, w) + opt_len(
            h,
            n,
            unary,
            bit + 1,
            part_end(base, w),
        ),
    decreases w - i,
{
    assert(width_ok(h, n, bit, base, i));
    if i < w {
        lemma_scan_least(h, n, unary, bit, base, i + 1, w);
    }
}

proof fn lemma_opt_least(h: Tally, n: int, unary: bool, bit: int, base: int, q: Seq<u8>)
    requires
        0 <= bit <= n,
        widths_ok(h, n, bit, base, q),
    ensures
        opt_len(h, n, unary, bit, base) <= widths_total(h, n, unary, bit, base, q),
    decreases n - bit,
{
    if bit < n {
        let w = q[bit] as int;
        lemma_opt_least(h, n, unary, bit + 1, part_end(base, w), q);
        lemma_scan_least(h, n, unary, bit, base, 0, w);
    }
}

proof fn lemma_widths_first(h: Tally, unary: bool, parts: Seq<u8>)
    requires
        chosen(h, parts.len() as int, unary, 0, 1, parts),
    ensures
        widths_first(h, unary, parts),
{
    let n = parts.len() as int;
    lemma_chosen_total(h, n, unary, 0, 1, parts);
    assert forall|q: Seq<u8>, k: int|
        #![trigger widths_ok(h, n, 0, 1, q), q[k]]
        q.len() == n && 0 <= k < n && widths_ok(h, n, 0, 1, q) && widths_total(
            h,
            n,
            unary,
            0,
            1,
            q,
        ) == widths_total(h, n, unary, 0, 1, parts) && q.take(k) == parts.take(k) implies parts[k]
        <= q[k] by {
        assert forall|j: int| 0 <= j < k implies q[j] == parts[j] by {
            assert(q.take(k)[j] == parts.take(k)[j]);
        }
        lemma_chosen_first(h, n, unary, 0, 1, parts, q, k);
    }
}

/// There is one best table.
pub proof fn lemma_one_table(h: Tally, unary: bool, a: Seq<u8>, b: Seq<u8>)
    requires
        widths_best(h, unary, a),
        widths_best(h, unary, b),
        a.len() == b.len(),
    ensures
        a == b,
{
    let n = a.len() as int;
    if widths_ok(h, n, 0, 1, a) && widths_total(h, n, unary, 0, 1, a) < NO_TABLE {
        assert(widths_ok(h, n, 0, 1, b) && widths_total(h, n, unary, 0, 1, b) < NO_TABLE);
        assert(a.take(0) =~= b.take(0));
        lemma_same_widths(h, unary, a, b, 0);
    } else {
        assert(!(widths_ok(h, n, 0, 1, b) && widths_total(h, n, unary, 0, 1, b) < NO_TABLE));
        assert(a =~= b);
    }
}

proof fn lemma_same_widths(h: Tally, unary: bool, a: Seq<u8>, b: Seq<u8>, k: int)
    requires
        a.len() == b.len(),
        widths_ok(h, a.len() as int, 0, 1, a),
        widths_ok(h, a.len() as int, 0, 1, b),
        widths_total(h, a.len() as int, unary, 0, 1, a) == widths_total(
            h,
            a.len() as int,
            unary,
            0,
            1,
            b,
        ),
        widths_first(h, unary, a),
        widths_first(h, unary, b),
        0 <= k <= a.len(),
        a.take(k) == b.take(k),
    ensures
        a == b,
    decreases a.len() - k,
{
    if k < a.len() {
        assert(a[k] <= b[k] && b[k] <= a[k]);
        assert(a.take(k + 1) =~= a.take(k).push(a[k]));
        assert(b.take(k + 1) =~= b.take(k).push(b[k]));
        lemma_same_widths(h, unary, a, b, k + 1);
    } else {
        assert(a.take(k) =~= a);
        assert(b.take(k) =~= b);
    }
}

// ---------------------------------------------------------------------------
// Bounds
// ---------------------------------------------------------------------------
proof fn lemma_upto_monotone(s: Seq<i64>, a: int, b: int)
    requires
        0 <= a <= b,
        forall|v: int| 0 <= v < s.len() ==> #[trigger] s[v] >= 0,
    ensures
        0 <= sum_upto(s, a) <= sum_upto(s, b),
    decreases b,
{
    if b > 0 {
        if a < b {
            lemma_upto_monotone(s, a, b - 1);
        } else {
            lemma_upto_monotone(s, a - 1, b - 1);
        }
    }
}

proof fn lemma_upto_flat(s: Seq<i64>, b: int)
    requires
        s.len() <= b,
    ensures
        sum_upto(s, b) == sum_upto(s, s.len() as int),
    decreases b,
{
    if b > s.len() {
        lemma_upto_flat(s, b - 1);
    }
}

proof fn lemma_past_bound(h: Tally, v: int)
    requires
        tally_ok(h),
        0 <= v,
    ensures
        -MAX_ALT * MAX_COUNT <= sum_past(h.costs, v) <= MAX_ALT * MAX_COUNT,
{
    if v < h.costs.len() {
        lemma_past_bound_from(h, v);
        lemma_upto_monotone(h.bins, 0, v);
        let n = h.bins.len() as int;
        let rest = sum_upto(h.bins, n) - sum_upto(h.bins, v);
        assert(-MAX_ALT * MAX_COUNT <= -MAX_ALT * rest && MAX_ALT * rest <= MAX_ALT * MAX_COUNT)
            by (nonlinear_arith)
            requires
                rest <= MAX_COUNT,
        ;
    }
}

proof fn lemma_past_bound_from(h: Tally, v: int)
    requires
        tally_ok(h),
        0 <= v <= h.costs.len(),
    ensures
        ({
            let rest = sum_upto(h.bins, h.bins.len() as int) - sum_upto(h.bins, v);
            &&& rest >= 0
            &&& -MAX_ALT * rest <= sum_past(h.costs, v) <= MAX_ALT * rest
        }),
    decreases h.costs.len() - v,
{
    if v < h.costs.len() {
        lemma_past_bound_from(h, v + 1);
        let rest = sum_upto(h.bins, h.bins.len() as int) - sum_upto(h.bins, v + 1);
        let b = h.bins[v] as int;
        assert(h.costs[v] <= MAX_ALT * h.bins[v]);
        assert(MAX_ALT * (rest + b) == MAX_ALT * rest + MAX_ALT * b) by (nonlinear_arith);
        assert(-MAX_ALT * (rest + b) == -MAX_ALT * rest + -MAX_ALT * b) by (nonlinear_arith);
    }
}

proof fn lemma_part_total(h: Tally, n: int, unary: bool, bit: int, base: int, i: int)
    requires
        tally_ok(h),
        0 <= bit < n <= 16,
        0 <= base <= MAX_VALUES,
        0 <= i <= 15,
    ensures
        0 <= sum_upto(h.bins, part_end(base, i)) - sum_upto(h.bins, base) <= MAX_COUNT,
        0 <= part_total(h, n, unary, bit, base, i) <= 31 * MAX_COUNT,
{
    lemma_pow2_pos(i as nat);
    let e = part_end(base, i);
    lemma_upto_monotone(h.bins, base, e);
    if e <= h.bins.len() {
        lemma_upto_monotone(h.bins, e, h.bins.len() as int);
    } else {
        lemma_upto_flat(h.bins, e);
    }
    lemma_upto_monotone(h.bins, 0, base);
    let c = sum_upto(h.bins, e) - sum_upto(h.bins, base);
    let k = part_select(unary, n, bit) + i;
    assert(0 <= c * k <= 31 * MAX_COUNT) by (nonlinear_arith)
        requires
            0 <= c <= MAX_COUNT,
            0 <= k <= 31,
    ;
}

proof fn lemma_opt_bound(h: Tally, n: int, unary: bool, bit: int, base: int)
    requires
        tally_ok(h),
        0 <= bit <= n <= 16,
        0 <= base <= MAX_VALUES,
    ensures
        -MAX_ALT * MAX_COUNT <= opt_len(h, n, unary, bit, base) <= MAX_ALT * MAX_COUNT,
    decreases n - bit, 18int,
{
    if bit >= n {
        lemma_past_bound(h, base);
    } else {
        lemma_scan_bound(h, n, unary, bit, base, 0);
    }
}

proof fn lemma_scan_bound(h: Tally, n: int, unary: bool, bit: int, base: int, i: int)
    requires
        tally_ok(h),
        0 <= bit < n <= 16,
        0 <= base <= MAX_VALUES,
        0 <= i <= 16,
    ensures
        -MAX_ALT * MAX_COUNT <= opt_scan(h, n, unary, bit, base, i) <= NO_TABLE,
    decreases n - bit, 17 - i,
{
    if i < 16 && width_ok(h, n, bit, base, i) {
        lemma_pow2_pos(i as nat);
        lemma_opt_bound(h, n, unary, bit + 1, part_end(base, i));
        lemma_part_total(h, n, unary, bit, base, i);
        lemma_scan_bound(h, n, unary, bit, base, i + 1);
    }
}

// ---------------------------------------------------------------------------
// Histogram
// ---------------------------------------------------------------------------
/// A histogram of numbers below its range.
pub struct Hist {
    pub bin: Vec<i64>,
    pub cost: Vec<i64>,
}

impl View for Hist {
    type V = Tally;

    open spec fn view(&self) -> Tally {
        Tally { bins: self.bin@, costs: self.cost@ }
    }
}

proof fn lemma_upto_zero(s: Seq<i64>, v: int)
    requires
        forall|k: int| 0 <= k < s.len() ==> s[k] == 0,
    ensures
        sum_upto(s, v) == 0,
    decreases v,
{
    if v > 0 {
        lemma_upto_zero(s, v - 1);
    }
}

proof fn lemma_upto_update(s: Seq<i64>, i: int, x: i64, v: int)
    requires
        0 <= i < s.len(),
        0 <= v,
    ensures
        sum_upto(s.update(i, x), v) == sum_upto(s, v) + if i < v {
            x - s[i]
        } else {
            0
        },
    decreases v,
{
    if v > 0 {
        lemma_upto_update(s, i, x, v - 1);
    }
}

impl Hist {
    pub fn new(range: usize) -> (h: Hist)
        requires
            range <= MAX_VALUES,
        ensures
            tally_ok(h@),
            h@.bins.len() == range,
            sum_upto(h@.bins, range as int) == 0,
            forall|k: int| 0 <= k < range ==> h@.bins[k] == 0 && h@.costs[k] == 0,
    {
        let mut bin: Vec<i64> = Vec::with_capacity(range);
        let mut cost: Vec<i64> = Vec::with_capacity(range);
        let mut i: usize = 0;
        while i < range
            invariant
                i <= range,
                bin@.len() == i,
                cost@.len() == i,
                forall|k: int| 0 <= k < i ==> bin@[k] == 0 && cost@[k] == 0,
            decreases range - i,
        {
            bin.push(0);
            cost.push(0);
            i += 1;
        }
        proof {
            lemma_upto_zero(bin@, range as int);
        }
        Hist { bin, cost }
    }

    /// Counts `v`, which costs `cost` in another form.
    pub fn add(&mut self, v: usize, cost: i64)
        requires
            tally_ok(old(self)@),
            v < old(self)@.bins.len(),
            -MAX_ALT <= cost <= MAX_ALT,
            sum_upto(old(self)@.bins, old(self)@.bins.len() as int) < MAX_COUNT,
        ensures
            tally_ok(final(self)@),
            final(self)@.bins[v as int] == old(self)@.bins[v as int] + 1,
            final(self)@.bins == old(self)@.bins.update(
                v as int,
                (old(self)@.bins[v as int] + 1) as i64,
            ),
            final(self)@.costs == old(self)@.costs.update(
                v as int,
                (old(self)@.costs[v as int] + cost) as i64,
            ),
            sum_upto(final(self)@.bins, final(self)@.bins.len() as int) == sum_upto(
                old(self)@.bins,
                old(self)@.bins.len() as int,
            ) + 1,
    {
        let ghost h0 = self@;
        let b: i64 = self.bin[v];
        let c: i64 = self.cost[v];
        proof {
            let n = h0.bins.len() as int;
            lemma_upto_monotone(h0.bins, 0, v as int);
            lemma_upto_monotone(h0.bins, v + 1, n);
            assert(sum_upto(h0.bins, v + 1) == sum_upto(h0.bins, v as int) + b);
            assert(h0.costs[v as int] == c);
            assert(-MAX_ALT * b <= c <= MAX_ALT * b);
            assert(MAX_ALT * b <= MAX_ALT * MAX_COUNT) by (nonlinear_arith)
                requires
                    0 <= b <= MAX_COUNT,
            ;
            assert(-MAX_ALT * MAX_COUNT <= -MAX_ALT * b) by (nonlinear_arith)
                requires
                    0 <= b <= MAX_COUNT,
            ;
            lemma_upto_update(h0.bins, v as int, (b + 1) as i64, n);
            assert(MAX_ALT * (b + 1) == MAX_ALT * b + MAX_ALT) by (nonlinear_arith);
            assert(-MAX_ALT * (b + 1) == -MAX_ALT * b - MAX_ALT) by (nonlinear_arith);
        }
        self.bin.set(v, b + 1);
        self.cost.set(v, c + cost);
        assert forall|k: int| 0 <= k < self@.costs.len() implies -MAX_ALT * self@.bins[k]
            <= #[trigger] self@.costs[k] <= MAX_ALT * self@.bins[k] by {
            if k != v {
                assert(self@.costs[k] == h0.costs[k]);
            }
        }
    }
}

// ---------------------------------------------------------------------------
// Search
// ---------------------------------------------------------------------------
/// Marks a state that has not been solved.
const OPEN: u8 = 255;

/// Solved states: for a part and the number that it starts with, the fewest
/// bits and the width that gives them.
struct Solver {
    n: usize,
    unary: bool,
    so_far: Vec<i64>,
    cost_left: Vec<i64>,
    /// Beyond here nothing is left to pay.
    reach: usize,
    memo_len: Vec<i64>,
    memo_width: Vec<u8>,
    h: Ghost<Tally>,
}

impl Solver {
    spec fn solved(&self, bit: int, base: int, len: int, w: u8) -> bool {
        &&& len == opt_len(self.h@, self.n as int, self.unary, bit, base)
        &&& len < NO_TABLE ==> {
            &&& w <= 15
            &&& forall|j: int|
                0 <= j <= w ==> #[trigger] width_ok(self.h@, self.n as int, bit, base, j)
            &&& len == part_total(self.h@, self.n as int, self.unary, bit, base, w as int)
                + opt_len(
                self.h@,
                self.n as int,
                self.unary,
                bit + 1,
                part_end(base, w as int),
            )
            &&& forall|j: int|
                0 <= j < w ==> #[trigger] with_width(
                    self.h@,
                    self.n as int,
                    self.unary,
                    bit,
                    base,
                    j,
                ) > len
        }
    }

    spec fn slot(&self, bit: int, base: int) -> int {
        base * 16 + bit
    }

    spec fn same(&self, o: &Self) -> bool {
        &&& self.n == o.n
        &&& self.unary == o.unary
        &&& self.h@ == o.h@
        &&& self.reach == o.reach
    }

    spec fn wf(&self) -> bool {
        &&& self.n == PARTS || self.n == SINGLE_BYTE_PARTS
        &&& tally_ok(self.h@)
        &&& self.so_far@.len() == self.h@.bins.len() + 1
        &&& self.cost_left@.len() == self.h@.bins.len() + 1
        &&& self.reach <= self.h@.bins.len()
        &&& forall|v: int|
            0 <= v < self.so_far@.len() ==> #[trigger] self.so_far@[v] == sum_upto(self.h@.bins, v)
        &&& forall|v: int|
            0 <= v < self.cost_left@.len() ==> #[trigger] self.cost_left@[v] == sum_past(
                self.h@.costs,
                v,
            )
        &&& forall|v: int|
            self.reach <= v < self.cost_left@.len() ==> #[trigger] self.cost_left@[v] == 0
        &&& self.memo_len@.len() == (self.reach + 2) * 16
        &&& self.memo_width@.len() == (self.reach + 2) * 16
        &&& forall|bit: int, base: int|
            0 <= bit < self.n && 0 <= base < self.reach + 2 && self.memo_width@[#[trigger] self.slot(
                bit,
                base,
            )] != OPEN ==> self.solved(
                bit,
                base,
                self.memo_len@[self.slot(bit, base)] as int,
                self.memo_width@[self.slot(bit, base)],
            )
    }

    fn count_upto(&self, v: usize) -> (c: i64)
        requires
            self.wf(),
        ensures
            c == sum_upto(self.h@.bins, v as int),
    {
        let size: usize = self.so_far.len();
        if v < size {
            self.so_far[v]
        } else {
            proof {
                lemma_upto_flat(self.h@.bins, v as int);
            }
            self.so_far[size - 1]
        }
    }

    fn left_from(&self, v: usize) -> (c: i64)
        requires
            self.wf(),
        ensures
            c == sum_past(self.h@.costs, v as int),
            c != 0 ==> v < self.reach,
    {
        if v < self.cost_left.len() {
            self.cost_left[v]
        } else {
            0
        }
    }

    /// The fewest bits from part `bit` on, which starts at `base`, and the width
    /// of that part. Every state is solved once.
    #[verifier::rlimit(60)]
    fn calc_enc(&mut self, bit: usize, base: usize) -> (r: (i64, u8))
        requires
            old(self).wf(),
            bit < old(self).n,
            base < old(self).reach + 2,
            base < MAX_VALUES,
        ensures
            final(self).wf(),
            final(self).same(old(self)),
            final(self).solved(bit as int, base as int, r.0 as int, r.1),
        decreases old(self).n - bit,
    {
        let idx: usize = base * 16 + bit;
        assert(idx == self.slot(bit as int, base as int));
        if self.memo_width[idx] != OPEN {
            return (self.memo_len[idx], self.memo_width[idx]);
        }
        let n: usize = self.n;
        let ghost h = self.h@;
        let ghost unary = self.unary;
        let select: i64 = if !self.unary {
            if n == SINGLE_BYTE_PARTS {
                2
            } else {
                4
            }
        } else if bit == n - 1 {
            bit as i64
        } else {
            bit as i64 + 1
        };
        let mut best: i64 = NO_TABLE;
        let mut width: u8 = 0;
        let mut i: u8 = 0;
        let mut size: usize = 1;
        let before: i64 = self.count_upto(base);
        proof {
            assert(pow2(0) == 1) by {
                vstd::arithmetic::power2::lemma2_to64();
            }
            lemma_scan_bound(h, n as int, unary, bit as int, base as int, 0);
        }
        let ghost goal = opt_len(h, n as int, unary, bit as int, base as int);
        let mut going: bool = true;
        while going && i < 16
            invariant
                self.wf(),
                self.same(old(self)),
                h == self.h@,
                unary == self.unary,
                n == self.n,
                bit < n,
                base < self.reach + 2,
                base < MAX_VALUES,
                before == sum_upto(h.bins, base as int),
                select == part_select(unary, n as int, bit as int),
                i <= 16,
                size == pow2(i as nat),
                1 <= size <= 65536,
                best <= NO_TABLE,
                best == NO_TABLE || (width < i && best == part_total(
                    h,
                    n as int,
                    unary,
                    bit as int,
                    base as int,
                    width as int,
                ) + opt_len(h, n as int, unary, bit + 1, part_end(base as int, width as int))),
                going ==> (forall|j: int|
                    0 <= j < i ==> #[trigger] width_ok(h, n as int, bit as int, base as int, j)),
                best < NO_TABLE ==> (forall|j: int|
                    0 <= j <= width ==> #[trigger] width_ok(h, n as int, bit as int, base as int, j)),
                goal == opt_len(h, n as int, unary, bit as int, base as int),
                going ==> goal == {
                    let rest = opt_scan(h, n as int, unary, bit as int, base as int, i as int);
                    if best < rest {
                        best as int
                    } else {
                        rest
                    }
                },
                !going ==> goal == best,
                forall|j: int|
                    0 <= j < i ==> #[trigger] with_width(
                        h,
                        n as int,
                        unary,
                        bit as int,
                        base as int,
                        j,
                    ) >= best,
                best < NO_TABLE ==> forall|j: int|
                    0 <= j < width ==> #[trigger] with_width(
                        h,
                        n as int,
                        unary,
                        bit as int,
                        base as int,
                        j,
                    ) > best,
                old(self).n == n,
            decreases 16 - i + if going {
                1int
            } else {
                0int
            },
        {
            proof {
                lemma_part_total(h, n as int, unary, bit as int, base as int, i as int);
                lemma_pow2_unfold((i + 1) as nat);
                lemma_opt_bound(
                    h,
                    n as int,
                    unary,
                    bit + 1,
                    part_end(base as int, i as int),
                );
                lemma_size(i);
            }
            let lim: usize = if base + size >= MAX_VALUES {
                MAX_VALUES
            } else {
                base + size
            };
            let left: i64 = self.left_from(lim);
            if bit < n - 1 && (lim == MAX_VALUES || left == 0) {
                assert(!width_ok(h, n as int, bit as int, base as int, i as int));
                going = false;
            } else {
                assert(width_ok(h, n as int, bit as int, base as int, i as int));
                let rest: i64 = if bit < n - 1 {
                    self.calc_enc(bit + 1, lim).0
                } else {
                    left
                };
                let count: i64 = self.count_upto(lim) - before;
                assert(0 <= count * (select + i) <= 31 * MAX_COUNT);
                let here: i64 = count * (select + i as i64) + rest;
                assert(here == with_width(
                    h,
                    n as int,
                    unary,
                    bit as int,
                    base as int,
                    i as int,
                ));
                if here < best {
                    best = here;
                    width = i;
                }
                i += 1;
                size = 2 * size;
            }
        }
        let ghost pre = *self;
        self.memo_len.set(idx, best);
        self.memo_width.set(idx, width);
        assert(self.solved(bit as int, base as int, best as int, width));
        assert forall|bi: int, ba: int|
            0 <= bi < self.n && 0 <= ba < self.reach + 2 && self.memo_width@[#[trigger] self.slot(
                bi,
                ba,
            )] != OPEN implies self.solved(
            bi,
            ba,
            self.memo_len@[self.slot(bi, ba)] as int,
            self.memo_width@[self.slot(bi, ba)],
        ) by {
            assert(pre.slot(bi, ba) == self.slot(bi, ba));
            if self.slot(bi, ba) == idx {
                assert(bi == bit && ba == base);
            } else {
                assert(pre.solved(
                    bi,
                    ba,
                    self.memo_len@[self.slot(bi, ba)] as int,
                    self.memo_width@[self.slot(bi, ba)],
                ));
            }
        }
        (best, width)
    }
}

proof fn lemma_size(i: u8)
    requires
        i <= 15,
    ensures
        pow2((i + 1) as nat) <= 65536,
{
    assert(pow2(16) == 65536) by {
        vstd::arithmetic::power2::lemma2_to64();
    }
    if i < 15 {
        vstd::arithmetic::power2::lemma_pow2_strictly_increases((i + 1) as nat, 16);
    }
}

/// Prefix sums of the counts and suffix sums of the costs.
fn build_arrays(h: &Hist) -> (r: (Vec<i64>, Vec<i64>))
    requires
        tally_ok(h@),
    ensures
        r.0@.len() == h@.bins.len() + 1,
        r.1@.len() == h@.bins.len() + 1,
        forall|v: int| 0 <= v < r.0@.len() ==> #[trigger] r.0@[v] == sum_upto(h@.bins, v),
        forall|v: int| 0 <= v < r.1@.len() ==> #[trigger] r.1@[v] == sum_past(h@.costs, v),
{
    let range: usize = h.bin.len();
    let mut so_far: Vec<i64> = Vec::with_capacity(range + 1);
    let mut acc: i64 = 0;
    let mut i: usize = 0;
    so_far.push(0);
    while i < range
        invariant
            tally_ok(h@),
            range == h@.bins.len(),
            i <= range,
            acc == sum_upto(h@.bins, i as int),
            so_far@.len() == i + 1,
            forall|v: int| 0 <= v < so_far@.len() ==> #[trigger] so_far@[v] == sum_upto(h@.bins, v),
        decreases range - i,
    {
        proof {
            lemma_upto_monotone(h@.bins, i + 1, range as int);
            assert(h@.bins[i as int] >= 0);
            lemma_upto_monotone(h@.bins, 0, i as int);
            assert(sum_upto(h@.bins, i + 1) == sum_upto(h@.bins, i as int) + h@.bins[i as int]);
        }
        acc = acc + h.bin[i];
        so_far.push(acc);
        i += 1;
    }
    let mut cost_left: Vec<i64> = Vec::with_capacity(range + 1);
    let mut k: usize = 0;
    while k < range + 1
        invariant
            range == h@.bins.len(),
            range <= MAX_VALUES,
            k <= range + 1,
            cost_left@.len() == k,
            forall|v: int| 0 <= v < k ==> cost_left@[v] == 0,
        decreases range + 1 - k,
    {
        cost_left.push(0);
        k += 1;
    }
    let mut cost: i64 = 0;
    let mut j: usize = range;
    while j > 0
        invariant
            tally_ok(h@),
            range == h@.bins.len(),
            j <= range,
            cost == sum_past(h@.costs, j as int),
            cost_left@.len() == range + 1,
            forall|v: int|
                j <= v < cost_left@.len() ==> #[trigger] cost_left@[v] == sum_past(h@.costs, v),
        decreases j,
    {
        j -= 1;
        proof {
            lemma_past_bound(h@, j as int);
        }
        cost = cost + h.cost[j];
        cost_left.set(j, cost);
    }
    (so_far, cost_left)
}

/// A table for the numbers of `h`: no other has fewer bits.
#[verifier::rlimit(60)]
pub fn optimize_enc(h: &Hist, n: usize, unary: bool) -> (e: Encoding)
    requires
        tally_ok(h@),
        n == PARTS || n == SINGLE_BYTE_PARTS,
    ensures
        substream::code_wf(e@),
        e@.unary == unary,
        e@.parts.len() == n,
        widths_best(h@, unary, e@.parts),
{
    let range: usize = h.bin.len();
    let (so_far, cost_left): (Vec<i64>, Vec<i64>) = build_arrays(h);
    let mut reach: usize = range;
    while reach > 0 && cost_left[reach - 1] == 0
        invariant
            reach <= range,
            range == h@.bins.len(),
            cost_left@.len() == range + 1,
            cost_left@[range as int] == 0,
            forall|v: int| reach <= v < cost_left@.len() ==> #[trigger] cost_left@[v] == 0,
        decreases reach,
    {
        reach -= 1;
    }
    let total: usize = (reach + 2) * 16;
    let mut memo_len: Vec<i64> = Vec::with_capacity(total);
    let mut memo_width: Vec<u8> = Vec::with_capacity(total);
    let mut i: usize = 0;
    while i < total
        invariant
            i <= total,
            memo_len@.len() == i,
            memo_width@.len() == i,
            forall|v: int| 0 <= v < i ==> #[trigger] memo_width@[v] == OPEN,
        decreases total - i,
    {
        memo_len.push(0);
        memo_width.push(OPEN);
        i += 1;
    }
    let mut s: Solver = Solver {
        n,
        unary,
        so_far,
        cost_left,
        reach,
        memo_len,
        memo_width,
        h: Ghost(h@),
    };
    let ghost t = h@;
    let ghost ni = n as int;
    let (len, first): (i64, u8) = s.calc_enc(0, 1);
    assert forall|q: Seq<u8>| q.len() == n && #[trigger] widths_ok(t, ni, 0, 1, q) implies len
        <= widths_total(t, ni, unary, 0, 1, q) by {
        lemma_opt_least(t, ni, unary, 0, 1, q);
    }
    if len >= NO_TABLE {
        return Encoding::zeroed(n, unary);
    }
    let mut parts: Vec<u8> = Vec::new();
    let mut bit: usize = 0;
    let mut base: usize = 1;
    let ghost mut done: int = 0;
    while bit < n
        invariant
            s.wf(),
            s.h@ == t,
            s.n == n,
            s.unary == unary,
            tally_ok(t),
            ni == n,
            n <= 16,
            bit <= n,
            parts@.len() == bit,
            forall|k: int| 0 <= k < bit ==> #[trigger] parts@[k] <= 15,
            bit < n ==> base < s.reach + 2 && base < MAX_VALUES,
            base <= MAX_VALUES,
            done >= 0,
            len == done + opt_len(t, ni, unary, bit as int, base as int),
            len < NO_TABLE,
            forall|q: Seq<u8>|
                q.len() == n && q.take(bit as int) == parts@ && chosen(
                    t,
                    ni,
                    unary,
                    bit as int,
                    base as int,
                    q,
                ) ==> #[trigger] chosen(t, ni, unary, 0, 1, q),
            forall|q: Seq<u8>|
                #![trigger widths_ok(t, ni, 0, 1, q)]
                #![trigger widths_total(t, ni, unary, 0, 1, q)]
                q.len() == n && q.take(bit as int) == parts@ ==> (widths_ok(
                    t,
                    ni,
                    bit as int,
                    base as int,
                    q,
                ) ==> widths_ok(t, ni, 0, 1, q)) && widths_total(t, ni, unary, 0, 1, q) == done
                    + widths_total(t, ni, unary, bit as int, base as int, q),
        decreases n - bit,
    {
        let (sub, w): (i64, u8) = s.calc_enc(bit, base);
        let ghost b0 = base as int;
        let ghost p0 = parts@;
        let ghost d0 = done;
        proof {
            lemma_part_total(t, ni, unary, bit as int, b0, w as int);
            lemma_pow2_pos(w as nat);
            assert(width_ok(t, ni, bit as int, b0, w as int));
            lemma_size(w);
            lemma_pow2_unfold((w + 1) as nat);
            done = done + part_total(t, ni, unary, bit as int, b0, w as int);
        }
        let mut size: usize = 1;
        let mut k: u8 = 0;
        proof {
            assert(pow2(0) == 1) by {
                vstd::arithmetic::power2::lemma2_to64();
            }
        }
        while k < w
            invariant
                k <= w <= 15,
                size == pow2(k as nat),
                size <= 65536,
            decreases w - k,
        {
            proof {
                lemma_size(k);
                lemma_pow2_unfold((k + 1) as nat);
            }
            size = 2 * size;
            k += 1;
        }
        let lim: usize = if base + size >= MAX_VALUES {
            MAX_VALUES
        } else {
            base + size
        };
        let left: i64 = s.left_from(lim);
        parts.push(w);
        base = lim;
        bit += 1;
        assert forall|q: Seq<u8>|
            q.len() == n && q.take(bit as int) == parts@ && chosen(
                t,
                ni,
                unary,
                bit as int,
                base as int,
                q,
            ) implies #[trigger] chosen(t, ni, unary, 0, 1, q) by {
            assert(q.take(bit - 1) =~= p0) by {
                assert(q.take(bit as int).take(bit - 1) =~= q.take(bit - 1));
                assert(parts@.take(bit - 1) =~= p0);
            }
            assert(q[bit - 1] == w) by {
                assert(q.take(bit as int)[bit - 1] == parts@[bit - 1]);
            }
            assert(chosen(t, ni, unary, bit - 1, b0, q));
        }
        assert forall|q: Seq<u8>|
            #![trigger widths_ok(t, ni, 0, 1, q)]
            #![trigger widths_total(t, ni, unary, 0, 1, q)]
            q.len() == n && q.take(bit as int) == parts@ implies (widths_ok(
            t,
            ni,
            bit as int,
            base as int,
            q,
        ) ==> widths_ok(t, ni, 0, 1, q)) && widths_total(t, ni, unary, 0, 1, q) == done
            + widths_total(t, ni, unary, bit as int, base as int, q) by {
            assert(q.take(bit - 1) =~= p0) by {
                assert(q.take(bit as int).take(bit - 1) =~= q.take(bit - 1));
                assert(parts@.take(bit - 1) =~= p0);
            }
            assert(q[bit - 1] == w) by {
                assert(q.take(bit as int)[bit - 1] == parts@[bit - 1]);
            }
            assert(widths_ok(t, ni, 0, 1, q) || !widths_ok(t, ni, 0, 1, q));
        }
    }
    assert(parts@.take(n as int) =~= parts@);
    proof {
        assert(widths_ok(t, ni, ni, base as int, parts@));
        assert(widths_ok(t, ni, 0, 1, parts@));
        assert(chosen(t, ni, unary, ni, base as int, parts@));
        assert(chosen(t, ni, unary, 0, 1, parts@));
        lemma_widths_first(t, unary, parts@);
    }
    Encoding { unary, parts }
}

} // verus!
