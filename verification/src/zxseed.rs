//! Further candidates for the ZX parsers: offsets that a parse could establish
//! early and reuse later, which the front of a match set hides.
use crate::lz;
use crate::matchfinder;
use crate::matchfinder::{keep_longest, Match, MatchSet};
use crate::zx;
use crate::zx::MAX_OFFSET;
use crate::zxbest;
use crate::zxdp;
use crate::zxdp::{
    dp_front, dp_literal, dp_rep, fresh_for_offset, fresh_for_rep, zx_rep_insert, zx_rep_insert1, zx_rep_mtf,
    Limits, ZxArr, MIN_MATCH, ZX_INF, ZX_RELAX_SPAN, ZX_REP_PROBE_MAX,
};
use crate::zxsearch;
use vstd::prelude::*;

verus! {

/// Arrivals that the seeding pass keeps at a position.
pub const ZX_SEED_ARRIVALS: usize = 40;

/// How far back an offset is handed on.
pub const ZX_FWD_MAX_DEPTH: usize = 9;

/// A table without candidates.
pub fn empty_table(n: usize) -> (table: Vec<Vec<(u32, u32)>>)
    ensures
        table@.len() == n,
        forall|p: int| 0 <= p < n ==> (#[trigger] table@[p])@.len() == 0,
{
    let mut table: Vec<Vec<(u32, u32)>> = Vec::with_capacity(n);
    let mut i: usize = 0;
    while i < n
        invariant
            i <= n,
            table@.len() == i,
            forall|p: int| 0 <= p < i ==> (#[trigger] table@[p])@.len() == 0,
        decreases n - i,
    {
        table.push(Vec::new());
        i += 1;
    }
    table
}

/// The longest `cap` pairs of a list, longest first.
pub fn longest_of(list: &Vec<(u32, u32)>, cap: usize, Ghost(input): Ghost<Seq<u8>>, Ghost(p): Ghost<int>) -> (out: Vec<(u32, u32)>)
    requires
        matchfinder::pairs_ok(input, p, list@),
    ensures
        matchfinder::pairs_ok(input, p, out@),
        out@ == matchfinder::longest_pairs(list@, cap as int, list@.len() as int),
        matchfinder::pairs_fall(out@),
        out@.len() <= cap,
{
    let mut out: Vec<(u32, u32)> = Vec::new();
    let mut k: usize = 0;
    while k < list.len()
        invariant
            k <= list@.len(),
            matchfinder::pairs_ok(input, p, list@),
            matchfinder::pairs_ok(input, p, out@),
            out@ == matchfinder::longest_pairs(list@, cap as int, k as int),
            matchfinder::pairs_fall(out@),
            out@.len() <= cap,
        decreases list@.len() - k,
    {
        keep_longest(&mut out, list[k], cap);
        k += 1;
    }
    out
}

/// Length of the pair with offset `off`, or 0.
fn length_of(list: &Vec<(u32, u32)>, off: u32) -> (len: u32)
    ensures
        len > 0 ==> exists|k: int| 0 <= k < list@.len() && list@[k] == (off, len),
        len == 0 ==> forall|k: int|
            0 <= k < list@.len() && (#[trigger] list@[k]).1 > 0 ==> list@[k].0 != off,
{
    let mut k: usize = 0;
    while k < list.len()
        invariant
            k <= list@.len(),
            forall|j: int| 0 <= j < k && (#[trigger] list@[j]).1 > 0 ==> list@[j].0 != off,
        decreases list@.len() - k,
    {
        if list[k].0 == off && list[k].1 > 0 {
            return list[k].1;
        }
        k += 1;
    }
    0
}

/// The first pair from `k` on with offset `off`.
pub open spec fn pair_with(list: Seq<(u32, u32)>, off: u32, k: int) -> int
    decreases list.len() - k,
{
    if k >= list.len() || list[k].0 == off {
        k
    } else {
        pair_with(list, off, k + 1)
    }
}

/// The list with one more pair; of equal offsets the longer stays.
pub open spec fn joined(list: Seq<(u32, u32)>, pair: (u32, u32)) -> Seq<(u32, u32)> {
    let k = pair_with(list, pair.0, 0);
    if k >= list.len() {
        list.push(pair)
    } else if pair.1 > list[k].1 {
        list.update(k, pair)
    } else {
        list
    }
}

/// The list with the first `j` pairs of another.
pub open spec fn joined_all(list: Seq<(u32, u32)>, other: Seq<(u32, u32)>, j: int) -> Seq<(u32, u32)>
    decreases j,
{
    if j <= 0 {
        list
    } else {
        joined(joined_all(list, other, j - 1), other[j - 1])
    }
}

/// The list, cut to its longest `cap` pairs where it has more.
pub open spec fn at_most(list: Seq<(u32, u32)>, cap: int) -> Seq<(u32, u32)> {
    if list.len() > cap {
        matchfinder::longest_pairs(list, cap, list.len() as int)
    } else {
        list
    }
}

/// Raises the length of the first pair with offset `off` to `len`.
fn lengthen(list: &mut Vec<(u32, u32)>, off: u32, len: u32, Ghost(input): Ghost<Seq<u8>>, Ghost(p): Ghost<int>)
    requires
        matchfinder::pairs_ok(input, p, old(list)@),
        len >= 2 ==> lz::is_match(input, p, off as int, len as int),
    ensures
        matchfinder::pairs_ok(input, p, final(list)@),
        final(list)@ == if pair_with(old(list)@, off, 0) < old(list)@.len() {
            joined(old(list)@, (off, len))
        } else {
            old(list)@
        },
{
    let mut k: usize = 0;
    while k < list.len()
        invariant
            k <= list@.len(),
            list@ == old(list)@,
            matchfinder::pairs_ok(input, p, list@),
            len >= 2 ==> lz::is_match(input, p, off as int, len as int),
            pair_with(list@, off, 0) == pair_with(list@, off, k as int),
        decreases list@.len() - k,
    {
        if list[k].0 == off {
            if len > list[k].1 {
                list.set(k, (off, len));
            }
            return;
        }
        k += 1;
    }
}

/// Adds a pair to a list; of equal offsets the longer stays.
fn join(list: &mut Vec<(u32, u32)>, pair: (u32, u32), Ghost(input): Ghost<Seq<u8>>, Ghost(p): Ghost<int>)
    requires
        matchfinder::pairs_ok(input, p, old(list)@),
        pair.1 >= 2,
        lz::is_match(input, p, pair.0 as int, pair.1 as int),
    ensures
        matchfinder::pairs_ok(input, p, final(list)@),
        final(list)@ == joined(old(list)@, pair),
{
    let mut k: usize = 0;
    while k < list.len() && list[k].0 != pair.0
        invariant
            k <= list@.len(),
            pair_with(list@, pair.0, 0) == pair_with(list@, pair.0, k as int),
        decreases list@.len() - k,
    {
        k += 1;
    }
    if k < list.len() {
        lengthen(list, pair.0, pair.1, Ghost(input), Ghost(p));
    } else {
        list.push(pair);
    }
}

/// Merges two tables; of equal offsets the longer stays.
pub fn merge_extra(a: Vec<Vec<(u32, u32)>>, b: &Vec<Vec<(u32, u32)>>, cap: usize, Ghost(input): Ghost<Seq<u8>>) -> (out: Vec<Vec<(u32, u32)>>)
    requires
        matchfinder::table_ok(input, a@),
        matchfinder::table_ok(input, b@),
    ensures
        matchfinder::table_ok(input, out@),
        forall|p: int|
            0 <= p < input.len() ==> (#[trigger] out@[p])@ == if b@[p]@.len() > 0 {
                at_most(joined_all(a@[p]@, b@[p]@, b@[p]@.len() as int), cap as int)
            } else {
                a@[p]@
            },
{
    let n: usize = a.len();
    let mut out: Vec<Vec<(u32, u32)>> = Vec::with_capacity(n);
    let mut i: usize = 0;
    while i < n
        invariant
            i <= n,
            n == a@.len(),
            matchfinder::table_ok(input, a@),
            matchfinder::table_ok(input, b@),
            out@.len() == i,
            forall|p: int| 0 <= p < i ==> matchfinder::pairs_ok(input, p, (#[trigger] out@[p])@),
            forall|p: int|
                0 <= p < i ==> (#[trigger] out@[p])@ == if b@[p]@.len() > 0 {
                    at_most(joined_all(a@[p]@, b@[p]@, b@[p]@.len() as int), cap as int)
                } else {
                    a@[p]@
                },
        decreases n - i,
    {
        let mut dst: Vec<(u32, u32)> = copy_pairs(&a[i]);
        let other: &Vec<(u32, u32)> = &b[i];
        assert(matchfinder::pairs_ok(input, i as int, a@[i as int]@));
        assert(matchfinder::pairs_ok(input, i as int, b@[i as int]@));
        if other.len() > 0 {
            let mut j: usize = 0;
            while j < other.len()
                invariant
                    j <= other@.len(),
                    matchfinder::pairs_ok(input, i as int, other@),
                    matchfinder::pairs_ok(input, i as int, dst@),
                    dst@ == joined_all(a@[i as int]@, other@, j as int),
                decreases other@.len() - j,
            {
                join(&mut dst, other[j], Ghost(input), Ghost(i as int));
                j += 1;
            }
            if dst.len() > cap {
                dst = longest_of(&dst, cap, Ghost(input), Ghost(i as int));
            }
        }
        out.push(dst);
        i += 1;
    }
    out
}

/// Of the first `k` offsets of `used`, those that match at `p`, with the length
/// of the match, at most `lim`.
pub open spec fn matching(input: Seq<u8>, used: Seq<u32>, p: int, lim: int, k: int) -> Seq<(u32, u32)>
    decreases k,
{
    if k <= 0 {
        Seq::empty()
    } else {
        let before = matching(input, used, p, lim, k - 1);
        let run = matchfinder::run_at(input, p, used[k - 1] as int);
        let len = if run > lim {
            lim
        } else {
            run as int
        };
        if len >= 2 {
            before.push((used[k - 1], len as u32))
        } else {
            before
        }
    }
}

/// For each position, the offsets of `used` that match there.
pub fn build_extra_candidates(input: &[u8], used: &Vec<u32>, cap: usize, seed_probe: usize) -> (extra: Vec<Vec<(u32, u32)>>)
    requires
        input@.len() <= 0x3fff_ffff,
    ensures
        matchfinder::table_ok(input@, extra@),
        forall|p: int|
            0 <= p < input@.len() ==> (#[trigger] extra@[p])@ == at_most(
                matching(input@, used@, p, seed_probe as int, used@.len() as int),
                cap as int,
            ),
{
    let n: usize = input.len();
    let mut extra: Vec<Vec<(u32, u32)>> = Vec::with_capacity(n);
    let mut i: usize = 0;
    while i < n
        invariant
            i <= n,
            n == input@.len(),
            n <= 0x3fff_ffff,
            extra@.len() == i,
            forall|p: int| 0 <= p < i ==> matchfinder::pairs_ok(input@, p, (#[trigger] extra@[p])@),
            forall|p: int|
                0 <= p < i ==> (#[trigger] extra@[p])@ == at_most(
                    matching(input@, used@, p, seed_probe as int, used@.len() as int),
                    cap as int,
                ),
        decreases n - i,
    {
        let mut list: Vec<(u32, u32)> = Vec::new();
        let lim: usize = if n - i < seed_probe {
            n - i
        } else {
            seed_probe
        };
        let mut u: usize = 0;
        while u < used.len()
            invariant
                u <= used@.len(),
                i < n,
                n == input@.len(),
                n <= 0x3fff_ffff,
                i + lim <= n,
                lim == n - i || lim == seed_probe,
                lim <= seed_probe,
                matchfinder::pairs_ok(input@, i as int, list@),
                list@ == matching(input@, used@, i as int, seed_probe as int, u as int),
            decreases used@.len() - u,
        {
            let off: usize = used[u] as usize;
            proof {
                matchfinder::lemma_run_short(input@, i as int, off as int);
            }
            if lim >= 2 && 1 <= off && off <= i && input[i - off] == input[i] {
                let l: usize = lz::match_run(input, i - off, i, lim);
                proof {
                    matchfinder::lemma_run_is(input@, i as int, off as int, l as int, lim as int);
                }
                if l >= 2 {
                    list.push((used[u], l as u32));
                }
            }
            u += 1;
        }
        if list.len() > cap {
            list = longest_of(&list, cap, Ghost(input@), Ghost(i as int));
        }
        extra.push(list);
        i += 1;
    }
    extra
}

/// How often the parse uses `off` as an offset from position `p` on.
pub open spec fn used_count(best: Seq<(u32, u32)>, off: u32, p: int) -> nat
    decreases
        if p < best.len() {
            best.len() - p
        } else {
            0
        },
{
    if p < 0 || p >= best.len() {
        0
    } else if best[p].0 == 0 {
        used_count(best, off, p + 1)
    } else {
        used_count(best, off, p + best[p].0) + if best[p].1 == off {
            1nat
        } else {
            0nat
        }
    }
}

/// The offsets below `o` that the parse uses at least `min_count` times, with how
/// often: the most frequent first, smaller ones first among equals, at most `cap`.
pub open spec fn used_pairs(best: Seq<(u32, u32)>, min_count: int, cap: int, o: int) -> Seq<(u32, u32)>
    decreases o,
{
    if o <= 1 {
        Seq::empty()
    } else {
        let before = used_pairs(best, min_count, cap, o - 1);
        let count = used_count(best, (o - 1) as u32, 0);
        if count > 0 && count >= min_count {
            matchfinder::with_pair(before, ((o - 1) as u32, count as u32), cap)
        } else {
            before
        }
    }
}

/// The offsets of a parse that are fed back.
pub open spec fn used_offsets(best: Seq<(u32, u32)>, min_count: int, cap: int) -> Seq<u32> {
    let pairs = used_pairs(best, min_count, cap, 65536);
    Seq::new(pairs.len(), |k: int| pairs[k].0)
}

/// Offsets that the parse uses at least `min_count` times, most frequent
/// first, smaller offsets first among equals, at most `max_seed_offsets`.
pub fn collect_used_offsets(input: &[u8], best: &Vec<(u32, u32)>, max_seed_offsets: usize, min_count: u32) -> (used: Vec<u32>)
    requires
        zxbest::best_ok(input@, best@),
        best@.len() <= 0x3fff_ffff,
    ensures
        used@ == used_offsets(best@, min_count as int, max_seed_offsets as int),
        used@.len() <= max_seed_offsets,
        forall|k: int|
            0 <= k < used@.len() ==> 1 <= #[trigger] used@[k] <= MAX_OFFSET && used_count(
                best@,
                used@[k],
                0,
            ) >= min_count,
        forall|j: int, k: int|
            0 <= j < k < used@.len() ==> used_count(best@, #[trigger] used@[j], 0) >= used_count(
                best@,
                #[trigger] used@[k],
                0,
            ),
{
    let n: usize = best.len();
    let mut counts: Vec<u32> = vec![0u32; 65536];
    let mut p: usize = 0;
    while p < n
        invariant
            n == best@.len(),
            n <= 0x3fff_ffff,
            zxbest::best_ok(input@, best@),
            p <= n,
            counts@.len() == 65536,
            forall|o: int|
                0 <= o < 65536 ==> #[trigger] counts@[o] + used_count(best@, o as u32, p as int)
                    == used_count(best@, o as u32, 0),
            forall|o: int| 0 <= o < 65536 ==> #[trigger] counts@[o] <= p,
        decreases n - p,
    {
        let (len, off) = best[p];
        let ghost c0 = counts@;
        if len == 0 {
            p += 1;
        } else {
            assert(lz::is_match(input@, p as int, off as int, len as int));
            if off <= MAX_OFFSET {
                let c: u32 = counts[off as usize];
                counts.set(off as usize, c + 1);
            }
            p += len as usize;
        }
        assert forall|o: int| 0 <= o < 65536 implies #[trigger] counts@[o] + used_count(
            best@,
            o as u32,
            p as int,
        ) == used_count(best@, o as u32, 0) by {
            assert(c0[o] <= p);
        }
    }
    let mut v: Vec<(u32, u32)> = Vec::new();
    assert(v@ =~= used_pairs(best@, min_count as int, max_seed_offsets as int, 1));
    let mut o: usize = 1;
    while o < 65536
        invariant
            1 <= o <= 65536,
            counts@.len() == 65536,
            forall|x: int|
                0 <= x < 65536 ==> #[trigger] counts@[x] == used_count(best@, x as u32, 0),
            v@.len() <= max_seed_offsets,
            forall|k: int|
                0 <= k < v@.len() ==> 1 <= (#[trigger] v@[k]).0 <= MAX_OFFSET && v@[k].1
                    == used_count(best@, v@[k].0, 0) && v@[k].1 >= min_count && v@[k].1 > 0,
            forall|j: int, k: int| 0 <= j < k < v@.len() ==> v@[j].1 >= v@[k].1,
            v@ == used_pairs(best@, min_count as int, max_seed_offsets as int, o as int),
        decreases 65536 - o,
    {
        let c: u32 = counts[o];
        if c > 0 && c >= min_count {
            insert_by_count(&mut v, (o as u32, c), max_seed_offsets);
        }
        o += 1;
    }
    let mut used: Vec<u32> = Vec::with_capacity(v.len());
    let mut k: usize = 0;
    while k < v.len()
        invariant
            k <= v@.len(),
            used@.len() == k,
            forall|j: int| 0 <= j < k ==> #[trigger] used@[j] == v@[j].0,
        decreases v@.len() - k,
    {
        used.push(v[k].0);
        k += 1;
    }
    assert(used@ =~= used_offsets(best@, min_count as int, max_seed_offsets as int));
    used
}

/// Inserts a pair behind those with at least its count and cuts the list.
fn insert_by_count(v: &mut Vec<(u32, u32)>, pair: (u32, u32), cap: usize)
    requires
        old(v)@.len() <= cap,
        forall|j: int, k: int| 0 <= j < k < old(v)@.len() ==> old(v)@[j].1 >= old(v)@[k].1,
    ensures
        final(v)@ == matchfinder::with_pair(old(v)@, pair, cap as int),
        final(v)@.len() <= cap,
        forall|j: int, k: int| 0 <= j < k < final(v)@.len() ==> final(v)@[j].1 >= final(v)@[k].1,
        forall|k: int|
            0 <= k < final(v)@.len() ==> #[trigger] final(v)@[k] == pair || exists|j: int|
                0 <= j < old(v)@.len() && old(v)@[j] == final(v)@[k],
{
    let ghost v0 = v@;
    let mut k: usize = v.len();
    while k > 0 && v[k - 1].1 < pair.1
        invariant
            k <= v@.len(),
            v@ == v0,
            forall|j: int| k <= j < v@.len() ==> (#[trigger] v@[j]).1 < pair.1,
        decreases k,
    {
        k -= 1;
    }
    proof {
        matchfinder::lemma_place_of(v0, pair.1, 0, k as int);
    }
    v.insert(k, pair);
    assert(v@ =~= v0.insert(k as int, pair));
    assert forall|j: int| 0 <= j < v@.len() implies #[trigger] v@[j] == pair || exists|t: int|
        0 <= t < v0.len() && v0[t] == v@[j] by {
        if j < k {
            assert(v0[j] == v@[j]);
        } else if j > k {
            assert(v0[j - 1] == v@[j]);
        }
    }
    if v.len() > cap {
        v.truncate(cap);
    }
}

/// Length of the longest of the first `k` candidates.
pub open spec fn top_length(list: Seq<Match>, k: int) -> u32
    decreases k,
{
    if k <= 0 {
        0
    } else if list[k - 1].length > top_length(list, k - 1) {
        list[k - 1].length
    } else {
        top_length(list, k - 1)
    }
}

/// The longest lengths at the first `k` of every `step` positions, together.
pub open spec fn top_total(ms: &MatchSet, step: int, k: int) -> nat
    decreases k,
{
    if k <= 0 {
        0
    } else {
        let list = ms.list((k - 1) * step);
        top_total(ms, step, k - 1) + top_length(list, list.len() as int) as nat
    }
}

/// Distance of the positions that stand for all.
pub open spec fn sample_step(n: int) -> int {
    if n / 256 > 1 {
        n / 256
    } else {
        1
    }
}

/// The longest matches are longer than 512 bytes on average.
pub open spec fn is_repetitive(ms: &MatchSet, n: int) -> bool {
    n > 0 && {
        let step = sample_step(n);
        let count = (n + step - 1) / step;
        top_total(ms, step, count) / count as nat > 512
    }
}

/// Whether the longest matches are longer than 512 bytes on average.
pub fn zx_is_repetitive(ms: &MatchSet, n: usize) -> (r: bool)
    requires
        n <= ms.positions(),
        n <= 0x3fff_ffff,
    ensures
        r == is_repetitive(ms, n as int),
{
    if n == 0 {
        return false;
    }
    let step: usize = if n / 256 > 1 {
        n / 256
    } else {
        1
    };
    let mut samples: u64 = 0;
    let mut total: u64 = 0;
    let mut i: usize = 0;
    while i < n
        invariant
            n <= ms.positions(),
            n <= 0x3fff_ffff,
            1 <= step <= n,
            samples <= i,
            i == samples * step,
            i < n + step,
            total <= samples * 0xffff_ffff,
            total == top_total(ms, step as int, samples as int),
        decreases
                if i < n {
                    n - i
                } else {
                    0
                },
    {
        let list: &Vec<Match> = ms.matches_for(i);
        let mut longest: u32 = 0;
        let mut k: usize = 0;
        while k < list.len()
            invariant
                k <= list@.len(),
                longest == top_length(list@, k as int),
            decreases list@.len() - k,
        {
            if list[k].length > longest {
                longest = list[k].length;
            }
            k += 1;
        }
        total += longest as u64;
        samples += 1;
        i += step;
        assert((samples - 1) * step + step == samples * step) by (nonlinear_arith);
    }
    proof {
        let s = samples as int;
        let (st, m) = (step as int, n as int);
        assert(s >= 1) by (nonlinear_arith)
            requires
                s * st >= m,
                m >= 1,
                st >= 1,
        ;
        assert((m + st - 1) / st == s) by (nonlinear_arith)
            requires
                m <= s * st < m + st,
                st >= 1,
        ;
    }
    samples > 0 && total / samples > 512
}

/// `rle[p]` bytes from `p` on are equal.
pub open spec fn rle_ok(input: Seq<u8>, rle: Seq<u32>) -> bool {
    &&& rle.len() == input.len()
    &&& forall|p: int|
        0 <= p < input.len() ==> p + #[trigger] rle[p] <= input.len() && rle[p] >= 1
    &&& forall|p: int, k: int|
        0 <= p < input.len() && 0 <= k < rle[p] ==> #[trigger] input[p + k] == input[p]
}

/// Lengths of the runs of equal bytes.
pub fn run_lengths(input: &[u8]) -> (rle: Vec<u32>)
    requires
        input@.len() <= 0x3fff_ffff,
    ensures
        rle_ok(input@, rle@),
{
    let n: usize = input.len();
    let mut rle: Vec<u32> = vec![1u32; n];
    let mut i: usize = n;
    while i > 0
        invariant
            i <= n,
            n == input@.len(),
            n <= 0x3fff_ffff,
            rle@.len() == n,
            forall|p: int| i <= p < n ==> p + #[trigger] rle@[p] <= n && rle@[p] >= 1,
            forall|p: int, k: int|
                i <= p < n && 0 <= k < rle@[p] ==> #[trigger] input@[p + k] == input@[p],
        decreases i,
    {
        i -= 1;
        let ghost r0 = rle@;
        let r: u32 = if i + 1 < n && input[i] == input[i + 1] {
            rle[i + 1] + 1
        } else {
            1
        };
        rle.set(i, r);
        assert forall|p: int, k: int| i <= p < n && 0 <= k < rle@[p] implies #[trigger] input@[p
            + k] == input@[p] by {
            if p == i {
                if k > 0 {
                    assert(input@[(i + 1) + (k - 1)] == input@[i + 1]);
                }
            } else {
                assert(rle@[p] == r0[p]);
            }
        }
    }
    rle
}

/// Places of a position in the table of offsets that were handed to it.
const SEEN_PER_POS: usize = 251;

/// Length of that table for an input of `n` bytes.
pub open spec fn seen_size(n: int) -> int {
    if n <= 0xff_ffff {
        n * 251
    } else {
        n
    }
}

fn seen_len(n: usize) -> (len: usize)
    ensures
        len == seen_size(n as int),
{
    if n <= 0xff_ffff {
        n * SEEN_PER_POS
    } else {
        n
    }
}

/// The place of an offset in that table.
pub open spec fn seen_place(pos: int, off: u32, n: int) -> int {
    if n <= 0xff_ffff {
        pos * 251 + off as int % 251
    } else {
        pos
    }
}

fn seen_slot(pos: usize, off: u32, n: usize) -> (slot: usize)
    requires
        pos < n,
    ensures
        slot == seen_place(pos as int, off, n as int),
        slot < seen_size(n as int),
{
    if n <= 0xff_ffff {
        pos * SEEN_PER_POS + off as usize % SEEN_PER_POS
    } else {
        pos
    }
}

/// Every pair names a position behind the first, up to `i`.
pub open spec fn heads_ok(heads: Seq<(u32, u32)>, i: int) -> bool {
    forall|k: int| 0 <= k < heads.len() ==> 0 < (#[trigger] heads[k]).0 <= i
}

/// The arrivals of a row from place `j` on that are in a literal run: where they
/// took up their current offset, and that offset; every pair once, behind
/// `heads`.
pub open spec fn heads_from(row: Seq<ZxArr>, i: int, j: int, heads: Seq<(u32, u32)>) -> Seq<(u32, u32)>
    decreases 40 - j,
{
    if j >= 40 || row[j].cost >= ZX_INF {
        heads
    } else {
        let a = row[j];
        let pair = (a.rep_pos, a.reps@[0]);
        heads_from(
            row,
            i,
            j + 1,
            if a.num_lits > 0 && 0 < a.rep_pos <= i && !heads.contains(pair) {
                heads.push(pair)
            } else {
                heads
            },
        )
    }
}

/// Where the arrivals at `i` that are in a literal run took up their current
/// offset, and that offset; every pair once.
fn seed_heads(arr: &Vec<ZxArr>, i: usize, n: usize) -> (heads: Vec<(u32, u32)>)
    requires
        i < n,
        arr@.len() == (n + 1) * 64,
    ensures
        heads_ok(heads@, i as int),
        heads@ == heads_from(zxdp::row_of(arr@, i as int), i as int, 0, Seq::empty()),
{
    let total: usize = arr.len();
    let mut heads: Vec<(u32, u32)> = Vec::new();
    let mut j: usize = 0;
    let ghost row = zxdp::row_of(arr@, i as int);
    let ghost goal = heads_from(row, i as int, 0, Seq::empty());
    assert(heads@ =~= Seq::<(u32, u32)>::empty());
    while j < ZX_SEED_ARRIVALS
        invariant_except_break
            goal == heads_from(row, i as int, j as int, heads@),
        invariant
            row == zxdp::row_of(arr@, i as int),
            j <= 40,
            i < n,
            total == arr@.len(),
            arr@.len() == (n + 1) * 64,
            heads_ok(heads@, i as int),
        ensures
            goal == heads@,
        decreases 40 - j,
    {
        let a: &ZxArr = &arr[i * 64 + j];
        assert(row[j as int] == arr@[i * 64 + j]);
        j += 1;
        if a.cost >= ZX_INF {
            break;
        }
        if a.num_lits > 0 && 0 < a.rep_pos && a.rep_pos as usize <= i && !has_pair(
            &heads,
            a.rep_pos,
            a.reps[0],
        ) {
            heads.push((a.rep_pos, a.reps[0]));
        }
    }
    heads
}

fn has_pair(list: &Vec<(u32, u32)>, a: u32, b: u32) -> (r: bool)
    ensures
        r == list@.contains((a, b)),
{
    let mut k: usize = 0;
    while k < list.len()
        invariant
            k <= list@.len(),
            forall|j: int| 0 <= j < k ==> #[trigger] list@[j] != (a, b),
        decreases list@.len() - k,
    {
        if list[k].0 == a && list[k].1 == b {
            assert(list@[k as int] == (a, b));
            return true;
        }
        k += 1;
    }
    false
}

/// What the seeding pass keeps: for every position the last offset that was
/// handed to it, the offsets that were handed to it before, as far as there is
/// room for them, and the candidates found so far.
pub struct Handed {
    pub visited: Seq<u32>,
    pub seen: Seq<u32>,
    pub extra: Seq<Seq<(u32, u32)>>,
}

pub open spec fn rows_of(extra: Seq<Vec<(u32, u32)>>) -> Seq<Seq<(u32, u32)>> {
    Seq::new(extra.len(), |p: int| extra[p]@)
}

pub open spec fn handed_of(visited: Seq<u32>, seen: Seq<u32>, extra: Seq<Vec<(u32, u32)>>) -> Handed {
    Handed { visited, seen, extra: rows_of(extra) }
}

/// The front has the offset `off`.
pub open spec fn front_has(front: Seq<Match>, off: u32) -> bool {
    exists|k: int| 0 <= k < front.len() && (#[trigger] front[k]).offset == off
}

/// The offset `off` is new to the position `pos` where the offset `rep_off` was
/// taken up, and the first byte matches.
pub open spec fn is_taken_up(input: Seq<u8>, st: Handed, pos: int, rep_off: u32, off: u32) -> bool {
    &&& pos >= off
    &&& rep_off != 0
    &&& st.seen[seen_place(pos, off, input.len() as int)] != off
    &&& input[pos - off] == input[pos]
}

/// The length that the offset is probed for.
pub open spec fn probed_len(input: Seq<u8>, pos: int, off: u32, probe_cap: int) -> int {
    zxdp::capped_run(
        input,
        pos,
        off as int,
        zxdp::probe_cap_of(input.len() as int, pos, probe_cap),
    )
}

/// The position has the offset as a candidate already.
pub open spec fn is_known(ms: &MatchSet, st: Handed, pos: int, off: u32) -> bool {
    front_has(ms.list(pos), off) || pair_with(st.extra[pos], off, 0) < st.extra[pos].len()
}

/// The candidates of a position that the offset was handed to.
pub open spec fn row_handed(input: Seq<u8>, ms: &MatchSet, st: Handed, pos: int, off: u32, probe_cap: int) -> Seq<(u32, u32)> {
    let row = st.extra[pos];
    let len = probed_len(input, pos, off, probe_cap) as u32;
    if !is_known(ms, st, pos, off) {
        if len >= 2 {
            row.push((off, len))
        } else {
            row
        }
    } else if pair_with(row, off, 0) < row.len() {
        joined(row, (off, len))
    } else {
        row
    }
}

/// The offset `off` handed to the position of a head, where an arrival took up
/// another offset.
pub open spec fn handed_one(input: Seq<u8>, ms: &MatchSet, st: Handed, head: (u32, u32), off: u32, probe_cap: int) -> Handed {
    let pos = head.0 as int;
    if off == head.1 || st.visited[pos] == off {
        st
    } else if is_taken_up(input, st, pos, head.1, off) {
        Handed {
            visited: st.visited.update(pos, off),
            seen: st.seen.update(seen_place(pos, off, input.len() as int), off),
            extra: st.extra.update(pos, row_handed(input, ms, st, pos, off, probe_cap)),
        }
    } else {
        Handed { visited: st.visited.update(pos, off), ..st }
    }
}

/// From a position that takes the offset up as a new candidate it is handed on.
pub open spec fn goes_on(input: Seq<u8>, ms: &MatchSet, st: Handed, head: (u32, u32), off: u32, probe_cap: int) -> bool {
    let pos = head.0 as int;
    &&& off != head.1
    &&& st.visited[pos] != off
    &&& is_taken_up(input, st, pos, head.1, off)
    &&& !is_known(ms, st, pos, off)
    &&& probed_len(input, pos, off, probe_cap) as u32 >= 2
}

/// The offset handed to the heads of the position `at` from head `j` on, and
/// from each that takes it up on to its own heads.
pub open spec fn handed_back(
    input: Seq<u8>,
    ms: &MatchSet,
    heads: Seq<Vec<(u32, u32)>>,
    st: Handed,
    at: int,
    off: u32,
    depth: int,
    probe_cap: int,
    j: int,
) -> Handed
    decreases ZX_FWD_MAX_DEPTH - depth, heads[at]@.len() - j,
{
    if j < 0 || j >= heads[at]@.len() || depth > ZX_FWD_MAX_DEPTH {
        st
    } else {
        let head = heads[at]@[j];
        let one = handed_one(input, ms, st, head, off, probe_cap);
        let on = if goes_on(input, ms, st, head, off, probe_cap) && depth < ZX_FWD_MAX_DEPTH {
            handed_back(input, ms, heads, one, head.0 as int, off, depth + 1, probe_cap, 0)
        } else {
            one
        };
        handed_back(input, ms, heads, on, at, off, depth, probe_cap, j + 1)
    }
}

/// Hands the offset `match_off` to one head. True where it is to be handed on
/// from there.
#[verifier::rlimit(40)]
fn hand_one(
    input: &[u8],
    ms: &MatchSet,
    visited: &mut Vec<u32>,
    seen: &mut Vec<u32>,
    extra: &mut Vec<Vec<(u32, u32)>>,
    rle: &Vec<u32>,
    head: (u32, u32),
    match_off: u32,
    probe_cap: usize,
) -> (on: bool)
    requires
        input@.len() <= 0x3fff_ffff,
        old(seen)@.len() == seen_size(input@.len() as int),
        ms.of(input@),
        old(visited)@.len() == input@.len(),
        matchfinder::table_ok(input@, old(extra)@),
        rle_ok(input@, rle@),
        0 < head.0 < input@.len(),
        match_off >= 1,
    ensures
        final(visited)@.len() == input@.len(),
        final(seen)@.len() == seen_size(input@.len() as int),
        matchfinder::table_ok(input@, final(extra)@),
        ({
            let st = handed_of(old(visited)@, old(seen)@, old(extra)@);
            &&& handed_of(final(visited)@, final(seen)@, final(extra)@) == handed_one(
                input@,
                ms,
                st,
                head,
                match_off,
                probe_cap as int,
            )
            &&& on == goes_on(input@, ms, st, head, match_off, probe_cap as int)
        }),
{
    let n: usize = input.len();
    let ghost st = handed_of(visited@, seen@, extra@);
    let ghost e0 = extra@;
    let rep_off: u32 = head.1;
    let rep_pos: usize = head.0 as usize;
    if match_off == rep_off || visited[rep_pos] == match_off {
        return false;
    }
    visited.set(rep_pos, match_off);
    let cache: usize = seen_slot(rep_pos, match_off, n);
    if !(rep_pos >= match_off as usize && rep_off != 0 && seen[cache] != match_off && input[rep_pos
        - match_off as usize] == input[rep_pos]) {
        return false;
    }
    seen.set(cache, match_off);
    let src: usize = rep_pos - match_off as usize;
    let mut known: u32 = if rle[src] < rle[rep_pos] {
        rle[src]
    } else {
        rle[rep_pos]
    };
    assert forall|k: int| 0 <= k < known implies #[trigger] input@[rep_pos + k] == input@[rep_pos + k
        - match_off] by {
        assert(input@[src + k] == input@[src as int]);
        assert(input@[rep_pos + k] == input@[rep_pos as int]);
    }
    let front: &Vec<Match> = ms.matches_for(rep_pos);
    let mut already: bool = false;
    let mut c: usize = 0;
    while c < front.len()
        invariant_except_break
            !already,
            forall|k: int| 0 <= k < c ==> (#[trigger] front@[k]).offset != match_off,
        invariant
            c <= front@.len(),
            rep_pos < n,
            n == input@.len(),
            matchfinder::candidates_ok(input@, rep_pos as int, front@, ms.max_offset()),
            lz::is_match(input@, rep_pos as int, match_off as int, known as int),
        ensures
            already == front_has(front@, match_off),
        decreases front@.len() - c,
    {
        if front[c].offset == match_off {
            already = true;
            if front[c].length > known {
                known = front[c].length;
            }
            break;
        }
        c += 1;
    }
    assert(matchfinder::pairs_ok(input@, rep_pos as int, e0[rep_pos as int]@));
    if !already {
        let have: u32 = length_of(&extra[rep_pos], match_off);
        proof {
            lemma_pair_with(e0[rep_pos as int]@, match_off, 0);
        }
        if have > 0 {
            already = true;
            if have > known {
                proof {
                    let w = choose|k: int|
                        0 <= k < extra@[rep_pos as int]@.len() && extra@[rep_pos as int]@[k] == (
                            match_off,
                            have,
                        );
                    assert(extra@[rep_pos as int]@[w].1 == have);
                }
                known = have;
            }
        }
    }
    assert(already == is_known(ms, st, rep_pos as int, match_off));
    let cap: usize = if n - rep_pos < probe_cap {
        n - rep_pos
    } else {
        probe_cap
    };
    let mut l: usize = if (known as usize) < cap {
        known as usize
    } else {
        cap
    };
    while l < cap && input[src + l] == input[rep_pos + l]
        invariant
            l <= cap,
            rep_pos + cap <= n,
            n == input@.len(),
            src == rep_pos - match_off,
            match_off >= 1,
            lz::is_match(input@, rep_pos as int, match_off as int, l as int),
        decreases cap - l,
    {
        l += 1;
    }
    proof {
        assert forall|k: int| 0 <= k < l implies #[trigger] input@[rep_pos + k] == input@[rep_pos
            - match_off + k] by {
            assert(input@[rep_pos + k] == input@[rep_pos + k - match_off]);
        }
        matchfinder::lemma_run_is(
            input@,
            rep_pos as int,
            match_off as int,
            l as int,
            cap as int,
        );
        assert(l == probed_len(input@, rep_pos as int, match_off, probe_cap as int));
    }
    let cur_len: u32 = l as u32;
    let mut row: Vec<(u32, u32)> = Vec::new();
    std::mem::swap(&mut row, &mut extra[rep_pos]);
    let mut on: bool = false;
    if !already {
        if cur_len >= MIN_MATCH {
            row.push((match_off, cur_len));
            on = true;
        }
    } else {
        lengthen(&mut row, match_off, cur_len, Ghost(input@), Ghost(rep_pos as int));
    }
    let ghost done = row@;
    assert(done == row_handed(input@, ms, st, rep_pos as int, match_off, probe_cap as int));
    assert(matchfinder::pairs_ok(input@, rep_pos as int, done));
    std::mem::swap(&mut row, &mut extra[rep_pos]);
    assert(matchfinder::table_ok(input@, extra@)) by {
        assert forall|q: int| 0 <= q < extra@.len() implies matchfinder::pairs_ok(
            input@,
            q,
            (#[trigger] extra@[q])@,
        ) by {
            assert(matchfinder::pairs_ok(input@, q, e0[q]@));
        }
    }
    assert(rows_of(extra@) =~= rows_of(e0).update(rep_pos as int, done));
    on
}

proof fn lemma_pair_with(list: Seq<(u32, u32)>, off: u32, k: int)
    requires
        0 <= k <= list.len(),
    ensures
        k <= pair_with(list, off, k) <= list.len(),
        pair_with(list, off, k) < list.len() ==> list[pair_with(list, off, k)].0 == off,
        forall|j: int| k <= j < pair_with(list, off, k) ==> (#[trigger] list[j]).0 != off,
    decreases list.len() - k,
{
    if k < list.len() && list[k].0 != off {
        lemma_pair_with(list, off, k + 1);
    }
}

/// Hands the offset `match_off` back to the positions `heads` where arrivals
/// took up their current offset, and from there further back. `seen` holds
/// offsets that a position was handed before: to do so again changes nothing.
fn zx_insert_forward_match(
    input: &[u8],
    ms: &MatchSet,
    visited: &mut Vec<u32>,
    seen: &mut Vec<u32>,
    extra: &mut Vec<Vec<(u32, u32)>>,
    rle: &Vec<u32>,
    heads: &Vec<Vec<(u32, u32)>>,
    at: usize,
    match_off: u32,
    depth: usize,
    probe_cap: usize,
)
    requires
        input@.len() <= 0x3fff_ffff,
        old(seen)@.len() == seen_size(input@.len() as int),
        ms.of(input@),
        old(visited)@.len() == input@.len(),
        matchfinder::table_ok(input@, old(extra)@),
        rle_ok(input@, rle@),
        at < heads@.len() <= input@.len(),
        forall|p: int| 0 <= p < heads@.len() ==> heads_ok((#[trigger] heads@[p])@, p),
        match_off >= 1,
        depth <= ZX_FWD_MAX_DEPTH,
    ensures
        final(visited)@.len() == input@.len(),
        final(seen)@.len() == seen_size(input@.len() as int),
        matchfinder::table_ok(input@, final(extra)@),
        handed_of(final(visited)@, final(seen)@, final(extra)@) == handed_back(
            input@,
            ms,
            heads@,
            handed_of(old(visited)@, old(seen)@, old(extra)@),
            at as int,
            match_off,
            depth as int,
            probe_cap as int,
            0,
        ),
    decreases ZX_FWD_MAX_DEPTH - depth,
{
    let n: usize = input.len();
    let list: &Vec<(u32, u32)> = &heads[at];
    let count: usize = list.len();
    let mut j: usize = 0;
    let ghost all = handed_back(
        input@,
        ms,
        heads@,
        handed_of(visited@, seen@, extra@),
        at as int,
        match_off,
        depth as int,
        probe_cap as int,
        0,
    );
    while j < count
        invariant
            j <= count,
            count == list@.len(),
            at < heads@.len() <= n,
            list@ == heads@[at as int]@,
            heads_ok(list@, at as int),
            forall|p: int| 0 <= p < heads@.len() ==> heads_ok((#[trigger] heads@[p])@, p),
            n == input@.len(),
            n <= 0x3fff_ffff,
            ms.of(input@),
            visited@.len() == n,
            seen@.len() == seen_size(n as int),
            matchfinder::table_ok(input@, extra@),
            rle_ok(input@, rle@),
            match_off >= 1,
            depth <= ZX_FWD_MAX_DEPTH,
            handed_back(
                input@,
                ms,
                heads@,
                handed_of(visited@, seen@, extra@),
                at as int,
                match_off,
                depth as int,
                probe_cap as int,
                j as int,
            ) == all,
        decreases count - j,
    {
        let head: (u32, u32) = list[j];
        assert(list@[j as int].0 <= at);
        j += 1;
        let on: bool = hand_one(input, ms, visited, seen, extra, rle, head, match_off, probe_cap);
        if on && depth < ZX_FWD_MAX_DEPTH {
            zx_insert_forward_match(
                input,
                ms,
                visited,
                seen,
                extra,
                rle,
                heads,
                head.0 as usize,
                match_off,
                depth + 1,
                probe_cap,
            );
        }
    }
}

/// The last position before `q` where the two bytes are those at `p`, or the
/// largest number.
pub open spec fn pair_before(input: Seq<u8>, p: int, q: int) -> u32
    decreases q,
{
    if q <= 0 {
        0xffff_ffffu32
    } else if input[q - 1] == input[p] && input[q] == input[p + 1] {
        (q - 1) as u32
    } else {
        pair_before(input, p, q - 1)
    }
}

/// The position before `p` with the same two first bytes, or the largest number.
pub open spec fn chain_of(input: Seq<u8>, p: int) -> u32 {
    if p + 1 < input.len() {
        pair_before(input, p, p)
    } else {
        0xffff_ffffu32
    }
}

/// Two bytes as a number.
spec fn key_at(input: Seq<u8>, p: int) -> int {
    input[p] + input[p + 1] * 256
}

/// The last position before `q` with the two bytes of a number.
spec fn last_key(input: Seq<u8>, key: int, q: int) -> u32
    decreases q,
{
    if q <= 0 {
        0xffff_ffffu32
    } else if key_at(input, q - 1) == key {
        (q - 1) as u32
    } else {
        last_key(input, key, q - 1)
    }
}

proof fn lemma_last_key(input: Seq<u8>, p: int, q: int)
    ensures
        last_key(input, key_at(input, p), q) == pair_before(input, p, q),
    decreases q,
{
    if q > 0 {
        lemma_last_key(input, p, q - 1);
    }
}

/// For every position the position before with the same two first bytes, or
/// the largest number.
pub fn pair_chain(input: &[u8]) -> (prev: Vec<u32>)
    requires
        input@.len() <= 0x7fff_ffff,
    ensures
        prev@.len() == input@.len(),
        forall|p: int|
            0 <= p < prev@.len() ==> #[trigger] prev@[p] == 0xffff_ffff || prev@[p] < p,
        forall|p: int| 0 <= p < prev@.len() ==> #[trigger] prev@[p] == chain_of(input@, p),
{
    let n: usize = input.len();
    let none: u32 = 0xffff_ffff;
    let mut prev: Vec<u32> = vec![none; n];
    let mut head: Vec<u32> = vec![none; 65536];
    let mut p: usize = 0;
    while p + 1 < n
        invariant
            n == input@.len(),
            n <= 0x7fff_ffff,
            p <= n,
            none == 0xffff_ffff,
            prev@.len() == n,
            head@.len() == 65536,
            forall|q: int| 0 <= q < n ==> #[trigger] prev@[q] == none || prev@[q] < q,
            forall|k: int| 0 <= k < 65536 ==> #[trigger] head@[k] == none || head@[k] < p,
            forall|q: int| 0 <= q < p ==> #[trigger] prev@[q] == chain_of(input@, q),
            forall|q: int| p <= q < n ==> #[trigger] prev@[q] == none,
            forall|k: int|
                0 <= k < 65536 ==> #[trigger] head@[k] == last_key(input@, k, p as int),
        decreases n - p,
    {
        let key: usize = (input[p] as usize) + (input[p + 1] as usize) * 256;
        proof {
            lemma_last_key(input@, p as int, p as int);
        }
        prev.set(p, head[key]);
        head.set(key, p as u32);
        p += 1;
    }
    prev
}

/// The front has the offset `off`.
fn on_front(front: &Vec<Match>, off: u32) -> (r: bool)
    ensures
        r == exists|k: int| 0 <= k < front@.len() && (#[trigger] front@[k]).offset == off,
{
    let mut c: usize = 0;
    while c < front.len()
        invariant
            c <= front@.len(),
            forall|k: int| 0 <= k < c ==> (#[trigger] front@[k]).offset != off,
        decreases front@.len() - c,
    {
        if front[c].offset == off {
            return true;
        }
        c += 1;
    }
    false
}

/// The offset `off` off the front is handed back from `i`, and is a candidate at
/// `i` itself.
pub open spec fn gathered_one(
    input: Seq<u8>,
    ms: &MatchSet,
    heads: Seq<Vec<(u32, u32)>>,
    st: Handed,
    i: int,
    off: u32,
    probe_cap: int,
) -> Handed {
    let len = probed_len(input, i, off, probe_cap);
    let row = st.extra[i];
    let own = if len >= 2 && pair_with(row, off, 0) >= row.len() {
        Handed { extra: st.extra.update(i, row.push((off, len as u32))), ..st }
    } else {
        st
    };
    handed_back(input, ms, heads, own, i, off, 0, probe_cap, 0)
}

/// An offset off the front that is gathered at `i`.
pub open spec fn is_gathered(input: Seq<u8>, ms: &MatchSet, i: int, off: u32, supp_cap: int) -> bool {
    off <= supp_cap && !front_has(ms.list(i), off)
}

/// At most `left` offsets off the front, out of the chain of positions with the
/// same two bytes from `mp` on.
pub open spec fn gathered(
    input: Seq<u8>,
    ms: &MatchSet,
    heads: Seq<Vec<(u32, u32)>>,
    st: Handed,
    i: int,
    mp: u32,
    left: int,
    supp_cap: int,
    probe_cap: int,
) -> Handed
    decreases
        if mp == 0xffff_ffff {
            0int
        } else {
            mp + 1
        },
{
    if mp == 0xffff_ffff || left <= 0 || mp >= i {
        st
    } else {
        let off = (i - mp) as u32;
        let next = chain_of(input, mp as int);
        if next != 0xffff_ffff && next >= mp {
            st
        } else if is_gathered(input, ms, i, off, supp_cap) {
            gathered(
                input,
                ms,
                heads,
                gathered_one(input, ms, heads, st, i, off, probe_cap),
                i,
                next,
                left - 1,
                supp_cap,
                probe_cap,
            )
        } else {
            gathered(input, ms, heads, st, i, next, left, supp_cap, probe_cap)
        }
    }
}

/// The first `c` offsets of the front at `i` handed back.
pub open spec fn front_handed(
    input: Seq<u8>,
    ms: &MatchSet,
    heads: Seq<Vec<(u32, u32)>>,
    st: Handed,
    i: int,
    probe_cap: int,
    c: int,
) -> Handed
    decreases c,
{
    if c <= 0 {
        st
    } else {
        let before = front_handed(input, ms, heads, st, i, probe_cap, c - 1);
        let off = ms.list(i)[c - 1].offset;
        if off <= MAX_OFFSET {
            handed_back(input, ms, heads, before, i, off, 0, probe_cap, 0)
        } else {
            before
        }
    }
}

/// Everything handed back from position `i`.
pub open spec fn position_handed(
    input: Seq<u8>,
    ms: &MatchSet,
    heads: Seq<Vec<(u32, u32)>>,
    st: Handed,
    i: int,
    probe_cap: int,
    supp_max: int,
) -> Handed {
    let supp_cap = if ms.max_offset() < MAX_OFFSET {
        ms.max_offset()
    } else {
        MAX_OFFSET as int
    };
    let off_front = if i + 1 < input.len() && supp_max > 0 {
        gathered(input, ms, heads, st, i, chain_of(input, i), supp_max, supp_cap, probe_cap)
    } else {
        st
    };
    front_handed(input, ms, heads, off_front, i, probe_cap, ms.list(i).len() as int)
}

/// Nothing has been handed back yet.
pub open spec fn nothing_handed(n: int) -> Handed {
    Handed {
        visited: Seq::new(n as nat, |p: int| 0u32),
        seen: Seq::new(seen_size(n) as nat, |p: int| 0u32),
        extra: Seq::new(n as nat, |p: int| Seq::<(u32, u32)>::empty()),
    }
}

/// Everything handed back from the first `i` positions, with the heads that are
/// known at each.
pub open spec fn all_handed(
    input: Seq<u8>,
    ms: &MatchSet,
    heads: Seq<Vec<(u32, u32)>>,
    probe_cap: int,
    supp_max: int,
    i: int,
) -> Handed
    decreases i,
{
    if i <= 0 {
        nothing_handed(input.len() as int)
    } else {
        position_handed(
            input,
            ms,
            heads.take(i),
            all_handed(input, ms, heads, probe_cap, supp_max, i - 1),
            i - 1,
            probe_cap,
            supp_max,
        )
    }
}

/// How the narrow dynamic program of the seeding pass is run.
pub open spec fn seed_search(ms: &MatchSet, n: int, slots: int) -> zxsearch::Search {
    zxsearch::Search { width: 40, ..zxsearch::search_of(ms, n, slots, false, false) }
}

/// The heads at every position of a table of arrivals.
pub open spec fn heads_in(arr: Seq<ZxArr>, heads: Seq<Vec<(u32, u32)>>) -> bool {
    forall|p: int|
        0 <= p < heads.len() ==> (#[trigger] heads[p])@ == heads_from(
            zxdp::row_of(arr, p),
            p,
            0,
            Seq::empty(),
        )
}

/// At most `cap` pairs of a list, the longest ones where there are more.
pub open spec fn trimmed(list: Seq<(u32, u32)>, cap: int) -> Seq<(u32, u32)> {
    if list.len() > cap {
        matchfinder::longest_pairs(list, cap, list.len() as int)
    } else {
        list
    }
}

/// `seeds` holds for every position the offsets that the seeding pass hands back
/// to it: those that match at a later position, and that arrivals there would
/// have found among their recent offsets had they been taken up here.
pub open spec fn seeds_of(
    input: Seq<u8>,
    ms: &MatchSet,
    slots: int,
    max_extra_per_pos: int,
    probe_cap: int,
    supp_max: int,
    seeds: Seq<Vec<(u32, u32)>>,
) -> bool {
    let n = input.len() as int;
    exists|arr: Seq<ZxArr>, heads: Seq<Vec<(u32, u32)>>|
        {
            &&& #[trigger] zxsearch::searched(input, ms, None, seed_search(ms, n, slots), arr, n)
            &&& heads.len() == n
            &&& #[trigger] heads_in(arr, heads)
            &&& seeds.len() == n
            &&& forall|p: int|
                0 <= p < n ==> (#[trigger] seeds[p])@ == trimmed(
                    all_handed(input, ms, heads, probe_cap, supp_max, n).extra[p],
                    max_extra_per_pos,
                )
        }
}

/// The step of the narrow dynamic program out of `i`.
#[verifier::rlimit(40)]
fn seed_step(
    input: &[u8],
    arr: &mut Vec<ZxArr>,
    lim: &mut Limits,
    i: usize,
    ms: &MatchSet,
    rep_slots: usize,
    probe: usize,
    span: u32,
)
    requires
        zxdp::dp_fits(input@.len() as int),
        ms.of(input@),
        1 <= rep_slots <= 4,
        i < input@.len(),
        zxdp::dp_ok(input@, old(arr)@, i as int),
        zxdp::in_step(old(arr)@, old(lim), 40, input@.len() as int),
        ({
            let se = seed_search(ms, input@.len() as int, rep_slots as int);
            &&& probe == se.probe && span == se.span
            &&& zxsearch::searched(input@, ms, None, se, old(arr)@, i as int)
        }),
    ensures
        zxdp::dp_ok(input@, final(arr)@, i + 1),
        zxdp::in_step(final(arr)@, final(lim), 40, input@.len() as int),
        zxdp::same_rows(old(arr)@, final(arr)@, i + 1),
        zxsearch::searched(
            input@,
            ms,
            None,
            seed_search(ms, input@.len() as int, rep_slots as int),
            final(arr)@,
            i + 1,
        ),
{
    let ghost d = input@;
    let ghost n = d.len() as int;
    let ghost k = i as int;
    let ghost se = seed_search(ms, n, rep_slots as int);
    let ghost row = zxdp::row_of(arr@, k);
    let ghost all = zxsearch::step_offers(d, ms, None, se, row, k);
    let ghost list = ms.list(k);
    let ghost mut got = Set::<(int, ZxArr)>::empty();
    proof {
        zxdp::lemma_dp_later(d, arr@, k, k + 1);
        zxsearch::lemma_begin(d, ms, None, se, arr@, k);
    }
    let ghost a0 = arr@;
    dp_literal(arr, lim, i, ZX_SEED_ARRIVALS, Ghost(input@));
    let ghost s1 = zxdp::literal_offers(row, k, 40);
    proof {
        assert forall|p: (int, ZxArr)| #[trigger] s1.contains(p) implies all.contains(p) by {
            reveal(zxsearch::step_offers);
        }
        zxsearch::lemma_half(d, ms, None, se, a0, arr@, k, got, s1);
        got = got.union(s1);
        zxsearch::lemma_same_row(a0, arr@, k + 1, k);
    }
    let ghost a1 = arr@;
    let fresh: Vec<bool> = fresh_for_offset(arr, i, ZX_SEED_ARRIVALS, rep_slots, false);
    proof {
        zxsearch::lemma_offset_marks(arr@, k, 40, rep_slots as int, false, fresh@);
    }
    dp_front(
        arr,
        lim,
        ms,
        i,
        ZX_SEED_ARRIVALS,
        rep_slots,
        false,
        &fresh,
        span,
        Ghost(input@),
    );
    let ghost s2 = zxdp::front_offers(
        row,
        k,
        list,
        40,
        se.slots,
        se.am,
        fresh@,
        se.span,
        list.len() as int,
    );
    proof {
        assert forall|p: (int, ZxArr)| #[trigger] s2.contains(p) implies all.contains(p) by {
            reveal(zxsearch::step_offers);
        }
        zxsearch::lemma_half(d, ms, None, se, a1, arr@, k, got, s2);
        got = got.union(s2);
        zxsearch::lemma_same_row(a1, arr@, k + 1, k);
    }
    let ghost a3 = arr@;
    let after_lit: Vec<bool> = fresh_for_rep(arr, i, false);
    proof {
        zxsearch::lemma_state_marks(arr@, k, false, after_lit@, 64);
        assert(after_lit@.take(64) =~= after_lit@);
    }
    dp_rep(
        input,
        arr,
        lim,
        i,
        ZX_SEED_ARRIVALS,
        rep_slots,
        false,
        probe,
        &after_lit,
    );
    let ghost cap = zxdp::probe_cap_of(n, k, se.probe);
    let ghost s4 = zxdp::rep_offers(d, row, k, se.slots, se.near, cap, after_lit@, 40);
    proof {
        assert forall|p: (int, ZxArr)| #[trigger] s4.contains(p) implies all.contains(p) by {
            reveal(zxsearch::step_offers);
        }
        zxsearch::lemma_half(d, ms, None, se, a3, arr@, k, got, s4);
        got = got.union(s4);
        zxsearch::lemma_same_row(a3, arr@, k + 1, k);
        assert forall|p: (int, ZxArr)| #[trigger] all.contains(p) implies got.contains(p) by {
            reveal(zxsearch::step_offers);
        }
        zxsearch::lemma_step_done(d, ms, None, se, arr@, k, got);
    }
}

/// The offset is a candidate at `i`, and is handed back.
#[verifier::rlimit(40)]
fn gather_one(
    input: &[u8],
    ms: &MatchSet,
    visited: &mut Vec<u32>,
    seen: &mut Vec<u32>,
    extra: &mut Vec<Vec<(u32, u32)>>,
    rle: &Vec<u32>,
    heads: &Vec<Vec<(u32, u32)>>,
    i: usize,
    off: u32,
    probe_cap: usize,
)
    requires
        input@.len() <= 0x3fff_ffff,
        old(seen)@.len() == seen_size(input@.len() as int),
        ms.of(input@),
        old(visited)@.len() == input@.len(),
        matchfinder::table_ok(input@, old(extra)@),
        rle_ok(input@, rle@),
        i < heads@.len() <= input@.len(),
        forall|p: int| 0 <= p < heads@.len() ==> heads_ok((#[trigger] heads@[p])@, p),
        1 <= off <= i,
    ensures
        final(visited)@.len() == input@.len(),
        final(seen)@.len() == seen_size(input@.len() as int),
        matchfinder::table_ok(input@, final(extra)@),
        handed_of(final(visited)@, final(seen)@, final(extra)@) == gathered_one(
            input@,
            ms,
            heads@,
            handed_of(old(visited)@, old(seen)@, old(extra)@),
            i as int,
            off,
            probe_cap as int,
        ),
{
    let n: usize = input.len();
    let src: usize = i - off as usize;
    let cap: usize = if n - i < probe_cap {
        n - i
    } else {
        probe_cap
    };
    let l: usize = lz::match_run(input, src, i, cap);
    let ghost st = handed_of(visited@, seen@, extra@);
    let ghost e0 = extra@;
    let ghost row0 = e0[i as int]@;
    proof {
        assert forall|k: int| 0 <= k < l implies #[trigger] input@[i + k] == input@[i - off + k] by {
            assert(input@[i + k] == input@[src + k]);
        }
        matchfinder::lemma_run_is(input@, i as int, off as int, l as int, cap as int);
        assert(l == probed_len(input@, i as int, off, probe_cap as int));
        lemma_pair_with(row0, off, 0);
        assert(matchfinder::pairs_ok(input@, i as int, row0));
    }
    if l >= 2 && length_of(&extra[i], off) == 0 {
        let mut list: Vec<(u32, u32)> = Vec::new();
        std::mem::swap(&mut list, &mut extra[i]);
        list.push((off, l as u32));
        std::mem::swap(&mut list, &mut extra[i]);
        assert(matchfinder::table_ok(input@, extra@)) by {
            assert forall|q: int| 0 <= q < extra@.len() implies matchfinder::pairs_ok(
                input@,
                q,
                (#[trigger] extra@[q])@,
            ) by {
                assert(matchfinder::pairs_ok(input@, q, e0[q]@));
            }
        }
        assert(rows_of(extra@) =~= rows_of(e0).update(i as int, row0.push((off, l as u32))));
    }
    zx_insert_forward_match(
        input,
        ms,
        visited,
        seen,
        extra,
        rle,
        heads,
        i,
        off,
        0,
        probe_cap,
    );
}

/// Hands back from `i` the offsets off the front and those of the front.
#[verifier::rlimit(60)]
fn hand_position(
    input: &[u8],
    ms: &MatchSet,
    visited: &mut Vec<u32>,
    seen: &mut Vec<u32>,
    extra: &mut Vec<Vec<(u32, u32)>>,
    rle: &Vec<u32>,
    heads: &Vec<Vec<(u32, u32)>>,
    prev2: &Vec<u32>,
    i: usize,
    probe_cap: usize,
    supp_max: usize,
)
    requires
        input@.len() <= 0x3fff_ffff,
        old(seen)@.len() == seen_size(input@.len() as int),
        ms.of(input@),
        old(visited)@.len() == input@.len(),
        matchfinder::table_ok(input@, old(extra)@),
        rle_ok(input@, rle@),
        i < input@.len(),
        heads@.len() == i + 1,
        forall|p: int| 0 <= p < heads@.len() ==> heads_ok((#[trigger] heads@[p])@, p),
        prev2@.len() == input@.len(),
        forall|p: int|
            0 <= p < prev2@.len() ==> #[trigger] prev2@[p] == 0xffff_ffff || prev2@[p] < p,
        forall|p: int| 0 <= p < prev2@.len() ==> #[trigger] prev2@[p] == chain_of(input@, p),
    ensures
        final(visited)@.len() == input@.len(),
        final(seen)@.len() == seen_size(input@.len() as int),
        matchfinder::table_ok(input@, final(extra)@),
        handed_of(final(visited)@, final(seen)@, final(extra)@) == position_handed(
            input@,
            ms,
            heads@,
            handed_of(old(visited)@, old(seen)@, old(extra)@),
            i as int,
            probe_cap as int,
            supp_max as int,
        ),
{
    let n: usize = input.len();
    let ghost st = handed_of(visited@, seen@, extra@);
    let win: u32 = ms.window();
    let supp_cap: u32 = if win < MAX_OFFSET {
        win
    } else {
        MAX_OFFSET
    };
    let front: &Vec<Match> = ms.matches_for(i);
    if i + 1 < n && supp_max > 0 {
        let mut seeded: usize = 0;
        let mut mp: u32 = prev2[i];
        let ghost goal = gathered(
            input@,
            ms,
            heads@,
            st,
            i as int,
            mp,
            supp_max as int,
            supp_cap as int,
            probe_cap as int,
        );
        proof {
            lemma_chain(input@, i as int, i as int);
        }
        while mp != 0xffff_ffff && seeded < supp_max
            invariant
                n == input@.len(),
                i + 1 < n,
                n <= 0x3fff_ffff,
                ms.of(input@),
                front@ == ms.list(i as int),
                rle_ok(input@, rle@),
                visited@.len() == n,
                seen@.len() == seen_size(n as int),
                prev2@.len() == n,
                forall|p: int|
                    0 <= p < prev2@.len() ==> #[trigger] prev2@[p] == 0xffff_ffff || prev2@[p] < p,
                forall|p: int| 0 <= p < prev2@.len() ==> #[trigger] prev2@[p] == chain_of(input@, p),
                mp == 0xffff_ffff || mp < i,
                mp != 0xffff_ffff ==> input@[mp as int] == input@[i as int] && input@[mp + 1]
                    == input@[i + 1],
                seeded <= supp_max,
                heads@.len() == i + 1,
                forall|p: int| 0 <= p < heads@.len() ==> heads_ok((#[trigger] heads@[p])@, p),
                matchfinder::table_ok(input@, extra@),
                goal == gathered(
                    input@,
                    ms,
                    heads@,
                    handed_of(visited@, seen@, extra@),
                    i as int,
                    mp,
                    supp_max - seeded,
                    supp_cap as int,
                    probe_cap as int,
                ),
            ensures
                goal == handed_of(visited@, seen@, extra@),
            decreases
                    if mp == 0xffff_ffff {
                        0int
                    } else {
                        mp + 1
                    },
        {
            let off: u32 = i as u32 - mp;
            let ghost at = mp as int;
            mp = prev2[mp as usize];
            let src: usize = i - off as usize;
            proof {
                lemma_chain(input@, at, at);
            }
            if off <= supp_cap && !on_front(front, off) && input[src] == input[i] && input[src + 1]
                == input[i + 1] {
                seeded += 1;
                gather_one(input, ms, visited, seen, extra, rle, heads, i, off, probe_cap);
            }
        }
    }
    let ghost mid = handed_of(visited@, seen@, extra@);
    let mut c: usize = 0;
    while c < front.len()
        invariant
            c <= front@.len(),
            n == input@.len(),
            i < n,
            n <= 0x3fff_ffff,
            ms.of(input@),
            front@ == ms.list(i as int),
            heads@.len() == i + 1,
            forall|p: int| 0 <= p < heads@.len() ==> heads_ok((#[trigger] heads@[p])@, p),
            rle_ok(input@, rle@),
            visited@.len() == n,
            seen@.len() == seen_size(n as int),
            matchfinder::table_ok(input@, extra@),
            handed_of(visited@, seen@, extra@) == front_handed(
                input@,
                ms,
                heads@,
                mid,
                i as int,
                probe_cap as int,
                c as int,
            ),
        decreases front@.len() - c,
    {
        let off: u32 = front[c].offset;
        assert(matchfinder::candidates_ok(
            input@,
            i as int,
            ms.list(i as int),
            ms.max_offset(),
        ));
        if off <= MAX_OFFSET {
            zx_insert_forward_match(
                input,
                ms,
                visited,
                seen,
                extra,
                rle,
                heads,
                i,
                off,
                0,
                probe_cap,
            );
        }
        c += 1;
    }
}

/// Positions of a chain have the same two bytes.
pub proof fn lemma_chain(input: Seq<u8>, p: int, q: int)
    requires
        0 <= q <= p < input.len() <= 0x7fff_ffff,
    ensures
        pair_before(input, p, q) != 0xffff_ffff ==> {
            let r = pair_before(input, p, q);
            0 <= r < q && input[r as int] == input[p] && input[r + 1] == input[p + 1]
        },
    decreases q,
{
    if q > 0 {
        lemma_chain(input, p, q - 1);
    }
}

/// The seeding pass: a narrow dynamic program that, at every position and for
/// every offset that matches there, hands the offset back to where the
/// arrivals took up theirs.
#[verifier::rlimit(40)]
pub fn zx_seed_forward_reps(
    input: &[u8],
    ms: &MatchSet,
    rep_slots: usize,
    max_extra_per_pos: usize,
    probe_cap: usize,
    supp_max: usize,
) -> (out: Vec<Vec<(u32, u32)>>)
    requires
        zxdp::dp_fits(input@.len() as int),
        ms.of(input@),
        1 <= rep_slots <= 4,
    ensures
        matchfinder::table_ok(input@, out@),
        seeds_of(
            input@,
            ms,
            rep_slots as int,
            max_extra_per_pos as int,
            probe_cap as int,
            supp_max as int,
            out@,
        ),
{
    let n: usize = input.len();
    let mut extra: Vec<Vec<(u32, u32)>> = empty_table(n);
    let rle: Vec<u32> = run_lengths(input);
    let mut visited: Vec<u32> = vec![0u32; n];
    let mut seen: Vec<u32> = vec![0u32; seen_len(n)];
    let prev2: Vec<u32> = pair_chain(input);
    let bounded: bool = n > 65536 || zx_is_repetitive(ms, n);
    let rep_probe_max: usize = if bounded {
        64
    } else {
        ZX_REP_PROBE_MAX
    };
    let relax_span: u32 = if bounded {
        32
    } else {
        ZX_RELAX_SPAN
    };
    let mut arr: Vec<ZxArr> = zxdp::new_table(n);
    let mut lim: Limits = Limits::new(n);
    let ghost se = seed_search(ms, n as int, rep_slots as int);
    assert(forall|pos: int|
        0 <= pos <= n ==> #[trigger] lim.worst@[pos] == ZX_INF && lim.worst_score@[pos] == 0);
    let mut heads: Vec<Vec<(u32, u32)>> = Vec::with_capacity(n);
    proof {
        zxdp::lemma_new_in_step(arr@, &lim, 40, n as int);
        zxsearch::lemma_start(input@, ms, None, se, arr@);
        assert(rows_of(extra@) =~= nothing_handed(n as int).extra) by {
            assert forall|p: int| 0 <= p < n implies #[trigger] rows_of(extra@)[p]
                == nothing_handed(n as int).extra[p] by {
                assert(extra@[p]@ =~= Seq::<(u32, u32)>::empty());
            }
        }
        assert(visited@ =~= nothing_handed(n as int).visited);
        assert(seen@ =~= nothing_handed(n as int).seen);
    }
    let mut i: usize = 0;
    while i < n
        invariant
            n == input@.len(),
            i <= n,
            zxdp::dp_fits(n as int),
            ms.of(input@),
            1 <= rep_slots <= 4,
            rle_ok(input@, rle@),
            visited@.len() == n,
            seen@.len() == seen_size(n as int),
            prev2@.len() == n,
            forall|p: int|
                0 <= p < prev2@.len() ==> #[trigger] prev2@[p] == 0xffff_ffff || prev2@[p] < p,
            forall|p: int| 0 <= p < prev2@.len() ==> #[trigger] prev2@[p] == chain_of(input@, p),
            zxdp::dp_ok(input@, arr@, i as int),
            zxdp::in_step(arr@, &lim, 40, n as int),
            heads@.len() == i,
            forall|p: int| 0 <= p < heads@.len() ==> heads_ok((#[trigger] heads@[p])@, p),
            matchfinder::table_ok(input@, extra@),
            se == seed_search(ms, n as int, rep_slots as int),
            rep_probe_max == se.probe && relax_span == se.span,
            zxsearch::searched(input@, ms, None, se, arr@, i as int),
            heads_in(arr@, heads@),
            handed_of(visited@, seen@, extra@) == all_handed(
                input@,
                ms,
                heads@,
                probe_cap as int,
                supp_max as int,
                i as int,
            ),
        decreases n - i,
    {
        let ghost h0 = heads@;
        heads.push(seed_heads(&arr, i, n));
        proof {
            assert forall|p: int| 0 <= p < heads@.len() implies (#[trigger] heads@[p])@ == heads_from(
                zxdp::row_of(arr@, p),
                p,
                0,
                Seq::empty(),
            ) by {
                if p < i {
                    assert(heads@[p] == h0[p]);
                }
            }
            lemma_handed_prefix(input@, ms, h0, heads@, probe_cap as int, supp_max as int, i as int);
            assert(heads@.take(i + 1) =~= heads@);
        }
        hand_position(
            input,
            ms,
            &mut visited,
            &mut seen,
            &mut extra,
            &rle,
            &heads,
            &prev2,
            i,
            probe_cap,
            supp_max,
        );
        let ghost a0 = arr@;
        seed_step(input, &mut arr, &mut lim, i, ms, rep_slots, rep_probe_max, relax_span);
        proof {
            assert forall|p: int| 0 <= p < heads@.len() implies (#[trigger] heads@[p])@ == heads_from(
                zxdp::row_of(arr@, p),
                p,
                0,
                Seq::empty(),
            ) by {
                zxsearch::lemma_same_row(a0, arr@, i + 1, p);
            }
        }
        i += 1;
    }
    let ghost goal = rows_of(extra@);
    let mut out: Vec<Vec<(u32, u32)>> = Vec::with_capacity(n);
    let mut q: usize = 0;
    while q < n
        invariant
            q <= n,
            n == input@.len(),
            matchfinder::table_ok(input@, extra@),
            goal == rows_of(extra@),
            out@.len() == q,
            forall|p: int| 0 <= p < q ==> matchfinder::pairs_ok(input@, p, (#[trigger] out@[p])@),
            forall|p: int|
                0 <= p < q ==> (#[trigger] out@[p])@ == trimmed(goal[p], max_extra_per_pos as int),
        decreases n - q,
    {
        let list: &Vec<(u32, u32)> = &extra[q];
        assert(matchfinder::pairs_ok(input@, q as int, list@));
        assert(goal[q as int] == list@);
        if list.len() > max_extra_per_pos {
            out.push(longest_of(list, max_extra_per_pos, Ghost(input@), Ghost(q as int)));
        } else {
            out.push(copy_pairs(list));
        }
        q += 1;
    }
    assert(zxsearch::searched(input@, ms, None, se, arr@, n as int));
    assert(heads_in(arr@, heads@));
    out
}

/// What is handed back from the first positions does not depend on later heads.
proof fn lemma_handed_prefix(
    input: Seq<u8>,
    ms: &MatchSet,
    a: Seq<Vec<(u32, u32)>>,
    b: Seq<Vec<(u32, u32)>>,
    probe_cap: int,
    supp_max: int,
    i: int,
)
    requires
        i <= a.len() <= b.len(),
        forall|p: int| 0 <= p < a.len() ==> a[p] == b[p],
    ensures
        all_handed(input, ms, a, probe_cap, supp_max, i) == all_handed(
            input,
            ms,
            b,
            probe_cap,
            supp_max,
            i,
        ),
    decreases i,
{
    if i > 0 {
        lemma_handed_prefix(input, ms, a, b, probe_cap, supp_max, i - 1);
        assert(a.take(i) =~= b.take(i));
    }
}

/// The same pairs.
pub fn copy_pairs(list: &Vec<(u32, u32)>) -> (out: Vec<(u32, u32)>)
    ensures
        out@ == list@,
{
    let mut out: Vec<(u32, u32)> = Vec::with_capacity(list.len());
    let mut k: usize = 0;
    while k < list.len()
        invariant
            k <= list@.len(),
            out@ == list@.take(k as int),
        decreases list@.len() - k,
    {
        out.push(list[k]);
        k += 1;
        assert(list@.take(k as int) =~= list@.take(k - 1).push(list@[k - 1]));
    }
    assert(list@.take(list@.len() as int) =~= list@);
    out
}

/// The new offset `off` offered at the last positions of `chain` where one was
/// taken up, from the `t`-th from the end on, at most `depth` of them.
pub open spec fn offered_back(
    input: Seq<u8>,
    off: u32,
    chain: Seq<usize>,
    depth: int,
    probe_cap: int,
    extra: Seq<Seq<(u32, u32)>>,
    t: int,
) -> Seq<Seq<(u32, u32)>>
    decreases chain.len() - t,
{
    if t < 0 || t >= chain.len() || t >= depth {
        extra
    } else {
        let at = chain[chain.len() - 1 - t] as int;
        let len = probed_len(input, at, off, probe_cap);
        offered_back(
            input,
            off,
            chain,
            depth,
            probe_cap,
            if at > 0 && off <= at && len >= 2 {
                extra.update(at, extra[at].push((off, len as u32)))
            } else {
                extra
            },
            t + 1,
        )
    }
}

/// The positions where an offset was taken up, with one more; as many as are of
/// use.
pub open spec fn chain_with(chain: Seq<usize>, p: int, depth: int) -> Seq<usize> {
    let all = chain.push(p as usize);
    if all.len() > depth + 1 {
        all.remove(0)
    } else {
        all
    }
}

/// Candidates from the parse in a table, from position `p` on.
pub open spec fn back_offers(
    input: Seq<u8>,
    best: Seq<(u32, u32)>,
    slots: int,
    depth: int,
    probe_cap: int,
    p: int,
    reps: Seq<u32>,
    chain: Seq<usize>,
    extra: Seq<Seq<(u32, u32)>>,
) -> Seq<Seq<(u32, u32)>>
    decreases
        if p < best.len() {
            best.len() - p
        } else {
            0
        },
{
    if p < 0 || p >= best.len() {
        extra
    } else if best[p].0 == 0 {
        back_offers(input, best, slots, depth, probe_cap, p + 1, reps, chain, extra)
    } else {
        let (len, off) = best[p];
        let found = zx::reps_find(reps, off, slots);
        back_offers(
            input,
            best,
            slots,
            depth,
            probe_cap,
            p + len,
            match found {
                Some(i) => reps.remove(i as int).insert(0, reps[i as int]),
                None => if slots == 1 {
                    seq![off, 1u32, 1u32, 1u32]
                } else {
                    seq![off, reps[0], reps[1], reps[2]]
                },
            },
            chain_with(chain, p, depth),
            if found is None {
                offered_back(input, off, chain, depth, probe_cap, extra, 0)
            } else {
                extra
            },
        )
    }
}

/// The candidates from a finished parse at every position.
pub open spec fn forward_reps(
    input: Seq<u8>,
    best: Seq<(u32, u32)>,
    slots: int,
    depth: int,
    probe_cap: int,
) -> Seq<Seq<(u32, u32)>> {
    back_offers(
        input,
        best,
        slots,
        depth,
        probe_cap,
        0,
        seq![1u32, 1u32, 1u32, 1u32],
        Seq::empty(),
        Seq::new(input.len(), |p: int| Seq::<(u32, u32)>::empty()),
    )
}

/// Candidates from a finished parse: where it takes up a new offset, the
/// offset is offered at the last `fwd_depth` positions where it took up one
/// before.
#[verifier::rlimit(40)]
pub fn build_forward_rep_candidates(
    input: &[u8],
    best: &Vec<(u32, u32)>,
    rep_slots: usize,
    fwd_depth: usize,
    probe_cap: usize,
) -> (extra: Vec<Vec<(u32, u32)>>)
    requires
        zxbest::best_ok(input@, best@),
        input@.len() <= 0x3fff_ffff,
        1 <= rep_slots <= 4,
        fwd_depth <= 1000,
    ensures
        matchfinder::table_ok(input@, extra@),
        rows_of(extra@) == forward_reps(
            input@,
            best@,
            rep_slots as int,
            fwd_depth as int,
            probe_cap as int,
        ),
{
    let n: usize = input.len();
    let mut extra: Vec<Vec<(u32, u32)>> = empty_table(n);
    let mut reps: [u32; 4] = [1, 1, 1, 1];
    let mut chain: Vec<usize> = Vec::new();
    let mut p: usize = 0;
    let ghost goal = forward_reps(
        input@,
        best@,
        rep_slots as int,
        fwd_depth as int,
        probe_cap as int,
    );
    proof {
        assert(reps@ =~= seq![1u32, 1u32, 1u32, 1u32]);
        assert(chain@ =~= Seq::<usize>::empty());
        assert(rows_of(extra@) =~= Seq::new(input@.len(), |p: int| Seq::<(u32, u32)>::empty())) by {
            assert forall|q: int| 0 <= q < n implies #[trigger] rows_of(extra@)[q] == Seq::<
                (u32, u32),
            >::empty() by {
                assert(extra@[q]@ =~= Seq::<(u32, u32)>::empty());
            }
        }
    }
    while p < n
        invariant
            n == input@.len(),
            n == best@.len(),
            n <= 0x3fff_ffff,
            p <= n,
            zxbest::best_ok(input@, best@),
            1 <= rep_slots <= 4,
            fwd_depth <= 1000,
            matchfinder::table_ok(input@, extra@),
            forall|k: int| 0 <= k < chain@.len() ==> #[trigger] chain@[k] < n,
            goal == back_offers(
                input@,
                best@,
                rep_slots as int,
                fwd_depth as int,
                probe_cap as int,
                p as int,
                reps@,
                chain@,
                rows_of(extra@),
            ),
        decreases n - p,
    {
        let (len, off) = best[p];
        if len == 0 {
            p += 1;
        } else {
            assert(lz::is_match(input@, p as int, off as int, len as int));
            let found: Option<usize> = crate::zx::rep_find(&reps, off, rep_slots);
            let ghost rows0 = rows_of(extra@);
            if found.is_none() {
                let ghost all = offered_back(
                    input@,
                    off,
                    chain@,
                    fwd_depth as int,
                    probe_cap as int,
                    rows0,
                    0,
                );
                let mut t: usize = 0;
                while t < chain.len() && t < fwd_depth
                    invariant
                        t <= chain@.len(),
                        n == input@.len(),
                        n <= 0x3fff_ffff,
                        off >= 1,
                        matchfinder::table_ok(input@, extra@),
                        forall|k: int| 0 <= k < chain@.len() ==> #[trigger] chain@[k] < n,
                        all == offered_back(
                            input@,
                            off,
                            chain@,
                            fwd_depth as int,
                            probe_cap as int,
                            rows_of(extra@),
                            t as int,
                        ),
                    ensures
                        all == rows_of(extra@),
                    decreases chain@.len() - t,
                {
                    let rp: usize = chain[chain.len() - 1 - t];
                    let ghost e0 = extra@;
                    if rp > 0 && off as usize <= rp {
                        let cap: usize = if n - rp < probe_cap {
                            n - rp
                        } else {
                            probe_cap
                        };
                        let l: usize = lz::match_run(input, rp - off as usize, rp, cap);
                        proof {
                            assert forall|k: int| 0 <= k < l implies #[trigger] input@[rp + k]
                                == input@[rp - off + k] by {}
                            matchfinder::lemma_run_is(
                                input@,
                                rp as int,
                                off as int,
                                l as int,
                                cap as int,
                            );
                            assert(l == probed_len(input@, rp as int, off, probe_cap as int));
                        }
                        if l >= 2 {
                            let mut list: Vec<(u32, u32)> = Vec::new();
                            std::mem::swap(&mut list, &mut extra[rp]);
                            list.push((off, l as u32));
                            std::mem::swap(&mut list, &mut extra[rp]);
                            assert(matchfinder::table_ok(input@, extra@)) by {
                                assert forall|q: int| 0 <= q < extra@.len() implies
                                    matchfinder::pairs_ok(input@, q, (#[trigger] extra@[q])@) by {
                                    assert(matchfinder::pairs_ok(input@, q, e0[q]@));
                                }
                            }
                            assert(rows_of(extra@) =~= rows_of(e0).update(
                                rp as int,
                                e0[rp as int]@.push((off, l as u32)),
                            ));
                        }
                    }
                    t += 1;
                }
            }
            reps = match found {
                Some(idx) => zx_rep_mtf(reps, idx),
                None => if rep_slots == 1 {
                    zx_rep_insert1(off)
                } else {
                    zx_rep_insert(reps, off)
                },
            };
            let ghost c0 = chain@;
            chain.push(p);
            if chain.len() > fwd_depth + 1 {
                chain.remove(0);
            }
            assert(chain@ =~= chain_with(c0, p as int, fwd_depth as int));
            p += len as usize;
        }
    }
    extra
}

} // verus!
