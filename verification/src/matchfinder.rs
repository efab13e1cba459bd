//! Match candidates for the optimal parsers.
use crate::lz;
use crate::zxdp;
use crate::zxseed;
use crate::zxseed::pair_chain;
use vstd::prelude::*;

verus! {

/// A back-reference: `length` bytes repeat what stands `offset` bytes before.
#[derive(Clone, Copy, Debug)]
pub struct Match {
    pub offset: u32,
    pub length: u32,
}

/// For every position of an input, matches in order of growing offset and
/// growing length.
pub struct MatchSet {
    lists: Vec<Vec<Match>>,
    window: u32,
}

/// Every candidate is a match of `input` at `p` of at least two bytes, and its
/// offset is at most `window`.
pub open spec fn candidates_ok(input: Seq<u8>, p: int, list: Seq<Match>, window: int) -> bool {
    forall|k: int|
        0 <= k < list.len() ==> {
            &&& (#[trigger] list[k]).length >= 2
            &&& list[k].offset <= window
            &&& lz::is_match(input, p, list[k].offset as int, list[k].length as int)
        }
}

/// Longer candidates come later.
pub open spec fn lengths_grow(list: Seq<Match>) -> bool {
    forall|j: int, k: int| 0 <= j < k < list.len() ==> list[j].length < list[k].length
}

/// Nearer candidates come first.
pub open spec fn offsets_grow(list: Seq<Match>) -> bool {
    forall|j: int, k: int| 0 <= j < k < list.len() ==> list[j].offset < list[k].offset
}

/// A candidate that is as long and as near.
pub open spec fn has_as_near(list: Seq<Match>, off: int, len: int) -> bool {
    exists|k: int|
        0 <= k < list.len() && (#[trigger] list[k]).offset <= off && list[k].length >= len
}

/// Every match of `min_match` to `max_len` bytes up to `upto` bytes back has a
/// candidate that is as long and as near.
pub open spec fn front_of(
    input: Seq<u8>,
    p: int,
    list: Seq<Match>,
    upto: int,
    min_match: int,
    max_len: int,
) -> bool {
    forall|off: int, len: int|
        1 <= off <= upto && min_match <= len <= max_len && #[trigger] lz::is_match(
            input,
            p,
            off,
            len,
        ) ==> has_as_near(list, off, len)
}

/// The same for pairs of offset and length, in any order.
pub open spec fn pairs_ok(input: Seq<u8>, p: int, list: Seq<(u32, u32)>) -> bool {
    forall|k: int|
        0 <= k < list.len() ==> {
            &&& (#[trigger] list[k]).1 >= 2
            &&& lz::is_match(input, p, list[k].0 as int, list[k].1 as int)
        }
}

/// A table of such pairs, one list for every position.
pub open spec fn table_ok(input: Seq<u8>, table: Seq<Vec<(u32, u32)>>) -> bool {
    &&& table.len() == input.len()
    &&& forall|p: int| 0 <= p < table.len() ==> pairs_ok(input, p, (#[trigger] table[p])@)
}

/// Length of the common run of `s` at `p` and at `p - off`.
pub open spec fn run_at(s: Seq<u8>, p: int, off: int) -> nat
    decreases s.len() - p,
{
    if 0 <= p < s.len() && 1 <= off <= p && s[p] == s[p - off] {
        1 + run_at(s, p + 1, off)
    } else {
        0
    }
}

pub proof fn lemma_run_at(s: Seq<u8>, p: int, off: int)
    requires
        1 <= off <= p <= s.len(),
    ensures
        lz::is_match(s, p, off, run_at(s, p, off) as int),
        p + run_at(s, p, off) <= s.len(),
    decreases s.len() - p,
{
    if p < s.len() && s[p] == s[p - off] {
        lemma_run_at(s, p + 1, off);
        let r = run_at(s, p, off) as int;
        assert forall|k: int| 0 <= k < r implies #[trigger] s[p + k] == s[p + k - off] by {
            if k > 0 {
                assert(s[(p + 1) + (k - 1)] == s[(p + 1) + (k - 1) - off]);
            }
        }
    }
}

/// A run that was followed up to `lim` bytes.
pub proof fn lemma_run_is(s: Seq<u8>, p: int, off: int, len: int, lim: int)
    requires
        1 <= off <= p,
        0 <= len <= lim,
        p + lim <= s.len(),
        forall|k: int| 0 <= k < len ==> #[trigger] s[p + k] == s[p - off + k],
        len < lim ==> s[p + len] != s[p - off + len],
    ensures
        len < lim ==> run_at(s, p, off) == len,
        len == lim ==> run_at(s, p, off) >= len,
    decreases len,
{
    if len > 0 {
        assert(s[p + 0] == s[p - off + 0]);
        assert forall|k: int| 0 <= k < len - 1 implies #[trigger] s[(p + 1) + k] == s[(p + 1) - off + k] by {
            assert(s[p + (k + 1)] == s[p - off + (k + 1)]);
        }
        lemma_run_is(s, p + 1, off, len - 1, lim - 1);
    }
}

/// No run is longer than what is left.
pub proof fn lemma_run_short(s: Seq<u8>, p: int, off: int)
    requires
        0 <= p <= s.len(),
    ensures
        p + run_at(s, p, off) <= s.len(),
    decreases s.len() - p,
{
    if 0 <= p < s.len() && 1 <= off <= p && s[p] == s[p - off] {
        lemma_run_short(s, p + 1, off);
    }
}

impl MatchSet {
    /// Number of positions.
    pub closed spec fn positions(&self) -> int {
        self.lists@.len() as int
    }

    pub closed spec fn max_offset(&self) -> int {
        self.window as int
    }

    pub closed spec fn list(&self, p: int) -> Seq<Match> {
        self.lists@[p]@
    }

    /// The candidates belong to `input`.
    pub open spec fn of(&self, input: Seq<u8>) -> bool {
        &&& self.positions() == input.len()
        &&& forall|p: int|
            0 <= p < input.len() ==> candidates_ok(
                input,
                p,
                #[trigger] self.list(p),
                self.max_offset(),
            ) && lengths_grow(self.list(p))
    }

    /// No match is missing: each has a candidate that is as long and as near.
    pub open spec fn complete(&self, input: Seq<u8>, min_match: int, window: int, max_len: int) -> bool {
        forall|p: int|
            0 <= p < input.len() ==> front_of(
                input,
                p,
                #[trigger] self.list(p),
                window,
                min_match,
                max_len,
            ) && offsets_grow(self.list(p))
    }

    /// The candidates at position `i`.
    pub fn matches_for(&self, i: usize) -> (list: &Vec<Match>)
        requires
            i < self.positions(),
        ensures
            list@ == self.list(i as int),
    {
        &self.lists[i]
    }

    /// Largest offset that the candidates may have.
    pub fn window(&self) -> (w: u32)
        ensures
            w == self.max_offset(),
    {
        self.window
    }
}

fn clamp_window(window: usize) -> (w: usize)
    ensures
        w == if window > 0x7fff_ffff {
            0x7fff_ffff
        } else {
            window
        },
{
    if window > 0x7fff_ffff {
        0x7fff_ffff
    } else {
        window
    }
}

/// A list that had a candidate for every nearer match has one for the matches
/// at `off` too, once the longest, `l`, is in it or beaten.
proof fn lemma_front_step(
    input: Seq<u8>,
    p: int,
    before: Seq<Match>,
    after: Seq<Match>,
    off: int,
    min_match: int,
    max_len: int,
    l: int,
    best: int,
)
    requires
        1 <= off <= p < input.len(),
        front_of(input, p, before, off - 1, min_match, max_len),
        best == min_match - 1 || has_as_near(before, off - 1, best),
        l == if run_at(input, p, off) > max_len {
            max_len
        } else {
            run_at(input, p, off) as int
        },
        l > best ==> before.len() < after.len() && has_as_near(after, off, l),
        forall|k: int| 0 <= k < before.len() ==> k < after.len() && #[trigger] before[k] == after[k],
    ensures
        front_of(input, p, after, off, min_match, max_len),
        l <= best ==> best == min_match - 1 || has_as_near(after, off, best),
{
    assert forall|o: int, len: int|
        1 <= o <= off && min_match <= len <= max_len && #[trigger] lz::is_match(
            input,
            p,
            o,
            len,
        ) implies has_as_near(after, o, len) by {
        if o < off {
            assert(has_as_near(before, o, len));
            let k = choose|k: int|
                0 <= k < before.len() && (#[trigger] before[k]).offset <= o && before[k].length >= len;
            assert(after[k] == before[k]);
        } else {
            lemma_longest_run(input, p, off, len);
            if l > best {
                let k = choose|k: int|
                    0 <= k < after.len() && (#[trigger] after[k]).offset <= off && after[k].length
                        >= l;
                assert(after[k].length >= len);
            } else {
                let k = choose|k: int|
                    0 <= k < before.len() && (#[trigger] before[k]).offset <= off - 1
                        && before[k].length >= best;
                assert(after[k] == before[k]);
            }
        }
    }
    if l <= best && best != min_match - 1 {
        let k = choose|k: int|
            0 <= k < before.len() && (#[trigger] before[k]).offset <= off - 1 && before[k].length
                >= best;
        assert(after[k] == before[k]);
    }
}

/// No match is longer than the run.
proof fn lemma_longest_run(s: Seq<u8>, p: int, off: int, len: int)
    requires
        lz::is_match(s, p, off, len),
    ensures
        len <= run_at(s, p, off),
    decreases len,
{
    if len > 0 {
        assert(s[p + 0] == s[p + 0 - off]);
        assert forall|k: int| 0 <= k < len - 1 implies #[trigger] s[(p + 1) + k] == s[(p + 1) + k - off] by {
            assert(s[p + (k + 1)] == s[p + (k + 1) - off]);
        }
        lemma_longest_run(s, p + 1, off, len - 1);
    }
}

/// The exact front: at every position, for growing offset, the matches that
/// are longer than every match of a smaller offset. Runs are extended from the
/// end of the input, so that each offset costs one comparison a position.
pub fn find_matches_exact(input: &[u8], min_match: usize, window: usize, max_len: usize) -> (ms: MatchSet)
    requires
        input@.len() <= 0x7fff_ffff,
        min_match >= 2,
    ensures
        ms.of(input@),
        ms.max_offset() <= window,
        ms.complete(input@, min_match as int, window as int, max_len as int),
{
    let n: usize = input.len();
    let win: usize = clamp_window(window);
    let span: usize = if win < n {
        win
    } else {
        n
    };
    let mut lists: Vec<Vec<Match>> = Vec::with_capacity(n);
    let mut z: usize = 0;
    while z < n
        invariant
            z <= n,
            lists@.len() == z,
            forall|p: int| 0 <= p < z ==> (#[trigger] lists@[p])@.len() == 0,
        decreases n - z,
    {
        lists.push(Vec::new());
        z += 1;
    }
    let mut runs: Vec<u32> = vec![0u32; span + 1];
    let mut i: usize = n;
    while i > 0
        invariant
            i <= n,
            n == input@.len(),
            n <= 0x7fff_ffff,
            span <= n,
            span <= win <= 0x7fff_ffff,
            span == n || span >= window,
            min_match >= 2,
            runs@.len() == span + 1,
            forall|off: int|
                1 <= off <= span && off <= i ==> #[trigger] runs@[off] == run_at(
                    input@,
                    i as int,
                    off,
                ),
            lists@.len() == n,
            forall|p: int|
                0 <= p < n ==> candidates_ok(input@, p, (#[trigger] lists@[p])@, win as int)
                    && lengths_grow(lists@[p]@),
            forall|p: int|
                i <= p < n ==> front_of(
                    input@,
                    p,
                    (#[trigger] lists@[p])@,
                    window as int,
                    min_match as int,
                    max_len as int,
                ) && offsets_grow(lists@[p]@),
        decreases i,
    {
        let ghost i0 = i;
        i = i - 1;
        let mut list: Vec<Match> = Vec::new();
        let mut best: usize = min_match - 1;
        let lim: usize = if i < span {
            i
        } else {
            span
        };
        let b: u8 = input[i];
        let mut off: usize = 1;
        while off <= lim
            invariant
                i < n,
                i0 == i + 1,
                n == input@.len(),
                n <= 0x7fff_ffff,
                b == input@[i as int],
                lim <= i,
                lim <= span,
                span <= win <= 0x7fff_ffff,
                1 <= off <= lim + 1,
                best >= 1,
                runs@.len() == span + 1,
                forall|o: int|
                    1 <= o < off ==> #[trigger] runs@[o] == run_at(input@, i as int, o),
                forall|o: int|
                    off <= o <= lim ==> #[trigger] runs@[o] == run_at(input@, i0 as int, o),
                candidates_ok(input@, i as int, list@, win as int),
                lengths_grow(list@),
                forall|k: int| 0 <= k < list@.len() ==> (#[trigger] list@[k]).length <= best,
                min_match >= 2,
                offsets_grow(list@),
                forall|k: int| 0 <= k < list@.len() ==> (#[trigger] list@[k]).offset < off,
                best == min_match - 1 || has_as_near(list@, off - 1, best as int),
                best >= min_match - 1,
                front_of(input@, i as int, list@, off - 1, min_match as int, max_len as int),
            decreases lim + 1 - off,
        {
            let ghost list0 = list@;
            let ghost best0 = best as int;
            proof {
                lemma_run_at(input@, i as int, off as int);
                lemma_run_at(input@, i0 as int, off as int);
                reveal_with_fuel(run_at, 2);
            }
            let r: u32 = if input[i - off] == b {
                runs[off] + 1
            } else {
                0
            };
            runs.set(off, r);
            let l: usize = if r as usize > max_len {
                max_len
            } else {
                r as usize
            };
            if l > best {
                list.push(Match { offset: off as u32, length: l as u32 });
                best = l;
                assert(list@[list0.len() as int].offset == off);
                assert(has_as_near(list@, off as int, best as int));
            }
            proof {
                lemma_front_step(
                    input@,
                    i as int,
                    list0,
                    list@,
                    off as int,
                    min_match as int,
                    max_len as int,
                    l as int,
                    best0,
                );
            }
            off += 1;
        }
        let ghost before = lists@;
        proof {
            assert forall|o: int, len: int|
                1 <= o <= window && min_match <= len <= max_len && #[trigger] lz::is_match(
                    input@,
                    i as int,
                    o,
                    len,
                ) implies has_as_near(list@, o, len) by {
                assert(o <= lim);
            }
        }
        let ghost done = list@;
        lists.set(i, list);
        assert forall|p: int| i <= p < n implies front_of(
            input@,
            p,
            (#[trigger] lists@[p])@,
            window as int,
            min_match as int,
            max_len as int,
        ) && offsets_grow(lists@[p]@) by {
            if p > i {
                assert(lists@[p] == before[p]);
            } else {
                assert(lists@[p]@ == done);
            }
        }
    }
    MatchSet { lists, window: win as u32 }
}

/// The longest match at `p` that is looked for.
pub open spec fn len_cap(n: int, p: int, max_len: int) -> int {
    if n - p < max_len {
        n - p
    } else {
        max_len
    }
}

/// Front out of the places before `i` with the same two bytes, from `cand` on
/// back: at most `left` of them, within the window, each only if it is longer than
/// `best` and all before it.
pub open spec fn chain_front(
    input: Seq<u8>,
    i: int,
    cand: u32,
    left: int,
    win: int,
    cap: int,
    best: int,
    list: Seq<Match>,
) -> Seq<Match>
    decreases
        if cand == 0xffff_ffff {
            0int
        } else {
            cand + 1
        },
{
    let next = zxseed::chain_of(input, cand as int);
    if cand == 0xffff_ffff || left <= 0 || cand >= i || i - cand > win {
        list
    } else {
        let len = zxdp::capped_run(input, i, i - cand, cap);
        let (b, l) = if len > best {
            (len, list.push(Match { offset: (i - cand) as u32, length: len as u32 }))
        } else {
            (best, list)
        };
        if next != 0xffff_ffff && next >= cand {
            l
        } else {
            chain_front(input, i, next, left - 1, win, cap, b, l)
        }
    }
}

/// The window that a set of matches has.
pub open spec fn window_of(window: int) -> int {
    if window > 0x7fff_ffff {
        0x7fff_ffff
    } else {
        window
    }
}

impl MatchSet {
    /// The candidates are those of the chains of places with the same two bytes.
    pub open spec fn chained(
        &self,
        input: Seq<u8>,
        min_match: int,
        window: int,
        max_len: int,
        chain: int,
    ) -> bool {
        &&& self.positions() == input.len()
        &&& self.max_offset() == window_of(window)
        &&& forall|p: int|
            0 <= p < input.len() ==> #[trigger] self.list(p) == chain_front(
                input,
                p,
                zxseed::chain_of(input, p),
                chain,
                window_of(window),
                len_cap(input.len() as int, p, max_len),
                min_match - 1,
                Seq::empty(),
            )
    }
}

/// Front from a hash chain over two-byte prefixes, at most `chain` candidates
/// a position.
pub fn find_matches(input: &[u8], min_match: usize, window: usize, max_len: usize, chain: usize) -> (ms: MatchSet)
    requires
        input@.len() <= 0x7fff_ffff,
        min_match >= 2,
    ensures
        ms.of(input@),
        ms.max_offset() <= window,
        ms.chained(
            input@,
            min_match as int,
            window as int,
            max_len as int,
            chain as int,
        ),
{
    let n: usize = input.len();
    let win: usize = clamp_window(window);
    let none: u32 = 0xffff_ffff;
    let mut lists: Vec<Vec<Match>> = Vec::with_capacity(n);
    let prev: Vec<u32> = pair_chain(input);
    let mut i: usize = 0;
    while i < n
        invariant
            i <= n,
            n == input@.len(),
            n <= 0x7fff_ffff,
            win == window_of(window as int),
            min_match >= 2,
            none == 0xffff_ffff,
            prev@.len() == n,
            forall|k: int| 0 <= k < n ==> #[trigger] prev@[k] == none || prev@[k] < k,
            forall|k: int| 0 <= k < n ==> #[trigger] prev@[k] == zxseed::chain_of(input@, k),
            lists@.len() == i,
            forall|p: int|
                0 <= p < i ==> candidates_ok(input@, p, (#[trigger] lists@[p])@, win as int)
                    && lengths_grow(lists@[p]@),
            forall|p: int|
                0 <= p < i ==> (#[trigger] lists@[p])@ == chain_front(
                    input@,
                    p,
                    zxseed::chain_of(input@, p),
                    chain as int,
                    win as int,
                    len_cap(n as int, p, max_len as int),
                    min_match - 1,
                    Seq::empty(),
                ),
        decreases n - i,
    {
        let mut list: Vec<Match> = Vec::new();
        let cap: usize = if n - i < max_len {
            n - i
        } else {
            max_len
        };
        let mut best: usize = min_match - 1;
        let mut cand: u32 = prev[i];
        let mut tries: usize = 0;
        let ghost goal = chain_front(
            input@,
            i as int,
            cand,
            chain as int,
            win as int,
            cap as int,
            best as int,
            Seq::empty(),
        );
        assert(list@ =~= Seq::<Match>::empty());
        while cand != none && tries < chain && i - cand as usize <= win
            invariant
                i < n,
                n == input@.len(),
                n <= 0x7fff_ffff,
                win <= 0x7fff_ffff,
                none == 0xffff_ffff,
                i + cap <= n,
                best >= 1,
                prev@.len() == n,
                cand == none || cand < i,
                tries <= chain,
                forall|k: int| 0 <= k < n ==> #[trigger] prev@[k] == none || prev@[k] < k,
                forall|k: int| 0 <= k < n ==> #[trigger] prev@[k] == zxseed::chain_of(input@, k),
                candidates_ok(input@, i as int, list@, win as int),
                lengths_grow(list@),
                forall|k: int| 0 <= k < list@.len() ==> (#[trigger] list@[k]).length <= best,
                goal == chain_front(
                    input@,
                    i as int,
                    cand,
                    chain - tries,
                    win as int,
                    cap as int,
                    best as int,
                    list@,
                ),
            decreases chain - tries,
        {
            let c: usize = cand as usize;
            tries += 1;
            let off: usize = i - c;
            let ghost len = zxdp::capped_run(input@, i as int, off as int, cap as int);
            assert(prev@[c as int] == zxseed::chain_of(input@, c as int));
            proof {
                lemma_run_at(input@, i as int, off as int);
                if best < cap && input@[c + best] != input@[i + best] && run_at(
                    input@,
                    i as int,
                    off as int,
                ) > best {
                    assert(input@[i + best] == input@[i + best - off]);
                }
            }
            if best < cap && input[c + best] == input[i + best] {
                let l: usize = lz::match_run(input, c, i, cap);
                proof {
                    assert forall|k: int| 0 <= k < l implies #[trigger] input@[i + k] == input@[i - off
                        + k] by {
                        assert(input@[i + k] == input@[c + k]);
                    }
                    lemma_run_is(input@, i as int, off as int, l as int, cap as int);
                    assert(len == l);
                }
                if l > best {
                    list.push(Match { offset: off as u32, length: l as u32 });
                    best = l;
                }
            }
            cand = prev[c];
        }
        lists.push(list);
        i += 1;
    }
    MatchSet { lists, window: win as u32 }
}

/// Longer pairs come first.
pub open spec fn pairs_fall(list: Seq<(u32, u32)>) -> bool {
    forall|j: int, k: int| 0 <= j < k < list.len() ==> (#[trigger] list[j]).1 >= (#[trigger] list[k]).1
}

/// The first place from `k` on with a pair shorter than `len`.
pub open spec fn place_of(list: Seq<(u32, u32)>, len: u32, k: int) -> int
    decreases list.len() - k,
{
    if k >= list.len() || list[k].1 < len {
        k
    } else {
        place_of(list, len, k + 1)
    }
}

/// The list with one more pair, behind those that are as long, cut to `cap`
/// pairs.
pub open spec fn with_pair(list: Seq<(u32, u32)>, pair: (u32, u32), cap: int) -> Seq<(u32, u32)> {
    let all = list.insert(place_of(list, pair.1, 0), pair);
    if all.len() > cap {
        all.take(cap)
    } else {
        all
    }
}

/// The longest `cap` of the first `k` pairs, longest first, earlier ones first
/// among equals.
pub open spec fn longest_pairs(list: Seq<(u32, u32)>, cap: int, k: int) -> Seq<(u32, u32)>
    decreases k,
{
    if k <= 0 {
        Seq::empty()
    } else {
        with_pair(longest_pairs(list, cap, k - 1), list[k - 1], cap)
    }
}

pub proof fn lemma_place_of(list: Seq<(u32, u32)>, len: u32, k: int, at: int)
    requires
        pairs_fall(list),
        0 <= k <= at <= list.len(),
        at > 0 ==> list[at - 1].1 >= len,
        at < list.len() ==> list[at].1 < len,
    ensures
        place_of(list, len, k) == at,
    decreases at - k,
{
    if k < at {
        assert(list[k].1 >= list[at - 1].1 || k == at - 1);
        lemma_place_of(list, len, k + 1, at);
    }
}

/// Inserts a pair into a list that is kept in order of falling length and cut
/// to `cap` pairs.
pub fn keep_longest(list: &mut Vec<(u32, u32)>, pair: (u32, u32), cap: usize)
    requires
        pairs_fall(old(list)@),
        old(list)@.len() <= cap,
    ensures
        final(list)@ == with_pair(old(list)@, pair, cap as int),
        pairs_fall(final(list)@),
        final(list)@.len() <= cap,
        forall|k: int|
            0 <= k < final(list)@.len() ==> #[trigger] final(list)@[k] == pair || exists|j: int|
                0 <= j < old(list)@.len() && old(list)@[j] == final(list)@[k],
{
    let n: usize = list.len();
    let ghost l0 = list@;
    if n >= cap && (n == 0 || list[n - 1].1 >= pair.1) {
        proof {
            lemma_place_of(l0, pair.1, 0, n as int);
            assert(with_pair(l0, pair, cap as int) =~= l0);
        }
        return;
    }
    if n >= cap {
        list.pop();
    }
    let ghost base = list@;
    list.push(pair);
    let mut k: usize = list.len() - 1;
    assert(list@ =~= base.insert(k as int, pair));
    while k > 0 && list[k - 1].1 < list[k].1
        invariant
            k <= base.len(),
            list@ == base.insert(k as int, pair),
            pairs_fall(base),
            forall|j: int| k <= j < base.len() ==> (#[trigger] base[j]).1 < pair.1,
        decreases k,
    {
        let a: (u32, u32) = list[k - 1];
        let b: (u32, u32) = list[k];
        list.set(k - 1, b);
        list.set(k, a);
        k -= 1;
        assert(list@ =~= base.insert(k as int, pair));
    }
    proof {
        if k > 0 {
            assert(list@[k - 1] == base[k - 1]);
            assert(list@[k as int] == pair);
        }
        lemma_place_of(base, pair.1, 0, k as int);
        lemma_place_of(l0, pair.1, 0, k as int);
        assert(with_pair(l0, pair, cap as int) =~= list@);
        assert forall|i: int, j: int| 0 <= i < j < list@.len() implies (#[trigger] list@[i]).1 >= (
        #[trigger] list@[j]).1 by {
            let (i0, j0) = (if i > k { i - 1 } else { i }, if j > k { j - 1 } else { j });
            if i != k {
                assert(list@[i] == base[i0]);
            }
            if j != k {
                assert(list@[j] == base[j0]);
            }
            if j == k && i < k - 1 {
                assert(base[i].1 >= base[k - 1].1);
            }
        }
        assert forall|x: int| 0 <= x < list@.len() implies #[trigger] list@[x] == pair || exists|j: int|
            0 <= j < l0.len() && l0[j] == list@[x] by {
            if x < k {
                assert(l0[x] == list@[x]);
            } else if x > k {
                assert(l0[x - 1] == list@[x]);
            }
        }
    }
}

/// A front that already reaches this far needs no further candidates.
pub const FRONT_IS_LONG: u32 = 256;

/// The longest `cap` matches at `i` whose offsets, from `off` up to `lim`, are not on
/// the front, of which `f` candidates lie before `off`; behind those in `list`.
pub open spec fn off_front(
    input: Seq<u8>,
    front: Seq<Match>,
    i: int,
    min_match: int,
    max_len: int,
    cap: int,
    lim: int,
    off: int,
    f: int,
    list: Seq<(u32, u32)>,
) -> Seq<(u32, u32)>
    decreases lim + 1 - off,
{
    if off > lim {
        list
    } else {
        let run = run_at(input, i, off) as int;
        let len = if run > max_len {
            max_len
        } else {
            run
        };
        if f < front.len() && front[f].offset == off {
            off_front(input, front, i, min_match, max_len, cap, lim, off + 1, f + 1, list)
        } else if len >= min_match && !(front.len() > 0 && front.last().length >= FRONT_IS_LONG) {
            off_front(
                input,
                front,
                i,
                min_match,
                max_len,
                cap,
                lim,
                off + 1,
                f,
                with_pair(list, (off as u32, len as u32), cap),
            )
        } else {
            off_front(input, front, i, min_match, max_len, cap, lim, off + 1, f, list)
        }
    }
}

/// The candidates off the front at every position.
pub open spec fn complete_extra(
    input: Seq<u8>,
    ms: &MatchSet,
    min_match: int,
    window: int,
    max_len: int,
    cap: int,
    extra: Seq<Vec<(u32, u32)>>,
) -> bool {
    &&& extra.len() == input.len()
    &&& forall|p: int|
        0 <= p < input.len() ==> (#[trigger] extra[p])@ == off_front(
            input,
            ms.list(p),
            p,
            min_match,
            max_len,
            cap,
            if p < window_of(window) {
                p
            } else {
                window_of(window)
            },
            1,
            0,
            Seq::empty(),
        )
}

/// For every position, offsets that match there but are not on the front of
/// `ms`: the longest `cap` of them.
pub fn build_complete_extra(
    input: &[u8],
    ms: &MatchSet,
    min_match: usize,
    window: usize,
    max_len: usize,
    cap: usize,
) -> (extra: Vec<Vec<(u32, u32)>>)
    requires
        input@.len() <= 0x7fff_ffff,
        min_match >= 2,
        ms.of(input@),
    ensures
        table_ok(input@, extra@),
        complete_extra(
            input@,
            ms,
            min_match as int,
            window as int,
            max_len as int,
            cap as int,
            extra@,
        ),
{
    let n: usize = input.len();
    let win: usize = clamp_window(window);
    let span: usize = if win < n {
        win
    } else {
        n
    };
    let mut extra: Vec<Vec<(u32, u32)>> = Vec::with_capacity(n);
    let mut z: usize = 0;
    while z < n
        invariant
            z <= n,
            extra@.len() == z,
            forall|p: int| 0 <= p < z ==> (#[trigger] extra@[p])@.len() == 0,
        decreases n - z,
    {
        extra.push(Vec::new());
        z += 1;
    }
    let mut runs: Vec<u32> = vec![0u32; span + 1];
    let mut i: usize = n;
    while i > 0
        invariant
            i <= n,
            n == input@.len(),
            n <= 0x7fff_ffff,
            span <= n,
            span <= win <= 0x7fff_ffff,
            min_match >= 2,
            ms.of(input@),
            runs@.len() == span + 1,
            forall|off: int|
                1 <= off <= span && off <= i ==> #[trigger] runs@[off] == run_at(
                    input@,
                    i as int,
                    off,
                ),
            extra@.len() == n,
            forall|p: int| 0 <= p < n ==> pairs_ok(input@, p, (#[trigger] extra@[p])@),
            win == window_of(window as int),
            span == win || (span == n && n <= win),
            forall|p: int|
                i <= p < n ==> (#[trigger] extra@[p])@ == off_front(
                    input@,
                    ms.list(p),
                    p,
                    min_match as int,
                    max_len as int,
                    cap as int,
                    if p < win {
                        p
                    } else {
                        win as int
                    },
                    1,
                    0,
                    Seq::empty(),
                ),
        decreases i,
    {
        let ghost i0 = i;
        i = i - 1;
        let mut list: Vec<(u32, u32)> = Vec::new();
        let front: &Vec<Match> = ms.matches_for(i);
        let quiet: bool = front.len() > 0 && front[front.len() - 1].length >= FRONT_IS_LONG;
        let mut f: usize = 0;
        let lim: usize = if i < span {
            i
        } else {
            span
        };
        let b: u8 = input[i];
        let ghost goal = off_front(
            input@,
            front@,
            i as int,
            min_match as int,
            max_len as int,
            cap as int,
            lim as int,
            1,
            0,
            Seq::empty(),
        );
        assert(list@ =~= Seq::<(u32, u32)>::empty());
        let mut off: usize = 1;
        while off <= lim
            invariant
                i < n,
                i0 == i + 1,
                n == input@.len(),
                n <= 0x7fff_ffff,
                b == input@[i as int],
                lim <= i,
                lim <= span,
                span <= win <= 0x7fff_ffff,
                1 <= off <= lim + 1,
                min_match >= 2,
                f <= front@.len(),
                runs@.len() == span + 1,
                forall|o: int|
                    1 <= o < off ==> #[trigger] runs@[o] == run_at(input@, i as int, o),
                forall|o: int|
                    off <= o <= lim ==> #[trigger] runs@[o] == run_at(input@, i0 as int, o),
                pairs_ok(input@, i as int, list@),
                pairs_fall(list@),
                list@.len() <= cap,
                quiet == (front@.len() > 0 && front@.last().length >= FRONT_IS_LONG),
                goal == off_front(
                    input@,
                    front@,
                    i as int,
                    min_match as int,
                    max_len as int,
                    cap as int,
                    lim as int,
                    off as int,
                    f as int,
                    list@,
                ),
            decreases lim + 1 - off,
        {
            proof {
                lemma_run_at(input@, i as int, off as int);
                lemma_run_at(input@, i0 as int, off as int);
                reveal_with_fuel(run_at, 2);
            }
            let r: u32 = if input[i - off] == b {
                runs[off] + 1
            } else {
                0
            };
            runs.set(off, r);
            let l: usize = if r as usize > max_len {
                max_len
            } else {
                r as usize
            };
            if f < front.len() && front[f].offset as usize == off {
                f += 1;
            } else if l >= min_match && !quiet {
                keep_longest(&mut list, (off as u32, l as u32), cap);
            }
            off += 1;
        }
        extra.set(i, list);
    }
    extra
}

} // verus!
