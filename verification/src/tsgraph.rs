//! The tokens that TSCrunch chooses from at every position.
use crate::lz;
use crate::lz::match_run;
use crate::matchfinder;
use crate::tspath;
use crate::tsstream;
use crate::tsstream::{
    TsTok, LONGEST_LITERAL, LONGEST_LONG_LZ, LONGEST_LZ, LONGEST_RLE, LONG_LZ_OFFSET, LZ2_OFFSET,
    LZ2_SIZE, LZ_OFFSET, MIN_LZ, MIN_RLE,
};
use crate::zxdp;
use std::collections::HashMap;
use vstd::prelude::*;

verus! {

/// Largest input. The length of a stream together with that of its output, and the
/// sum of the costs of its tokens, stay in range where addresses have 32 bits.
pub const MAX_INPUT: usize = 0x0fff_ffff;

// ---------------------------------------------------------------------------
// What is on offer
// ---------------------------------------------------------------------------
/// `len` equal bytes stand at `i`.
pub open spec fn run_at(src: Seq<u8>, i: int, len: int) -> bool {
    i + len <= src.len() && tsstream::same_from(src, i, len)
}

/// The tokens at `i` that a parse may choose from. In a run of more than 64
/// bytes that is only the longest run; the first byte of the input and what lies
/// 32767 bytes back or more is no source of a match; a match of two bytes does
/// not end the input.
pub open spec fn ts_offered(src: Seq<u8>, i: int, run: int, t: TsTok) -> bool {
    &&& tsstream::ts_ok(src, i, t, run)
    &&& match t {
        TsTok::Rle { size } => size == 64 || !run_at(src, i, 65),
        TsTok::Lz { size, offset } => {
            &&& offset < 32767
            &&& offset < i
            &&& !run_at(src, i, 65)
            &&& run_at(src, i, size as int) || !run_at(src, i, 63)
        },
        TsTok::Lz2 { .. } => i + 2 < src.len(),
        _ => true,
    }
}

/// The bytes from `i` on that are equal, of which `x` are known, at most 65.
pub open spec fn equal_bytes(src: Seq<u8>, i: int, x: int) -> int
    decreases 65 - x,
{
    if x >= 65 || i + x >= src.len() || src[i + x] != src[i] {
        x
    } else {
        equal_bytes(src, i, x + 1)
    }
}

/// The longest run at `i` that a token can stand for.
pub open spec fn longest_run(src: Seq<u8>, i: int) -> int {
    let x = equal_bytes(src, i, 1);
    if x > 64 {
        64
    } else {
        x
    }
}

/// The positions below `upto` with a prefix of three bytes, in ascending order.
pub open spec fn places_of(src: Seq<u8>, key: u32, upto: int) -> Seq<usize>
    decreases upto,
{
    if upto <= 0 {
        Seq::empty()
    } else if key_of(src, upto - 1) == key {
        places_of(src, key, upto - 1).push((upto - 1) as usize)
    } else {
        places_of(src, key, upto - 1)
    }
}

/// Where a search for `pos` by halving lands, between `l` and `h`, after `mid`.
pub open spec fn lands(list: Seq<usize>, pos: int, l: int, h: int, mid: int) -> int
    decreases h - l + 1,
{
    if l >= h || l < 0 || h >= list.len() {
        mid
    } else {
        let m = l + (h - l) / 2;
        if list[m] < pos {
            lands(list, pos, m + 1, h, m)
        } else if list[m] > pos {
            lands(list, pos, l, m - 1, m)
        } else {
            m
        }
    }
}

/// How long a match at `pos` may get.
pub open spec fn match_cap(n: int, pos: int) -> int {
    if n - pos < LONGEST_LONG_LZ {
        n - pos
    } else {
        LONGEST_LONG_LZ as int
    }
}

/// A match is taken in place of the best one so far: it is longer, unless that
/// makes a near offset a far one for one byte.
pub open spec fn is_taken(len: int, off: int, best_len: int, best_off: int) -> bool {
    ||| len > best_len && (off < LZ_OFFSET || best_off >= LZ_OFFSET || len > LONGEST_LZ)
    ||| len > best_len + 1
}

/// The best match at `pos` out of the first `o` places of a list, from the last
/// down: its length and offset.
pub open spec fn best_down(
    src: Seq<u8>,
    list: Seq<usize>,
    pos: int,
    minlz: int,
    o: int,
    best_len: int,
    best_off: int,
) -> (int, int)
    decreases o,
{
    if o <= 0 || list[o - 1] <= pos - LONG_LZ_OFFSET || list[o - 1] == 0 {
        (best_len, best_off)
    } else {
        let off = pos - list[o - 1];
        let len = zxdp::capped_run(src, pos, off, match_cap(src.len() as int, pos));
        if off > 0 && len >= minlz && is_taken(len, off, best_len, best_off) {
            best_down(src, list, pos, minlz, o - 1, len, off)
        } else {
            best_down(src, list, pos, minlz, o - 1, best_len, best_off)
        }
    }
}

/// The match that the plain search takes at `pos`, of at least `minlz` bytes: its
/// length and offset, or no length. The places before it with the same three bytes
/// are tried from the one on where a search by halving lands.
pub open spec fn plain_match(src: Seq<u8>, pos: int, minlz: int) -> (int, int) {
    let list = places_of(src, key_of(src, pos), src.len() - 3);
    if src.len() - pos < minlz || list.len() == 0 {
        (0, 1)
    } else {
        best_down(src, list, pos, minlz, lands(list, pos, 0, list.len() - 1, 0) + 1, 0, 1)
    }
}

/// The shortest match that the plain search looks for where a run of `cap` bytes
/// stands.
pub open spec fn least_match(cap: int) -> int {
    if cap + 1 > MIN_LZ {
        cap + 1
    } else {
        MIN_LZ as int
    }
}

/// A match that the plain search offers at `i`: the one that it takes there, or a
/// shorter one with its offset, longer than the run.
pub open spec fn is_plain(src: Seq<u8>, i: int, t: TsTok) -> bool {
    t matches TsTok::Lz { size, offset } && {
        let cap = longest_run(src, i);
        let (len, off) = plain_match(src, i, least_match(cap));
        cap < LONGEST_LONG_LZ - 1 && cap < size && MIN_LZ <= size <= len && offset == off
    }
}

/// The nearest offset from `d` up to `most` at which `len` bytes match at `i`, or 0.
pub open spec fn nearest_off(src: Seq<u8>, i: int, len: int, d: int, most: int) -> int
    decreases most + 1 - d,
{
    if d > most {
        0
    } else if lz::is_match(src, i, d, len) {
        d
    } else {
        nearest_off(src, i, len, d + 1, most)
    }
}

proof fn lemma_nearest(src: Seq<u8>, i: int, len: int, d: int, most: int, off: int)
    requires
        1 <= d,
        off == 0 || (d <= off <= most && lz::is_match(src, i, off, len)),
        forall|x: int|
            d <= x <= most && (off == 0 || x < off) ==> !#[trigger] lz::is_match(src, i, x, len),
    ensures
        nearest_off(src, i, len, d, most) == off,
    decreases most + 1 - d,
{
    if d <= most && d != off {
        assert(!lz::is_match(src, i, d, len));
        lemma_nearest(src, i, len, d + 1, most, off);
    }
}

/// How far back the richer search looks for matches at `i`.
pub open spec fn rich_reach(i: int) -> int {
    if i - 1 < LONG_LZ_OFFSET - 1 {
        i - 1
    } else {
        LONG_LZ_OFFSET - 1
    }
}

/// The match of `size` bytes at `i` that a search has: longer than the run there,
/// with the nearest offset or with that of the match that the plain search takes.
pub open spec fn match_for(src: Seq<u8>, i: int, rich: bool, size: int) -> Option<TsTok> {
    let cap = longest_run(src, i);
    if cap >= LONGEST_LONG_LZ - 1 || size <= cap || size < MIN_LZ || size > LONGEST_LONG_LZ {
        None
    } else if rich {
        let off = nearest_off(src, i, size, 1, rich_reach(i));
        if off > 0 {
            Some(TsTok::Lz { size: size as usize, offset: off as usize })
        } else {
            None
        }
    } else {
        let (len, off) = plain_match(src, i, least_match(cap));
        if size <= len {
            Some(TsTok::Lz { size: size as usize, offset: off as usize })
        } else {
            None
        }
    }
}

/// The offset of the nearest match of two bytes at `i`, or 0.
pub open spec fn nearest_two(src: Seq<u8>, i: int) -> int {
    if i + LZ2_SIZE >= src.len() {
        0
    } else {
        nearest_off(src, i, 2, 1, LZ2_OFFSET as int)
    }
}

/// A run of `size` bytes at `i` is offered; of a run of more than 64 that alone.
pub open spec fn has_run(src: Seq<u8>, i: int, size: int) -> bool {
    let all = equal_bytes(src, i, 1);
    if all > LONGEST_RLE {
        size == LONGEST_RLE
    } else {
        MIN_RLE <= size <= all
    }
}

/// The token of `size` bytes at `i`: the run of zeros before a match of two bytes,
/// before a run, before a longer match, before literals.
pub open spec fn token_for(src: Seq<u8>, i: int, run: int, rich: bool, size: int) -> Option<TsTok> {
    if size == run && i + run <= src.len() && src[i] == 0 && tsstream::same_from(src, i, run) {
        Some(TsTok::Zerorun)
    } else if size == LZ2_SIZE && nearest_two(src, i) > 0 {
        Some(TsTok::Lz2 { offset: nearest_two(src, i) as usize })
    } else if has_run(src, i, size) {
        Some(TsTok::Rle { size: size as usize })
    } else if match_for(src, i, rich, size) is Some {
        match_for(src, i, rich, size)
    } else if 1 <= size <= LONGEST_LITERAL && i + size <= src.len() {
        Some(TsTok::Literal { size: size as usize })
    } else {
        None
    }
}

/// The tokens at `i` of less than `size` bytes, from short to long.
pub open spec fn tokens_at(src: Seq<u8>, i: int, run: int, rich: bool, size: int) -> Seq<TsTok>
    decreases size,
{
    if size <= 1 {
        Seq::empty()
    } else {
        match token_for(src, i, run, rich, size - 1) {
            Some(t) => tokens_at(src, i, run, rich, size - 1).push(t),
            None => tokens_at(src, i, run, rich, size - 1),
        }
    }
}

/// The tokens that a search offers: all, or of the matches of three bytes and more
/// those of the plain search.
pub open spec fn is_choice(src: Seq<u8>, i: int, rich: bool, t: TsTok) -> bool {
    rich || !(t is Lz) || is_plain(src, i, t)
}

/// Tokens that a search offers and that lead from `v` to the end.
pub open spec fn offered_way(src: Seq<u8>, run: int, rich: bool, v: int, s: Seq<TsTok>) -> bool
    decreases s.len(),
{
    if s.len() == 0 {
        v == src.len()
    } else {
        &&& ts_offered(src, v, run, s[0])
        &&& is_choice(src, v, rich, s[0])
        &&& offered_way(src, run, rich, v + tsstream::ts_len(s[0], run), s.skip(1))
    }
}

/// The parse of the input that the search finds: by tokens that it offers, and none
/// by such tokens costs less.
pub open spec fn ts_parse(src: Seq<u8>, run: int, rich: bool, toks: Seq<TsTok>) -> bool {
    &&& toks == tokens_found(src, run, rich)
    &&& offered_way(src, run, rich, 0, toks)
    &&& forall|q: Seq<TsTok>| #[trigger]
        offered_way(src, run, rich, 0, q) ==> tspath::way_cost(toks) <= tspath::way_cost(q)
}

/// The tokens that the search finds for the input.
pub open spec fn tokens_found(src: Seq<u8>, run: int, rich: bool) -> Seq<TsTok> {
    tspath::path_found(Seq::new(src.len(), |v: int| tokens_at(src, v, run, rich, 257)), run)
}

/// The parse with the richer choice of matches costs no more than the plain one.
pub proof fn lemma_rich_no_dearer(src: Seq<u8>, run: int, rich: Seq<TsTok>, plain: Seq<TsTok>)
    requires
        ts_parse(src, run, true, rich),
        ts_parse(src, run, false, plain),
    ensures
        tspath::way_cost(rich) <= tspath::way_cost(plain),
{
    lemma_fewer(src, run, 0, plain);
}

proof fn lemma_fewer(src: Seq<u8>, run: int, v: int, q: Seq<TsTok>)
    requires
        offered_way(src, run, false, v, q),
    ensures
        offered_way(src, run, true, v, q),
    decreases q.len(),
{
    if q.len() > 0 {
        lemma_fewer(src, run, v + tsstream::ts_len(q[0], run), q.skip(1));
    }
}

// ---------------------------------------------------------------------------
// Matches
// ---------------------------------------------------------------------------
/// Every position of each prefix of three bytes, in ascending order.
pub struct PrefixArray {
    map: HashMap<u32, usize>,
    lists: Vec<Vec<usize>>,
}

pub open spec fn key_of(src: Seq<u8>, p: int) -> u32 {
    (src[p] + 256 * src[p + 1] + 65536 * src[p + 2]) as u32
}

fn prefix_key(src: &[u8], p: usize) -> (key: u32)
    requires
        p + 3 <= src@.len(),
    ensures
        key == key_of(src@, p as int),
{
    let n: usize = src.len();
    src[p] as u32 + 256 * (src[p + 1] as u32) + 65536 * (src[p + 2] as u32)
}

pub open spec fn ascending(list: Seq<usize>, bound: int) -> bool {
    &&& forall|a: int, b: int| 0 <= a < b < list.len() ==> #[trigger] list[a] < #[trigger] list[b]
    &&& forall|a: int| 0 <= a < list.len() ==> #[trigger] list[a] < bound
}

impl PrefixArray {
    /// Every prefix has the list of its positions before `upto`.
    pub closed spec fn holds(&self, src: Seq<u8>, upto: int) -> bool {
        &&& forall|k: u32| #[trigger]
            self.map@.contains_key(k) ==> self.map@[k] < self.lists@.len()
                && self.lists@[self.map@[k] as int]@ == places_of(src, k, upto)
        &&& forall|k: u32| !#[trigger] self.map@.contains_key(k) ==> places_of(src, k, upto).len() == 0
        &&& forall|j: u32, k: u32|
            #![trigger self.map@[j], self.map@[k]]
            self.map@.contains_key(j) && self.map@.contains_key(k) && self.map@[j] == self.map@[k]
                ==> j == k
    }

    /// All positions with three bytes and one more behind them.
    pub fn build(src: &[u8]) -> (pa: PrefixArray)
        requires
            src@.len() <= MAX_INPUT,
        ensures
            pa.holds(src@, src@.len() - 3),
    {
        broadcast use vstd::std_specs::hash::group_hash_axioms;

        let n: usize = src.len();
        let mut pa: PrefixArray = PrefixArray { map: HashMap::new(), lists: Vec::new() };
        let mut i: usize = 0;
        while n >= MIN_LZ && i < n - MIN_LZ
            invariant
                n == src@.len(),
                n <= MAX_INPUT,
                i == 0 || i <= n - 3,
                pa.holds(src@, i as int),
            decreases n - i,
        {
            broadcast use vstd::std_specs::hash::group_hash_axioms;

            let key: u32 = prefix_key(src, i);
            let known: Option<usize> = match pa.map.get(&key) {
                Some(id) => Some(*id),
                None => None,
            };
            let ghost pa0 = pa;
            let mut list: Vec<usize> = Vec::new();
            match known {
                Some(id) => {
                    std::mem::swap(&mut list, &mut pa.lists[id]);
                    list.push(i);
                    std::mem::swap(&mut list, &mut pa.lists[id]);
                    proof {
                        assert(pa.lists@[id as int]@ == pa0.lists@[id as int]@.push(i));
                        assert(pa.map@ == pa0.map@);
                        assert forall|k: u32| #[trigger] pa.map@.contains_key(k) implies pa.map@[k]
                            < pa.lists@.len() && pa.lists@[pa.map@[k] as int]@ == places_of(
                            src@,
                            k,
                            i + 1,
                        ) by {
                            assert(pa0.map@.contains_key(k));
                            if k != key {
                                assert(pa0.map@[k] != pa0.map@[key]);
                            }
                        }
                    }
                },
                None => {
                    list.push(i);
                    let fresh: usize = pa.lists.len();
                    pa.map.insert(key, fresh);
                    pa.lists.push(list);
                    proof {
                        assert(places_of(src@, key, i as int).len() == 0);
                        assert(pa.lists@[fresh as int]@ =~= places_of(src@, key, i + 1));
                        assert forall|k: u32| #[trigger] pa.map@.contains_key(k) implies pa.map@[k]
                            < pa.lists@.len() && pa.lists@[pa.map@[k] as int]@ == places_of(
                            src@,
                            k,
                            i + 1,
                        ) by {
                            if k != key {
                                assert(pa0.map@.contains_key(k));
                            }
                        }
                        assert forall|k: u32| !#[trigger] pa.map@.contains_key(k) implies places_of(
                            src@,
                            k,
                            i + 1,
                        ).len() == 0 by {
                            assert(!pa0.map@.contains_key(k));
                        }
                    }
                },
            }
            i += 1;
        }
        pa
    }

    /// The positions with the prefix at `pos`.
    fn list_for(&self, src: &[u8], pos: usize) -> (list: Option<&Vec<usize>>)
        requires
            pos + 3 <= src@.len(),
            self.holds(src@, src@.len() - 3),
        ensures
            match list {
                Some(l) => l@ == places_of(src@, key_of(src@, pos as int), src@.len() - 3) && ascending(
                    l@,
                    src@.len() - 3,
                ) && forall|p: int|
                    0 <= p < src@.len() - 3 && #[trigger] key_of(src@, p) == key_of(src@, pos as int)
                        ==> l@.contains(p as usize),
                None => places_of(src@, key_of(src@, pos as int), src@.len() - 3).len() == 0
                    && forall|p: int|
                    0 <= p < src@.len() - 3 ==> #[trigger] key_of(src@, p) != key_of(src@, pos as int),
            },
    {
        broadcast use vstd::std_specs::hash::group_hash_axioms;

        let key: u32 = prefix_key(src, pos);
        let n: usize = src.len();
        proof {
            lemma_places(src@, key, n - 3);
        }
        match self.map.get(&key) {
            Some(id) => Some(&self.lists[*id]),
            None => None,
        }
    }
}

/// The places of a prefix ascend, and no place is missing.
proof fn lemma_places(src: Seq<u8>, key: u32, upto: int)
    requires
        upto <= src.len() <= usize::MAX,
    ensures
        ascending(places_of(src, key, upto), upto),
        forall|p: int|
            0 <= p < upto && #[trigger] key_of(src, p) == key ==> places_of(src, key, upto).contains(
                p as usize,
            ),
    decreases upto,
{
    if upto > 0 {
        let before = places_of(src, key, upto - 1);
        let list = places_of(src, key, upto);
        lemma_places(src, key, upto - 1);
        assert forall|p: int| 0 <= p < upto && #[trigger] key_of(src, p) == key implies list.contains(
            p as usize,
        ) by {
            if p < upto - 1 {
                let k = choose|k: int| 0 <= k < before.len() && before[k] == p as usize;
                assert(list[k] == p as usize);
            } else {
                assert(list[list.len() - 1] == p as usize);
            }
        }
    }
}

/// A match at `pos`: its length and offset, or nothing.
spec fn found_ok(src: Seq<u8>, pos: int, len: int, off: int) -> bool {
    len > 0 ==> len <= 64 && off <= 32767 && lz::is_match(src, pos, off, len)
}

/// Where a search for `pos` by halving lands.
fn landing(list: &Vec<usize>, pos: usize) -> (mid: usize)
    requires
        list@.len() > 0,
    ensures
        mid < list@.len(),
        mid == lands(list@, pos as int, 0, list@.len() - 1, 0),
{
    let mut l: usize = 0;
    let mut h: usize = list.len() - 1;
    let mut mid: usize = 0;
    while l < h
        invariant
            l <= h + 1,
            h < list@.len(),
            mid < list@.len(),
            lands(list@, pos as int, l as int, h as int, mid as int) == lands(
                list@,
                pos as int,
                0,
                list@.len() - 1,
                0,
            ),
        decreases h + 1 - l,
    {
        mid = l + (h - l) / 2;
        let v: usize = list[mid];
        if v < pos {
            l = mid + 1;
        } else if v > pos {
            if mid == 0 {
                assert(lands(list@, pos as int, l as int, -1, 0) == 0);
                return mid;
            }
            h = mid - 1;
        } else {
            return mid;
        }
    }
    mid
}

/// The match that is longest, with a bonus for near offsets, of at least
/// `minlz` bytes. Candidates are tried from near ones to far ones, starting
/// where a search by halving lands.
fn lz_best(pa: &PrefixArray, src: &[u8], pos: usize, minlz: usize) -> (r: (usize, usize))
    requires
        src@.len() <= MAX_INPUT,
        pos < src@.len(),
        3 <= minlz <= 64,
        pa.holds(src@, src@.len() - 3),
    ensures
        found_ok(src@, pos as int, r.0 as int, r.1 as int),
        r.0 == 0 || r.0 >= minlz,
        r.0 > 0 ==> r.1 < pos && r.1 < 32767,
        (r.0 as int, r.1 as int) == plain_match(src@, pos as int, minlz as int),
{
    let n: usize = src.len();
    if n - pos < minlz {
        return (0, 1);
    }
    let list: &Vec<usize> = match pa.list_for(src, pos) {
        None => {
            return (0, 1);
        },
        Some(list) => list,
    };
    if list.len() == 0 {
        return (0, 1);
    }
    let x0: usize = pos.saturating_sub(LONG_LZ_OFFSET);
    let cap: usize = if n - pos < LONGEST_LONG_LZ {
        n - pos
    } else {
        LONGEST_LONG_LZ
    };
    let mut best_len: usize = 0;
    let mut best_off: usize = 1;
    let mut o: usize = landing(list, pos) + 1;
    while o > 0 && list[o - 1] > x0
        invariant
            x0 == (if pos > 32767 { pos - 32767 } else { 0 }),
            cap == match_cap(n as int, pos as int),
            plain_match(src@, pos as int, minlz as int) == best_down(
                src@,
                list@,
                pos as int,
                minlz as int,
                o as int,
                best_len as int,
                best_off as int,
            ),
            n == src@.len(),
            n <= MAX_INPUT,
            pos < n,
            o <= list@.len(),
            3 <= minlz <= 64,
            pos + cap <= n,
            cap <= 64,
            x0 + 32767 >= pos,
            best_len > 0 ==> best_off < pos && best_off < 32767,
            found_ok(src@, pos as int, best_len as int, best_off as int),
            best_len == 0 || best_len >= minlz,
        decreases o,
    {
        let p: usize = list[o - 1];
        o -= 1;
        if p < pos {
            let l: usize = match_run(src, p, pos, cap);
            proof {
                assert forall|k: int| 0 <= k < l implies #[trigger] src@[pos + k] == src@[pos - (pos - p)
                    + k] by {
                    assert(src@[pos + k] == src@[p + k]);
                }
                matchfinder::lemma_run_is(src@, pos as int, pos - p, l as int, cap as int);
            }
            if l >= minlz {
                let off: usize = pos - p;
                if (l > best_len && (off < LZ_OFFSET || best_off >= LZ_OFFSET || l > LONGEST_LZ)) || (l
                    > best_len + 1) {
                    best_len = l;
                    best_off = off;
                }
            }
        }
    }
    (best_len, best_off)
}

/// For every length from `minlz` on the nearest offset; zero where there is no
/// match. Returns the greatest length.
#[verifier::rlimit(40)]
fn lz_per_length(pa: &PrefixArray, src: &[u8], pos: usize, minlz: usize) -> (r: (Vec<usize>, usize))
    requires
        src@.len() <= MAX_INPUT,
        pos < src@.len(),
        3 <= minlz <= 64,
        pa.holds(src@, src@.len() - 3),
    ensures
        r.0@.len() == 65,
        r.1 <= 64,
        forall|l: int|
            minlz <= l <= 64 && #[trigger] r.0@[l] > 0 ==> found_ok(
                src@,
                pos as int,
                l,
                r.0@[l] as int,
            ) && l <= r.1 && r.0@[l] < pos && r.0@[l] < 32767,
        forall|l: int, off: int|
            minlz <= l <= 64 && 1 <= off < 32767 && off < pos && #[trigger] lz::is_match(
                src@,
                pos as int,
                off,
                l,
            ) ==> 0 < r.0@[l] <= off,
{
    let n: usize = src.len();
    let mut best: Vec<usize> = vec![0usize; 65];
    if n - pos < MIN_LZ {
        return (best, 0);
    }
    let list: &Vec<usize> = match pa.list_for(src, pos) {
        None => {
            proof {
                assert forall|l: int, off: int|
                    minlz <= l <= 64 && 1 <= off < 32767 && off < pos && #[trigger] lz::is_match(
                        src@,
                        pos as int,
                        off,
                        l,
                    ) implies 0 < best@[l] <= off by {
                    lemma_same_key(src@, pos as int, off, l);
                }
            }
            return (best, 0);
        },
        Some(list) => list,
    };
    let x0: usize = pos.saturating_sub(LONG_LZ_OFFSET);
    let cap: usize = if n - pos < LONGEST_LONG_LZ {
        n - pos
    } else {
        LONGEST_LONG_LZ
    };
    let lo: usize = first_from(list, pos);
    let mut max_len: usize = minlz - 1;
    let mut o: usize = lo;
    while o > 0 && max_len < LONGEST_LONG_LZ && list[o - 1] > x0
        invariant
            n == src@.len(),
            n <= MAX_INPUT,
            pos < n,
            o <= lo <= list@.len(),
            3 <= minlz <= 64,
            pos + cap <= n,
            cap <= 64,
            cap == 64 || cap == n - pos,
            x0 == (if pos > 32767 { pos - 32767 } else { 0 }),
            minlz - 1 <= max_len <= 64,
            best@.len() == 65,
            ascending(list@, n - 3),
            forall|k: int| 0 <= k < lo ==> #[trigger] list@[k] < pos,
            forall|l: int|
                minlz <= l <= 64 ==> (#[trigger] best@[l] > 0 <==> l <= max_len),
            forall|l: int|
                minlz <= l <= 64 && #[trigger] best@[l] > 0 ==> found_ok(
                    src@,
                    pos as int,
                    l,
                    best@[l] as int,
                ) && best@[l] < pos && best@[l] < 32767 && (o < lo ==> best@[l] <= pos
                    - list@[o as int]),
            o == lo ==> max_len == minlz - 1,
            forall|k: int, l: int|
                o <= k < lo && minlz <= l <= 64 && #[trigger] lz::is_match(
                    src@,
                    pos as int,
                    pos - list@[k],
                    l,
                ) ==> 0 < best@[l] <= pos - list@[k],
        decreases o,
    {
        let p: usize = list[o - 1];
        let ghost o0 = o as int;
        o -= 1;
        let l: usize = match_run(src, p, pos, cap);
        let off: usize = pos - p;
        let ghost best0 = best@;
        proof {
            assert(off < pos && off < 32767);
            if o0 < lo {
                assert(list@[o0] > list@[o as int]);
            }
            assert forall|x: int| 0 <= x <= 64 && #[trigger] lz::is_match(
                src@,
                pos as int,
                off as int,
                x,
            ) implies x <= l by {
                if x > l {
                    assert(l < cap);
                    assert(src@[pos + l] == src@[pos + l - off]);
                }
            }
        }
        let mut k: usize = l;
        let top: usize = max_len;
        if l > max_len {
            while k > top
                invariant
                    n == src@.len(),
                    n <= MAX_INPUT,
                    3 <= minlz <= 64,
                    minlz - 1 <= top <= k <= l <= 64,
                    off <= 32767,
                    off >= 1,
                    lz::is_match(src@, pos as int, off as int, l as int),
                    best@.len() == 65,
                    forall|j: int| 0 <= j <= 64 && !(k < j <= l) ==> #[trigger] best@[j] == best0[j],
                    forall|j: int| k < j <= l ==> #[trigger] best@[j] == off,
                    best0.len() == 65,
                decreases k,
            {
                best.set(k, off);
                k -= 1;
            }
            max_len = l;
        }
        proof {
            assert forall|j: int| minlz <= j <= 64 && #[trigger] best@[j] > 0 implies found_ok(
                src@,
                pos as int,
                j,
                best@[j] as int,
            ) && best@[j] < pos && best@[j] < 32767 && best@[j] <= pos - list@[o as int] by {
                if top < j <= l {
                    zxdp::lemma_shorter_match(src@, pos as int, off as int, l as int, j);
                } else {
                    assert(best@[j] == best0[j]);
                    assert(best0[j] > 0);
                }
            }
            assert forall|kk: int, x: int|
                o <= kk < lo && minlz <= x <= 64 && #[trigger] lz::is_match(
                    src@,
                    pos as int,
                    pos - list@[kk],
                    x,
                ) implies 0 < best@[x] <= pos - list@[kk] by {
                if kk == o {
                    assert(x <= l);
                    assert(best@[x] > 0);
                } else {
                    assert(best0[x] > 0);
                    assert(best@[x] == best0[x]);
                }
            }
        }
    }
    proof {
        assert forall|l: int, off: int|
            minlz <= l <= 64 && 1 <= off < 32767 && off < pos && #[trigger] lz::is_match(
                src@,
                pos as int,
                off,
                l,
            ) implies 0 < best@[l] <= off by {
            lemma_same_key(src@, pos as int, off, l);
            let p = pos - off;
            assert(list@.contains(p as usize));
            let k = choose|k: int| 0 <= k < list@.len() && list@[k] == p as usize;
            assert(k < lo);
            if k >= o {
                assert(lz::is_match(src@, pos as int, pos - list@[k], l));
            } else if max_len == 64 {
                assert(best@[l] > 0);
                if o < lo {
                    assert(list@[k] < list@[o as int]);
                }
            } else {
                assert(o > 0);
                assert(list@[o - 1] <= x0);
                if k < o - 1 {
                    assert(list@[k] < list@[o - 1]);
                }
                assert(false);
            }
        }
    }
    (best, max_len)
}

/// How many positions of the list come before `pos`.
fn first_from(list: &Vec<usize>, pos: usize) -> (lo: usize)
    requires
        forall|a: int, b: int| 0 <= a < b < list@.len() ==> #[trigger] list@[a] < #[trigger] list@[b],
    ensures
        lo <= list@.len(),
        forall|k: int| 0 <= k < list@.len() ==> (#[trigger] list@[k] < pos <==> k < lo),
{
    let mut lo: usize = 0;
    let mut hi: usize = list.len();
    while lo < hi
        invariant
            lo <= hi <= list@.len(),
            forall|a: int, b: int|
                0 <= a < b < list@.len() ==> #[trigger] list@[a] < #[trigger] list@[b],
            forall|k: int| 0 <= k < lo ==> #[trigger] list@[k] < pos,
            forall|k: int| hi <= k < list@.len() ==> #[trigger] list@[k] >= pos,
        decreases hi - lo,
    {
        let mid: usize = lo + (hi - lo) / 2;
        if list[mid] < pos {
            assert forall|k: int| 0 <= k < mid + 1 implies #[trigger] list@[k] < pos by {
                if k < mid {
                    assert(list@[k] < list@[mid as int]);
                }
            }
            lo = mid + 1;
        } else {
            assert forall|k: int| mid <= k < list@.len() implies #[trigger] list@[k] >= pos by {
                if k > mid {
                    assert(list@[mid as int] < list@[k]);
                }
            }
            hi = mid;
        }
    }
    lo
}

/// A match of three bytes has the prefix of its source.
proof fn lemma_same_key(src: Seq<u8>, pos: int, off: int, l: int)
    requires
        lz::is_match(src, pos, off, l),
        l >= 3,
    ensures
        key_of(src, pos - off) == key_of(src, pos),
        0 <= pos - off < src.len() - 3,
{
    assert(src[pos + 0] == src[pos + 0 - off]);
    assert(src[pos + 1] == src[pos + 1 - off]);
    assert(src[pos + 2] == src[pos + 2 - off]);
}

/// Equal bytes at `pos`, at most 65.
fn rle_length(src: &[u8], pos: usize) -> (x: usize)
    requires
        pos < src@.len(),
    ensures
        1 <= x <= 65,
        pos + x <= src@.len(),
        tsstream::same_from(src@, pos as int, x as int),
        x < 65 && pos + x < src@.len() ==> src@[pos + x] != src@[pos as int],
        x == equal_bytes(src@, pos as int, 1),
{
    let n: usize = src.len();
    let mut x: usize = 1;
    while x < LONGEST_RLE + 1 && x < n - pos && src[pos + x] == src[pos]
        invariant
            n == src@.len(),
            pos < n,
            1 <= x <= 65,
            pos + x <= n,
            tsstream::same_from(src@, pos as int, x as int),
            equal_bytes(src@, pos as int, x as int) == equal_bytes(src@, pos as int, 1),
        decreases 65 - x,
    {
        x += 1;
    }
    x
}

/// Offset of the nearest match of two bytes, or 0.
fn lz2_offset(src: &[u8], pos: usize) -> (off: usize)
    requires
        pos < src@.len(),
    ensures
        off > 0 ==> off <= 94 && pos + 2 < src@.len() && lz::is_match(src@, pos as int, off as int, 2),
        off == 0 && pos + 2 < src@.len() ==> forall|d: int|
            1 <= d <= 94 ==> !#[trigger] lz::is_match(src@, pos as int, d, 2),
        off == nearest_two(src@, pos as int),
{
    let n: usize = src.len();
    if n - pos <= LZ2_SIZE {
        return 0;
    }
    let mut off: usize = 1;
    while off <= LZ2_OFFSET && off <= pos
        invariant
            n == src@.len(),
            pos + 2 < n,
            1 <= off <= 95,
            forall|d: int| 1 <= d < off ==> !#[trigger] lz::is_match(src@, pos as int, d, 2),
        decreases 95 - off,
    {
        let j: usize = pos - off;
        if src[j] == src[pos] && src[j + 1] == src[pos + 1] {
            assert(lz::is_match(src@, pos as int, off as int, 2)) by {
                assert forall|k: int| 0 <= k < 2 implies #[trigger] src@[pos + k] == src@[pos + k - off] by {
                    if k == 0 {
                    } else {
                        assert(k == 1);
                    }
                }
            }
            proof {
                lemma_nearest(src@, pos as int, 2, 1, 94, off as int);
            }
            return off;
        }
        assert(!lz::is_match(src@, pos as int, off as int, 2)) by {
            if lz::is_match(src@, pos as int, off as int, 2) {
                assert(src@[pos + 0] == src@[pos + 0 - off]);
                assert(src@[pos + 1] == src@[pos + 1 - off]);
            }
        }
        off += 1;
    }
    proof {
        assert forall|d: int| 1 <= d <= 94 implies !#[trigger] lz::is_match(
            src@,
            pos as int,
            d,
            2,
        ) by {}
        lemma_nearest(src@, pos as int, 2, 1, 94, 0);
    }
    0
}

/// `run` zeros stand at `pos`.
fn zerorun_at(src: &[u8], pos: usize, run: usize) -> (r: bool)
    requires
        pos < src@.len(),
        1 <= run <= 256,
    ensures
        r == (pos + run <= src@.len() && src@[pos as int] == 0 && tsstream::same_from(
            src@,
            pos as int,
            run as int,
        )),
{
    let n: usize = src.len();
    if n - pos < run {
        return false;
    }
    let mut x: usize = 0;
    while x < run
        invariant
            n == src@.len(),
            pos + run <= n,
            x <= run,
            forall|j: int| pos <= j < pos + x ==> #[trigger] src@[j] == 0,
        decreases run - x,
    {
        if src[pos + x] != 0 {
            assert(src@[pos + x] != 0);
            return false;
        }
        x += 1;
    }
    true
}

// ---------------------------------------------------------------------------
// Slots
// ---------------------------------------------------------------------------
/// One token at most for every length.
type Slots = Vec<Option<TsTok>>;

spec fn slot_ok(src: Seq<u8>, p: int, run: int, rich: bool, size: int, slot: Option<TsTok>) -> bool {
    slot matches Some(t) ==> ts_offered(src, p, run, t) && is_choice(src, p, rich, t)
        && tsstream::ts_len(t, run) == size
}

spec fn slots_ok_at(src: Seq<u8>, p: int, run: int, rich: bool, slots: Seq<Option<TsTok>>) -> bool {
    &&& slots.len() == 257
    &&& forall|size: int| 0 <= size < 257 ==> slot_ok(src, p, run, rich, size, #[trigger] slots[size])
}

/// The slot holds a token that costs no more.
spec fn slot_le(slots: Seq<Option<TsTok>>, size: int, cost: int) -> bool {
    &&& 0 <= size < slots.len()
    &&& slots[size] is Some
    &&& tspath::cost_of(slots[size]->0) <= cost
}

/// No slot has become dearer.
spec fn no_dearer(a: Seq<Option<TsTok>>, b: Seq<Option<TsTok>>) -> bool {
    &&& a.len() == b.len()
    &&& forall|k: int|
        0 <= k < a.len() && a[k] is Some ==> (#[trigger] b[k]) is Some && tspath::cost_of(b[k]->0)
            <= tspath::cost_of(a[k]->0)
}

/// Puts a token into the slot of its length, which holds none that is cheaper.
fn put(slots: &mut Slots, size: usize, t: TsTok, Ghost(src): Ghost<Seq<u8>>, Ghost(p): Ghost<int>, Ghost(
    run,
): Ghost<int>, Ghost(rich): Ghost<bool>)
    requires
        slots_ok_at(src, p, run, rich, old(slots)@),
        ts_offered(src, p, run, t),
        is_choice(src, p, rich, t),
        tsstream::ts_len(t, run) == size,
        size < 257,
        old(slots)@[size as int] matches Some(o) ==> tspath::cost_of(t) <= tspath::cost_of(o),
    ensures
        slots_ok_at(src, p, run, rich, final(slots)@),
        final(slots)@ == old(slots)@.update(size as int, Some(t)),
        no_dearer(old(slots)@, final(slots)@),
{
    let ghost s0 = slots@;
    slots.set(size, Some(t));
    assert forall|k: int| 0 <= k < 257 implies slot_ok(src, p, run, rich, k, #[trigger] slots@[k]) by {
        if k != size {
            assert(slots@[k] == s0[k]);
        }
    }
}

/// The matches of three bytes and more that the slots must account for.
spec fn matches_done(src: Seq<u8>, i: int, rle_cap: int, slots: Seq<Option<TsTok>>) -> bool {
    forall|size: int, off: int|
        3 <= size <= 64 && size > rle_cap && 1 <= off < 32767 && off < i && #[trigger] lz::is_match(
            src,
            i,
            off,
            size,
        ) ==> slot_le(
            slots,
            size,
            tspath::cost_of(TsTok::Lz { size: size as usize, offset: off as usize }),
        )
}

/// The same of the matches of the plain search.
spec fn plain_done(src: Seq<u8>, i: int, slots: Seq<Option<TsTok>>) -> bool {
    forall|t: TsTok| #[trigger]
        is_plain(src, i, t) ==> (t matches TsTok::Lz { size, offset } && size <= 64
            && slots[size as int] == Some(t))
}

/// Matches at `i` that are longer than the run there.
#[verifier::rlimit(40)]
fn lz_slots(pa: &PrefixArray, src: &[u8], i: usize, rle_cap: usize, rich: bool, slots: &mut Slots, Ghost(
    run,
): Ghost<int>)
    requires
        src@.len() <= MAX_INPUT,
        pa.holds(src@, src@.len() - 3),
        i < src@.len(),
        1 <= rle_cap <= 64,
        run_at(src@, i as int, rle_cap as int),
        rle_cap < 64 ==> !run_at(src@, i as int, rle_cap + 1),
        rle_cap == longest_run(src@, i as int),
        slots_ok_at(src@, i as int, run, rich, old(slots)@),
        forall|k: int| 0 <= k < 257 ==> #[trigger] old(slots)@[k] is None,
    ensures
        slots_ok_at(src@, i as int, run, rich, final(slots)@),
        forall|k: int| 0 <= k <= rle_cap ==> #[trigger] final(slots)@[k] is None,
        forall|k: int| 0 <= k < 257 ==> ((#[trigger] final(slots)@[k]) matches Some(t) ==> t is Lz),
        rich && rle_cap < 63 ==> matches_done(src@, i as int, rle_cap as int, final(slots)@),
        !rich ==> plain_done(src@, i as int, final(slots)@),
        forall|k: int|
            0 <= k < 257 ==> #[trigger] final(slots)@[k] == match_for(src@, i as int, rich, k),
{
    if rle_cap >= LONGEST_LONG_LZ - 1 {
        return ;
    }
    proof {
        lemma_short_run(src@, i as int, rle_cap as int);
    }
    let minlz: usize = if rle_cap + 1 > MIN_LZ {
        rle_cap + 1
    } else {
        MIN_LZ
    };
    if rich {
        let (best, max_len) = lz_per_length(pa, src, i, minlz);
        let mut size: usize = max_len;
        while size >= minlz
            invariant
                src@.len() <= MAX_INPUT,
                i < src@.len(),
                size <= max_len <= 64,
                3 <= minlz <= 64,
                rle_cap < minlz,
                rich,
                !run_at(src@, i as int, 65),
                !run_at(src@, i as int, 63),
                best@.len() == 65,
                forall|l: int|
                    minlz <= l <= 64 && #[trigger] best@[l] > 0 ==> found_ok(
                        src@,
                        i as int,
                        l,
                        best@[l] as int,
                    ) && l <= max_len && best@[l] < i && best@[l] < 32767,
                slots_ok_at(src@, i as int, run, rich, slots@),
                forall|k: int| 0 <= k <= size || k <= rle_cap ==> 0 <= k < 257 ==> (#[trigger] slots@[k]) is None,
                forall|k: int| 0 <= k < 257 ==> ((#[trigger] slots@[k]) matches Some(t) ==> t is Lz),
                forall|l: int|
                    size < l <= max_len && minlz <= l && best@[l] > 0 ==> #[trigger] slots@[l] == Some(
                        TsTok::Lz { size: l as usize, offset: best@[l] },
                    ),
                forall|l: int|
                    0 <= l < 257 && (l > max_len || minlz <= l && size < l && best@[l] == 0)
                        ==> #[trigger] slots@[l] is None,
            decreases size,
        {
            let offset: usize = best[size];
            if offset > 0 {
                assert(found_ok(src@, i as int, size as int, best@[size as int] as int));
                let t: TsTok = TsTok::Lz { size, offset };
                assert(tsstream::ts_ok(src@, i as int, t, run));
                put(slots, size, t, Ghost(src@), Ghost(i as int), Ghost(run), Ghost(rich));
            }
            size -= 1;
        }
        proof {
            assert forall|s: int, off: int|
                3 <= s <= 64 && s > rle_cap && 1 <= off < 32767 && off < i && #[trigger] lz::is_match(
                    src@,
                    i as int,
                    off,
                    s,
                ) implies slot_le(
                slots@,
                s,
                tspath::cost_of(TsTok::Lz { size: s as usize, offset: off as usize }),
            ) by {
                assert(0 < best@[s] <= off);
                assert(slots@[s] == Some(TsTok::Lz { size: s as usize, offset: best@[s] }));
            }
            assert forall|k: int| 0 <= k < 257 implies #[trigger] slots@[k] == match_for(
                src@,
                i as int,
                rich,
                k,
            ) by {
                if minlz <= k <= 64 {
                    assert(best@[k] >= 0);
                    let off = best@[k] as int;
                    assert forall|x: int|
                        1 <= x <= rich_reach(i as int) && (off == 0 || x < off)
                        implies !#[trigger] lz::is_match(src@, i as int, x, k) by {
                        if lz::is_match(src@, i as int, x, k) {
                            assert(0 < best@[k] <= x);
                        }
                    }
                    if off > 0 {
                        assert(found_ok(src@, i as int, k, off));
                    }
                    lemma_nearest(src@, i as int, k, 1, rich_reach(i as int), off);
                }
            }
        }
    } else {
        let (len, offset) = lz_best(pa, src, i, minlz);
        let mut size: usize = len;
        while size >= MIN_LZ && size > rle_cap
            invariant
                src@.len() <= MAX_INPUT,
                i < src@.len(),
                size <= len,
                rle_cap <= 64,
                len > 0 ==> offset < i && offset < 32767,
                !run_at(src@, i as int, 65),
                !run_at(src@, i as int, 63),
                found_ok(src@, i as int, len as int, offset as int),
                !rich,
                rle_cap < 63,
                rle_cap == longest_run(src@, i as int),
                (len as int, offset as int) == plain_match(
                    src@,
                    i as int,
                    least_match(rle_cap as int),
                ),
                forall|l: int|
                    size < l <= len && 3 <= l && rle_cap < l ==> #[trigger] slots@[l] == Some(
                        TsTok::Lz { size: l as usize, offset },
                    ),
                forall|l: int| 0 <= l < 257 && l > len ==> #[trigger] slots@[l] is None,
                slots_ok_at(src@, i as int, run, rich, slots@),
                forall|k: int| 0 <= k <= size || k <= rle_cap ==> 0 <= k < 257 ==> (#[trigger] slots@[k]) is None,
                forall|k: int| 0 <= k < 257 ==> ((#[trigger] slots@[k]) matches Some(t) ==> t is Lz),
            decreases size,
        {
            proof {
                zxdp::lemma_shorter_match(
                    src@,
                    i as int,
                    offset as int,
                    len as int,
                    size as int,
                );
            }
            let t: TsTok = TsTok::Lz { size, offset };
            assert(tsstream::ts_ok(src@, i as int, t, run));
            put(slots, size, t, Ghost(src@), Ghost(i as int), Ghost(run), Ghost(rich));
            size -= 1;
        }
        assert forall|t: TsTok| #[trigger] is_plain(src@, i as int, t) implies (t matches TsTok::Lz {
            size,
            offset,
        } && size <= 64 && slots@[size as int] == Some(t)) by {
            match t {
                TsTok::Lz { size: l, offset: o } => {
                    assert(slots@[l as int] == Some(TsTok::Lz { size: l, offset }));
                },
                _ => {},
            }
        }
        assert forall|k: int| 0 <= k < 257 implies #[trigger] slots@[k] == match_for(
            src@,
            i as int,
            rich,
            k,
        ) by {
            if rle_cap < k <= len && 3 <= k {
                assert(slots@[k] == Some(TsTok::Lz { size: k as usize, offset }));
            }
        }
    }
}

/// A run that ends early has no longer one at its place.
proof fn lemma_short_run(src: Seq<u8>, i: int, cap: int)
    requires
        1 <= cap < 63,
        0 <= i,
        run_at(src, i, cap),
        !run_at(src, i, cap + 1),
    ensures
        forall|len: int| cap < len ==> !#[trigger] run_at(src, i, len),
{
    assert forall|len: int| cap < len implies !#[trigger] run_at(src, i, len) by {
        if run_at(src, i, len) {
            assert(run_at(src, i, cap + 1));
        }
    }
}

/// Every token on offer has a slot with one that costs no more; with `rich`
/// matches of three bytes and more count too.
spec fn slots_cover(src: Seq<u8>, i: int, run: int, rich: bool, slots: Seq<Option<TsTok>>) -> bool {
    forall|t: TsTok| #[trigger]
        ts_offered(src, i, run, t) && is_choice(src, i, rich, t) ==> slot_le(
            slots,
            tsstream::ts_len(t, run),
            tspath::cost_of(t),
        )
}

proof fn lemma_beats_literal(src: Seq<u8>, i: int, run: int, t: TsTok, size: usize)
    requires
        tsstream::ts_ok(src, i, t, run),
        tsstream::ts_len(t, run) == size,
        1 <= size <= 31,
    ensures
        tspath::cost_of(t) <= tspath::cost_of(TsTok::Literal { size }),
{
}

/// What the steps of filling the slots give together.
proof fn lemma_slots_cover(
    src: Seq<u8>,
    i: int,
    run: int,
    rich: bool,
    rle_size: int,
    s1: Seq<Option<TsTok>>,
    s2: Seq<Option<TsTok>>,
    s3: Seq<Option<TsTok>>,
    s4: Seq<Option<TsTok>>,
    s5: Seq<Option<TsTok>>,
)
    requires
        0 <= i < src.len(),
        2 <= run <= 256,
        1 <= rle_size <= 65,
        run_at(src, i, rle_size),
        rle_size < 65 ==> !run_at(src, i, rle_size + 1),
        s1.len() == 257,
        no_dearer(s1, s5),
        no_dearer(s2, s5),
        no_dearer(s3, s5),
        no_dearer(s4, s5),
        slots_ok_at(src, i, run, rich, s5),
        rich && rle_size < 63 ==> matches_done(src, i, rle_size, s1),
        !rich ==> plain_done(src, i, s1),
        forall|k: int|
            (if rle_size > 64 {
                64int
            } else {
                2int
            }) <= k <= rle_size && k <= 64 ==> #[trigger] s2[k] == Some(TsTok::Rle { size: k as usize }),
        (exists|d: int| 1 <= d <= 94 && #[trigger] lz::is_match(src, i, d, 2)) && i + 2 < src.len()
            ==> s3[2] is Some && s3[2]->0 is Lz2,
        i + run <= src.len() && src[i] == 0 && tsstream::same_from(src, i, run) ==> s4[run] == Some(
            TsTok::Zerorun,
        ),
        forall|k: int| 1 <= k <= 31 && i + k <= src.len() ==> #[trigger] s5[k] is Some,
    ensures
        slots_cover(src, i, run, rich, s5),
{
    assert forall|t: TsTok| #[trigger] ts_offered(src, i, run, t) && is_choice(src, i, rich, t) implies slot_le(
        s5,
        tsstream::ts_len(t, run),
        tspath::cost_of(t),
    ) by {
        match t {
            TsTok::Literal { size } => {
                assert(s5[size as int] is Some);
                assert(slot_ok(src, i, run, rich, size as int, s5[size as int]));
                lemma_beats_literal(src, i, run, s5[size as int]->0, size);
            },
            TsTok::Rle { size } => {
                assert(run_at(src, i, size as int));
                if size > rle_size {
                    assert(run_at(src, i, rle_size + 1));
                }
                assert(s2[size as int] == Some(TsTok::Rle { size }));
                assert(s5[size as int] is Some);
            },
            TsTok::Lz2 { offset } => {
                assert(lz::is_match(src, i, offset as int, 2));
                assert(s3[2] is Some);
                assert(s5[2] is Some);
            },
            TsTok::Zerorun => {
                assert(s4[run] is Some);
                assert(s5[run] is Some);
            },
            TsTok::Lz { size, offset } => {
                if size <= rle_size {
                    assert(s2[size as int] == Some(TsTok::Rle { size }));
                    assert(s5[size as int] is Some);
                } else {
                    if run_at(src, i, size as int) {
                        assert(run_at(src, i, rle_size + 1));
                    }
                    if rle_size >= 63 {
                        assert(run_at(src, i, 63));
                    }
                    assert(lz::is_match(src, i, offset as int, size as int));
                    if !rich {
                        assert(is_plain(src, i, t));
                    }
                    assert(slot_le(s1, size as int, tspath::cost_of(t)));
                    assert(s5[size as int] is Some);
                }
            },
        }
    }
}

proof fn lemma_no_dearer(a: Seq<Option<TsTok>>, b: Seq<Option<TsTok>>, c: Seq<Option<TsTok>>)
    requires
        no_dearer(a, b),
        no_dearer(b, c),
    ensures
        no_dearer(a, c),
{
    assert forall|k: int| 0 <= k < a.len() && a[k] is Some implies (#[trigger] c[k]) is Some
        && tspath::cost_of(c[k]->0) <= tspath::cost_of(a[k]->0) by {
        assert(b[k] is Some);
    }
}

/// The tokens at `i`, one for every length that has any: matches, then runs,
/// the match of two bytes, the run of zeros, and literals for what is left.
#[verifier::rlimit(60)]
fn slots_at(pa: &PrefixArray, src: &[u8], i: usize, run: usize, rich: bool) -> (slots: Slots)
    requires
        src@.len() <= MAX_INPUT,
        pa.holds(src@, src@.len() - 3),
        i < src@.len(),
        2 <= run <= 256,
    ensures
        slots_ok_at(src@, i as int, run as int, rich, slots@),
        slots_cover(src@, i as int, run as int, rich, slots@),
        slots@[1] is Some,
        forall|k: int|
            0 <= k < 257 ==> #[trigger] slots@[k] == token_for(src@, i as int, run as int, rich, k),
{
    let n: usize = src.len();
    let mut slots: Slots = Vec::with_capacity(257);
    let mut z: usize = 0;
    while z < 257
        invariant
            z <= 257,
            slots@.len() == z,
            forall|k: int| 0 <= k < z ==> #[trigger] slots@[k] is None,
        decreases 257 - z,
    {
        slots.push(None);
        z += 1;
    }
    let rle_size: usize = rle_length(src, i);
    let rle_cap: usize = if rle_size < LONGEST_RLE {
        rle_size
    } else {
        LONGEST_RLE
    };
    assert(rle_cap == longest_run(src@, i as int));
    lz_slots(pa, src, i, rle_cap, rich, &mut slots, Ghost(run as int));
    let ghost s1 = slots@;
    let mut size: usize = rle_cap;
    let least: usize = if rle_size > LONGEST_RLE {
        LONGEST_RLE
    } else {
        MIN_RLE
    };
    while size >= least
        invariant
            n == src@.len(),
            i < n,
            2 <= least,
            rle_size > 64 ==> least == 64,
            rle_size <= 64 ==> least == 2 && !run_at(src@, i as int, 65),
            size <= rle_cap <= 64,
            rle_cap <= rle_size,
            i + rle_size <= n,
            tsstream::same_from(src@, i as int, rle_size as int),
            slots_ok_at(src@, i as int, run as int, rich, slots@),
            no_dearer(s1, slots@),
            forall|k: int| 0 <= k <= size ==> #[trigger] slots@[k] is None,
            forall|k: int|
                0 <= k < 257 ==> ((#[trigger] slots@[k]) matches Some(t) ==> t is Lz || t is Rle),
            forall|k: int|
                size < k <= rle_cap && least <= k ==> #[trigger] slots@[k] == Some(
                    TsTok::Rle { size: k as usize },
                ),
            forall|k: int|
                0 <= k < 257 && !(size < k <= rle_cap && least <= k) ==> #[trigger] slots@[k] == s1[k],
        decreases size,
    {
        let ghost before = slots@;
        let t: TsTok = TsTok::Rle { size };
        assert(tsstream::ts_ok(src@, i as int, t, run as int));
        put(&mut slots, size, t, Ghost(src@), Ghost(i as int), Ghost(run as int), Ghost(rich));
        proof {
            lemma_no_dearer(s1, before, slots@);
        }
        size -= 1;
    }
    let ghost s2 = slots@;
    assert(forall|k: int|
        0 <= k < 257 ==> #[trigger] s2[k] == if has_run(src@, i as int, k) {
            Some(TsTok::Rle { size: k as usize })
        } else {
            s1[k]
        });
    let off: usize = lz2_offset(src, i);
    if off > 0 {
        let t: TsTok = TsTok::Lz2 { offset: off };
        assert(slot_ok(src@, i as int, run as int, rich, 2, slots@[2]));
        put(&mut slots, LZ2_SIZE, t, Ghost(src@), Ghost(i as int), Ghost(run as int), Ghost(rich));
    }
    let ghost s3 = slots@;
    if zerorun_at(src, i, run) {
        assert(slot_ok(src@, i as int, run as int, rich, run as int, slots@[run as int]));
        put(&mut slots, run, TsTok::Zerorun, Ghost(src@), Ghost(i as int), Ghost(run as int), Ghost(rich));
    }
    let ghost s4 = slots@;
    let lit_max: usize = if n - i < LONGEST_LITERAL {
        n - i
    } else {
        LONGEST_LITERAL
    };
    let mut size: usize = 1;
    while size <= lit_max
        invariant
            n == src@.len(),
            i < n,
            1 <= size,
            lit_max <= 31,
            i + lit_max <= n,
            slots_ok_at(src@, i as int, run as int, rich, slots@),
            no_dearer(s4, slots@),
            forall|k: int| 1 <= k < size ==> #[trigger] slots@[k] is Some,
            s4.len() == 257,
            forall|k: int|
                0 <= k < 257 ==> #[trigger] slots@[k] == if s4[k] is None && 1 <= k < size {
                    Some(TsTok::Literal { size: k as usize })
                } else {
                    s4[k]
                },
        decreases lit_max + 1 - size,
    {
        if slots[size].is_none() {
            let ghost before = slots@;
            put(
                &mut slots,
                size,
                TsTok::Literal { size },
                Ghost(src@),
                Ghost(i as int),
                Ghost(run as int),
                Ghost(rich),
            );
            proof {
                lemma_no_dearer(s4, before, slots@);
            }
        }
        size += 1;
    }
    proof {
        let s5 = slots@;
        lemma_no_dearer(s3, s4, s5);
        lemma_no_dearer(s2, s3, s5);
        lemma_no_dearer(s1, s2, s5);
        lemma_slots_cover(src@, i as int, run as int, rich, rle_size as int, s1, s2, s3, s4, s5);
        assert forall|k: int| 0 <= k < 257 implies #[trigger] s5[k] == token_for(
            src@,
            i as int,
            run as int,
            rich,
            k,
        ) by {
            assert(s1[k] == match_for(src@, i as int, rich, k));
            assert(s2[k] == if has_run(src@, i as int, k) {
                Some(TsTok::Rle { size: k as usize })
            } else {
                s1[k]
            });
            assert(s3[k] == if k == 2 && off > 0 {
                Some(TsTok::Lz2 { offset: off })
            } else {
                s2[k]
            });
        }
    }
    slots
}

// ---------------------------------------------------------------------------
// Graph
// ---------------------------------------------------------------------------
/// The tokens of a graph are on offer, and every token that is compared has one
/// as good in it.
pub open spec fn graph_of(src: Seq<u8>, run: int, rich: bool, g: Seq<Vec<TsTok>>) -> bool {
    &&& tspath::graph_ok(src, g, run)
    &&& forall|v: int, k: int|
        0 <= v < g.len() && 0 <= k < g[v]@.len() ==> ts_offered(src, v, run, #[trigger] g[v]@[k])
            && is_choice(src, v, rich, g[v]@[k])
    &&& forall|v: int, t: TsTok|
        0 <= v < g.len() && #[trigger] ts_offered(src, v, run, t) && is_choice(src, v, rich, t)
            ==> tspath::has_as_good(g[v]@, t, run)
}

/// The tokens in the slots, from short to long.
fn row_of(slots: &Slots, Ghost(src): Ghost<Seq<u8>>, Ghost(i): Ghost<int>, Ghost(run): Ghost<int>, Ghost(
    rich,
): Ghost<bool>) -> (row: Vec<TsTok>)
    requires
        slots_ok_at(src, i, run, rich, slots@),
        slots_cover(src, i, run, rich, slots@),
        slots@[1] is Some,
        forall|k: int| 0 <= k < 257 ==> #[trigger] slots@[k] == token_for(src, i, run, rich, k),
        2 <= run,
    ensures
        tspath::row_ok(src, i, run, row@),
        forall|k: int|
            0 <= k < row@.len() ==> ts_offered(src, i, run, #[trigger] row@[k]) && is_choice(
                src,
                i,
                rich,
                row@[k],
            ),
        forall|t: TsTok| #[trigger]
            ts_offered(src, i, run, t) && is_choice(src, i, rich, t) ==> tspath::has_as_good(row@, t, run),
        row@ == tokens_at(src, i, run, rich, 257),
{
    let mut row: Vec<TsTok> = Vec::new();
    let mut size: usize = 1;
    assert(row@ =~= tokens_at(src, i, run, rich, 1));
    while size < 257
        invariant
            1 <= size <= 257,
            slots_ok_at(src, i, run, rich, slots@),
            slots@[1] is Some,
            forall|k: int| 0 <= k < 257 ==> #[trigger] slots@[k] == token_for(src, i, run, rich, k),
            row@ == tokens_at(src, i, run, rich, size as int),
            size > 1 ==> row@.len() > 0 && tsstream::ts_len(row@[0], run) == 1,
            size == 1 ==> row@.len() == 0,
            forall|k: int|
                0 <= k < row@.len() ==> ts_offered(src, i, run, #[trigger] row@[k]) && is_choice(
                    src,
                    i,
                    rich,
                    row@[k],
                ),
            forall|s: int|
                1 <= s < size && (#[trigger] slots@[s]) is Some ==> row@.contains(slots@[s]->0),
        decreases 257 - size,
    {
        match slots[size] {
            None => {},
            Some(t) => {
                let ghost r0 = row@;
                assert(slot_ok(src, i, run, rich, size as int, slots@[size as int]));
                row.push(t);
                proof {
                    assert(row@[r0.len() as int] == t);
                    assert forall|s: int| 1 <= s < size + 1 && (#[trigger] slots@[s]) is Some implies row@.contains(
                    slots@[s]->0) by {
                        if s < size {
                            let k = choose|k: int| 0 <= k < r0.len() && r0[k] == slots@[s]->0;
                            assert(row@[k] == slots@[s]->0);
                        }
                    }
                }
            },
        }
        size += 1;
    }
    proof {
        assert forall|t: TsTok| #[trigger] ts_offered(src, i, run, t) && is_choice(src, i, rich, t) implies tspath::has_as_good(
        row@, t, run) by {
            let s = tsstream::ts_len(t, run);
            assert(slot_le(slots@, s, tspath::cost_of(t)));
            assert(slot_ok(src, i, run, rich, s, slots@[s]));
            assert(row@.contains(slots@[s]->0));
        }
    }
    row
}

/// The graph of all tokens; without `rich` the matches of three bytes and more
/// at a position share the offset of the best one.
pub fn token_graph(src: &[u8], run: usize, rich: bool) -> (g: Vec<Vec<TsTok>>)
    requires
        src@.len() <= MAX_INPUT,
        2 <= run <= 256,
    ensures
        graph_of(src@, run as int, rich, g@),
        forall|v: int|
            0 <= v < g@.len() ==> (#[trigger] g@[v])@ == tokens_at(src@, v, run as int, rich, 257),
{
    let n: usize = src.len();
    let pa: PrefixArray = PrefixArray::build(src);
    let mut g: Vec<Vec<TsTok>> = Vec::with_capacity(n);
    let mut i: usize = 0;
    while i < n
        invariant
            n == src@.len(),
            n <= MAX_INPUT,
            i <= n,
            2 <= run <= 256,
            pa.holds(src@, src@.len() - 3),
            g@.len() == i,
            forall|v: int|
                0 <= v < i ==> (#[trigger] g@[v])@ == tokens_at(src@, v, run as int, rich, 257),
            forall|v: int| 0 <= v < i ==> #[trigger] tspath::row_ok(src@, v, run as int, g@[v]@),
            forall|v: int, k: int|
                0 <= v < i && 0 <= k < g@[v]@.len() ==> ts_offered(
                    src@,
                    v,
                    run as int,
                    #[trigger] g@[v]@[k],
                ) && is_choice(src@, v, rich, g@[v]@[k]),
            forall|v: int, t: TsTok|
                0 <= v < i && #[trigger] ts_offered(src@, v, run as int, t) && is_choice(src@, v, rich, t)
                    ==> tspath::has_as_good(g@[v]@, t, run as int),
        decreases n - i,
    {
        let slots: Slots = slots_at(&pa, src, i, run, rich);
        g.push(row_of(&slots, Ghost(src@), Ghost(i as int), Ghost(run as int), Ghost(rich)));
        i += 1;
    }
    g
}

/// A way through the graph is a parse by tokens on offer.
proof fn lemma_way_offered(src: Seq<u8>, run: int, rich: bool, g: Seq<Vec<TsTok>>, v: int, s: Seq<TsTok>)
    requires
        graph_of(src, run, rich, g),
        tspath::way(g, run, v, s),
    ensures
        offered_way(src, run, rich, v, s),
    decreases s.len(),
{
    if s.len() > 0 {
        let k = choose|k: int| 0 <= k < g[v]@.len() && g[v]@[k] == s[0];
        assert(ts_offered(src, v, run, g[v]@[k]));
        lemma_way_offered(src, run, rich, g, v + tsstream::ts_len(s[0], run), s.skip(1));
    }
}

/// A parse by tokens that are compared has a way as good.
proof fn lemma_as_good(src: Seq<u8>, run: int, rich: bool, g: Seq<Vec<TsTok>>, v: int, q: Seq<TsTok>) -> (r: Seq<
    TsTok,
>)
    requires
        graph_of(src, run, rich, g),
        offered_way(src, run, rich, v, q),
        2 <= run,
        0 <= v,
    ensures
        tspath::way(g, run, v, r),
        tspath::way_cost(r) <= tspath::way_cost(q),
    decreases q.len(),
{
    if q.len() == 0 {
        q
    } else {
        let rest = lemma_as_good(src, run, rich, g, v + tsstream::ts_len(q[0], run), q.skip(1));
        assert(tspath::has_as_good(g[v]@, q[0], run));
        let j = choose|j: int|
            0 <= j < g[v]@.len() && tsstream::ts_len(#[trigger] g[v]@[j], run) == tsstream::ts_len(
                q[0],
                run,
            ) && tspath::cost_of(g[v]@[j]) <= tspath::cost_of(q[0]);
        let r = seq![g[v]@[j]] + rest;
        assert(r.skip(1) =~= rest);
        assert(g[v]@.contains(g[v]@[j]));
        r
    }
}

/// The tokens of a parse stand one behind the other.
proof fn lemma_parse_toks(src: Seq<u8>, run: int, toks: Seq<TsTok>, k: int)
    requires
        offered_way(src, run, true, 0, toks),
        0 <= k <= toks.len(),
    ensures
        offered_way(src, run, true, tsstream::ts_pos(toks, run, k), toks.skip(k)),
        forall|j: int| 0 <= j < k ==> #[trigger] tsstream::ts_fits(src, toks, run, j),
    decreases k,
{
    if k == 0 {
        assert(toks.skip(0) =~= toks);
    } else {
        lemma_parse_toks(src, run, toks, k - 1);
        assert(toks.skip(k - 1).skip(1) =~= toks.skip(k));
        assert(toks.skip(k - 1)[0] == toks[k - 1]);
    }
}

/// The cheapest tokens for the input.
pub fn shortest_path(src: &[u8], run: usize, rich: bool) -> (toks: Vec<TsTok>)
    requires
        src@.len() <= MAX_INPUT,
        2 <= run <= 256,
    ensures
        ts_parse(src@, run as int, rich, toks@),
        tsstream::ts_toks_ok(src@, toks@, run as int),
        tsstream::ts_pos(toks@, run as int, toks@.len() as int) == src@.len(),
{
    let graph: Vec<Vec<TsTok>> = token_graph(src, run, rich);
    let toks: Vec<TsTok> = tspath::cheapest_tokens(src, run, &graph);
    proof {
        let r = run as int;
        assert(tspath::rows_of(graph@) =~= Seq::new(
            src@.len(),
            |v: int| tokens_at(src@, v, r, rich, 257),
        ));
        lemma_way_offered(src@, r, rich, graph@, 0, toks@);
        assert forall|q: Seq<TsTok>| #[trigger] offered_way(src@, r, rich, 0, q) implies tspath::way_cost(
            toks@,
        ) <= tspath::way_cost(q) by {
            let w = lemma_as_good(src@, r, rich, graph@, 0, q);
            assert(tspath::way(graph@, r, 0, w));
        }
        if !rich {
            lemma_fewer(src@, r, 0, toks@);
        }
        lemma_parse_toks(src@, r, toks@, toks@.len() as int);
    }
    toks
}

} // verus!
