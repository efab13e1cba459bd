//! Suffix arrays by prefix doubling, and the common prefixes of neighbours.
use crate::lz;
use vstd::prelude::*;

verus! {

/// Longest text.
pub const MAX_TEXT: usize = 0x7fff_fffe;

// ---------------------------------------------------------------------------
// Order of suffixes
// ---------------------------------------------------------------------------
/// The byte at `p`, above the end of the text.
pub open spec fn ch(d: Seq<u8>, p: int) -> int {
    if 0 <= p < d.len() {
        d[p] + 1
    } else {
        0
    }
}

/// The texts at `i` and at `j` have the same first `h` bytes.
pub open spec fn same_to(d: Seq<u8>, i: int, j: int, h: int) -> bool {
    forall|t: int| 0 <= t < h ==> #[trigger] ch(d, i + t) == ch(d, j + t)
}

/// The text at `i` comes before the text at `j` by one of the first `g` bytes.
pub open spec fn lt_to(d: Seq<u8>, i: int, j: int, g: int) -> bool {
    exists|h: int| 0 <= h < g && #[trigger] same_to(d, i, j, h) && ch(d, i + h) < ch(d, j + h)
}

/// The suffix at `i` comes before the suffix at `j`.
pub open spec fn suf_lt(d: Seq<u8>, i: int, j: int) -> bool {
    exists|h: int| 0 <= h && #[trigger] same_to(d, i, j, h) && ch(d, i + h) < ch(d, j + h)
}

/// The suffixes in order.
pub open spec fn is_suffix_array(d: Seq<u8>, sa: Seq<u32>) -> bool {
    &&& sa.len() == d.len()
    &&& forall|k: int| 0 <= k < sa.len() ==> #[trigger] sa[k] < d.len()
    &&& forall|a: int, b: int|
        #![trigger sa[a], sa[b]]
        0 <= a < b < sa.len() ==> suf_lt(d, sa[a] as int, sa[b] as int)
    &&& forall|i: int| 0 <= i < d.len() ==> #[trigger] has(sa, i)
}

pub open spec fn has(s: Seq<u32>, x: int) -> bool {
    exists|k: int| 0 <= k < s.len() && #[trigger] s[k] == x
}

pub proof fn lemma_suf_asym(d: Seq<u8>, i: int, j: int)
    requires
        suf_lt(d, i, j),
    ensures
        !suf_lt(d, j, i),
        i != j,
{
    let h = choose|h: int|
        0 <= h && #[trigger] same_to(d, i, j, h) && ch(d, i + h) < ch(d, j + h);
    if suf_lt(d, j, i) {
        let k = choose|k: int|
            0 <= k && #[trigger] same_to(d, j, i, k) && ch(d, j + k) < ch(d, i + k);
        if k < h {
            assert(ch(d, i + k) == ch(d, j + k));
        } else if h < k {
            assert(ch(d, j + h) == ch(d, i + h));
        }
    }
}

/// A suffix between two shares their common prefix.
pub proof fn lemma_between(d: Seq<u8>, a: int, b: int, c: int, h: int)
    requires
        suf_lt(d, a, b),
        b == c || suf_lt(d, b, c),
        same_to(d, a, c, h),
    ensures
        same_to(d, a, b, h),
{
    if b != c {
        let x = choose|x: int|
            0 <= x && #[trigger] same_to(d, a, b, x) && ch(d, a + x) < ch(d, b + x);
        if x < h {
            let y = choose|y: int|
                0 <= y && #[trigger] same_to(d, b, c, y) && ch(d, b + y) < ch(d, c + y);
            assert(ch(d, a + x) == ch(d, c + x));
            if y < x {
                assert(ch(d, a + y) == ch(d, b + y));
                assert(ch(d, a + y) == ch(d, c + y));
            } else if y > x {
                assert(ch(d, b + x) == ch(d, c + x));
            }
            assert(false);
        }
        assert forall|t: int| 0 <= t < h implies #[trigger] ch(d, a + t) == ch(d, b + t) by {}
    }
}

/// A common prefix lies within the text.
pub proof fn lemma_same_inside(d: Seq<u8>, i: int, j: int, h: int)
    requires
        same_to(d, i, j, h),
        0 <= i < d.len(),
        0 <= j < d.len(),
        i != j,
        h >= 0,
    ensures
        i + h <= d.len(),
        j + h <= d.len(),
        forall|t: int| 0 <= t < h ==> #[trigger] d[i + t] == d[j + t],
{
    let n = d.len() as int;
    if i < j {
        if j + h > n {
            assert(ch(d, i + (n - j)) == ch(d, j + (n - j)));
        }
    } else {
        if i + h > n {
            assert(ch(d, i + (n - i)) == ch(d, j + (n - i)));
        }
    }
    assert forall|t: int| 0 <= t < h implies #[trigger] d[i + t] == d[j + t] by {
        assert(ch(d, i + t) == ch(d, j + t));
    }
}

proof fn lemma_same_double(d: Seq<u8>, i: int, j: int, g: int)
    requires
        g >= 0,
    ensures
        same_to(d, i, j, 2 * g) <==> same_to(d, i, j, g) && same_to(d, i + g, j + g, g),
{
    if same_to(d, i, j, 2 * g) {
        assert forall|t: int| 0 <= t < g implies #[trigger] ch(d, i + g + t) == ch(
            d,
            j + g + t,
        ) by {
            assert(ch(d, i + (g + t)) == ch(d, j + (g + t)));
        }
    }
    if same_to(d, i, j, g) && same_to(d, i + g, j + g, g) {
        assert forall|t: int| 0 <= t < 2 * g implies #[trigger] ch(d, i + t) == ch(d, j + t) by {
            if t >= g {
                assert(ch(d, i + g + (t - g)) == ch(d, j + g + (t - g)));
            }
        }
    }
}

proof fn lemma_lt_double(d: Seq<u8>, i: int, j: int, g: int)
    requires
        g >= 1,
    ensures
        lt_to(d, i, j, 2 * g) <==> lt_to(d, i, j, g) || (same_to(d, i, j, g) && lt_to(
            d,
            i + g,
            j + g,
            g,
        )),
{
    if lt_to(d, i, j, 2 * g) {
        let h = choose|h: int|
            0 <= h < 2 * g && #[trigger] same_to(d, i, j, h) && ch(d, i + h) < ch(d, j + h);
        if h >= g {
            assert(same_to(d, i, j, g));
            assert(same_to(d, i + g, j + g, h - g)) by {
                assert forall|t: int| 0 <= t < h - g implies #[trigger] ch(d, i + g + t) == ch(
                    d,
                    j + g + t,
                ) by {
                    assert(ch(d, i + (g + t)) == ch(d, j + (g + t)));
                }
            }
            assert(i + h == i + g + (h - g));
            assert(j + h == j + g + (h - g));
        }
    }
    if lt_to(d, i, j, g) {
        let h = choose|h: int|
            0 <= h < g && #[trigger] same_to(d, i, j, h) && ch(d, i + h) < ch(d, j + h);
        assert(same_to(d, i, j, h));
    }
    if same_to(d, i, j, g) && lt_to(d, i + g, j + g, g) {
        let h = choose|h: int|
            0 <= h < g && #[trigger] same_to(d, i + g, j + g, h) && ch(d, i + g + h) < ch(
                d,
                j + g + h,
            );
        assert(same_to(d, i, j, g + h)) by {
            assert forall|t: int| 0 <= t < g + h implies #[trigger] ch(d, i + t) == ch(d, j + t) by {
                if t >= g {
                    assert(ch(d, i + g + (t - g)) == ch(d, j + g + (t - g)));
                }
            }
        }
        assert(i + (g + h) == i + g + h);
        assert(j + (g + h) == j + g + h);
    }
}

/// Different suffixes differ within the text.
proof fn lemma_differ(d: Seq<u8>, i: int, j: int, g: int)
    requires
        0 <= i < d.len(),
        0 <= j < d.len(),
        g >= d.len(),
        same_to(d, i, j, g),
    ensures
        i == j,
{
    if i != j {
        lemma_same_inside(d, i, j, g);
    }
}

// ---------------------------------------------------------------------------
// Sorting
// ---------------------------------------------------------------------------
spec fn sorted_by(keys: Seq<u64>, s: Seq<u32>) -> bool {
    forall|a: int, b: int|
        #![trigger s[a], s[b]]
        0 <= a < b < s.len() ==> keys[s[a] as int] <= keys[s[b] as int]
}

/// `s` holds the numbers from `lo` to `hi`, each once.
spec fn numbers(s: Seq<u32>, lo: int, hi: int) -> bool {
    &&& s.len() == hi - lo
    &&& forall|k: int| 0 <= k < s.len() ==> lo <= #[trigger] s[k] < hi
    &&& forall|x: int| lo <= x < hi ==> #[trigger] has(s, x)
    &&& forall|a: int, b: int|
        #![trigger s[a], s[b]]
        0 <= a < b < s.len() ==> s[a] != s[b]
}

proof fn lemma_has_push(s: Seq<u32>, v: u32, x: int)
    requires
        has(s, x) || v == x,
    ensures
        has(s.push(v), x),
{
    if has(s, x) {
        let k = choose|k: int| 0 <= k < s.len() && #[trigger] s[k] == x;
        assert(s.push(v)[k] == x);
    } else {
        assert(s.push(v)[s.len() as int] == x);
    }
}

/// The numbers `a` below `mid` and `b` from it on, merged by their keys.
#[verifier::rlimit(40)]
fn merge(keys: &Vec<u64>, a: &Vec<u32>, b: &Vec<u32>, Ghost(lo): Ghost<int>, Ghost(mid): Ghost<int>, Ghost(hi): Ghost<int>) -> (out: Vec<u32>)
    requires
        0 <= lo <= mid <= hi <= keys@.len(),
        hi - lo <= MAX_TEXT,
        numbers(a@, lo, mid),
        numbers(b@, mid, hi),
        sorted_by(keys@, a@),
        sorted_by(keys@, b@),
    ensures
        numbers(out@, lo, hi),
        sorted_by(keys@, out@),
{
    let na: usize = a.len();
    let nb: usize = b.len();
    let mut out: Vec<u32> = Vec::with_capacity(na + nb);
    let mut i: usize = 0;
    let mut j: usize = 0;
    while i < na || j < nb
        invariant
            na == a@.len(),
            nb == b@.len(),
            i <= na,
            j <= nb,
            na + nb <= MAX_TEXT,
            0 <= lo <= mid <= hi <= keys@.len(),
            numbers(a@, lo, mid),
            numbers(b@, mid, hi),
            sorted_by(keys@, a@),
            sorted_by(keys@, b@),
            out@.len() == i + j,
            sorted_by(keys@, out@),
            forall|k: int| 0 <= k < out@.len() ==> lo <= #[trigger] out@[k] < hi,
            forall|k: int|
                0 <= k < out@.len() && #[trigger] out@[k] < mid ==> exists|l: int|
                    0 <= l < i && #[trigger] a@[l] == out@[k],
            forall|k: int|
                0 <= k < out@.len() && #[trigger] out@[k] >= mid ==> exists|l: int|
                    0 <= l < j && #[trigger] b@[l] == out@[k],
            forall|k: int, l: int|
                #![trigger out@[k], a@[l]]
                0 <= k < out@.len() && i <= l < na ==> keys@[out@[k] as int] <= keys@[a@[l] as int],
            forall|k: int, l: int|
                #![trigger out@[k], b@[l]]
                0 <= k < out@.len() && j <= l < nb ==> keys@[out@[k] as int] <= keys@[b@[l] as int],
            forall|l: int| 0 <= l < i ==> has(out@, #[trigger] a@[l] as int),
            forall|l: int| 0 <= l < j ==> has(out@, #[trigger] b@[l] as int),
            forall|x: int, y: int|
                #![trigger out@[x], out@[y]]
                0 <= x < y < out@.len() ==> out@[x] != out@[y],
        decreases na - i + (nb - j),
    {
        let ghost o0 = out@;
        let left: bool = j >= nb || (i < na && keys[a[i] as usize] <= keys[b[j] as usize]);
        if left {
            let v: u32 = a[i];
            out.push(v);
            proof {
                assert(lo <= a@[i as int] < mid);
                assert forall|k: int| 0 <= k < o0.len() implies o0[k] != v by {
                    if o0[k] < mid {
                        let l = choose|l: int| 0 <= l < i && #[trigger] a@[l] == o0[k];
                        assert(a@[l] != a@[i as int]);
                    }
                }
            }
            i += 1;
            proof {
                assert forall|l: int| 0 <= l < i implies has(out@, #[trigger] a@[l] as int) by {
                    lemma_has_push(o0, v, a@[l] as int);
                }
                assert forall|l: int| 0 <= l < j implies has(out@, #[trigger] b@[l] as int) by {
                    lemma_has_push(o0, v, b@[l] as int);
                }
            }
        } else {
            let v: u32 = b[j];
            out.push(v);
            proof {
                assert(mid <= b@[j as int] < hi);
                assert forall|k: int| 0 <= k < o0.len() implies o0[k] != v by {
                    if o0[k] >= mid {
                        let l = choose|l: int| 0 <= l < j && #[trigger] b@[l] == o0[k];
                        assert(b@[l] != b@[j as int]);
                    }
                }
            }
            j += 1;
            proof {
                assert forall|l: int| 0 <= l < i implies has(out@, #[trigger] a@[l] as int) by {
                    lemma_has_push(o0, v, a@[l] as int);
                }
                assert forall|l: int| 0 <= l < j implies has(out@, #[trigger] b@[l] as int) by {
                    lemma_has_push(o0, v, b@[l] as int);
                }
            }
        }
        proof {
            let last = o0.len() as int;
            assert forall|k: int|
                0 <= k < out@.len() && #[trigger] out@[k] < mid implies exists|l: int|
                0 <= l < i && #[trigger] a@[l] == out@[k] by {
                if k < last {
                    assert(out@[k] == o0[k]);
                    let l = choose|l: int| 0 <= l < i && #[trigger] a@[l] == o0[k];
                    assert(a@[l] == out@[k]);
                } else {
                    assert(a@[i - 1] == out@[k]);
                }
            }
            assert forall|k: int|
                0 <= k < out@.len() && #[trigger] out@[k] >= mid implies exists|l: int|
                0 <= l < j && #[trigger] b@[l] == out@[k] by {
                if k < last {
                    assert(out@[k] == o0[k]);
                    let l = choose|l: int| 0 <= l < j && #[trigger] b@[l] == o0[k];
                    assert(b@[l] == out@[k]);
                } else {
                    assert(b@[j - 1] == out@[k]);
                }
            }
        }
    }
    proof {
        assert forall|x: int| lo <= x < hi implies #[trigger] has(out@, x) by {
            if x < mid {
                assert(has(a@, x));
                let l = choose|l: int| 0 <= l < a@.len() && #[trigger] a@[l] == x;
                assert(has(out@, a@[l] as int));
            } else {
                assert(has(b@, x));
                let l = choose|l: int| 0 <= l < b@.len() && #[trigger] b@[l] == x;
                assert(has(out@, b@[l] as int));
            }
        }
    }
    out
}

/// The numbers from `lo` to `hi` in the order of their keys.
fn sort_range(keys: &Vec<u64>, lo: usize, hi: usize) -> (out: Vec<u32>)
    requires
        lo <= hi <= keys@.len(),
        hi <= MAX_TEXT,
    ensures
        numbers(out@, lo as int, hi as int),
        sorted_by(keys@, out@),
    decreases hi - lo,
{
    if hi - lo <= 1 {
        let mut out: Vec<u32> = Vec::new();
        if lo < hi {
            out.push(lo as u32);
            assert(out@[0] == lo);
        }
        return out;
    }
    let mid: usize = lo + (hi - lo) / 2;
    let a: Vec<u32> = sort_range(keys, lo, mid);
    let b: Vec<u32> = sort_range(keys, mid, hi);
    merge(keys, &a, &b, Ghost(lo as int), Ghost(mid as int), Ghost(hi as int))
}

// ---------------------------------------------------------------------------
// Suffix array
// ---------------------------------------------------------------------------
/// The ranks order the texts by their first `g` bytes.
spec fn ranks(d: Seq<u8>, rank: Seq<u32>, g: int) -> bool {
    &&& rank.len() == d.len()
    &&& forall|i: int, j: int|
        #![trigger rank[i], rank[j]]
        0 <= i < d.len() && 0 <= j < d.len() ==> (rank[i] < rank[j] <==> lt_to(d, i, j, g)) && (
        rank[i] == rank[j] <==> same_to(d, i, j, g))
}

spec fn second_key(d: Seq<u8>, rank: Seq<u32>, g: int, i: int) -> int {
    if i + g < d.len() {
        rank[i + g] + 1
    } else {
        0
    }
}

proof fn lemma_second(d: Seq<u8>, rank: Seq<u32>, g: int, i: int, j: int)
    requires
        ranks(d, rank, g),
        g >= 1,
        0 <= i < d.len(),
        0 <= j < d.len(),
    ensures
        second_key(d, rank, g, i) < second_key(d, rank, g, j) <==> lt_to(d, i + g, j + g, g),
        second_key(d, rank, g, i) == second_key(d, rank, g, j) <==> same_to(d, i + g, j + g, g),
{
    let n = d.len() as int;
    if i + g < n && j + g < n {
        assert(rank[i + g] < rank[j + g] <==> lt_to(d, i + g, j + g, g));
    } else if i + g >= n && j + g < n {
        assert(same_to(d, i + g, j + g, 0));
        assert(ch(d, i + g + 0) < ch(d, j + g + 0));
    } else if i + g < n {
        assert(ch(d, i + g + 0) != ch(d, j + g + 0));
    } else {
        assert(same_to(d, i + g, j + g, g));
    }
}

/// Keys that order by the first `2 g` bytes.
spec fn keys_are(d: Seq<u8>, rank: Seq<u32>, g: int, keys: Seq<u64>) -> bool {
    &&& keys.len() == d.len()
    &&& forall|i: int|
        0 <= i < d.len() ==> #[trigger] keys[i] == rank[i] * 0x1_0000_0000 + second_key(
            d,
            rank,
            g,
            i,
        )
}

proof fn lemma_keys(d: Seq<u8>, rank: Seq<u32>, g: int, keys: Seq<u64>, i: int, j: int)
    requires
        ranks(d, rank, g),
        keys_are(d, rank, g, keys),
        g >= 1,
        d.len() <= MAX_TEXT,
        forall|k: int| 0 <= k < rank.len() ==> #[trigger] rank[k] <= MAX_TEXT,
        0 <= i < d.len(),
        0 <= j < d.len(),
    ensures
        keys[i] < keys[j] <==> lt_to(d, i, j, 2 * g),
        keys[i] == keys[j] <==> same_to(d, i, j, 2 * g),
{
    lemma_second(d, rank, g, i, j);
    lemma_lt_double(d, i, j, g);
    lemma_same_double(d, i, j, g);
    assert(rank[i] < rank[j] <==> lt_to(d, i, j, g));
    let a = second_key(d, rank, g, i);
    let b = second_key(d, rank, g, j);
    assert(0 <= a <= 0x7fff_ffff) by {
        if i + g < d.len() {
            assert(rank[i + g] <= MAX_TEXT);
        }
    }
    assert(0 <= b <= 0x7fff_ffff) by {
        if j + g < d.len() {
            assert(rank[j + g] <= MAX_TEXT);
        }
    }
}

/// Ranks from sorted keys: the number of changes of the key so far. The second
/// result is the largest rank.
#[verifier::rlimit(40)]
fn rank_keys(keys: &Vec<u64>, ord: &Vec<u32>) -> (r: (Vec<u32>, usize))
    requires
        keys@.len() >= 1,
        keys@.len() <= MAX_TEXT,
        numbers(ord@, 0, keys@.len() as int),
        sorted_by(keys@, ord@),
    ensures
        r.0@.len() == keys@.len(),
        forall|i: int| 0 <= i < r.0@.len() ==> #[trigger] r.0@[i] < keys@.len(),
        forall|i: int, j: int|
            #![trigger r.0@[i], r.0@[j]]
            0 <= i < r.0@.len() && 0 <= j < r.0@.len() ==> (r.0@[i] < r.0@[j] <==> keys@[i]
                < keys@[j]) && (r.0@[i] == r.0@[j] <==> keys@[i] == keys@[j]),
        r.1 < keys@.len(),
        r.1 == keys@.len() - 1 ==> forall|a: int, b: int|
            #![trigger ord@[a], ord@[b]]
            0 <= a < b < ord@.len() ==> keys@[ord@[a] as int] < keys@[ord@[b] as int],
{
    let n: usize = ord.len();
    let mut rank: Vec<u32> = Vec::with_capacity(n);
    let mut i: usize = 0;
    while i < n
        invariant
            i <= n,
            rank@.len() == i,
            forall|k: int| 0 <= k < i ==> #[trigger] rank@[k] == 0,
        decreases n - i,
    {
        rank.push(0);
        i += 1;
    }
    let mut r: usize = 0;
    let mut w: usize = 1;
    while w < n
        invariant
            n == ord@.len(),
            n == keys@.len(),
            n <= MAX_TEXT,
            1 <= w <= n,
            numbers(ord@, 0, n as int),
            sorted_by(keys@, ord@),
            rank@.len() == n,
            r < w,
            forall|k: int| 0 <= k < n ==> #[trigger] rank@[k] < n,
            rank@[ord@[w - 1] as int] == r,
            forall|a: int, b: int|
                #![trigger ord@[a], ord@[b]]
                0 <= a < w && 0 <= b < w ==> (rank@[ord@[a] as int] < rank@[ord@[b] as int]
                    <==> keys@[ord@[a] as int] < keys@[ord@[b] as int]) && (rank@[ord@[a] as int]
                    == rank@[ord@[b] as int] <==> keys@[ord@[a] as int] == keys@[ord@[b] as int]),
            forall|a: int| 0 <= a < w ==> rank@[#[trigger] ord@[a] as int] <= r,
            r == w - 1 ==> forall|a: int, b: int|
                #![trigger ord@[a], ord@[b]]
                0 <= a < b < w ==> keys@[ord@[a] as int] < keys@[ord@[b] as int],
        decreases n - w,
    {
        let x: usize = ord[w - 1] as usize;
        let y: usize = ord[w] as usize;
        let ghost rank0 = rank@;
        let ghost r0 = r;
        assert(0 <= ord@[w - 1] < n);
        assert(0 <= ord@[w as int] < n);
        if keys[x] != keys[y] {
            r += 1;
        }
        rank.set(y, r as u32);
        proof {
            assert forall|a: int| 0 <= a < w implies rank@[#[trigger] ord@[a] as int]
                == rank0[ord@[a] as int] by {
                assert(ord@[a] != ord@[w as int]);
            }
            assert forall|a: int| 0 <= a < w implies (keys@[#[trigger] ord@[a] as int]
                == keys@[y as int] <==> rank0[ord@[a] as int] == r) && keys@[ord@[a] as int]
                <= keys@[y as int] by {
                assert(keys@[ord@[a] as int] <= keys@[ord@[w as int] as int]);
                if a < w - 1 {
                    assert(keys@[ord@[a] as int] <= keys@[ord@[w - 1] as int]);
                }
                assert(rank0[ord@[a] as int] == rank0[ord@[w - 1] as int] <==> keys@[ord@[a] as int]
                    == keys@[ord@[w - 1] as int]);
            }
        }
        w += 1;
    }
    proof {
        assert forall|i: int, j: int|
            #![trigger rank@[i], rank@[j]]
            0 <= i < rank@.len() && 0 <= j < rank@.len() implies (rank@[i] < rank@[j] <==> keys@[i]
            < keys@[j]) && (rank@[i] == rank@[j] <==> keys@[i] == keys@[j]) by {
            assert(has(ord@, i));
            assert(has(ord@, j));
            let a = choose|a: int| 0 <= a < ord@.len() && #[trigger] ord@[a] == i;
            let b = choose|b: int| 0 <= b < ord@.len() && #[trigger] ord@[b] == j;
            assert(ord@[a] == i && ord@[b] == j);
        }
    }
    (rank, r)
}

fn first_ranks(data: &[u8]) -> (rank: Vec<u32>)
    requires
        data@.len() <= MAX_TEXT,
    ensures
        ranks(data@, rank@, 1),
        forall|k: int| 0 <= k < rank@.len() ==> #[trigger] rank@[k] <= 255,
{
    let n: usize = data.len();
    let mut rank: Vec<u32> = Vec::with_capacity(n);
    let mut i: usize = 0;
    while i < n
        invariant
            n == data@.len(),
            i <= n,
            rank@.len() == i,
            forall|k: int| 0 <= k < i ==> #[trigger] rank@[k] == data@[k],
        decreases n - i,
    {
        rank.push(data[i] as u32);
        i += 1;
    }
    let ghost d = data@;
    assert forall|i: int, j: int|
        #![trigger rank@[i], rank@[j]]
        0 <= i < d.len() && 0 <= j < d.len() implies (rank@[i] < rank@[j] <==> lt_to(d, i, j, 1))
        && (rank@[i] == rank@[j] <==> same_to(d, i, j, 1)) by {
        assert(same_to(d, i, j, 0));
        assert(ch(d, i + 0) == rank@[i] + 1);
        assert(ch(d, j + 0) == rank@[j] + 1);
        if lt_to(d, i, j, 1) {
            let h = choose|h: int|
                0 <= h < 1 && #[trigger] same_to(d, i, j, h) && ch(d, i + h) < ch(d, j + h);
            assert(h == 0);
        }
    }
    rank
}

fn pair_keys(data: &[u8], rank: &Vec<u32>, g: usize) -> (keys: Vec<u64>)
    requires
        data@.len() <= MAX_TEXT,
        rank@.len() == data@.len(),
        g >= 1,
        g <= MAX_TEXT,
        forall|k: int| 0 <= k < rank@.len() ==> #[trigger] rank@[k] <= MAX_TEXT,
    ensures
        keys_are(data@, rank@, g as int, keys@),
{
    let n: usize = data.len();
    let mut keys: Vec<u64> = Vec::with_capacity(n);
    let mut i: usize = 0;
    while i < n
        invariant
            n == data@.len(),
            n <= MAX_TEXT,
            g <= MAX_TEXT,
            i <= n,
            rank@.len() == n,
            keys@.len() == i,
            forall|k: int| 0 <= k < rank@.len() ==> #[trigger] rank@[k] <= MAX_TEXT,
            forall|k: int|
                0 <= k < i ==> #[trigger] keys@[k] == rank@[k] * 0x1_0000_0000 + second_key(
                    data@,
                    rank@,
                    g as int,
                    k,
                ),
        decreases n - i,
    {
        let second: u64 = if i + g < n {
            rank[i + g] as u64 + 1
        } else {
            0
        };
        assert(rank@[i as int] <= MAX_TEXT);
        keys.push(rank[i] as u64 * 0x1_0000_0000 + second);
        i += 1;
    }
    keys
}

/// The suffixes of a text in order.
#[verifier::rlimit(40)]
pub fn suffix_array(data: &[u8]) -> (sa: Vec<u32>)
    requires
        data@.len() <= MAX_TEXT,
    ensures
        is_suffix_array(data@, sa@),
{
    let n: usize = data.len();
    if n == 0 {
        return Vec::new();
    }
    let ghost d = data@;
    let mut rank: Vec<u32> = first_ranks(data);
    let mut g: usize = 1;
    loop
        invariant
            d == data@,
            n == d.len(),
            1 <= n <= MAX_TEXT,
            1 <= g <= n,
            ranks(d, rank@, g as int),
            forall|k: int| 0 <= k < rank@.len() ==> #[trigger] rank@[k] <= MAX_TEXT,
        decreases n - g,
    {
        let keys: Vec<u64> = pair_keys(data, &rank, g);
        let ord: Vec<u32> = sort_range(&keys, 0, n);
        let (next, top): (Vec<u32>, usize) = rank_keys(&keys, &ord);
        let ghost g2 = 2 * g as int;
        proof {
            assert forall|i: int, j: int|
                #![trigger next@[i], next@[j]]
                0 <= i < d.len() && 0 <= j < d.len() implies (next@[i] < next@[j] <==> lt_to(
                d,
                i,
                j,
                g2,
            )) && (next@[i] == next@[j] <==> same_to(d, i, j, g2)) by {
                lemma_keys(d, rank@, g as int, keys@, i, j);
            }
        }
        if top == n - 1 || g >= n - g {
            proof {
                assert forall|a: int, b: int|
                    #![trigger ord@[a], ord@[b]]
                    0 <= a < b < ord@.len() implies suf_lt(d, ord@[a] as int, ord@[b] as int) by {
                    let x = ord@[a] as int;
                    let y = ord@[b] as int;
                    assert(keys@[x] <= keys@[y]);
                    lemma_keys(d, rank@, g as int, keys@, x, y);
                    if keys@[x] == keys@[y] {
                        lemma_differ(d, x, y, g2);
                        assert(ord@[a] != ord@[b]);
                    }
                    let h = choose|h: int|
                        0 <= h < g2 && #[trigger] same_to(d, x, y, h) && ch(d, x + h) < ch(
                            d,
                            y + h,
                        );
                    assert(same_to(d, x, y, h));
                }
            }
            return ord;
        }
        rank = next;
        g = 2 * g;
    }
}

// ---------------------------------------------------------------------------
// Common prefixes
// ---------------------------------------------------------------------------
/// Where each suffix stands in the array.
pub open spec fn inverse(sa: Seq<u32>, inv: Seq<u32>) -> bool {
    &&& inv.len() == sa.len()
    &&& forall|k: int| 0 <= k < sa.len() ==> inv[#[trigger] sa[k] as int] == k
    &&& forall|i: int| 0 <= i < inv.len() ==> (#[trigger] inv[i]) < sa.len() && sa[inv[i] as int] == i
}

/// Bytes that the texts at `i` and `j` have in common.
pub open spec fn is_common(d: Seq<u8>, i: int, j: int, h: int) -> bool {
    &&& i + h <= d.len() && j + h <= d.len()
    &&& same_to(d, i, j, h)
    &&& i + h == d.len() || j + h == d.len() || d[i + h] != d[j + h]
}

/// The common prefix of each suffix with the next.
pub open spec fn is_lcp(d: Seq<u8>, sa: Seq<u32>, lcp: Seq<u32>) -> bool {
    &&& lcp.len() == sa.len()
    &&& forall|k: int|
        0 <= k < sa.len() - 1 ==> is_common(d, sa[k] as int, sa[k + 1] as int, #[trigger] lcp[k] as int)
}

pub fn inverse_of(sa: &Vec<u32>, Ghost(d): Ghost<Seq<u8>>) -> (inv: Vec<u32>)
    requires
        is_suffix_array(d, sa@),
        d.len() <= MAX_TEXT,
    ensures
        inverse(sa@, inv@),
{
    let n: usize = sa.len();
    let mut inv: Vec<u32> = Vec::with_capacity(n);
    let mut i: usize = 0;
    while i < n
        invariant
            i <= n,
            inv@.len() == i,
        decreases n - i,
    {
        inv.push(0);
        i += 1;
    }
    let mut k: usize = 0;
    while k < n
        invariant
            n == sa@.len(),
            n <= MAX_TEXT,
            k <= n,
            inv@.len() == n,
            is_suffix_array(d, sa@),
            forall|j: int| 0 <= j < k ==> inv@[#[trigger] sa@[j] as int] == j,
        decreases n - k,
    {
        let s: usize = sa[k] as usize;
        let ghost inv0 = inv@;
        assert(sa@[k as int] < n);
        inv.set(s, k as u32);
        assert forall|j: int| 0 <= j < k + 1 implies inv@[#[trigger] sa@[j] as int] == j by {
            if j < k {
                lemma_suf_asym(d, sa@[j] as int, sa@[k as int] as int);
                assert(inv0[sa@[j] as int] == j);
            }
        }
        k += 1;
    }
    assert forall|i: int| 0 <= i < inv@.len() implies (#[trigger] inv@[i]) < sa@.len()
        && sa@[inv@[i] as int] == i by {
        assert(has(sa@, i));
        let j = choose|j: int| 0 <= j < sa@.len() && #[trigger] sa@[j] == i;
        assert(inv@[sa@[j] as int] == j);
    }
    inv
}

/// The next suffix shares all but one byte of a common prefix.
proof fn lemma_kasai(d: Seq<u8>, sa: Seq<u32>, inv: Seq<u32>, i: int, h: int)
    requires
        is_suffix_array(d, sa),
        inverse(sa, inv),
        0 <= i < d.len(),
        inv[i] + 1 < d.len(),
        h >= 2,
        ({
            let j = sa[inv[i] + 1] as int;
            same_to(d, i, j, h) && i + h <= d.len() && j + h <= d.len()
        }),
    ensures
        inv[i + 1] + 1 < d.len(),
        same_to(d, i + 1, sa[inv[i + 1] + 1] as int, h - 1),
{
    let r = inv[i] as int;
    let j = sa[r + 1] as int;
    assert(sa[r] == i);
    assert(suf_lt(d, sa[r] as int, sa[r + 1] as int));
    let x = choose|x: int|
        0 <= x && #[trigger] same_to(d, i, j, x) && ch(d, i + x) < ch(d, j + x);
    if x < h {
        assert(ch(d, i + x) == ch(d, j + x));
    }
    assert(same_to(d, i + 1, j + 1, x - 1)) by {
        assert forall|t: int| 0 <= t < x - 1 implies #[trigger] ch(d, i + 1 + t) == ch(
            d,
            j + 1 + t,
        ) by {
            assert(ch(d, i + (1 + t)) == ch(d, j + (1 + t)));
        }
    }
    assert(i + 1 + (x - 1) == i + x && j + 1 + (x - 1) == j + x);
    assert(suf_lt(d, i + 1, j + 1));
    assert(same_to(d, i + 1, j + 1, h - 1)) by {
        assert forall|t: int| 0 <= t < h - 1 implies #[trigger] ch(d, i + 1 + t) == ch(
            d,
            j + 1 + t,
        ) by {
            assert(ch(d, i + (1 + t)) == ch(d, j + (1 + t)));
        }
    }
    let a = inv[i + 1] as int;
    let b = inv[j + 1] as int;
    assert(sa[a] == i + 1 && sa[b] == j + 1);
    lemma_suf_asym(d, i + 1, j + 1);
    if b < a {
        assert(suf_lt(d, sa[b] as int, sa[a] as int));
    }
    assert(a < b);
    assert(suf_lt(d, sa[a] as int, sa[a + 1] as int));
    if a + 1 < b {
        assert(suf_lt(d, sa[a + 1] as int, sa[b] as int));
    }
    lemma_between(d, i + 1, sa[a + 1] as int, j + 1, h - 1);
}

/// The common prefixes of neighbours in a suffix array.
#[verifier::rlimit(40)]
pub fn lcp_array(data: &[u8], sa: &Vec<u32>, inv: &Vec<u32>) -> (lcp: Vec<u32>)
    requires
        data@.len() <= MAX_TEXT,
        is_suffix_array(data@, sa@),
        inverse(sa@, inv@),
    ensures
        is_lcp(data@, sa@, lcp@),
{
    let n: usize = data.len();
    let ghost d = data@;
    let mut lcp: Vec<u32> = Vec::with_capacity(n);
    let mut k: usize = 0;
    while k < n
        invariant
            k <= n,
            lcp@.len() == k,
        decreases n - k,
    {
        lcp.push(0);
        k += 1;
    }
    let mut length: usize = 0;
    let mut i: usize = 0;
    while i < n
        invariant
            d == data@,
            n == d.len(),
            n <= MAX_TEXT,
            i <= n,
            lcp@.len() == n,
            is_suffix_array(d, sa@),
            inverse(sa@, inv@),
            length >= 1 && i < n ==> inv@[i as int] + 1 < n && same_to(
                d,
                i as int,
                sa@[inv@[i as int] + 1] as int,
                length as int,
            ),
            length <= n,
            forall|t: int|
                0 <= t < i && inv@[t] + 1 < n ==> is_common(
                    d,
                    t,
                    sa@[#[trigger] inv@[t] + 1] as int,
                    lcp@[inv@[t] as int] as int,
                ),
        decreases n - i,
    {
        let r: usize = inv[i] as usize;
        assert(inv@[i as int] < n && sa@[inv@[i as int] as int] == i);
        let ghost lcp0 = lcp@;
        if r + 1 < n {
            let j: usize = sa[r + 1] as usize;
            assert(sa@[r + 1] < n);
            proof {
                assert(suf_lt(d, sa@[r as int] as int, sa@[r + 1] as int));
                lemma_suf_asym(d, i as int, j as int);
                lemma_same_inside(d, i as int, j as int, length as int);
            }
            while i + length < n && j + length < n && data[i + length] == data[j + length]
                invariant
                    d == data@,
                    n == d.len(),
                    n <= MAX_TEXT,
                    i < n,
                    j < n,
                    i + length <= n,
                    j + length <= n,
                    same_to(d, i as int, j as int, length as int),
                decreases n - i - length,
            {
                assert forall|t: int| 0 <= t < length + 1 implies #[trigger] ch(d, i + t) == ch(
                    d,
                    j + t,
                ) by {}
                length += 1;
            }
            lcp.set(r, length as u32);
            proof {
                if length >= 2 {
                    lemma_kasai(d, sa@, inv@, i as int, length as int);
                }
            }
        }
        assert forall|t: int| 0 <= t < i + 1 && inv@[t] + 1 < n implies is_common(
            d,
            t,
            sa@[#[trigger] inv@[t] + 1] as int,
            lcp@[inv@[t] as int] as int,
        ) by {
            if t < i {
                assert(sa@[inv@[t] as int] == t);
                assert(inv@[t] != r);
                assert(lcp@[inv@[t] as int] == lcp0[inv@[t] as int]);
            }
        }
        length = if length > 0 {
            length - 1
        } else {
            0
        };
        i += 1;
    }
    assert forall|k: int| 0 <= k < sa@.len() - 1 implies is_common(
        d,
        sa@[k] as int,
        sa@[k + 1] as int,
        #[trigger] lcp@[k] as int,
    ) by {
        let t = sa@[k] as int;
        assert(inv@[sa@[k] as int] == k);
        assert(inv@[t] + 1 < n);
    }
    lcp
}

pub proof fn lemma_same_trans(d: Seq<u8>, a: int, b: int, c: int, g: int, h: int)
    requires
        same_to(d, a, b, g),
        same_to(d, b, c, h),
    ensures
        same_to(
            d,
            a,
            c,
            if g < h {
                g
            } else {
                h
            },
        ),
        same_to(d, c, b, h),
{
    let m = if g < h {
        g
    } else {
        h
    };
    assert forall|t: int| 0 <= t < m implies #[trigger] ch(d, a + t) == ch(d, c + t) by {
        assert(ch(d, a + t) == ch(d, b + t));
        assert(ch(d, b + t) == ch(d, c + t));
    }
    assert forall|t: int| 0 <= t < h implies #[trigger] ch(d, c + t) == ch(d, b + t) by {
        assert(ch(d, b + t) == ch(d, c + t));
    }
}

/// The suffixes have one order.
pub proof fn lemma_one_order(d: Seq<u8>, a: Seq<u32>, b: Seq<u32>)
    requires
        is_suffix_array(d, a),
        is_suffix_array(d, b),
    ensures
        a == b,
{
    assert forall|k: int| 0 <= k < a.len() implies a[k] == b[k] by {
        lemma_one_order_to(d, a, b, k + 1);
    }
    assert(a =~= b);
}

proof fn lemma_one_order_to(d: Seq<u8>, a: Seq<u32>, b: Seq<u32>, k: int)
    requires
        is_suffix_array(d, a),
        is_suffix_array(d, b),
        0 <= k <= a.len(),
    ensures
        forall|j: int| 0 <= j < k ==> a[j] == b[j],
    decreases k,
{
    if k > 0 {
        let n = k - 1;
        lemma_one_order_to(d, a, b, n);
        if a[n] != b[n] {
            lemma_not_later(d, a, b, n);
            lemma_not_later(d, b, a, n);
            lemma_suf_asym(d, a[n] as int, b[n] as int);
        }
    }
}

/// Where two orders part, what one has next comes before what the other has.
proof fn lemma_not_later(d: Seq<u8>, a: Seq<u32>, b: Seq<u32>, n: int)
    requires
        is_suffix_array(d, a),
        is_suffix_array(d, b),
        0 <= n < a.len(),
        forall|j: int| 0 <= j < n ==> a[j] == b[j],
        a[n] != b[n],
    ensures
        suf_lt(d, b[n] as int, a[n] as int),
{
    assert(a[n] < d.len());
    assert(has(b, a[n] as int));
    let j = choose|j: int| 0 <= j < b.len() && #[trigger] b[j] == a[n];
    if j < n {
        assert(a[j] == b[j]);
        assert(suf_lt(d, a[j] as int, a[n] as int));
        lemma_suf_asym(d, a[j] as int, a[n] as int);
    }
    assert(n < j);
    assert(suf_lt(d, b[n] as int, b[j] as int));
}

/// Two texts have one number of bytes in common.
pub proof fn lemma_one_common(d: Seq<u8>, i: int, j: int, g: int, h: int)
    requires
        0 <= i,
        0 <= j,
        0 <= g,
        0 <= h,
        is_common(d, i, j, g),
        is_common(d, i, j, h),
    ensures
        g == h,
{
    if g < h {
        assert(ch(d, i + g) == ch(d, j + g));
    } else if h < g {
        assert(ch(d, i + h) == ch(d, j + h));
    }
}

/// The numbers of common bytes are the same but for the last, which none is.
pub proof fn lemma_one_lcp(d: Seq<u8>, sa: Seq<u32>, a: Seq<u32>, b: Seq<u32>)
    requires
        is_lcp(d, sa, a),
        is_lcp(d, sa, b),
        sa.len() > 0,
    ensures
        a.drop_last() == b.drop_last(),
{
    assert forall|k: int| 0 <= k < sa.len() - 1 implies a[k] == b[k] by {
        assert(is_common(d, sa[k] as int, sa[k + 1] as int, a[k] as int));
        assert(is_common(d, sa[k] as int, sa[k + 1] as int, b[k] as int));
        lemma_one_common(d, sa[k] as int, sa[k + 1] as int, a[k] as int, b[k] as int);
    }
    assert(a.drop_last() =~= b.drop_last());
}

/// The places of the suffixes are known from their order.
pub proof fn lemma_one_inverse(sa: Seq<u32>, a: Seq<u32>, b: Seq<u32>)
    requires
        inverse(sa, a),
        inverse(sa, b),
    ensures
        a == b,
{
    assert forall|i: int| 0 <= i < a.len() implies a[i] == b[i] by {
        assert(sa[a[i] as int] == i);
    }
    assert(a =~= b);
}

// ---------------------------------------------------------------------------
// Walks among the suffixes
// ---------------------------------------------------------------------------
/// The places behind `pos` with the same `len` bytes.
pub open spec fn later_places(d: Seq<u8>, pos: int, len: int) -> Set<int> {
    Set::new(|j: int| pos < j < d.len() && lz::is_match(d, j, j - pos, len))
}

/// Texts with the same bytes have them in common.
pub proof fn lemma_match_same(d: Seq<u8>, pos: int, q: int, len: int)
    requires
        0 <= q < pos,
        lz::is_match(d, pos, pos - q, len),
    ensures
        same_to(d, pos, q, len),
        same_to(d, q, pos, len),
{
    assert forall|t: int| 0 <= t < len implies #[trigger] ch(d, pos + t) == ch(d, q + t) by {
        assert(d[pos + t] == d[pos + t - (pos - q)]);
    }
    assert forall|t: int| 0 <= t < len implies #[trigger] ch(d, q + t) == ch(d, pos + t) by {
        assert(ch(d, pos + t) == ch(d, q + t));
    }
}

/// All suffixes between that of `pos` and one with the same `len` bytes have these
/// too.
pub proof fn lemma_all_between(d: Seq<u8>, sa: Seq<u32>, i: int, k: int, t: int, len: int)
    requires
        is_suffix_array(d, sa),
        0 <= i < sa.len(),
        0 <= k < sa.len(),
        same_to(d, sa[i] as int, sa[k] as int, len),
        k <= t <= i || i <= t <= k,
    ensures
        same_to(d, sa[i] as int, sa[t] as int, len),
{
    let (a, c) = (sa[i] as int, sa[k] as int);
    lemma_same_trans(d, a, a, c, len, len);
    if t == i || t == k {
    } else if k < t {
        lemma_between(d, c, sa[t] as int, a, len);
        lemma_same_trans(d, a, c, sa[t] as int, len, len);
    } else {
        lemma_between(d, a, sa[t] as int, c, len);
    }
}

/// Neighbours that both share `len` bytes with a text have them in common.
pub proof fn lemma_neighbours(d: Seq<u8>, sa: Seq<u32>, lcp: Seq<u32>, pos: int, k: int, len: int)
    requires
        is_suffix_array(d, sa),
        is_lcp(d, sa, lcp),
        0 <= k < sa.len() - 1,
        len >= 0,
        same_to(d, pos, sa[k] as int, len),
        same_to(d, pos, sa[k + 1] as int, len),
    ensures
        lcp[k] >= len,
{
    let (a, b) = (sa[k] as int, sa[k + 1] as int);
    let h = lcp[k] as int;
    assert(is_common(d, a, b, h));
    assert(suf_lt(d, a, b));
    lemma_suf_asym(d, a, b);
    lemma_same_trans(d, b, pos, a, 0, len);
    assert(same_to(d, a, pos, len)) by {
        assert forall|t: int| 0 <= t < len implies #[trigger] ch(d, a + t) == ch(d, pos + t) by {
            assert(ch(d, pos + t) == ch(d, a + t));
        }
    }
    lemma_same_trans(d, a, pos, b, len, len);
    lemma_same_inside(d, a, b, len);
    if h < len {
        assert(d[a + h] == d[b + h]);
    }
}

spec fn places(sa: Seq<u32>, a: int, b: int) -> Set<int>
    decreases b - a,
{
    if b <= a {
        Set::empty()
    } else {
        places(sa, a, b - 1).insert(sa[b - 1] as int)
    }
}

proof fn lemma_places(d: Seq<u8>, sa: Seq<u32>, a: int, b: int)
    requires
        is_suffix_array(d, sa),
        0 <= a <= b <= sa.len(),
    ensures
        places(sa, a, b).finite(),
        places(sa, a, b).len() == b - a,
        forall|x: int| #[trigger]
            places(sa, a, b).contains(x) ==> exists|t: int| a <= t < b && #[trigger] sa[t] == x,
    decreases b - a,
{
    if a < b {
        lemma_places(d, sa, a, b - 1);
        let x = sa[b - 1] as int;
        if places(sa, a, b - 1).contains(x) {
            let t = choose|t: int| a <= t < b - 1 && #[trigger] sa[t] == x;
            lemma_suf_asym(d, sa[t] as int, sa[b - 1] as int);
        }
        assert forall|x: int| #[trigger] places(sa, a, b).contains(x) implies exists|t: int|
            a <= t < b && #[trigger] sa[t] == x by {
            if x == sa[b - 1] {
                assert(sa[b - 1] == x);
            } else {
                let t = choose|t: int| a <= t < b - 1 && #[trigger] sa[t] == x;
                assert(sa[t] == x);
            }
        }
    }
}

/// A walk over later places with the same bytes is no longer than there are such.
pub proof fn lemma_few_skipped(d: Seq<u8>, sa: Seq<u32>, pos: int, a: int, b: int, len: int)
    requires
        is_suffix_array(d, sa),
        0 <= pos < d.len(),
        0 <= a <= b <= sa.len(),
        len >= 0,
        forall|t: int|
            a <= t < b ==> pos < (#[trigger] sa[t]) && same_to(d, pos, sa[t] as int, len),
    ensures
        b - a <= later_places(d, pos, len).len(),
{
    let later = later_places(d, pos, len);
    lemma_places(d, sa, a, b);
    vstd::set_lib::lemma_int_range(0, d.len() as int);
    vstd::set_lib::lemma_len_subset(later, vstd::set_lib::set_int_range(0, d.len() as int));
    assert forall|x: int| #[trigger] places(sa, a, b).contains(x) implies later.contains(x) by {
        let t = choose|t: int| a <= t < b && #[trigger] sa[t] == x;
        lemma_same_inside(d, pos, x, len);
        assert forall|k: int| 0 <= k < len implies #[trigger] d[x + k] == d[x + k - (x - pos)] by {
            assert(d[pos + k] == d[x + k]);
        }
    }
    vstd::set_lib::lemma_len_subset(places(sa, a, b), later);
}

} // verus!
