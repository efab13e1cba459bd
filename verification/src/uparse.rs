//! The search for cheap tokens of an upkr stream. At every position several
//! ways to get there are kept, with the contexts that each has, and each goes
//! on with the matches at that position and with a literal byte.
use crate::lz::match_run;
use crate::suffix::{inverse_of, lcp_array, suffix_array, MAX_TEXT};
use crate::upkrenc::Op;
use crate::usearch;
use crate::usearch::{Scene, Way, NEAR_SIZE, NOWHERE};
use crate::upkrstream::{new_contexts, next_prob, Config};
use crate::lz;
use crate::suffix;
use crate::upkrstream;
use crate::upkrenc;
use vstd::prelude::*;

verus! {

// ---------------------------------------------------------------------------
// Matches
// ---------------------------------------------------------------------------
/// A match of the position that is looked at.
#[derive(Clone, Copy)]
pub struct Found {
    pub pos: usize,
    pub len: usize,
}

pub open spec fn found_ok(d: Seq<u8>, pos: int, f: Found) -> bool {
    f.pos < pos && f.len >= 2 && lz::is_match(d, pos, pos - f.pos, f.len as int)
}

/// Finds matches by walking from a suffix to its neighbours.
pub struct MatchFinder {
    sa: Vec<u32>,
    inv: Vec<u32>,
    lcp: Vec<u32>,
    max_queue_size: usize,
    max_matches_per_length: usize,
    patience: usize,
    max_length_diff: usize,
}

/// The suffix at `index` shares `length` bytes with the text at `pos`.
pub open spec fn shares(d: Seq<u8>, sa: Seq<u32>, pos: int, index: int, length: int) -> bool {
    0 <= index < sa.len() && suffix::same_to(d, pos, sa[index] as int, length)
}

pub proof fn lemma_step(d: Seq<u8>, sa: Seq<u32>, lcp: Seq<u32>, pos: int, k: int, right: bool, length: int)
    requires
        suffix::is_lcp(d, sa, lcp),
        0 <= k < sa.len() - 1,
        shares(
            d,
            sa,
            pos,
            if right {
                k
            } else {
                k + 1
            },
            length,
        ),
    ensures
        shares(
            d,
            sa,
            pos,
            if right {
                k + 1
            } else {
                k
            },
            if length < lcp[k] {
                length
            } else {
                lcp[k] as int
            },
        ),
{
    let a = sa[k] as int;
    let b = sa[k + 1] as int;
    let h = lcp[k] as int;
    assert(suffix::is_common(d, a, b, h));
    if right {
        suffix::lemma_same_trans(d, pos, a, b, length, h);
    } else {
        suffix::lemma_same_trans(d, a, a, b, h, h);
        suffix::lemma_same_trans(d, pos, b, a, length, h);
    }
}

pub proof fn lemma_found(d: Seq<u8>, pos: int, q: int, len: int)
    requires
        suffix::same_to(d, pos, q, len),
        0 <= q < pos < d.len(),
        len >= 2,
    ensures
        lz::is_match(d, pos, pos - q, len),
{
    suffix::lemma_same_inside(d, pos, q, len);
    assert forall|k: int| 0 <= k < len implies #[trigger] d[pos + k] == d[pos + k - (pos - q)] by {
        assert(d[pos + k] == d[q + k]);
    }
}

/// Where the walk among the suffixes stands on both sides, with how many bytes
/// each has in common with the text, and the places that were met.
struct Walk {
    li: int,
    ll: int,
    ri: int,
    rl: int,
    queue: Seq<usize>,
}

/// The first place of the largest of the first `k` numbers.
spec fn first_max(q: Seq<usize>, k: int) -> int
    decreases k,
{
    if k <= 1 {
        0
    } else {
        let b = first_max(q, k - 1);
        if q[k - 1] > q[b] {
            k - 1
        } else {
            b
        }
    }
}

/// `found` and the places of the queue, the largest first, at most `left`.
spec fn drained(q: Seq<usize>, left: int, len: int, found: Seq<Found>) -> Seq<Found>
    decreases left,
{
    if left <= 0 || q.len() == 0 {
        found
    } else {
        let m = first_max(q, q.len() as int);
        drained(q.remove(m), left - 1, len, found.push(Found { pos: q[m], len: len as usize }))
    }
}

spec fn larger(a: int, b: int) -> int {
    if a > b {
        a
    } else {
        b
    }
}

spec fn smaller(a: int, b: int) -> int {
    if a < b {
        a
    } else {
        b
    }
}

/// What a finder goes by: the suffixes in order, where each stands, how many bytes
/// each has in common with the next, and how hard to look.
pub struct Index {
    pub sa: Seq<u32>,
    pub inv: Seq<u32>,
    pub lcp: Seq<u32>,
    pub max_queue_size: int,
    pub max_matches_per_length: int,
    pub patience: int,
    pub max_length_diff: int,
}

impl Index {
    /// The next suffix to the left that starts before `pos`, within `patience`
    /// steps, and how many bytes it has in common; none where there is none.
    spec fn left_of(&self, pos: int, i: int, l: int, patience: int) -> (int, int)
        decreases patience,
    {
        if l > 0 && patience > 0 && i > 0 {
            let m = smaller(self.lcp[i - 1] as int, l);
            if self.sa[i - 1] < pos {
                (i - 1, m)
            } else {
                self.left_of(pos, i - 1, m, patience - 1)
            }
        } else {
            (i, 0)
        }
    }

    /// The same to the right.
    spec fn right_of(&self, pos: int, i: int, l: int, patience: int) -> (int, int)
        decreases patience,
    {
        if l > 0 && patience > 0 && i + 1 < self.sa.len() {
            let m = smaller(self.lcp[i] as int, l);
            if self.sa[i + 1] < pos {
                (i + 1, m)
            } else {
                self.right_of(pos, i + 1, m, patience - 1)
            }
        } else {
            (i, 0)
        }
    }

    /// The walk one step on to the left, where the suffix there has `cur` bytes in
    /// common.
    spec fn left_on(&self, pos: int, cur: int, a: Walk) -> Walk {
        if a.ll == cur {
            let r = self.left_of(pos, a.li, a.ll, self.patience);
            Walk { li: r.0, ll: r.1, queue: a.queue.push(self.sa[a.li] as usize), ..a }
        } else {
            a
        }
    }

    /// The same to the right.
    spec fn right_on(&self, pos: int, cur: int, a: Walk) -> Walk {
        if a.rl == cur {
            let r = self.right_of(pos, a.ri, a.rl, self.patience);
            Walk { ri: r.0, rl: r.1, queue: a.queue.push(self.sa[a.ri] as usize), ..a }
        } else {
            a
        }
    }

    /// The walk on to where no suffix has `cur` bytes in common, or the queue is
    /// full.
    spec fn filled(&self, pos: int, cur: int, a: Walk) -> Walk
        decreases
            if a.queue.len() < self.max_queue_size {
                self.max_queue_size - a.queue.len()
            } else {
                0
            },
    {
        if a.queue.len() < self.max_queue_size && (a.ll == cur || a.rl == cur) {
            self.filled(pos, cur, self.right_on(pos, cur, self.left_on(pos, cur, a)))
        } else {
            a
        }
    }

    /// How many matches of one length are listed.
    spec fn per_length(&self) -> int {
        if self.max_matches_per_length == 0 {
            1
        } else {
            self.max_matches_per_length
        }
    }

    /// `found` and the matches that are shorter than `current`, of which the
    /// longest so far was `longest`.
    spec fn shorter(&self, pos: int, a: Walk, current: int, longest: int, found: Seq<Found>) -> Seq<
        Found,
    >
        decreases current,
    {
        let cur = smaller(larger(a.ll, a.rl), current - 1);
        let top = larger(cur, longest);
        if current <= 0 || cur < 2 || top - cur > self.max_length_diff {
            found
        } else {
            let b = self.filled(pos, cur, Walk { queue: Seq::empty(), ..a });
            if b.queue.len() == 0 {
                found
            } else {
                self.shorter(
                    pos,
                    Walk { queue: Seq::empty(), ..b },
                    cur,
                    top,
                    drained(b.queue, self.per_length(), cur, found),
                )
            }
        }
    }

    /// The matches that are listed at `pos`: the longest first and of one length
    /// the nearest first.
    spec fn found_at(&self, pos: int) -> Seq<Found> {
        let i = self.inv[pos] as int;
        let l = self.left_of(pos, i, usize::MAX as int, self.patience);
        let r = self.right_of(pos, i, usize::MAX as int, self.patience);
        self.shorter(
            pos,
            Walk { li: l.0, ll: l.1, ri: r.0, rl: r.1, queue: Seq::empty() },
            usize::MAX as int,
            0,
            Seq::empty(),
        )
    }
}

impl MatchFinder {
    pub closed spec fn ok(&self, d: Seq<u8>) -> bool {
        &&& d.len() <= MAX_TEXT
        &&& suffix::is_suffix_array(d, self.sa@)
        &&& suffix::inverse(self.sa@, self.inv@)
        &&& suffix::is_lcp(d, self.sa@, self.lcp@)
    }

    /// What the finder goes by.
    pub closed spec fn index(&self) -> Index {
        Index {
            sa: self.sa@,
            inv: self.inv@,
            lcp: if self.lcp@.len() == 0 {
                self.lcp@
            } else {
                self.lcp@.drop_last()
            },
            max_queue_size: self.max_queue_size as int,
            max_matches_per_length: self.max_matches_per_length as int,
            patience: self.patience as int,
            max_length_diff: self.max_length_diff as int,
        }
    }

    /// The matches that are listed at `pos`: the longest first and of one length
    /// the nearest first.
    pub closed spec fn found_at(&self, pos: int) -> Seq<Found> {
        self.index().found_at(pos)
    }

    /// Two finders for one input list the same.
    pub proof fn lemma_same_index(&self, o: &Self, d: Seq<u8>, pc: ParseConfig)
        requires
            self.is_for(d, pc),
            o.is_for(d, pc),
        ensures
            self.index() == o.index(),
            forall|p: int| self.found_at(p) == o.found_at(p),
    {
        suffix::lemma_one_order(d, self.sa@, o.sa@);
        suffix::lemma_one_inverse(self.sa@, self.inv@, o.inv@);
        if d.len() > 0 {
            suffix::lemma_one_lcp(d, self.sa@, self.lcp@, o.lcp@);
        } else {
            assert(self.lcp@ =~= o.lcp@);
        }
    }

    /// A finder for `d` that looks as hard as `pc` says.
    pub closed spec fn is_for(&self, d: Seq<u8>, pc: ParseConfig) -> bool {
        &&& self.ok(d)
        &&& self.max_queue_size == pc.max_queue_size
        &&& self.max_matches_per_length == pc.max_matches_per_length
        &&& self.patience == pc.patience
        &&& self.max_length_diff == pc.max_length_diff
    }

    pub fn new(data: &[u8], pc: &ParseConfig) -> (f: MatchFinder)
        requires
            data@.len() <= MAX_TEXT,
        ensures
            f.ok(data@),
            f.is_for(data@, *pc),
    {
        let sa: Vec<u32> = suffix_array(data);
        let inv: Vec<u32> = inverse_of(&sa, Ghost(data@));
        let lcp: Vec<u32> = lcp_array(data, &sa, &inv);
        MatchFinder {
            sa,
            inv,
            lcp,
            max_queue_size: pc.max_queue_size,
            max_matches_per_length: pc.max_matches_per_length,
            patience: pc.patience,
            max_length_diff: pc.max_length_diff,
        }
    }

    /// The next suffix to the left that starts before `pos`; a length of 0
    /// where there is none near.
    fn move_left(&self, pos: usize, index: usize, length: usize, Ghost(d): Ghost<Seq<u8>>) -> (r: (usize, usize))
        requires
            self.ok(d),
            pos < d.len(),
            shares(d, self.sa@, pos as int, index as int, length as int),
        ensures
            shares(d, self.sa@, pos as int, r.0 as int, r.1 as int),
            r.1 > 0 ==> self.sa@[r.0 as int] < pos,
            r.1 <= length,
            r.1 > 0 ==> r.0 < index,
            (r.0 as int, r.1 as int) == self.index().left_of(
                pos as int,
                index as int,
                length as int,
                self.patience as int,
            ),
    {
        let ghost goal = self.index().left_of(pos as int, index as int, length as int, self.patience as int);
        let mut i: usize = index;
        let mut l: usize = length;
        let mut patience: usize = self.patience;
        while l > 0 && patience > 0 && i > 0
            invariant
                self.ok(d),
                pos < d.len(),
                i <= index,
                l <= length,
                shares(d, self.sa@, pos as int, i as int, l as int),
                goal == self.index().left_of(pos as int, i as int, l as int, patience as int),
                goal == self.index().left_of(
                    pos as int,
                    index as int,
                    length as int,
                    self.patience as int,
                ),
            decreases i,
        {
            proof {
                lemma_step(d, self.sa@, self.lcp@, pos as int, i - 1, false, l as int);
            }
            i -= 1;
            let h: usize = self.lcp[i] as usize;
            if h < l {
                l = h;
            }
            if (self.sa[i] as usize) < pos {
                return (i, l);
            }
            patience -= 1;
        }
        (i, 0)
    }

    /// The next suffix to the right that starts before `pos`.
    fn move_right(&self, pos: usize, index: usize, length: usize, Ghost(d): Ghost<Seq<u8>>) -> (r: (usize, usize))
        requires
            self.ok(d),
            pos < d.len(),
            shares(d, self.sa@, pos as int, index as int, length as int),
        ensures
            shares(d, self.sa@, pos as int, r.0 as int, r.1 as int),
            r.1 > 0 ==> self.sa@[r.0 as int] < pos,
            r.1 <= length,
            r.1 > 0 ==> r.0 > index,
            (r.0 as int, r.1 as int) == self.index().right_of(
                pos as int,
                index as int,
                length as int,
                self.patience as int,
            ),
    {
        let ghost goal = self.index().right_of(
            pos as int,
            index as int,
            length as int,
            self.patience as int,
        );
        let n: usize = self.sa.len();
        let mut i: usize = index;
        let mut l: usize = length;
        let mut patience: usize = self.patience;
        while l > 0 && patience > 0 && i + 1 < n
            invariant
                self.ok(d),
                n == self.sa@.len(),
                pos < d.len(),
                index <= i < n,
                n <= MAX_TEXT,
                l <= length,
                shares(d, self.sa@, pos as int, i as int, l as int),
                goal == self.index().right_of(pos as int, i as int, l as int, patience as int),
                goal == self.index().right_of(
                    pos as int,
                    index as int,
                    length as int,
                    self.patience as int,
                ),
            decreases n - i,
        {
            proof {
                lemma_step(d, self.sa@, self.lcp@, pos as int, i as int, true, l as int);
            }
            let h: usize = self.lcp[i] as usize;
            i += 1;
            if h < l {
                l = h;
            }
            if (self.sa[i] as usize) < pos {
                return (i, l);
            }
            patience -= 1;
        }
        (i, 0)
    }

    /// Matches at `pos`, the longest first and of one length the nearest first.
    #[verifier::rlimit(60)]
    pub fn matches(&self, data: &[u8], pos: usize) -> (found: Vec<Found>)
        requires
            self.ok(data@),
            pos < data@.len(),
        ensures
            found@ == self.found_at(pos as int),
            forall|k: int|
                0 <= k < found@.len() ==> found_ok(data@, pos as int, #[trigger] found@[k]),
    {
        let ghost d = data@;
        let ghost goal = self.found_at(pos as int);
        let mut found: Vec<Found> = Vec::new();
        let start: usize = self.inv[pos] as usize;
        assert(self.inv@[pos as int] < self.sa@.len() && self.sa@[start as int] == pos);
        assert(suffix::same_to(d, pos as int, pos as int, usize::MAX as int));
        let (mut li, mut ll): (usize, usize) = self.move_left(pos, start, usize::MAX, Ghost(d));
        let (mut ri, mut rl): (usize, usize) = self.move_right(pos, start, usize::MAX, Ghost(d));
        let mut current: usize = usize::MAX;
        let mut longest: usize = 0;
        let per_length: usize = if self.max_matches_per_length == 0 {
            1
        } else {
            self.max_matches_per_length
        };
        assert(found@ =~= Seq::<Found>::empty());
        loop
            invariant
                d == data@,
                self.ok(d),
                pos < d.len(),
                per_length == self.index().per_length(),
                shares(d, self.sa@, pos as int, li as int, ll as int),
                shares(d, self.sa@, pos as int, ri as int, rl as int),
                ll > 0 ==> self.sa@[li as int] < pos,
                rl > 0 ==> self.sa@[ri as int] < pos,
                forall|k: int|
                    0 <= k < found@.len() ==> found_ok(d, pos as int, #[trigger] found@[k]),
                goal == self.found_at(pos as int),
                goal == self.index().shorter(
                    pos as int,
                    Walk {
                        li: li as int,
                        ll: ll as int,
                        ri: ri as int,
                        rl: rl as int,
                        queue: Seq::empty(),
                    },
                    current as int,
                    longest as int,
                    found@,
                ),
            decreases current,
        {
            let reach: usize = if ll > rl {
                ll
            } else {
                rl
            };
            if current == 0 {
                return found;
            }
            let ghost was = current;
            current = current - 1;
            if reach < current {
                current = reach;
            }
            if current > longest {
                longest = current;
            }
            if current < 2 || longest - current > self.max_length_diff {
                return found;
            }
            let mut queue: Vec<usize> = Vec::new();
            assert(queue@ =~= Seq::<usize>::empty());
            let ghost full = self.index().filled(
                pos as int,
                current as int,
                Walk {
                    li: li as int,
                    ll: ll as int,
                    ri: ri as int,
                    rl: rl as int,
                    queue: queue@,
                },
            );
            while queue.len() < self.max_queue_size && (ll == current || rl == current)
                invariant
                    d == data@,
                    self.ok(d),
                    pos < d.len(),
                    current >= 2,
                    shares(d, self.sa@, pos as int, li as int, ll as int),
                    shares(d, self.sa@, pos as int, ri as int, rl as int),
                    ll > 0 ==> self.sa@[li as int] < pos,
                    rl > 0 ==> self.sa@[ri as int] < pos,
                    forall|k: int|
                        0 <= k < queue@.len() ==> #[trigger] queue@[k] < pos && suffix::same_to(
                            d,
                            pos as int,
                            queue@[k] as int,
                            current as int,
                        ),
                    full == self.index().filled(
                        pos as int,
                        current as int,
                        Walk {
                            li: li as int,
                            ll: ll as int,
                            ri: ri as int,
                            rl: rl as int,
                            queue: queue@,
                        },
                    ),
                decreases
                    if queue@.len() < self.max_queue_size {
                        self.max_queue_size - queue@.len()
                    } else {
                        0
                    },
            {
                if ll == current {
                    queue.push(self.sa[li] as usize);
                    let r: (usize, usize) = self.move_left(pos, li, ll, Ghost(d));
                    li = r.0;
                    ll = r.1;
                }
                if rl == current {
                    queue.push(self.sa[ri] as usize);
                    let r: (usize, usize) = self.move_right(pos, ri, rl, Ghost(d));
                    ri = r.0;
                    rl = r.1;
                }
            }
            if queue.len() == 0 {
                return found;
            }
            let mut left: usize = per_length;
            let ghost list = drained(queue@, per_length as int, current as int, found@);
            while left > 0 && queue.len() > 0
                invariant
                    d == data@,
                    pos < d.len(),
                    current >= 2,
                    forall|k: int|
                        0 <= k < queue@.len() ==> #[trigger] queue@[k] < pos && suffix::same_to(
                            d,
                            pos as int,
                            queue@[k] as int,
                            current as int,
                        ),
                    forall|k: int|
                        0 <= k < found@.len() ==> found_ok(d, pos as int, #[trigger] found@[k]),
                    list == drained(queue@, left as int, current as int, found@),
                decreases left,
            {
                let ghost q0 = queue@;
                let q: usize = take_largest(&mut queue);
                proof {
                    lemma_found(d, pos as int, q as int, current as int);
                    assert forall|k: int| 0 <= k < queue@.len() implies #[trigger] queue@[k] < pos
                        && suffix::same_to(d, pos as int, queue@[k] as int, current as int) by {
                        let m = first_max(q0, q0.len() as int);
                        assert(queue@[k] == q0[if k < m {
                            k
                        } else {
                            k + 1
                        }]);
                    }
                }
                found.push(Found { pos: q, len: current });
                left -= 1;
            }
        }
    }
}

/// A walk to the left meets an earlier place that has as many bytes in common as
/// one farther left.
proof fn lemma_left_meets(x: Index, d: Seq<u8>, lcp: Seq<u32>, pos: int, i: int, j: int, k: int, l: int, patience: int, len: int)
    requires
        suffix::is_suffix_array(d, x.sa),
        suffix::is_lcp(d, x.sa, lcp),
        x.lcp == lcp.drop_last(),
        0 <= pos < d.len(),
        0 <= k < j <= i < x.sa.len(),
        x.sa[i] == pos,
        x.sa[k] < pos,
        suffix::same_to(d, pos, x.sa[k] as int, len),
        1 <= len <= l,
        forall|t: int| j <= t < i ==> pos < (#[trigger] x.sa[t]),
        patience + (i - j) > suffix::later_places(d, pos, len).len(),
    ensures
        x.left_of(pos, j, l, patience).1 >= len,
        0 <= x.left_of(pos, j, l, patience).0 < x.sa.len(),
        x.sa[x.left_of(pos, j, l, patience).0] < pos,
        x.left_of(pos, j, l, patience).1 <= l,
        x.left_of(pos, j, l, patience).1 <= d.len(),
    decreases j,
{
    assert forall|t: int| j <= t < i implies pos < (#[trigger] x.sa[t]) && suffix::same_to(
        d,
        pos,
        x.sa[t] as int,
        len,
    ) by {
        suffix::lemma_all_between(d, x.sa, i, k, t, len);
    }
    suffix::lemma_few_skipped(d, x.sa, pos, j, i, len);
    suffix::lemma_all_between(d, x.sa, i, k, j, len);
    suffix::lemma_all_between(d, x.sa, i, k, j - 1, len);
    suffix::lemma_neighbours(d, x.sa, lcp, pos, j - 1, len);
    assert(x.lcp[j - 1] == lcp[j - 1]);
    assert(suffix::is_common(d, x.sa[j - 1] as int, x.sa[j] as int, lcp[j - 1] as int));
    let m = smaller(x.lcp[j - 1] as int, l);
    if x.sa[j - 1] >= pos {
        assert(x.sa[j - 1] != pos) by {
            suffix::lemma_suf_asym(d, x.sa[j - 1] as int, x.sa[i] as int);
        }
        lemma_left_meets(x, d, lcp, pos, i, j - 1, k, m, patience - 1, len);
    }
}

/// The same to the right.
proof fn lemma_right_meets(x: Index, d: Seq<u8>, lcp: Seq<u32>, pos: int, i: int, j: int, k: int, l: int, patience: int, len: int)
    requires
        suffix::is_suffix_array(d, x.sa),
        suffix::is_lcp(d, x.sa, lcp),
        x.lcp == lcp.drop_last(),
        0 <= pos < d.len(),
        0 <= i <= j < k < x.sa.len(),
        x.sa[i] == pos,
        x.sa[k] < pos,
        suffix::same_to(d, pos, x.sa[k] as int, len),
        1 <= len <= l,
        forall|t: int| i < t <= j ==> pos < (#[trigger] x.sa[t]),
        patience + (j - i) > suffix::later_places(d, pos, len).len(),
    ensures
        x.right_of(pos, j, l, patience).1 >= len,
        0 <= x.right_of(pos, j, l, patience).0 < x.sa.len(),
        x.sa[x.right_of(pos, j, l, patience).0] < pos,
        x.right_of(pos, j, l, patience).1 <= l,
        x.right_of(pos, j, l, patience).1 <= d.len(),
    decreases x.sa.len() - j,
{
    assert forall|t: int| i + 1 <= t < j + 1 implies pos < (#[trigger] x.sa[t]) && suffix::same_to(
        d,
        pos,
        x.sa[t] as int,
        len,
    ) by {
        suffix::lemma_all_between(d, x.sa, i, k, t, len);
    }
    suffix::lemma_few_skipped(d, x.sa, pos, i + 1, j + 1, len);
    suffix::lemma_all_between(d, x.sa, i, k, j, len);
    suffix::lemma_all_between(d, x.sa, i, k, j + 1, len);
    suffix::lemma_neighbours(d, x.sa, lcp, pos, j, len);
    assert(x.lcp[j] == lcp[j]);
    assert(suffix::is_common(d, x.sa[j] as int, x.sa[j + 1] as int, lcp[j] as int));
    let m = smaller(x.lcp[j] as int, l);
    if x.sa[j + 1] >= pos {
        assert(x.sa[j + 1] != pos) by {
            suffix::lemma_suf_asym(d, x.sa[i] as int, x.sa[j + 1] as int);
        }
        lemma_right_meets(x, d, lcp, pos, i, j + 1, k, m, patience - 1, len);
    }
}

/// A walk has no more bytes in common than the texts are long.
proof fn lemma_left_short(x: Index, d: Seq<u8>, lcp: Seq<u32>, pos: int, j: int, l: int, patience: int)
    requires
        suffix::is_lcp(d, x.sa, lcp),
        x.lcp == lcp.drop_last(),
        0 <= j < x.sa.len(),
        0 <= l,
    ensures
        0 <= x.left_of(pos, j, l, patience).1 <= d.len(),
    decreases patience,
{
    if l > 0 && patience > 0 && j > 0 {
        assert(x.lcp[j - 1] == lcp[j - 1]);
        assert(suffix::is_common(d, x.sa[j - 1] as int, x.sa[j] as int, lcp[j - 1] as int));
        lemma_left_short(x, d, lcp, pos, j - 1, smaller(x.lcp[j - 1] as int, l), patience - 1);
    }
}

proof fn lemma_right_short(x: Index, d: Seq<u8>, lcp: Seq<u32>, pos: int, j: int, l: int, patience: int)
    requires
        suffix::is_lcp(d, x.sa, lcp),
        x.lcp == lcp.drop_last(),
        0 <= j < x.sa.len(),
        0 <= l,
    ensures
        0 <= x.right_of(pos, j, l, patience).1 <= d.len(),
    decreases patience,
{
    if l > 0 && patience > 0 && j + 1 < x.sa.len() {
        assert(x.lcp[j] == lcp[j]);
        assert(suffix::is_common(d, x.sa[j] as int, x.sa[j + 1] as int, lcp[j] as int));
        lemma_right_short(x, d, lcp, pos, j + 1, smaller(x.lcp[j] as int, l), patience - 1);
    }
}

proof fn lemma_filled_grows(x: Index, pos: int, cur: int, a: Walk)
    ensures
        x.filled(pos, cur, a).queue.len() >= a.queue.len(),
    decreases
            if a.queue.len() < x.max_queue_size {
                x.max_queue_size - a.queue.len()
            } else {
                0
            },
{
    if a.queue.len() < x.max_queue_size && (a.ll == cur || a.rl == cur) {
        lemma_filled_grows(x, pos, cur, x.right_on(pos, cur, x.left_on(pos, cur, a)));
    }
}

proof fn lemma_drained_keeps(q: Seq<usize>, left: int, len: int, found: Seq<Found>)
    ensures
        drained(q, left, len, found).len() >= found.len(),
        drained(q, left, len, found).take(found.len() as int) == found,
        left > 0 && q.len() > 0 ==> drained(q, left, len, found).len() > found.len() && drained(
            q,
            left,
            len,
            found,
        )[found.len() as int].len == len as usize,
    decreases left,
{
    let r = drained(q, left, len, found);
    if left <= 0 || q.len() == 0 {
        assert(r.take(found.len() as int) =~= found);
    } else {
        let m = first_max(q, q.len() as int);
        let more = found.push(Found { pos: q[m], len: len as usize });
        lemma_drained_keeps(q.remove(m), left - 1, len, more);
        assert(r.take(found.len() as int) =~= r.take(more.len() as int).take(found.len() as int));
        assert(r.take(more.len() as int)[found.len() as int] == r[found.len() as int]);
        assert(more.take(found.len() as int) =~= found);
    }
}

proof fn lemma_shorter_keeps(x: Index, pos: int, a: Walk, current: int, longest: int, found: Seq<Found>)
    ensures
        x.shorter(pos, a, current, longest, found).len() >= found.len(),
        x.shorter(pos, a, current, longest, found).take(found.len() as int) == found,
    decreases current,
{
    let r = x.shorter(pos, a, current, longest, found);
    let cur = smaller(larger(a.ll, a.rl), current - 1);
    let top = larger(cur, longest);
    assert(found.take(found.len() as int) =~= found);
    if !(current <= 0 || cur < 2 || top - cur > x.max_length_diff) {
        let b = x.filled(pos, cur, Walk { queue: Seq::empty(), ..a });
        if b.queue.len() > 0 {
            let more = drained(b.queue, x.per_length(), cur, found);
            lemma_drained_keeps(b.queue, x.per_length(), cur, found);
            lemma_shorter_keeps(x, pos, Walk { queue: Seq::empty(), ..b }, cur, top, more);
            assert(r.take(found.len() as int) =~= r.take(more.len() as int).take(
                found.len() as int,
            ));
        }
    }
}

proof fn lemma_left_below(x: Index, pos: int, j: int, l: int, patience: int)
    requires
        0 <= l,
    ensures
        x.left_of(pos, j, l, patience).1 <= l,
    decreases patience,
{
    if l > 0 && patience > 0 && j > 0 {
        lemma_left_below(x, pos, j - 1, smaller(x.lcp[j - 1] as int, l), patience - 1);
    }
}

proof fn lemma_right_below(x: Index, pos: int, j: int, l: int, patience: int)
    requires
        0 <= l,
    ensures
        x.right_of(pos, j, l, patience).1 <= l,
    decreases patience,
{
    if l > 0 && patience > 0 && j + 1 < x.sa.len() {
        lemma_right_below(x, pos, j + 1, smaller(x.lcp[j] as int, l), patience - 1);
    }
}

proof fn lemma_filled_below(x: Index, pos: int, cur: int, a: Walk, top: int)
    requires
        0 <= a.ll <= top,
        0 <= a.rl <= top,
        0 <= cur,
    ensures
        x.filled(pos, cur, a).ll <= top,
        x.filled(pos, cur, a).rl <= top,
        0 <= x.filled(pos, cur, a).ll,
        0 <= x.filled(pos, cur, a).rl,
    decreases
            if a.queue.len() < x.max_queue_size {
                x.max_queue_size - a.queue.len()
            } else {
                0
            },
{
    if a.queue.len() < x.max_queue_size && (a.ll == cur || a.rl == cur) {
        lemma_left_below(x, pos, a.li, a.ll, x.patience);
        lemma_left_least(x, pos, a.li, a.ll, x.patience);
        let b = x.left_on(pos, cur, a);
        lemma_right_below(x, pos, b.ri, b.rl, x.patience);
        lemma_right_least(x, pos, b.ri, b.rl, x.patience);
        lemma_filled_below(x, pos, cur, x.right_on(pos, cur, b), top);
    }
}

proof fn lemma_left_least(x: Index, pos: int, j: int, l: int, patience: int)
    requires
        0 <= l,
    ensures
        0 <= x.left_of(pos, j, l, patience).1,
    decreases patience,
{
    if l > 0 && patience > 0 && j > 0 {
        lemma_left_least(x, pos, j - 1, smaller(x.lcp[j - 1] as int, l), patience - 1);
    }
}

proof fn lemma_right_least(x: Index, pos: int, j: int, l: int, patience: int)
    requires
        0 <= l,
    ensures
        0 <= x.right_of(pos, j, l, patience).1,
    decreases patience,
{
    if l > 0 && patience > 0 && j + 1 < x.sa.len() {
        lemma_right_least(x, pos, j + 1, smaller(x.lcp[j] as int, l), patience - 1);
    }
}

/// No match of a list is longer than `top`.
spec fn none_longer(found: Seq<Found>, top: int) -> bool {
    forall|k: int| 0 <= k < found.len() ==> (#[trigger] found[k]).len <= top
}

proof fn lemma_drained_below(q: Seq<usize>, left: int, len: int, found: Seq<Found>, top: int)
    requires
        0 <= len <= top <= usize::MAX,
        none_longer(found, top),
    ensures
        none_longer(drained(q, left, len, found), top),
    decreases left,
{
    if !(left <= 0 || q.len() == 0) {
        let m = first_max(q, q.len() as int);
        let more = found.push(Found { pos: q[m], len: len as usize });
        assert(none_longer(more, top));
        lemma_drained_below(q.remove(m), left - 1, len, more, top);
    }
}

proof fn lemma_shorter_below(
    x: Index,
    pos: int,
    a: Walk,
    current: int,
    longest: int,
    found: Seq<Found>,
    top: int,
)
    requires
        0 <= a.ll <= top,
        0 <= a.rl <= top,
        top <= usize::MAX,
        none_longer(found, top),
    ensures
        none_longer(x.shorter(pos, a, current, longest, found), top),
    decreases current,
{
    let cur = smaller(larger(a.ll, a.rl), current - 1);
    let high = larger(cur, longest);
    if !(current <= 0 || cur < 2 || high - cur > x.max_length_diff) {
        let b = x.filled(pos, cur, Walk { queue: Seq::empty(), ..a });
        lemma_filled_below(x, pos, cur, Walk { queue: Seq::empty(), ..a }, top);
        if b.queue.len() > 0 {
            lemma_drained_below(b.queue, x.per_length(), cur, found, top);
            lemma_shorter_below(
                x,
                pos,
                Walk { queue: Seq::empty(), ..b },
                cur,
                high,
                drained(b.queue, x.per_length(), cur, found),
                top,
            );
        }
    }
}

/// A listed match lies within the input.
pub proof fn lemma_found_inside(f: &MatchFinder, d: Seq<u8>, pc: ParseConfig, pos: int, k: int)
    requires
        f.is_for(d, pc),
        0 <= pos < d.len(),
        0 <= k < f.found_at(pos).len(),
    ensures
        pos + f.found_at(pos)[k].len <= d.len(),
{
    let x = f.index();
    let lcp = f.lcp@;
    let i = x.inv[pos] as int;
    let top = d.len() - pos;
    assert(x.sa[i] == pos);
    let max = usize::MAX as int;
    let l = x.left_of(pos, i, max, x.patience);
    let r = x.right_of(pos, i, max, x.patience);
    lemma_left_least(x, pos, i, max, x.patience);
    lemma_right_least(x, pos, i, max, x.patience);
    if x.patience > 0 && i > 0 {
        assert(x.lcp[i - 1] == lcp[i - 1]);
        assert(suffix::is_common(d, x.sa[i - 1] as int, x.sa[i] as int, lcp[i - 1] as int));
        lemma_left_below(x, pos, i - 1, smaller(x.lcp[i - 1] as int, max), x.patience - 1);
    }
    if x.patience > 0 && i + 1 < x.sa.len() {
        assert(x.lcp[i] == lcp[i]);
        assert(suffix::is_common(d, x.sa[i] as int, x.sa[i + 1] as int, lcp[i] as int));
        lemma_right_below(x, pos, i + 1, smaller(x.lcp[i] as int, max), x.patience - 1);
    }
    lemma_shorter_below(
        x,
        pos,
        Walk { li: l.0, ll: l.1, ri: r.0, rl: r.1, queue: Seq::empty() },
        max,
        0,
        Seq::empty(),
        top,
    );
}

/// Where the bytes at `pos` occur earlier, for `len` bytes from two on, and fewer
/// later places than the patience have them too, a match is listed, and the first one
/// is as long.
pub proof fn lemma_repeats_are_found(
    f: &MatchFinder,
    d: Seq<u8>,
    pc: ParseConfig,
    pos: int,
    q: int,
    len: int,
)
    requires
        f.is_for(d, pc),
        0 <= q < pos < d.len(),
        len >= 2,
        lz::is_match(d, pos, pos - q, len),
        suffix::later_places(d, pos, len).len() < pc.patience,
        pc.max_queue_size > 0,
    ensures
        f.found_at(pos).len() > 0,
        f.found_at(pos)[0].len >= len,
{
    let x = f.index();
    let lcp = f.lcp@;
    let (i, k) = (x.inv[pos] as int, x.inv[q] as int);
    assert(x.sa[i] == pos && x.sa[k] == q);
    suffix::lemma_match_same(d, pos, q, len);
    let max = usize::MAX as int;
    let l = x.left_of(pos, i, max, x.patience);
    let r = x.right_of(pos, i, max, x.patience);
    lemma_left_short(x, d, lcp, pos, i, max, x.patience);
    lemma_right_short(x, d, lcp, pos, i, max, x.patience);
    if k < i {
        lemma_left_meets(x, d, lcp, pos, i, i, k, max, x.patience, len);
    } else {
        assert(k != i);
        lemma_right_meets(x, d, lcp, pos, i, i, k, max, x.patience, len);
    }
    let a = Walk { li: l.0, ll: l.1, ri: r.0, rl: r.1, queue: Seq::empty() };
    let cur = smaller(larger(a.ll, a.rl), max - 1);
    assert(cur >= len && (a.ll == cur || a.rl == cur));
    let b = x.filled(pos, cur, a);
    let one = x.right_on(pos, cur, x.left_on(pos, cur, a));
    lemma_filled_grows(x, pos, cur, one);
    assert(one.queue.len() > 0);
    assert(b.queue.len() > 0);
    let more = drained(b.queue, x.per_length(), cur, Seq::empty());
    lemma_drained_keeps(b.queue, x.per_length(), cur, Seq::empty());
    lemma_shorter_keeps(x, pos, Walk { queue: Seq::empty(), ..b }, cur, cur, more);
    let all = f.found_at(pos);
    assert(all == x.shorter(pos, Walk { queue: Seq::empty(), ..b }, cur, cur, more));
    assert(all.take(more.len() as int)[0] == all[0]);
}

/// Takes the largest number out of a list.
fn take_largest(queue: &mut Vec<usize>) -> (v: usize)
    requires
        old(queue)@.len() > 0,
    ensures
        ({
            let m = first_max(old(queue)@, old(queue)@.len() as int);
            &&& 0 <= m < old(queue)@.len()
            &&& v == old(queue)@[m]
            &&& final(queue)@ == old(queue)@.remove(m)
        }),
{
    let n: usize = queue.len();
    let mut best: usize = 0;
    let mut i: usize = 1;
    while i < n
        invariant
            n == queue@.len(),
            1 <= i <= n,
            best < i,
            best == first_max(queue@, i as int),
        decreases n - i,
    {
        if queue[i] > queue[best] {
            best = i;
        }
        i += 1;
    }
    queue.remove(best)
}

// ---------------------------------------------------------------------------
// Prices
// ---------------------------------------------------------------------------
/// One bit of price.
pub const BIT: u64 = 65536;

/// Where `y` is `one` or more: `y` halved until it is below twice `one`, at most 9
/// times from `k` on, and how often.
pub open spec fn halved(y: int, k: int) -> (int, int)
    decreases 9 - k,
{
    if y >= 0x8000_0000 && k < 9 {
        halved(y / 2, k + 1)
    } else {
        (y, k)
    }
}

/// The logarithm of `y / one`, in parts of `unit` and below, by squaring.
pub open spec fn log_parts(y: int, unit: int) -> int
    decreases unit,
{
    if unit <= 0 {
        0
    } else {
        let z = if y >= 0x8000_0000 {
            0x7fff_ffff
        } else {
            y
        };
        let q = (z * z) / 0x4000_0000;
        if q >= 0x8000_0000 {
            unit + log_parts(q / 2, unit / 2)
        } else {
            log_parts(q, unit / 2)
        }
    }
}

/// Bits of information, in 65536ths, of an event with probability `q` in
/// 256ths, to within rounding.
pub open spec fn info_of(q: int) -> int {
    let (y, k) = halved(0x40_0000_0000int / q, 0);
    k * BIT + log_parts(y, BIT as int / 2)
}

proof fn lemma_log_parts(y: int, unit: int)
    ensures
        0 <= log_parts(y, unit),
        unit > 0 ==> log_parts(y, unit) < 2 * unit,
    decreases unit,
{
    if unit > 0 {
        let z = if y >= 0x8000_0000 {
            0x7fff_ffff
        } else {
            y
        };
        let q = (z * z) / 0x4000_0000;
        lemma_log_parts(q / 2, unit / 2);
        lemma_log_parts(q, unit / 2);
    }
}

fn log2_price(q: u32) -> (price: u64)
    requires
        1 <= q <= 256,
    ensures
        price == info_of(q as int),
        price < 10 * BIT,
{
    let one: u64 = 0x4000_0000;
    let mut y: u64 = (256 * one) / (q as u64);
    let mut price: u64 = 0;
    let mut k: u64 = 0;
    assert(y <= 256 * one) by (nonlinear_arith)
        requires
            y == (256 * one) / (q as int),
            q >= 1,
            one == 0x4000_0000,
    ;
    let ghost y0 = y as int;
    while y >= 2 * one && k < 9
        invariant
            one == 0x4000_0000,
            k <= 9,
            price == k * BIT,
            y <= 256 * one,
            halved(y0, 0) == halved(y as int, k as int),
        decreases 9 - k,
    {
        y = y / 2;
        k += 1;
        price = price + BIT;
    }
    let mut unit: u64 = BIT / 2;
    let base: u64 = price;
    proof {
        lemma_log_parts(y as int, unit as int);
    }
    let ghost goal = price + log_parts(y as int, unit as int);
    while unit > 0
        invariant
            one == 0x4000_0000,
            unit <= BIT / 2,
            base <= 9 * BIT,
            goal == price + log_parts(y as int, unit as int),
            goal < base + BIT,
        decreases unit,
    {
        proof {
            lemma_log_parts(y as int, unit as int);
        }
        if y >= 2 * one {
            y = 2 * one - 1;
        }
        assert(y * y <= 0x7fff_ffff * 0x7fff_ffff) by (nonlinear_arith)
            requires
                y <= 0x7fff_ffff,
        ;
        y = (y * y) / one;
        if y >= 2 * one {
            proof {
                lemma_log_parts(y as int / 2, unit as int / 2);
            }
            y = y / 2;
            price = price + unit;
        }
        unit = unit / 2;
    }
    price
}

/// The prices of a bit by its probability.
pub open spec fn info_table() -> Seq<u64> {
    Seq::new(
        257,
        |q: int|
            if q == 0 {
                (10 * BIT) as u64
            } else {
                info_of(q) as u64
            },
    )
}

fn price_table() -> (t: Vec<u64>)
    ensures
        t@ == info_table(),
{
    let mut t: Vec<u64> = Vec::with_capacity(257);
    t.push(10 * BIT);
    let mut q: u32 = 1;
    while q <= 256
        invariant
            1 <= q <= 257,
            t@.len() == q,
            forall|k: int| 0 <= k < q ==> #[trigger] t@[k] == info_table()[k],
        decreases 257 - q,
    {
        t.push(log2_price(q));
        q += 1;
    }
    assert(t@ =~= info_table());
    t
}

/// Price of a bit that is one with `p` of 256 chances.
fn price_bit(t: &Vec<u64>, p: u8, coded: bool) -> (price: u64)
    requires
        t@.len() == 257,
    ensures
        price == if coded {
            t@[p as int]
        } else {
            t@[256 - p]
        },
{
    if coded {
        t[p as usize]
    } else {
        t[256 - p as usize]
    }
}

// ---------------------------------------------------------------------------
// The bits of a token
// ---------------------------------------------------------------------------
/// The bits of a number, each with its context: for every bit below the leading
/// one a mark that there is one and the bit, and a mark at the end.
pub open spec fn len_bits(c: Config, i: int, v: int, k: int) -> Seq<(int, bool)>
    decreases 31 - k,
{
    if v >= 2 && k < 31 {
        seq![(i + 2 * k, c.continue_value_bit), (i + 2 * k + 1, v % 2 == 1)] + len_bits(
            c,
            i,
            v / 2,
            k + 1,
        )
    } else {
        seq![(i + 2 * k, !c.continue_value_bit)]
    }
}

/// The bits of a byte from bit `k` on, the highest first; those before it name
/// the context.
pub open spec fn byte_bits(base: int, node: int, rest: int, k: int) -> Seq<(int, bool)>
    decreases 8 - k,
{
    if k < 8 && node < 256 {
        if rest >= 128 {
            seq![(base + node, true)] + byte_bits(base, 2 * node + 1, 2 * (rest - 128), k + 1)
        } else {
            seq![(base + node, false)] + byte_bits(base, 2 * node, 2 * rest, k + 1)
        }
    } else {
        Seq::empty()
    }
}

/// The bits of a literal at `pos`.
pub open spec fn literal_bits(c: Config, pos: int, byte: u8) -> Seq<(int, bool)> {
    seq![(upkrstream::lit_base(c, pos), !c.is_match_bit)] + byte_bits(
        upkrstream::lit_base(c, pos),
        1,
        byte as int,
        0,
    )
}

/// The bits in front of the length of a match: that it is one, that its offset
/// is new or not, where that is open, and a new offset.
pub open spec fn offset_bits(c: Config, pos: int, offset: u32, last_offset: u32, prev: bool) -> Seq<(int, bool)> {
    let parity = c.parity_contexts as int;
    let first = seq![(upkrstream::lit_base(c, pos), c.is_match_bit)];
    let open = !prev && !c.no_repeated_offsets;
    let fresh = !open || offset != last_offset;
    let flag = if open {
        first.push((256 * parity, fresh == c.new_offset_bit))
    } else {
        first
    };
    if fresh {
        flag + len_bits(
            c,
            256 * parity + 1,
            if c.eof_in_length || offset == 0xffff_ffff {
                offset as int
            } else {
                offset + 1
            },
            0,
        )
    } else {
        flag
    }
}

/// The bits of a match at `pos`.
pub open spec fn match_bits(c: Config, pos: int, offset: u32, len: u32, last_offset: u32, prev: bool) -> Seq<(int, bool)> {
    offset_bits(c, pos, offset, last_offset, prev) + len_bits(
        c,
        256 * c.parity_contexts + 65,
        len as int,
        0,
    )
}

/// What the bits cost together in the state `ctx`.
pub open spec fn bits_price(t: Seq<u64>, c: Config, ctx: Seq<u8>, bits: Seq<(int, bool)>) -> nat
    decreases bits.len(),
{
    if bits.len() == 0 {
        0
    } else {
        let p = ctx[bits.last().0];
        bits_price(t, c, ctx, bits.drop_last()) + if bits.last().1 != c.invert_bit_encoding {
            t[p as int] as nat
        } else {
            t[256 - p] as nat
        }
    }
}

/// A price that may be too large to tell.
pub open spec fn capped_price(p: nat) -> nat {
    if p > u64::MAX {
        u64::MAX as nat
    } else {
        p
    }
}

/// The state after the bits.
pub open spec fn adapted(c: Config, ctx: Seq<u8>, bits: Seq<(int, bool)>) -> Seq<u8>
    decreases bits.len(),
{
    if bits.len() == 0 {
        ctx
    } else {
        upkrstream::ctx_update(
            c,
            adapted(c, ctx, bits.drop_last()),
            bits.last().0,
            bits.last().1 != c.invert_bit_encoding,
        )
    }
}

proof fn lemma_price_join(t: Seq<u64>, c: Config, ctx: Seq<u8>, a: Seq<(int, bool)>, b: Seq<(int, bool)>)
    ensures
        bits_price(t, c, ctx, a + b) == bits_price(t, c, ctx, a) + bits_price(t, c, ctx, b),
    decreases b.len(),
{
    if b.len() == 0 {
        assert(a + b =~= a);
    } else {
        assert((a + b).drop_last() =~= a + b.drop_last());
        lemma_price_join(t, c, ctx, a, b.drop_last());
    }
}

proof fn lemma_price_push(t: Seq<u64>, c: Config, ctx: Seq<u8>, a: Seq<(int, bool)>, x: (int, bool))
    ensures
        bits_price(t, c, ctx, a.push(x)) == bits_price(t, c, ctx, a) + if x.1
            != c.invert_bit_encoding {
            t[ctx[x.0] as int] as nat
        } else {
            t[256 - ctx[x.0]] as nat
        },
{
    assert(a.push(x).drop_last() =~= a);
}

pub proof fn lemma_adapted_join(c: Config, ctx: Seq<u8>, a: Seq<(int, bool)>, b: Seq<(int, bool)>)
    ensures
        adapted(c, ctx, a + b) == adapted(c, adapted(c, ctx, a), b),
    decreases b.len(),
{
    if b.len() == 0 {
        assert(a + b =~= a);
    } else {
        assert((a + b).drop_last() =~= a + b.drop_last());
        lemma_adapted_join(c, ctx, a, b.drop_last());
    }
}

pub proof fn lemma_adapted_push(c: Config, ctx: Seq<u8>, a: Seq<(int, bool)>, x: (int, bool))
    ensures
        adapted(c, ctx, a.push(x)) == upkrstream::ctx_update(
            c,
            adapted(c, ctx, a),
            x.0,
            x.1 != c.invert_bit_encoding,
        ),
{
    assert(a.push(x).drop_last() =~= a);
}

/// Price of a number.
fn price_len(t: &Vec<u64>, c: &Config, ctx: &Vec<u8>, i: usize, value: u32) -> (price: u64)
    requires
        t@.len() == 257,
        i + 64 <= ctx@.len(),
    ensures
        price == capped_price(bits_price(t@, *c, ctx@, len_bits(*c, i as int, value as int, 0))),
{
    let n: usize = ctx.len();
    let mut total: u64 = 0;
    let mut v: u32 = value;
    let mut k: usize = 0;
    let ghost mut done: Seq<(int, bool)> = Seq::empty();
    proof {
        assert(done + len_bits(*c, i as int, value as int, 0) =~= len_bits(
            *c,
            i as int,
            value as int,
            0,
        ));
    }
    while v >= 2 && k < 31
        invariant
            t@.len() == 257,
            n == ctx@.len(),
            i + 64 <= n,
            k <= 31,
            done + len_bits(*c, i as int, v as int, k as int) == len_bits(
                *c,
                i as int,
                value as int,
                0,
            ),
            total == capped_price(bits_price(t@, *c, ctx@, done)),
        decreases 31 - k,
    {
        let ghost d0 = done;
        let ghost x = (i + 2 * k, c.continue_value_bit);
        let ghost y = (i + 2 * k + 1, v % 2 == 1);
        proof {
            lemma_price_push(t@, *c, ctx@, done, x);
            lemma_price_push(t@, *c, ctx@, done.push(x), y);
            done = done.push(x).push(y);
            assert(done + len_bits(*c, i as int, (v / 2) as int, k + 1) =~= d0 + len_bits(
                *c,
                i as int,
                v as int,
                k as int,
            ));
        }
        total = total.saturating_add(
            price_bit(t, ctx[i + 2 * k], c.continue_value_bit != c.invert_bit_encoding),
        );
        total = total.saturating_add(
            price_bit(t, ctx[i + 2 * k + 1], (v % 2 == 1) != c.invert_bit_encoding),
        );
        v = v / 2;
        k += 1;
    }
    proof {
        let x = (i + 2 * k, !c.continue_value_bit);
        lemma_price_push(t@, *c, ctx@, done, x);
        assert(done.push(x) =~= done + len_bits(*c, i as int, v as int, k as int));
    }
    total.saturating_add(
        price_bit(t, ctx[i + 2 * k], !c.continue_value_bit != c.invert_bit_encoding),
    )
}

/// A way to get to a position: its last token, its price, and what the coder
/// has adapted to.
struct Arrival {
    node: usize,
    price: u64,
    last_offset: u32,
    prev: bool,
    ctx: Vec<u8>,
}

/// Price of a match from an arrival at `pos`.
fn price_match(t: &Vec<u64>, c: &Config, a: &Arrival, pos: usize, offset: u32, len: u32) -> (price: u64)
    requires
        t@.len() == 257,
        upkrstream::config_wf(*c),
        upkrstream::ctx_ok(*c, a.ctx@),
    ensures
        price == capped_price(
            bits_price(
                t@,
                *c,
                a.ctx@,
                match_bits(*c, pos as int, offset, len, a.last_offset, a.prev),
            ),
        ),
{
    let parity: usize = c.parity_contexts;
    proof {
        upkrstream::lemma_lit_base(*c, pos as int);
    }
    let base: usize = (pos % parity) * 256;
    let ghost first = seq![(upkrstream::lit_base(*c, pos as int), c.is_match_bit)];
    let ghost ob = offset_bits(*c, pos as int, offset, a.last_offset, a.prev);
    proof {
        lemma_price_push(t@, *c, a.ctx@, Seq::empty(), first[0]);
        assert(Seq::empty().push(first[0]) =~= first);
        assert(base == upkrstream::lit_base(*c, pos as int));
    }
    let mut total: u64 = price_bit(t, a.ctx[base], c.is_match_bit != c.invert_bit_encoding);
    let mut fresh: bool = true;
    let ghost mut flag = first;
    if !a.prev && !c.no_repeated_offsets {
        fresh = offset != a.last_offset;
        proof {
            flag = first.push((256 * parity, fresh == c.new_offset_bit));
            lemma_price_push(t@, *c, a.ctx@, first, (256 * parity, fresh == c.new_offset_bit));
        }
        total = total.saturating_add(
            price_bit(
                t,
                a.ctx[256 * parity],
                (fresh == c.new_offset_bit) != c.invert_bit_encoding,
            ),
        );
    }
    if fresh {
        let v: u32 = if c.eof_in_length || offset == 0xffff_ffff {
            offset
        } else {
            offset + 1
        };
        proof {
            lemma_price_join(
                t@,
                *c,
                a.ctx@,
                flag,
                len_bits(*c, 256 * parity + 1, v as int, 0),
            );
        }
        total = total.saturating_add(price_len(t, c, &a.ctx, 256 * parity + 1, v));
    }
    proof {
        assert(total == capped_price(bits_price(t@, *c, a.ctx@, ob)));
        lemma_price_join(t@, *c, a.ctx@, ob, len_bits(*c, 256 * parity + 65, len as int, 0));
    }
    total.saturating_add(price_len(t, c, &a.ctx, 256 * parity + 65, len))
}

/// Price of a literal byte.
fn price_literal(t: &Vec<u64>, c: &Config, ctx: &Vec<u8>, pos: usize, byte: u8) -> (price: u64)
    requires
        t@.len() == 257,
        upkrstream::config_wf(*c),
        upkrstream::ctx_ok(*c, ctx@),
    ensures
        price == capped_price(bits_price(t@, *c, ctx@, literal_bits(*c, pos as int, byte))),
{
    proof {
        upkrstream::lemma_lit_base(*c, pos as int);
    }
    let base: usize = (pos % c.parity_contexts) * 256;
    let n: usize = ctx.len();
    let ghost all = literal_bits(*c, pos as int, byte);
    let ghost mut done = seq![(base as int, !c.is_match_bit)];
    proof {
        lemma_price_push(t@, *c, ctx@, Seq::empty(), done[0]);
        assert(Seq::empty().push(done[0]) =~= done);
        assert(base == upkrstream::lit_base(*c, pos as int));
    }
    let mut total: u64 = price_bit(t, ctx[base], !c.is_match_bit != c.invert_bit_encoding);
    let mut node: usize = 1;
    let mut rest: u8 = byte;
    let mut k: usize = 0;
    while k < 8 && node < 256
        invariant
            t@.len() == 257,
            n == ctx@.len(),
            base + 256 <= n,
            1 <= node <= 511,
            k <= 8,
            done + byte_bits(base as int, node as int, rest as int, k as int) == all,
            total == capped_price(bits_price(t@, *c, ctx@, done)),
        decreases 8 - k,
    {
        let bit: bool = rest >= 128;
        let ghost d0 = done;
        let ghost tail = byte_bits(base as int, node as int, rest as int, k as int);
        proof {
            lemma_price_push(t@, *c, ctx@, done, (base + node, bit));
            done = done.push((base + node, bit));
        }
        total = total.saturating_add(price_bit(t, ctx[base + node], bit != c.invert_bit_encoding));
        node = 2 * node + if bit {
            1
        } else {
            0
        };
        rest = if bit {
            2 * (rest - 128)
        } else {
            2 * rest
        };
        k += 1;
        assert(done + byte_bits(base as int, node as int, rest as int, k as int) =~= d0 + tail);
    }
    assert(done + byte_bits(base as int, node as int, rest as int, k as int) =~= done);
    total
}

// ---------------------------------------------------------------------------
// Adapting
// ---------------------------------------------------------------------------
/// Adapts context `i` to a bit.
fn adapt(c: &Config, ctx: &mut Vec<u8>, i: usize, bit: bool)
    requires
        upkrstream::ctx_ok(*c, old(ctx)@),
        i < old(ctx)@.len(),
    ensures
        upkrstream::ctx_ok(*c, final(ctx)@),
        final(ctx)@ == upkrstream::ctx_update(
            *c,
            old(ctx)@,
            i as int,
            bit != c.invert_bit_encoding,
        ),
{
    let ghost ctx0 = ctx@;
    let p: u8 = ctx[i];
    assert(ctx@[i as int] >= 1);
    ctx.set(i, next_prob(p, bit != c.invert_bit_encoding, c.simplified_prob_update));
    assert forall|k: int| 0 <= k < ctx@.len() implies 1 <= #[trigger] ctx@[k] by {
        if k != i {
            assert(ctx@[k] == ctx0[k]);
        }
    }
}

/// Adapts to a number.
fn adapt_len(c: &Config, ctx: &mut Vec<u8>, i: usize, value: u32)
    requires
        upkrstream::ctx_ok(*c, old(ctx)@),
        i + 64 <= old(ctx)@.len(),
    ensures
        upkrstream::ctx_ok(*c, final(ctx)@),
        final(ctx)@.len() == old(ctx)@.len(),
        final(ctx)@ == adapted(*c, old(ctx)@, len_bits(*c, i as int, value as int, 0)),
{
    let n: usize = ctx.len();
    let ghost ctx0 = ctx@;
    let mut v: u32 = value;
    let mut k: usize = 0;
    let ghost mut done: Seq<(int, bool)> = Seq::empty();
    proof {
        assert(done + len_bits(*c, i as int, value as int, 0) =~= len_bits(
            *c,
            i as int,
            value as int,
            0,
        ));
    }
    while v >= 2 && k < 31
        invariant
            upkrstream::ctx_ok(*c, ctx@),
            n == ctx@.len(),
            i + 64 <= n,
            k <= 31,
            done + len_bits(*c, i as int, v as int, k as int) == len_bits(
                *c,
                i as int,
                value as int,
                0,
            ),
            ctx@ == adapted(*c, ctx0, done),
        decreases 31 - k,
    {
        let ghost d0 = done;
        let ghost x = (i + 2 * k, c.continue_value_bit);
        let ghost y = (i + 2 * k + 1, v % 2 == 1);
        proof {
            lemma_adapted_push(*c, ctx0, done, x);
            lemma_adapted_push(*c, ctx0, done.push(x), y);
            done = done.push(x).push(y);
            assert(done + len_bits(*c, i as int, (v / 2) as int, k + 1) =~= d0 + len_bits(
                *c,
                i as int,
                v as int,
                k as int,
            ));
        }
        adapt(c, ctx, i + 2 * k, c.continue_value_bit);
        adapt(c, ctx, i + 2 * k + 1, v % 2 == 1);
        v = v / 2;
        k += 1;
    }
    proof {
        let x = (i + 2 * k, !c.continue_value_bit);
        lemma_adapted_push(*c, ctx0, done, x);
        assert(done.push(x) =~= done + len_bits(*c, i as int, v as int, k as int));
    }
    adapt(c, ctx, i + 2 * k, !c.continue_value_bit);
}

/// Adapts to a match.
fn adapt_match(c: &Config, ctx: &mut Vec<u8>, pos: usize, offset: u32, len: u32, last_offset: u32, prev: bool)
    requires
        upkrstream::config_wf(*c),
        upkrstream::ctx_ok(*c, old(ctx)@),
    ensures
        upkrstream::ctx_ok(*c, final(ctx)@),
        final(ctx)@ == adapted(
            *c,
            old(ctx)@,
            match_bits(*c, pos as int, offset, len, last_offset, prev),
        ),
{
    let parity: usize = c.parity_contexts;
    let ghost ctx0 = ctx@;
    let ghost first = seq![(upkrstream::lit_base(*c, pos as int), c.is_match_bit)];
    let ghost ob = offset_bits(*c, pos as int, offset, last_offset, prev);
    proof {
        upkrstream::lemma_lit_base(*c, pos as int);
        lemma_adapted_push(*c, ctx0, Seq::empty(), first[0]);
        assert(Seq::empty().push(first[0]) =~= first);
        assert((pos % parity) * 256 == upkrstream::lit_base(*c, pos as int));
    }
    adapt(c, ctx, (pos % parity) * 256, c.is_match_bit);
    let mut fresh: bool = true;
    let ghost mut flag = first;
    if !prev && !c.no_repeated_offsets {
        fresh = offset != last_offset;
        proof {
            flag = first.push((256 * parity, fresh == c.new_offset_bit));
            lemma_adapted_push(*c, ctx0, first, (256 * parity, fresh == c.new_offset_bit));
        }
        adapt(c, ctx, 256 * parity, fresh == c.new_offset_bit);
    }
    if fresh {
        let v: u32 = if c.eof_in_length || offset == 0xffff_ffff {
            offset
        } else {
            offset + 1
        };
        proof {
            lemma_adapted_join(*c, ctx0, flag, len_bits(*c, 256 * parity + 1, v as int, 0));
        }
        adapt_len(c, ctx, 256 * parity + 1, v);
    }
    proof {
        assert(ctx@ == adapted(*c, ctx0, ob));
        lemma_adapted_join(*c, ctx0, ob, len_bits(*c, 256 * parity + 65, len as int, 0));
    }
    adapt_len(c, ctx, 256 * parity + 65, len);
}

/// Adapts to a literal byte.
fn adapt_literal(c: &Config, ctx: &mut Vec<u8>, pos: usize, byte: u8)
    requires
        upkrstream::config_wf(*c),
        upkrstream::ctx_ok(*c, old(ctx)@),
    ensures
        upkrstream::ctx_ok(*c, final(ctx)@),
        final(ctx)@ == adapted(*c, old(ctx)@, literal_bits(*c, pos as int, byte)),
{
    proof {
        upkrstream::lemma_lit_base(*c, pos as int);
    }
    let base: usize = (pos % c.parity_contexts) * 256;
    let n: usize = ctx.len();
    let ghost ctx0 = ctx@;
    let ghost all = literal_bits(*c, pos as int, byte);
    let ghost mut done = seq![(base as int, !c.is_match_bit)];
    proof {
        lemma_adapted_push(*c, ctx0, Seq::empty(), done[0]);
        assert(Seq::empty().push(done[0]) =~= done);
        assert(base == upkrstream::lit_base(*c, pos as int));
    }
    adapt(c, ctx, base, !c.is_match_bit);
    let mut node: usize = 1;
    let mut rest: u8 = byte;
    let mut k: usize = 0;
    while k < 8 && node < 256
        invariant
            upkrstream::ctx_ok(*c, ctx@),
            n == ctx@.len(),
            base + 256 <= n,
            1 <= node <= 511,
            k <= 8,
            done + byte_bits(base as int, node as int, rest as int, k as int) == all,
            ctx@ == adapted(*c, ctx0, done),
        decreases 8 - k,
    {
        let bit: bool = rest >= 128;
        let ghost d0 = done;
        let ghost tail = byte_bits(base as int, node as int, rest as int, k as int);
        proof {
            lemma_adapted_push(*c, ctx0, done, (base + node, bit));
            done = done.push((base + node, bit));
        }
        adapt(c, ctx, base + node, bit);
        node = 2 * node + if bit {
            1
        } else {
            0
        };
        rest = if bit {
            2 * (rest - 128)
        } else {
            2 * rest
        };
        k += 1;
        assert(done + byte_bits(base as int, node as int, rest as int, k as int) =~= d0 + tail);
    }
    assert(done + byte_bits(base as int, node as int, rest as int, k as int) =~= done);
}

// ---------------------------------------------------------------------------
// Tokens that lead somewhere
// ---------------------------------------------------------------------------
/// Marks the start.
const ROOT: usize = usize::MAX;

/// A token, the token before it, and where it ends.
#[derive(Clone, Copy)]
struct Node {
    prev: usize,
    op: Op,
    end: usize,
}

spec fn node_start(nodes: Seq<Node>, prev: usize) -> int {
    if prev == ROOT {
        0
    } else {
        nodes[prev as int].end as int
    }
}

spec fn node_ok(input: Seq<u8>, c: Config, nodes: Seq<Node>, i: int) -> bool {
    let x = nodes[i];
    &&& x.prev == ROOT || x.prev < i
    &&& upkrenc::op_ok(input, c, node_start(nodes, x.prev), x.op)
    &&& x.end == node_start(nodes, x.prev) + upkrenc::op_len(x.op)
    &&& x.end <= input.len()
}

spec fn nodes_ok(input: Seq<u8>, c: Config, nodes: Seq<Node>) -> bool {
    &&& nodes.len() <= usize::MAX
    &&& forall|i: int| 0 <= i < nodes.len() ==> #[trigger] node_ok(input, c, nodes, i)
}

/// The arrival is at `pos`.
spec fn arrival_ok(c: Config, nodes: Seq<Node>, pos: int, a: Arrival) -> bool {
    &&& upkrstream::ctx_ok(c, a.ctx@)
    &&& (a.node == ROOT && pos == 0) || (a.node < nodes.len() && nodes[a.node as int].end == pos)
    &&& a.last_offset <= pos
    &&& a.last_offset <= c.max_offset
}

spec fn arrivals_ok(c: Config, nodes: Seq<Node>, pos: int, list: Seq<Arrival>) -> bool {
    forall|k: int| 0 <= k < list.len() ==> arrival_ok(c, nodes, pos, #[trigger] list[k])
}

/// The arrivals at every position.
spec fn lists_ok(c: Config, nodes: Seq<Node>, lists: Seq<Vec<Arrival>>) -> bool {
    forall|q: int| 0 <= q < lists.len() ==> arrivals_ok(c, nodes, q, #[trigger] lists[q]@)
}

/// The tokens up to a node.
spec fn ops_of(nodes: Seq<Node>, i: usize) -> Seq<Op>
    decreases i,
{
    if i >= nodes.len() {
        Seq::empty()
    } else {
        let x = nodes[i as int];
        if x.prev < i {
            ops_of(nodes, x.prev).push(x.op)
        } else {
            Seq::empty().push(x.op)
        }
    }
}

/// What an arrival stands for.
spec fn way_of(nodes: Seq<Node>, a: Arrival) -> Way {
    Way {
        ops: ops_of(nodes, a.node),
        price: a.price,
        last: a.last_offset,
        prev: a.prev,
        ctx: a.ctx@,
    }
}

spec fn ways_of(nodes: Seq<Node>, list: Seq<Arrival>) -> Seq<Way> {
    Seq::new(list.len(), |k: int| way_of(nodes, list[k]))
}

/// The lowest price of a list.
spec fn floor_of(nodes: Seq<Node>, list: Seq<Arrival>) -> u64 {
    usearch::least(ways_of(nodes, list), list.len() as int)
}

/// `b` goes on where `a` ends.
spec fn begins_with(b: Seq<Node>, a: Seq<Node>) -> bool {
    a.len() <= b.len() && forall|i: int| 0 <= i < a.len() ==> #[trigger] b[i] == a[i]
}

proof fn lemma_ops_frame(a: Seq<Node>, b: Seq<Node>, i: usize)
    requires
        begins_with(b, a),
        i < a.len(),
    ensures
        ops_of(a, i) == ops_of(b, i),
    decreases i,
{
    assert(b[i as int] == a[i as int]);
    if a[i as int].prev < i {
        lemma_ops_frame(a, b, a[i as int].prev);
    }
}

proof fn lemma_way_frame(c: Config, a: Seq<Node>, b: Seq<Node>, pos: int, x: Arrival)
    requires
        begins_with(b, a),
        b.len() <= usize::MAX,
        arrival_ok(c, a, pos, x),
    ensures
        way_of(a, x) == way_of(b, x),
        arrival_ok(c, b, pos, x),
{
    if x.node < a.len() {
        assert(b[x.node as int] == a[x.node as int]);
        lemma_ops_frame(a, b, x.node);
    }
}

proof fn lemma_ways_frame(c: Config, a: Seq<Node>, b: Seq<Node>, pos: int, list: Seq<Arrival>)
    requires
        begins_with(b, a),
        b.len() <= usize::MAX,
        arrivals_ok(c, a, pos, list),
    ensures
        ways_of(a, list) == ways_of(b, list),
        arrivals_ok(c, b, pos, list),
{
    assert forall|k: int| 0 <= k < list.len() implies way_of(a, list[k]) == way_of(b, list[k])
        && arrival_ok(c, b, pos, #[trigger] list[k]) by {
        lemma_way_frame(c, a, b, pos, list[k]);
    }
    assert(ways_of(a, list) =~= ways_of(b, list));
}

proof fn lemma_push_node(input: Seq<u8>, c: Config, nodes: Seq<Node>, x: Node)
    requires
        nodes_ok(input, c, nodes),
        nodes.len() < usize::MAX,
        x.prev == ROOT || x.prev < nodes.len(),
        upkrenc::op_ok(input, c, node_start(nodes, x.prev), x.op),
        x.end == node_start(nodes, x.prev) + upkrenc::op_len(x.op),
        x.end <= input.len(),
    ensures
        nodes_ok(input, c, nodes.push(x)),
        begins_with(nodes.push(x), nodes),
        ops_of(nodes.push(x), nodes.len() as usize) == ops_of(nodes, x.prev).push(x.op),
{
    let e = nodes.push(x);
    assert forall|i: int| 0 <= i < e.len() implies #[trigger] node_ok(input, c, e, i) by {
        if i < nodes.len() {
            assert(e[i] == nodes[i]);
            assert(node_ok(input, c, nodes, i));
            if nodes[i].prev != ROOT {
                assert(e[nodes[i].prev as int] == nodes[nodes[i].prev as int]);
            }
        } else {
            if x.prev != ROOT {
                assert(e[x.prev as int] == nodes[x.prev as int]);
            }
        }
    }
    if x.prev != ROOT {
        lemma_ops_frame(nodes, e, x.prev);
    }
}

// ---------------------------------------------------------------------------
// Lists
// ---------------------------------------------------------------------------
/// The order of prices, cheapest first; of one price, in the order of the list.
#[verifier::rlimit(60)]
#[verifier::spinoff_prover]
fn order_by_price(list: &Vec<Arrival>, Ghost(nodes): Ghost<Seq<Node>>) -> (order: Vec<usize>)
    ensures
        order@ == usearch::price_order(ways_of(nodes, list@), list@.len() as int),
        forall|a: int, b: int|
            #![trigger order@[a], order@[b]]
            0 <= a < b < list@.len() ==> list@[order@[a] as int].price <= list@[order@[b] as int].price,
        forall|x: int| 0 <= x < list@.len() ==> order@.contains(#[trigger] (x as usize)),
        forall|k: int| 0 <= k < order@.len() ==> #[trigger] order@[k] < list@.len(),
        order@.len() == list@.len(),
        order@.no_duplicates(),
{
    let ghost w = ways_of(nodes, list@);
    let n: usize = list.len();
    let mut order: Vec<usize> = Vec::with_capacity(n);
    // The prices in the same order.
    let mut prices: Vec<u64> = Vec::with_capacity(n);
    let mut i: usize = 0;
    assert(order@ =~= usearch::price_order(w, 0));
    while i < n
        invariant
            n == list@.len(),
            w == ways_of(nodes, list@),
            i <= n,
            order@ == usearch::price_order(w, i as int),
            order@.len() == i,
            prices@.len() == i,
            forall|k: int| 0 <= k < i ==> #[trigger] prices@[k] == w[order@[k] as int].price,
            order@.no_duplicates(),
            forall|k: int| 0 <= k < i ==> #[trigger] order@[k] < i,
            forall|x: int| 0 <= x < i ==> order@.contains(#[trigger] (x as usize)),
            forall|a: int, b: int|
                #![trigger order@[a], order@[b]]
                0 <= a < b < i ==> w[order@[a] as int].price <= w[order@[b] as int].price,
        decreases n - i,
    {
        let ghost o = order@;
        let p: u64 = list[i].price;
        // The place is from `low` to `high`.
        let mut low: usize = 0;
        let mut high: usize = i;
        if i > 0 && prices[i - 1] <= p {
            low = i;
            assert forall|k: int| 0 <= k < low implies w[(#[trigger] o[k]) as int].price <= p by {
                assert(prices@[i - 1] == w[o[i - 1] as int].price);
                if k < i - 1 {
                    assert(w[o[k] as int].price <= w[o[i - 1] as int].price);
                }
            }
        }
        while low < high
            invariant
                n == list@.len(),
                w == ways_of(nodes, list@),
                low <= high <= i < n,
                o == order@,
                o.len() == i,
                prices@.len() == i,
                forall|k: int| 0 <= k < i ==> #[trigger] prices@[k] == w[o[k] as int].price,
                p == w[i as int].price,
                forall|k: int| 0 <= k < i ==> #[trigger] o[k] < n,
                forall|a: int, b: int|
                    #![trigger o[a], o[b]]
                    0 <= a < b < i ==> w[o[a] as int].price <= w[o[b] as int].price,
                forall|k: int| 0 <= k < low ==> w[(#[trigger] o[k]) as int].price <= p,
                forall|k: int| high <= k < i ==> w[(#[trigger] o[k]) as int].price > p,
            decreases high - low,
        {
            let mid: usize = low + (high - low) / 2;
            assert(prices@[mid as int] == w[o[mid as int] as int].price);
            if prices[mid] > p {
                high = mid;
            } else {
                low = mid + 1;
            }
        }
        proof {
            usearch::lemma_order_at(w, o, i, low as int);
        }
        let ghost before = prices@;
        order.insert(low, i);
        prices.insert(low, p);
        proof {
            let q = order@;
            assert(q == o.insert(low as int, i));
            assert forall|k: int| 0 <= k < i + 1 implies #[trigger] prices@[k] == w[q[k] as int].price by {
                if k < low {
                    assert(prices@[k] == before[k]);
                } else if k > low {
                    assert(prices@[k] == before[k - 1]);
                }
            }
            assert forall|x: int| 0 <= x < i + 1 implies q.contains(#[trigger] (x as usize)) by {
                if x == i {
                    assert(q[low as int] == x as usize);
                } else {
                    assert(o.contains(x as usize));
                    let k = choose|k: int| 0 <= k < o.len() && o[k] == x as usize;
                    assert(q[if k < low {
                        k
                    } else {
                        k + 1
                    }] == x as usize);
                }
            }
            assert forall|a: int, b: int| 0 <= a < q.len() && 0 <= b < q.len() && a != b implies q[a]
                != q[b] by {
                let x = if a < low {
                    a
                } else {
                    a - 1
                };
                let y = if b < low {
                    b
                } else {
                    b - 1
                };
                if a != low {
                    assert(q[a] == o[x] && o[x] < i);
                }
                if b != low {
                    assert(q[b] == o[y] && o[y] < i);
                }
                if a != low && b != low {
                    assert(o[x] != o[y]);
                }
            }
            assert forall|k: int| 0 <= k < i + 1 implies #[trigger] q[k] < i + 1 by {
                if k < low {
                    assert(q[k] == o[k]);
                } else if k > low {
                    assert(q[k] == o[k - 1]);
                }
            }
            assert forall|a: int, b: int|
                #![trigger q[a], q[b]]
                0 <= a < b < i + 1 implies w[q[a] as int].price <= w[q[b] as int].price by {
                if a < low {
                    assert(q[a] == o[a]);
                } else if a > low {
                    assert(q[a] == o[a - 1]);
                }
                if b < low {
                    assert(q[b] == o[b]);
                } else if b > low {
                    assert(q[b] == o[b - 1]);
                }
            }
        }
        i += 1;
    }
    order
}

/// No number stands twice in two lists that are made of the first `k` of an order.
spec fn apart(order: Seq<usize>, k: int, a: Seq<usize>, b: Seq<usize>) -> bool {
    &&& a.no_duplicates()
    &&& b.no_duplicates()
    &&& forall|i: int, j: int| 0 <= i < a.len() && 0 <= j < b.len() ==> a[i] != b[j]
    &&& forall|i: int| 0 <= i < a.len() ==> order.take(k).contains(#[trigger] a[i])
    &&& forall|i: int| 0 <= i < b.len() ==> order.take(k).contains(#[trigger] b[i])
}

proof fn lemma_apart(order: Seq<usize>, k: int, a: Seq<usize>, b: Seq<usize>)
    requires
        0 <= k < order.len(),
        order.no_duplicates(),
        apart(order, k, a, b),
    ensures
        apart(order, k + 1, a, b),
        apart(order, k + 1, a.push(order[k]), b),
        apart(order, k + 1, a, b.push(order[k])),
{
    let (s, t) = (order.take(k), order.take(k + 1));
    assert(t =~= s.push(order[k]));
    assert forall|v: usize| #[trigger] s.contains(v) implies t.contains(v) && v != order[k] by {
        let i = choose|i: int| 0 <= i < s.len() && s[i] == v;
        assert(t[i] == v);
        assert(order[i] == v);
    }
    assert(t[k] == order[k]);
    assert(t.contains(order[k]));
    let (x, y) = (a.push(order[k]), b.push(order[k]));
    assert forall|i: int| 0 <= i < a.len() implies a[i] != order[k] && t.contains(#[trigger] a[i]) by {
        assert(s.contains(a[i]));
    }
    assert forall|i: int| 0 <= i < b.len() implies b[i] != order[k] && t.contains(#[trigger] b[i]) by {
        assert(s.contains(b[i]));
    }
    assert(x.no_duplicates());
    assert(y.no_duplicates());
}

proof fn lemma_picks_differ(order: Seq<usize>, k: int, a: Seq<usize>, b: Seq<usize>, j: int)
    requires
        apart(order, k, a, b),
        0 <= j <= b.len(),
    ensures
        (a + b.take(j)).no_duplicates(),
{
    let c = a + b.take(j);
    assert forall|x: int, y: int| 0 <= x < c.len() && 0 <= y < c.len() && x != y implies c[x]
        != c[y] by {
        if x < a.len() && y < a.len() {
            assert(a[x] != a[y]);
        } else if x >= a.len() && y >= a.len() {
            assert(b[x - a.len()] != b[y - a.len()]);
        } else if x < a.len() {
            assert(a[x] != b[y - a.len()]);
        } else {
            assert(a[y] != b[x - a.len()]);
        }
    }
}

/// The arrivals that stay where at most `max` may.
#[verifier::rlimit(40)]
fn cut_arrivals(
    list: Vec<Arrival>,
    max: usize,
    seen: &mut Vec<bool>,
    Ghost(c): Ghost<Config>,
    Ghost(nodes): Ghost<Seq<Node>>,
    Ghost(pos): Ghost<int>,
) -> (out: Vec<Arrival>)
    requires
        arrivals_ok(c, nodes, pos, list@),
        list@.len() > 0,
        max >= 1,
        pos < old(seen)@.len(),
        forall|x: int| 0 <= x < old(seen)@.len() ==> !#[trigger] old(seen)@[x],
    ensures
        final(seen)@.len() == old(seen)@.len(),
        forall|x: int| 0 <= x < final(seen)@.len() ==> !#[trigger] final(seen)@[x],
        arrivals_ok(c, nodes, pos, out@),
        out@.len() > 0,
        ways_of(nodes, out@) == usearch::cut(ways_of(nodes, list@), max as int),
        floor_of(nodes, out@) == floor_of(nodes, list@),
{
    let ghost w = ways_of(nodes, list@);
    let order: Vec<usize> = order_by_price(&list, Ghost(nodes));
    let n: usize = list.len();
    proof {
        usearch::lemma_price_order(w, n as int);
        assert forall|a: int, b: int|
            #![trigger order@[a], order@[b]]
            0 <= a < b < n implies w[order@[a] as int].price <= w[order@[b] as int].price by {
            assert(order@[a] < n && order@[b] < n);
        }
    }
    let mut picks: Vec<usize> = Vec::with_capacity(n);
    let mut later: Vec<usize> = Vec::new();
    let mut k: usize = 0;
    assert(picks@ =~= usearch::firsts(w, order@, 0, max as int));
    assert(later@ =~= usearch::seconds(w, order@, 0));
    while k < n
        invariant
            n == order@.len(),
            n == list@.len(),
            w == ways_of(nodes, list@),
            k <= n,
            max >= 1,
            arrivals_ok(c, nodes, pos, list@),
            seen@.len() == old(seen)@.len(),
            pos < seen@.len(),
            forall|x: int|
                0 <= x < seen@.len() ==> #[trigger] seen@[x] == usearch::met(
                    w,
                    order@,
                    0,
                    k as int,
                    x,
                ),
            k > 0 ==> picks@.len() > 0,
            picks@.len() <= max,
            picks@ == usearch::firsts(w, order@, k as int, max as int),
            later@ == usearch::seconds(w, order@, k as int),
            order@.no_duplicates(),
            apart(order@, k as int, picks@, later@),
            forall|j: int| 0 <= j < n ==> #[trigger] order@[j] < n,
            forall|j: int| 0 <= j < picks@.len() ==> #[trigger] picks@[j] < n,
            forall|j: int| 0 <= j < later@.len() ==> #[trigger] later@[j] < n,
        decreases n - k,
    {
        let i: usize = order[k];
        assert(order@[k as int] < n);
        assert(arrival_ok(c, nodes, pos, list@[i as int]));
        assert(w[i as int].last == list@[i as int].last_offset);
        let off: usize = list[i].last_offset as usize;
        let second: bool = seen[off];
        assert(second == usearch::met(w, order@, 0, k as int, off as int));
        seen.set(off, true);
        proof {
            assert forall|x: int| 0 <= x < seen@.len() implies #[trigger] seen@[x] == usearch::met(
                w,
                order@,
                0,
                k + 1,
                x,
            ) by {
                usearch::lemma_met_more(w, order@, k as int, x);
            }
        }
        proof {
            lemma_apart(order@, k as int, picks@, later@);
        }
        if second {
            later.push(i);
        } else if picks.len() < max {
            picks.push(i);
        }
        k += 1;
    }
    k = 0;
    while k < n
        invariant
            n == order@.len(),
            n == list@.len(),
            w == ways_of(nodes, list@),
            k <= n,
            arrivals_ok(c, nodes, pos, list@),
            seen@.len() == old(seen)@.len(),
            pos < seen@.len(),
            forall|j: int| 0 <= j < n ==> #[trigger] order@[j] < n,
            forall|x: int|
                0 <= x < seen@.len() && #[trigger] seen@[x] ==> usearch::met(
                    w,
                    order@,
                    k as int,
                    n as int,
                    x,
                ),
        decreases n - k,
    {
        assert(order@[k as int] < n);
        let i: usize = order[k];
        assert(arrival_ok(c, nodes, pos, list@[i as int]));
        assert(w[i as int].last == list@[i as int].last_offset);
        let ghost s0 = seen@;
        seen.set(list[i].last_offset as usize, false);
        proof {
            assert forall|x: int| 0 <= x < seen@.len() && #[trigger] seen@[x] implies usearch::met(
                w,
                order@,
                k + 1,
                n as int,
                x,
            ) by {
                assert(s0[x]);
                usearch::lemma_met_less(w, order@, k as int, n as int, x);
            }
        }
        k += 1;
    }
    let ghost a = picks@;
    assert(apart(order@, n as int, a, later@));
    let mut j: usize = 0;
    assert(a + later@.take(0) =~= a);
    while j < later.len() && picks.len() < max
        invariant
            j <= later@.len(),
            picks@.len() <= max,
            picks@.len() > 0,
            a.len() <= max,
            picks@ == a + later@.take(j as int),
            forall|i: int| 0 <= i < picks@.len() ==> #[trigger] picks@[i] < n,
            forall|i: int| 0 <= i < later@.len() ==> #[trigger] later@[i] < n,
        decreases later@.len() - j,
    {
        assert(later@[j as int] < n);
        let ghost p0 = picks@;
        picks.push(later[j]);
        assert(picks@ =~= a + later@.take(j + 1));
        j += 1;
    }
    proof {
        assert(later@.take(later@.len() as int) =~= later@);
        assert(picks@ =~= usearch::topped_up(a, later@, max as int));
    }
    let count: usize = picks.len();
    let ghost all = list@;
    let mut rest: Vec<Arrival> = list;
    let mut out: Vec<Arrival> = Vec::with_capacity(count);
    let mut p: usize = 0;
    proof {
        lemma_picks_differ(order@, n as int, a, later@, j as int);
    }
    while p < count
        invariant
            count == picks@.len(),
            n == all.len(),
            n == rest@.len(),
            w == ways_of(nodes, all),
            p <= count,
            out@.len() == p,
            picks@.no_duplicates(),
            forall|i: int| 0 <= i < picks@.len() ==> #[trigger] picks@[i] < n,
            forall|i: int|
                p <= i < picks@.len() ==> rest@[(#[trigger] picks@[i]) as int] == all[picks@[i] as int],
            arrivals_ok(c, nodes, pos, all),
            arrivals_ok(c, nodes, pos, out@),
            forall|k: int| 0 <= k < p ==> #[trigger] out@[k] == all[picks@[k] as int],
        decreases count - p,
    {
        assert(picks@[p as int] < n);
        assert(arrival_ok(c, nodes, pos, all[picks@[p as int] as int]));
        let mut x: Arrival = Arrival {
            node: ROOT,
            price: 0,
            last_offset: 0,
            prev: false,
            ctx: Vec::new(),
        };
        std::mem::swap(&mut x, &mut rest[picks[p]]);
        out.push(x);
        p += 1;
        assert forall|i: int| p <= i < picks@.len() implies rest@[(#[trigger] picks@[i]) as int]
            == all[picks@[i] as int] by {
            assert(picks@[i] != picks@[p - 1]);
        }
    }
    assert(ways_of(nodes, out@) =~= usearch::cut(w, max as int));
    proof {
        let c = usearch::cut(w, max as int);
        assert forall|k: int| 0 <= k < c.len() implies w.contains(#[trigger] c[k]) by {
            assert(c[k] == w[picks@[k] as int]);
        }
        usearch::lemma_cut_least(w, max as int);
    }
    out
}

// ---------------------------------------------------------------------------
// Search
// ---------------------------------------------------------------------------
/// How hard to search.
pub struct ParseConfig {
    pub max_arrivals: usize,
    pub max_cost_delta: u64,
    pub max_offset_cost_delta: u64,
    pub num_near_matches: usize,
    pub greedy_size: usize,
    pub max_queue_size: usize,
    pub patience: usize,
    pub max_matches_per_length: usize,
    pub max_length_diff: usize,
}

pub open spec fn arrivals_of(level: u8) -> int {
    if level <= 1 {
        0
    } else if level == 2 {
        2
    } else if level == 3 {
        4
    } else if level == 4 {
        8
    } else if level == 5 {
        16
    } else if level == 6 {
        32
    } else if level == 7 {
        64
    } else if level == 8 {
        96
    } else {
        128
    }
}

/// How hard a level of the search looks.
pub open spec fn config_of(level: u8) -> ParseConfig {
    ParseConfig {
        max_arrivals: arrivals_of(level) as usize,
        max_cost_delta: (16 * BIT) as u64,
        max_offset_cost_delta: if level <= 4 {
            0
        } else if level <= 8 {
            (4 * BIT) as u64
        } else {
            (8 * BIT) as u64
        },
        num_near_matches: if level == 0 {
            0
        } else {
            (level - 1) as usize
        },
        greedy_size: (4 + 3 * (level * level)) as usize,
        max_queue_size: (100 * level) as usize,
        patience: (100 * level) as usize,
        max_matches_per_length: level as usize,
        max_length_diff: if level <= 1 {
            0
        } else if level <= 3 {
            1
        } else if level <= 5 {
            2
        } else if level <= 7 {
            3
        } else {
            4
        },
    }
}

impl ParseConfig {
    pub fn from_level(level: u8) -> (p: ParseConfig)
        ensures
            p == config_of(level),
            level <= 1 ==> p.max_arrivals == 0,
            level == 2 ==> p.max_arrivals == 2,
            level == 3 ==> p.max_arrivals == 4,
            level == 4 ==> p.max_arrivals == 8,
            level == 5 ==> p.max_arrivals == 16,
            level == 6 ==> p.max_arrivals == 32,
            level == 7 ==> p.max_arrivals == 64,
            level == 8 ==> p.max_arrivals == 96,
            level >= 9 ==> p.max_arrivals == 128,
            p.max_cost_delta == 16 * BIT,
            level <= 4 ==> p.max_offset_cost_delta == 0,
            5 <= level <= 8 ==> p.max_offset_cost_delta == 4 * BIT,
            level >= 9 ==> p.max_offset_cost_delta == 8 * BIT,
            level >= 1 ==> p.num_near_matches == level - 1,
            p.greedy_size == 4 + 3 * (level * level),
            p.max_queue_size == 100 * level,
            p.patience == 100 * level,
            p.max_matches_per_length == level,
            level < 10 ==> p.max_length_diff == level / 2 || level == 1 && p.max_length_diff == 0,
            level >= 10 ==> p.max_length_diff == 4,
    {
        let max_arrivals: usize = if level <= 1 {
            0
        } else if level == 2 {
            2
        } else if level == 3 {
            4
        } else if level == 4 {
            8
        } else if level == 5 {
            16
        } else if level == 6 {
            32
        } else if level == 7 {
            64
        } else if level == 8 {
            96
        } else {
            128
        };
        let max_offset_cost_delta: u64 = if level <= 4 {
            0
        } else if level <= 8 {
            4 * BIT
        } else {
            8 * BIT
        };
        let max_length_diff: usize = if level <= 1 {
            0
        } else if level <= 3 {
            1
        } else if level <= 5 {
            2
        } else if level <= 7 {
            3
        } else {
            4
        };
        let l: usize = level as usize;
        assert(l * l <= 65025) by (nonlinear_arith)
            requires
                l <= 255,
        ;
        ParseConfig {
            max_arrivals,
            max_cost_delta: 16 * BIT,
            max_offset_cost_delta,
            num_near_matches: if level == 0 {
                0
            } else {
                l - 1
            },
            greedy_size: 4 + 3 * (l * l),
            max_queue_size: 100 * l,
            patience: 100 * l,
            max_matches_per_length: l,
            max_length_diff,
        }
    }
}

struct Parser {
    c: Config,
    table: Vec<u64>,
    nodes: Vec<Node>,
    lists: Vec<Vec<Arrival>>,
    /// The lowest price at each position.
    best: Vec<u64>,
    /// Offsets that were met; between two uses none.
    seen: Vec<bool>,
    max_delta: u64,
    max_arrivals: usize,
}

impl Parser {
    spec fn ok(&self, input: Seq<u8>) -> bool {
        &&& upkrstream::config_wf(self.c)
        &&& upkrstream::min_len(self.c) <= self.c.max_length
        &&& input.len() <= MAX_TEXT
        &&& self.table@.len() == 257
        &&& nodes_ok(input, self.c, self.nodes@)
        &&& self.lists@.len() == input.len() + 1
        &&& lists_ok(self.c, self.nodes@, self.lists@)
        &&& self.best@.len() == input.len() + 1
        &&& forall|q: int|
            0 <= q < self.lists@.len() ==> floor_of(self.nodes@, (#[trigger] self.lists@[q])@)
                == self.best@[q] && (self.max_arrivals == 0 ==> self.lists@[q]@.len() <= 1)
        &&& self.seen@.len() == input.len() + 1
        &&& forall|x: int| 0 <= x < self.seen@.len() ==> !#[trigger] self.seen@[x]
    }

    /// The ways to every position.
    spec fn ways(&self) -> Seq<Seq<Way>> {
        Seq::new(self.lists@.len(), |q: int| ways_of(self.nodes@, self.lists@[q]@))
    }

    /// What the search is about.
    spec fn scene(&self, input: Seq<u8>, pc: ParseConfig) -> Scene {
        Scene { d: input, c: self.c, t: self.table@, pc }
    }

    /// Positions with arrivals keep some, and tokens stay.
    spec fn grows(&self, o: &Self) -> bool {
        &&& self.c == o.c
        &&& self.table == o.table
        &&& self.max_arrivals == o.max_arrivals
        &&& self.max_delta == o.max_delta
        &&& self.lists@.len() == o.lists@.len()
        &&& begins_with(self.nodes@, o.nodes@)
        &&& forall|q: int|
            0 <= q < o.lists@.len() && (#[trigger] o.lists@[q])@.len() > 0 ==> self.lists@[q]@.len()
                > 0
    }

    /// What is searched for is `pc`.
    spec fn goes_by(&self, pc: ParseConfig) -> bool {
        self.max_arrivals == pc.max_arrivals && self.max_delta == pc.max_cost_delta
    }

    /// Whether an arrival at `pos` of this price is listed.
    spec fn lists_at(&self, pos: int, price: u64) -> bool {
        if self.max_arrivals == 0 {
            self.lists@[pos]@.len() == 0 || price < self.lists@[pos]@[0].price
        } else {
            self.lists@[pos]@.len() == 0 || price <= usearch::sum64(
                self.best@[pos],
                self.max_delta as nat,
            )
        }
    }

    fn admits(&self, pos: usize, price: u64, Ghost(input): Ghost<Seq<u8>>) -> (r: bool)
        requires
            self.ok(input),
            pos <= input.len(),
        ensures
            r == self.lists_at(pos as int, price),
    {
        if self.lists[pos].len() == 0 {
            true
        } else if self.max_arrivals == 0 {
            price < self.lists[pos][0].price
        } else {
            price <= self.best[pos].saturating_add(self.max_delta)
        }
    }

    proof fn lemma_not_listed(&self, input: Seq<u8>, pc: ParseConfig, p: int, w: Way)
        requires
            self.ok(input),
            self.goes_by(pc),
            0 <= p < self.lists@.len(),
            !self.lists_at(p, w.price),
        ensures
            usearch::put_at(self.scene(input, pc), self.ways(), p, w) == self.ways(),
    {
        assert(self.ways()[p][0] == way_of(self.nodes@, self.lists@[p]@[0]));
        assert(floor_of(self.nodes@, self.lists@[p]@) == self.best@[p]);
        assert(usearch::put_at(self.scene(input, pc), self.ways(), p, w) =~= self.ways());
    }

    /// Lists an arrival behind a token from an arrival at `pos`.
    #[verifier::rlimit(60)]
    fn add_arrival(
        &mut self,
        from: usize,
        pos: usize,
        op: Op,
        len: usize,
        a: Arrival,
        Ghost(input): Ghost<Seq<u8>>,
        Ghost(pc): Ghost<ParseConfig>,
    )
        requires
            old(self).ok(input),
            old(self).goes_by(pc),
            pos < input.len(),
            (from == ROOT && pos == 0) || (from < old(self).nodes@.len() && old(
                self,
            ).nodes@[from as int].end == pos),
            upkrenc::op_ok(input, old(self).c, pos as int, op),
            len == upkrenc::op_len(op),
            1 <= len,
            pos + len <= input.len(),
            upkrstream::ctx_ok(old(self).c, a.ctx@),
            old(self).lists_at(pos + len, a.price),
            a.last_offset <= pos,
            a.last_offset <= old(self).c.max_offset,
        ensures
            final(self).ok(input),
            final(self).grows(old(self)),
            final(self).lists@[pos + len]@.len() > 0,
            final(self).ways() == usearch::put_at(
                old(self).scene(input, pc),
                old(self).ways(),
                pos + len,
                (Way {
                    ops: ops_of(old(self).nodes@, from).push(op),
                    price: a.price,
                    last: a.last_offset,
                    prev: a.prev,
                    ctx: a.ctx@,
                }),
            ),
    {
        let target: usize = pos + len;
        let ghost old_nodes = self.nodes@;
        let ghost old_lists = self.lists@;
        let ghost ways = self.ways();
        let id: usize = self.nodes.len();
        let node: Node = Node { prev: from, op, end: target };
        self.nodes.push(node);
        let now: usize = self.nodes.len();
        let ghost nodes = self.nodes@;
        proof {
            assert(now == id + 1);
            lemma_push_node(input, self.c, old_nodes, node);
            assert(nodes == old_nodes.push(node));
        }
        assert forall|q: int| 0 <= q < old_lists.len() implies arrivals_ok(
            self.c,
            nodes,
            q,
            #[trigger] old_lists[q]@,
        ) && ways_of(nodes, old_lists[q]@) == ways[q] by {
            assert(arrivals_ok(self.c, old_nodes, q, old_lists[q]@));
            lemma_ways_frame(self.c, old_nodes, nodes, q, old_lists[q]@);
        }
        let mut a: Arrival = a;
        a.node = id;
        let ghost w = way_of(nodes, a);
        assert(arrival_ok(self.c, nodes, target as int, a));
        let ghost low = self.best@[target as int];
        let price: u64 = a.price;
        let mut list: Vec<Arrival> = Vec::new();
        std::mem::swap(&mut list, &mut self.lists[target]);
        let ghost l0 = list@;
        assert(floor_of(nodes, l0) == low);

        assert(l0 == old_lists[target as int]@);
        assert(arrivals_ok(self.c, nodes, target as int, l0));
        assert(ways_of(nodes, l0) == ways[target as int]);
        if self.max_arrivals == 0 {
            if list.len() == 0 {
                list.push(a);
                assert(ways_of(nodes, list@) =~= seq![w]);
                self.best.set(target, price);
            } else if list[0].price > a.price {
                list.set(0, a);
                assert(ways_of(nodes, list@) =~= ways_of(nodes, l0).update(0, w));
                self.best.set(target, price);
            }
            proof {
                reveal_with_fuel(usearch::least, 3);
            }
        } else {
            list.push(a);
            assert(ways_of(nodes, list@) =~= ways_of(nodes, l0).push(w));
            if price < self.best[target] {
                self.best.set(target, price);
            }
            proof {
                usearch::lemma_least_push(ways_of(nodes, l0), w);
                assert(floor_of(nodes, list@) == self.best@[target as int]);
            }
            if list.len() > self.max_arrivals && list.len() - self.max_arrivals
                > self.max_arrivals {
                list =
                cut_arrivals(
                    list,
                    self.max_arrivals,
                    &mut self.seen,
                    Ghost(self.c),
                    Ghost(nodes),
                    Ghost(target as int),
                );
            }
        }
        assert(arrivals_ok(self.c, nodes, target as int, list@));
        assert(ways_of(nodes, list@) == usearch::listed(
            ways[target as int],
            w,
            self.max_arrivals as int,
            self.max_delta,
        ));
        assert(floor_of(nodes, list@) == self.best@[target as int]);
        std::mem::swap(&mut list, &mut self.lists[target]);
        assert forall|q: int| 0 <= q < self.lists@.len() implies floor_of(
            nodes,
            (#[trigger] self.lists@[q])@,
        ) == self.best@[q] && (self.max_arrivals == 0 ==> self.lists@[q]@.len() <= 1) by {
            if q != target {
                assert(self.lists@[q] == old_lists[q]);
                assert(ways_of(nodes, old_lists[q]@) == ways[q]);
                assert(floor_of(old_nodes, old_lists[q]@) == floor_of(nodes, old_lists[q]@));
            }
        }
        assert(lists_ok(self.c, self.nodes@, self.lists@)) by {
            assert forall|q: int| 0 <= q < self.lists@.len() implies arrivals_ok(
                self.c,
                self.nodes@,
                q,
                #[trigger] self.lists@[q]@,
            ) by {
                if q != target {
                    assert(self.lists@[q] == old_lists[q]);
                }
            }
        }
        proof {
            let goal = usearch::put_at(old(self).scene(input, pc), ways, target as int, w);
            assert forall|q: int| 0 <= q < goal.len() implies self.ways()[q] == #[trigger] goal[q] by {
                if q != target {
                    assert(self.lists@[q] == old_lists[q]);
                    assert(ways_of(nodes, old_lists[q]@) == ways[q]);
                }
            }
            assert(self.ways() =~= goal);
        }
    }

    /// Tries a match from an arrival at `pos`. The result is where it ends, or 0
    /// where it is too short.
    #[verifier::rlimit(30)]
    fn add_match(
        &mut self,
        pos: usize,
        offset: usize,
        length: usize,
        a: &Arrival,
        Ghost(input): Ghost<Seq<u8>>,
        Ghost(pc): Ghost<ParseConfig>,
    ) -> (target: usize)
        requires
            old(self).ok(input),
            old(self).goes_by(pc),
            pos < input.len(),
            arrival_ok(old(self).c, old(self).nodes@, pos as int, *a),
            lz::is_match(input, pos as int, offset as int, length as int),
            offset <= old(self).c.max_offset,
        ensures
            final(self).ok(input),
            final(self).grows(old(self)),
            target == 0 || (pos < target <= input.len() && final(self).lists@[target as int]@.len()
                > 0),
            length >= 2 ==> target > 0,
            final(self).ways() == usearch::try_match(
                old(self).scene(input, pc),
                old(self).ways(),
                pos as int,
                way_of(old(self).nodes@, *a),
                offset as int,
                length as int,
            ),
    {
        let least: usize = if self.c.eof_in_length {
            2
        } else {
            1
        };
        if length < least {
            return 0;
        }
        let len: usize = if length < self.c.max_length {
            length
        } else {
            self.c.max_length
        };
        let off: u32 = offset as u32;
        let price: u64 = a.price.saturating_add(
            price_match(&self.table, &self.c, a, pos, off, len as u32),
        );
        let ghost w = usearch::matched(
            self.scene(input, pc),
            pos as int,
            way_of(self.nodes@, *a),
            off,
            len as u32,
        );
        assert(price == w.price);
        if !self.admits(pos + len, price, Ghost(input)) {
            proof {
                self.lemma_not_listed(input, pc, pos + len, w);
            }
            return pos + len;
        }
        let mut ctx: Vec<u8> = a.ctx.clone();
        assert(ctx@ =~= a.ctx@);
        adapt_match(&self.c, &mut ctx, pos, off, len as u32, a.last_offset, a.prev);
        let op: Op = Op::Match { offset: off, len: len as u32 };
        proof {
            assert forall|k: int| 0 <= k < len implies #[trigger] input[pos + k] == input[pos + k
                - offset] by {
                assert(k < length);
            }
        }
        self.add_arrival(
            a.node,
            pos,
            op,
            len,
            Arrival { node: ROOT, price, last_offset: off, prev: true, ctx },
            Ghost(input),
            Ghost(pc),
        );
        pos + len
    }

    /// Goes on with a literal byte.
    fn add_literal(
        &mut self,
        pos: usize,
        byte: u8,
        a: &Arrival,
        Ghost(input): Ghost<Seq<u8>>,
        Ghost(pc): Ghost<ParseConfig>,
    )
        requires
            old(self).ok(input),
            old(self).goes_by(pc),
            pos < input.len(),
            byte == input[pos as int],
            arrival_ok(old(self).c, old(self).nodes@, pos as int, *a),
        ensures
            final(self).ok(input),
            final(self).grows(old(self)),
            final(self).lists@[pos + 1]@.len() > 0,
            final(self).ways() == usearch::put_at(
                old(self).scene(input, pc),
                old(self).ways(),
                pos + 1,
                usearch::lettered(
                    old(self).scene(input, pc),
                    pos as int,
                    way_of(old(self).nodes@, *a),
                ),
            ),
    {
        let price: u64 = a.price.saturating_add(
            price_literal(&self.table, &self.c, &a.ctx, pos, byte),
        );
        let ghost w = usearch::lettered(
            self.scene(input, pc),
            pos as int,
            way_of(self.nodes@, *a),
        );
        assert(price == w.price);
        if !self.admits(pos + 1, price, Ghost(input)) {
            proof {
                self.lemma_not_listed(input, pc, pos + 1, w);
            }
            return ;
        }
        let mut ctx: Vec<u8> = a.ctx.clone();
        assert(ctx@ =~= a.ctx@);
        adapt_literal(&self.c, &mut ctx, pos, byte);
        self.add_arrival(
            a.node,
            pos,
            Op::Literal(byte),
            1,
            Arrival { node: ROOT, price, last_offset: a.last_offset, prev: false, ctx },
            Ghost(input),
            Ghost(pc),
        );
    }
}

/// Where bytes were last seen, and before that.
struct Near {
    prev: Vec<usize>,
    last: Vec<usize>,
}

impl Near {
    /// Every place that is remembered is before `pos`.
    spec fn ok(&self, pos: int) -> bool {
        &&& self.prev@.len() == NEAR_SIZE
        &&& self.last@.len() == 256
        &&& forall|k: int|
            0 <= k < NEAR_SIZE ==> #[trigger] self.prev@[k] == NOWHERE || self.prev@[k] < pos
        &&& forall|k: int| 0 <= k < 256 ==> #[trigger] self.last@[k] == NOWHERE || self.last@[k] < pos
    }

    fn new() -> (s: Near)
        ensures
            s.ok(0),
            s.prev@ == Seq::new(NEAR_SIZE as nat, |k: int| NOWHERE),
            s.last@ == Seq::new(256, |k: int| NOWHERE),
    {
        let mut prev: Vec<usize> = Vec::with_capacity(NEAR_SIZE);
        let mut i: usize = 0;
        while i < NEAR_SIZE
            invariant
                i <= NEAR_SIZE,
                prev@.len() == i,
                forall|k: int| 0 <= k < i ==> #[trigger] prev@[k] == NOWHERE,
            decreases NEAR_SIZE - i,
        {
            prev.push(NOWHERE);
            i += 1;
        }
        let mut last: Vec<usize> = Vec::with_capacity(256);
        let mut k: usize = 0;
        while k < 256
            invariant
                k <= 256,
                last@.len() == k,
                forall|j: int| 0 <= j < k ==> #[trigger] last@[j] == NOWHERE,
            decreases 256 - k,
        {
            last.push(NOWHERE);
            k += 1;
        }
        assert(prev@ =~= Seq::new(NEAR_SIZE as nat, |k: int| NOWHERE));
        assert(last@ =~= Seq::new(256, |k: int| NOWHERE));
        Near { prev, last }
    }

    fn note(&mut self, pos: usize, byte: u8)
        requires
            old(self).ok(pos as int),
            pos < MAX_TEXT,
        ensures
            final(self).ok(pos + 1),
            final(self).prev@ == old(self).prev@.update(
                pos as int % NEAR_SIZE as int,
                old(self).last@[byte as int],
            ),
            final(self).last@ == old(self).last@.update(byte as int, pos),
    {
        let before: usize = self.last[byte as usize];
        self.prev.set(pos % NEAR_SIZE, before);
        self.last.set(byte as usize, pos);
    }
}

impl Parser {
    /// Goes on from an arrival at `pos`. A long match ends the search there:
    /// the first result says so. The second is a position that was reached.
    #[verifier::rlimit(80)]
    fn expand(
        &mut self,
        data: &[u8],
        pos: usize,
        a: &Arrival,
        found: &Vec<Found>,
        near: &Near,
        pc: &ParseConfig,
    ) -> (r: (bool, usize))
        requires
            old(self).ok(data@),
            old(self).goes_by(*pc),
            pos < data@.len(),
            arrival_ok(old(self).c, old(self).nodes@, pos as int, *a),
            forall|k: int|
                0 <= k < found@.len() ==> found_ok(data@, pos as int, #[trigger] found@[k]),
            near.ok(pos as int),
        ensures
            final(self).ok(data@),
            final(self).grows(old(self)),
            pos < r.1 <= data@.len() && final(self).lists@[r.1 as int]@.len() > 0,
            (final(self).ways(), r.0) == usearch::gone_on(
                old(self).scene(data@, *pc),
                old(self).ways(),
                pos as int,
                way_of(old(self).nodes@, *a),
                found@,
                near.prev@,
                near.last@,
            ),
    {
        let ghost d = data@;
        let ghost start = *self;
        let ghost s = self.scene(d, *pc);
        let ghost w = way_of(self.nodes@, *a);
        let n: usize = data.len();
        let last_offset: usize = a.last_offset as usize;
        let mut found_last: bool = false;
        let mut closest: usize = 0;
        let count: usize = found.len();
        let mut k: usize = 0;
        let ghost first = usearch::with_found(s, self.ways(), pos as int, w, found@, 0, false);
        while k < count
            invariant
                d == data@,
                n == d.len(),
                count == found@.len(),
                k <= count,
                pos < n,
                start == *old(self),
                last_offset == a.last_offset,
                self.ok(d),
                self.grows(&start),
                self.goes_by(*pc),
                s == self.scene(d, *pc),
                arrival_ok(self.c, self.nodes@, pos as int, *a),
                way_of(self.nodes@, *a) == w,
                forall|j: int|
                    0 <= j < found@.len() ==> found_ok(d, pos as int, #[trigger] found@[j]),
                first == usearch::with_found(
                    s,
                    self.ways(),
                    pos as int,
                    w,
                    found@,
                    k as int,
                    found_last,
                ),
                first == usearch::with_found(
                    s,
                    start.ways(),
                    pos as int,
                    w,
                    found@,
                    0,
                    false,
                ),
                s == start.scene(d, *pc),
                w == way_of(start.nodes@, *a),
                usearch::nearest(found@, k as int) == if k == 0 {
                    -1
                } else {
                    closest as int
                },
                k == 0 ==> closest == 0,
            decreases count - k,
        {
            let f: Found = found[k];
            assert(found_ok(d, pos as int, found@[k as int]));
            let ghost nearer = usearch::nearest(found@, k as int);
            if f.pos > closest {
                closest = f.pos;
            }
            assert(usearch::nearest(found@, k + 1) == if found@[k as int].pos > nearer {
                found@[k as int].pos as int
            } else {
                nearer
            });
            let offset: usize = pos - f.pos;
            if offset <= self.c.max_offset {
                if offset == last_offset {
                    found_last = true;
                }
                let ghost before = self.nodes@;
                let t: usize = self.add_match(pos, offset, f.len, a, Ghost(d), Ghost(*pc));
                let here: usize = self.nodes.len();
                proof {
                    lemma_way_frame(self.c, before, self.nodes@, pos as int, *a);
                }
                if f.len >= pc.greedy_size {
                    return (true, t);
                }
            }
            k += 1;
        }
        let ghost far = usearch::nearest(found@, count as int);
        let mut left: usize = pc.num_near_matches;
        let mut mp: usize = near.last[data[pos] as usize];
        let ghost second = usearch::with_near(
            s,
            self.ways(),
            pos as int,
            w,
            near.prev@,
            far,
            mp,
            left as int,
            found_last,
        );
        while left > 0 && mp != NOWHERE && (count == 0 || closest < mp) && pos - mp
            <= self.c.max_offset
            invariant
                d == data@,
                n == d.len(),
                n <= MAX_TEXT,
                pos < n,
                near.ok(pos as int),
                last_offset == a.last_offset,
                mp == NOWHERE || mp < pos,
                far == if count == 0 {
                    -1
                } else {
                    closest as int
                },
                self.ok(d),
                self.grows(&start),
                self.goes_by(*pc),
                s == self.scene(d, *pc),
                arrival_ok(self.c, self.nodes@, pos as int, *a),
                way_of(self.nodes@, *a) == w,
                second == usearch::with_near(
                    s,
                    self.ways(),
                    pos as int,
                    w,
                    near.prev@,
                    far,
                    mp,
                    left as int,
                    found_last,
                ),
            decreases left,
        {
            let offset: usize = pos - mp;
            let length: usize = match_run(data, mp, pos, n - pos);
            proof {
                usearch::lemma_run_from(d, mp as int, pos as int, 0, length as int);
            }
            if length > 0 {
                let ghost before = self.nodes@;
                let _t: usize = self.add_match(pos, offset, length, a, Ghost(d), Ghost(*pc));
                let here: usize = self.nodes.len();
                proof {
                    lemma_way_frame(self.c, before, self.nodes@, pos as int, *a);
                }
                if offset == last_offset {
                    found_last = true;
                }
            }
            left -= 1;
            if offset < NEAR_SIZE {
                let at: usize = mp % NEAR_SIZE;
                assert(near.prev@[at as int] == NOWHERE || near.prev@[at as int] < pos);
                mp = near.prev[at];
            }
        }
        let ghost third = usearch::with_last(s, self.ways(), pos as int, w, found_last);
        if !found_last && last_offset > 0 {
            let length: usize = match_run(data, pos - last_offset, pos, n - pos);
            proof {
                usearch::lemma_run_from(d, pos - last_offset, pos as int, 0, length as int);
            }
            if length > 0 {
                let ghost before = self.nodes@;
                let _t: usize = self.add_match(pos, last_offset, length, a, Ghost(d), Ghost(*pc));
                let here: usize = self.nodes.len();
                proof {
                    lemma_way_frame(self.c, before, self.nodes@, pos as int, *a);
                }
            }
        }
        assert(self.ways() == third);
        self.add_literal(pos, data[pos], a, Ghost(d), Ghost(*pc));
        (false, pos + 1)
    }
}

/// The lowest price of a list.
fn least_price(list: &Vec<Arrival>, Ghost(nodes): Ghost<Seq<Node>>) -> (p: u64)
    ensures
        p == usearch::least(ways_of(nodes, list@), list@.len() as int),
{
    let n: usize = list.len();
    let mut p: u64 = u64::MAX;
    let mut k: usize = 0;
    while k < n
        invariant
            n == list@.len(),
            k <= n,
            p == usearch::least(ways_of(nodes, list@), k as int),
        decreases n - k,
    {
        if list[k].price < p {
            p = list[k].price;
        }
        k += 1;
    }
    p
}

/// The lowest price of those with a last offset.
fn least_price_with(list: &Vec<Arrival>, last: u32, Ghost(nodes): Ghost<Seq<Node>>) -> (p: u64)
    ensures
        p == usearch::least_with(ways_of(nodes, list@), last, list@.len() as int),
{
    let n: usize = list.len();
    let mut p: u64 = u64::MAX;
    let mut k: usize = 0;
    while k < n
        invariant
            n == list@.len(),
            k <= n,
            p == usearch::least_with(ways_of(nodes, list@), last, k as int),
        decreases n - k,
    {
        if list[k].last_offset == last && list[k].price < p {
            p = list[k].price;
        }
        k += 1;
    }
    p
}

// ---------------------------------------------------------------------------
// The way back
// ---------------------------------------------------------------------------
/// The tokens from `v` to the end.
spec fn ops_tail(input: Seq<u8>, c: Config, v: int, s: Seq<Op>) -> bool {
    &&& v + upkrenc::ops_pos(s, s.len() as int) == input.len()
    &&& forall|k: int|
        0 <= k < s.len() ==> #[trigger] upkrenc::op_ok(
            input,
            c,
            v + upkrenc::ops_pos(s, k),
            s[k],
        )
}

proof fn lemma_ops_front(x: Op, s: Seq<Op>, k: int)
    requires
        0 <= k <= s.len(),
    ensures
        upkrenc::ops_pos(seq![x] + s, k + 1) == upkrenc::op_len(x) + upkrenc::ops_pos(s, k),
    decreases k,
{
    let q = seq![x] + s;
    if k > 0 {
        lemma_ops_front(x, s, k - 1);
        assert(q[k] == s[k - 1]);
    } else {
        assert(q[0] == x);
        reveal_with_fuel(upkrenc::ops_pos, 2);
    }
}

proof fn lemma_ops_tail(input: Seq<u8>, c: Config, u: int, x: Op, s: Seq<Op>)
    requires
        upkrenc::op_ok(input, c, u, x),
        ops_tail(input, c, u + upkrenc::op_len(x), s),
    ensures
        ops_tail(input, c, u, seq![x] + s),
{
    let q = seq![x] + s;
    lemma_ops_front(x, s, s.len() as int);
    assert forall|k: int| 0 <= k < q.len() implies #[trigger] upkrenc::op_ok(
        input,
        c,
        u + upkrenc::ops_pos(q, k),
        q[k],
    ) by {
        if k > 0 {
            lemma_ops_front(x, s, k - 1);
            assert(q[k] == s[k - 1]);
            assert(upkrenc::op_ok(
                input,
                c,
                u + upkrenc::op_len(x) + upkrenc::ops_pos(s, k - 1),
                s[k - 1],
            ));
        }
    }
}

proof fn lemma_ops_whole(input: Seq<u8>, c: Config, ops: Seq<Op>)
    requires
        ops_tail(input, c, 0, ops),
    ensures
        upkrenc::ops_ok(input, c, ops),
{
    assert forall|k: int| 0 <= k < ops.len() implies #[trigger] upkrenc::op_ok(
        input,
        c,
        upkrenc::ops_pos(ops, k),
        ops[k],
    ) by {
        assert(upkrenc::op_ok(input, c, 0 + upkrenc::ops_pos(ops, k), ops[k]));
    }
}

fn flip_ops(rev: &Vec<Op>) -> (ops: Vec<Op>)
    ensures
        ops@ == rev@.reverse(),
{
    let n: usize = rev.len();
    let mut ops: Vec<Op> = Vec::with_capacity(n);
    let mut k: usize = 0;
    while k < n
        invariant
            n == rev@.len(),
            k <= n,
            ops@.len() == k,
            forall|j: int| 0 <= j < k ==> #[trigger] ops@[j] == rev@[n - 1 - j],
        decreases n - k,
    {
        ops.push(rev[n - 1 - k]);
        k += 1;
    }
    assert(ops@ =~= rev@.reverse());
    ops
}

/// The tokens that lead to an arrival at the end.
fn walk_back(nodes: &Vec<Node>, node: usize, Ghost(input): Ghost<Seq<u8>>, Ghost(c): Ghost<Config>) -> (ops: Vec<Op>)
    requires
        nodes_ok(input, c, nodes@),
        (node == ROOT && input.len() == 0) || (node < nodes@.len() && nodes@[node as int].end
            == input.len()),
    ensures
        upkrenc::ops_ok(input, c, ops@),
        ops@ == ops_of(nodes@, node),
{
    let mut rev: Vec<Op> = Vec::new();
    let mut i: usize = node;
    let total: usize = nodes.len();
    assert(rev@.reverse() =~= Seq::<Op>::empty());
    assert(ops_of(nodes@, node) + rev@.reverse() =~= ops_of(nodes@, node));
    while i != ROOT
        invariant
            nodes_ok(input, c, nodes@),
            i == ROOT || i < nodes@.len(),
            ops_tail(input, c, node_start(nodes@, i), rev@.reverse()),
            ops_of(nodes@, node) == ops_of(nodes@, i) + rev@.reverse(),
            total == nodes@.len(),
        decreases
            if i == ROOT {
                0
            } else {
                i + 1
            },
    {
        let x: Node = nodes[i];
        let ghost s = rev@.reverse();
        assert(node_ok(input, c, nodes@, i as int));
        rev.push(x.op);
        proof {
            assert(rev@.reverse() =~= seq![x.op] + s);
            lemma_ops_tail(input, c, node_start(nodes@, x.prev), x.op, s);
            assert(ops_of(nodes@, i) == ops_of(nodes@, x.prev).push(x.op));
            assert(ops_of(nodes@, i) + s =~= ops_of(nodes@, x.prev) + (seq![x.op] + s));
        }
        i = x.prev;
    }
    proof {
        lemma_ops_whole(input, c, rev@.reverse());
        assert(ops_of(nodes@, ROOT) + rev@.reverse() =~= rev@.reverse());
    }
    flip_ops(&rev)
}

/// The tokens that the search finds, at the prices of `info_table`, with the matches
/// that a finder for the input lists.
pub open spec fn found_ops(d: Seq<u8>, pc: ParseConfig, c: Config, ops: Seq<Op>) -> bool {
    exists|f: MatchFinder| #[trigger]
        f.is_for(d, pc) && ops == usearch::found_tokens(
            Scene { d, c, t: info_table(), pc },
            |p: int| f.found_at(p),
        )
}

/// The search finds one list of tokens.
pub proof fn lemma_found_is_one(d: Seq<u8>, pc: ParseConfig, c: Config, a: Seq<Op>, b: Seq<Op>)
    requires
        found_ops(d, pc, c, a),
        found_ops(d, pc, c, b),
    ensures
        a == b,
{
    let s = Scene { d, c, t: info_table(), pc };
    let f = choose|f: MatchFinder| #[trigger]
        f.is_for(d, pc) && a == usearch::found_tokens(s, |p: int| f.found_at(p));
    let g = choose|f: MatchFinder| #[trigger]
        f.is_for(d, pc) && b == usearch::found_tokens(s, |p: int| f.found_at(p));
    f.lemma_same_index(&g, d, pc);
    assert((|p: int| f.found_at(p)) =~= (|p: int| g.found_at(p)));
}

/// The lists at the start: one way to the first position.
fn start_lists(n: usize, c: &Config) -> (lists: Vec<Vec<Arrival>>)
    requires
        n <= MAX_TEXT,
        upkrstream::config_wf(*c),
    ensures
        lists@.len() == n + 1,
        lists_ok(*c, Seq::<Node>::empty(), lists@),
        lists@[0]@.len() == 1,
        lists@[0]@[0].price == 0,
        forall|q: int| 1 <= q <= n ==> (#[trigger] lists@[q])@.len() == 0,
        Seq::new(lists@.len(), |q: int| ways_of(Seq::<Node>::empty(), lists@[q]@)) == Seq::new(
            (n + 1) as nat,
            |p: int| Seq::<Way>::empty(),
        ).update(0, seq![usearch::first_way(*c)]),
{
    let mut lists: Vec<Vec<Arrival>> = Vec::with_capacity(n + 1);
    let mut i: usize = 0;
    while i <= n
        invariant
            n <= MAX_TEXT,
            i <= n + 1,
            lists@.len() == i,
            forall|q: int| 0 <= q < i ==> (#[trigger] lists@[q])@.len() == 0,
        decreases n + 1 - i,
    {
        lists.push(Vec::new());
        i += 1;
    }
    let mut first: Vec<Arrival> = Vec::new();
    first.push(
        Arrival {
            node: ROOT,
            price: 0,
            last_offset: 0,
            prev: false,
            ctx: new_contexts(c),
        },
    );
    let ghost none = Seq::<Node>::empty();
    assert(ways_of(none, first@) =~= seq![usearch::first_way(*c)]);
    assert(arrival_ok(*c, none, 0, first@[0]));
    lists.set(0, first);
    proof {
        let goal = Seq::new((n + 1) as nat, |p: int| Seq::<Way>::empty()).update(
            0,
            seq![usearch::first_way(*c)],
        );
        let ways = Seq::new(lists@.len(), |q: int| ways_of(none, lists@[q]@));
        assert forall|q: int| 0 <= q < goal.len() implies ways[q] == #[trigger] goal[q] by {
            if q > 0 {
                assert(lists@[q]@.len() == 0);
                assert(ways_of(none, lists@[q]@) =~= Seq::<Way>::empty());
            }
        }
        assert(ways =~= goal);
    }
    lists
}

/// The lowest prices at the start.
fn start_prices(n: usize) -> (best: Vec<u64>)
    requires
        n <= MAX_TEXT,
    ensures
        best@.len() == n + 1,
        best@[0] == 0,
        forall|q: int| 1 <= q <= n ==> #[trigger] best@[q] == u64::MAX,
{
    let mut best: Vec<u64> = vec![u64::MAX; n + 1];
    best.set(0, 0);
    best
}

impl Parser {
    /// Goes on from the arrivals at `pos`. The result is a position that was
    /// reached.
    #[verifier::rlimit(60)]
    fn advance(
        &mut self,
        data: &[u8],
        pos: usize,
        here: &Vec<Arrival>,
        found: &Vec<Found>,
        near: &Near,
        pc: &ParseConfig,
    ) -> (reached: usize)
        requires
            old(self).ok(data@),
            old(self).goes_by(*pc),
            pos < data@.len(),
            here@.len() > 0,
            arrivals_ok(old(self).c, old(self).nodes@, pos as int, here@),
            forall|k: int|
                0 <= k < found@.len() ==> found_ok(data@, pos as int, #[trigger] found@[k]),
            near.ok(pos as int),
        ensures
            final(self).ok(data@),
            final(self).grows(old(self)),
            pos < reached <= data@.len() && final(self).lists@[reached as int]@.len() > 0,
            final(self).ways() == usearch::all_gone_on(
                old(self).scene(data@, *pc),
                old(self).ways(),
                pos as int,
                ways_of(old(self).nodes@, here@),
                0,
                found@,
                near.prev@,
                near.last@,
            ),
    {
        let ghost d = data@;
        let ghost start = *self;
        let ghost s = self.scene(d, *pc);
        let ghost w = ways_of(self.nodes@, here@);
        let base: u64 = least_price(here, Ghost(self.nodes@));
        let limit: u64 = base.saturating_add(pc.max_cost_delta);
        let n: usize = here.len();
        let mut reached: usize = 0;
        let mut k: usize = 0;
        let ghost goal = usearch::all_gone_on(
            s,
            self.ways(),
            pos as int,
            w,
            0,
            found@,
            near.prev@,
            near.last@,
        );
        proof {
            usearch::lemma_least(w, n as int);
        }
        let ghost j = choose|j: int| 0 <= j < n && (#[trigger] w[j]).price == base;
        while k < n
            invariant
                d == data@,
                n == here@.len(),
                k <= n,
                pos < d.len(),
                near.ok(pos as int),
                self.ok(d),
                self.grows(&start),
                self.goes_by(*pc),
                s == self.scene(d, *pc),
                s == start.scene(d, *pc),
                w == ways_of(start.nodes@, here@),
                arrivals_ok(self.c, self.nodes@, pos as int, here@),
                ways_of(self.nodes@, here@) == w,
                forall|k: int|
                    0 <= k < found@.len() ==> found_ok(d, pos as int, #[trigger] found@[k]),
                0 <= j < n,
                w[j].price == base,
                base == usearch::least(w, n as int),
                limit == usearch::sum64(base, pc.max_cost_delta as nat),
                reached == 0 ==> k <= j,
                reached > 0 ==> pos < reached <= d.len() && self.lists@[reached as int]@.len() > 0,
                goal == usearch::all_gone_on(
                    s,
                    start.ways(),
                    pos as int,
                    w,
                    0,
                    found@,
                    near.prev@,
                    near.last@,
                ),
                start == *old(self),
                goal == usearch::all_gone_on(
                    s,
                    self.ways(),
                    pos as int,
                    w,
                    k as int,
                    found@,
                    near.prev@,
                    near.last@,
                ),
            decreases n - k,
        {
            let a: &Arrival = &here[k];
            assert(arrival_ok(self.c, self.nodes@, pos as int, here@[k as int]));
            let near_best: u64 = least_price_with(
                here,
                a.last_offset,
                Ghost(self.nodes@),
            ).saturating_add(pc.max_offset_cost_delta);
            assert(w[k as int] == way_of(self.nodes@, *a));
            assert((a.price <= limit && a.price <= near_best) == usearch::goes_on(s, w, k as int));
            if a.price <= limit && a.price <= near_best {
                let ghost before = self.nodes@;
                let r: (bool, usize) = self.expand(data, pos, a, found, near, pc);
                let now: usize = self.nodes.len();
                proof {
                    lemma_ways_frame(self.c, before, self.nodes@, pos as int, here@);
                }
                reached = r.1;
                if r.0 {
                    return reached;
                }
            } else {
                proof {
                    usearch::lemma_least_with(w, w[k as int].last, n as int);
                    assert(k != j);
                }
            }
            k += 1;
        }
        reached
    }
}

/// Tokens for the input: those that the search finds.
#[verifier::rlimit(80)]
pub fn parse(data: &[u8], pc: &ParseConfig, c: &Config) -> (ops: Vec<Op>)
    requires
        data@.len() <= MAX_TEXT,
        upkrstream::config_wf(*c),
        upkrstream::min_len(*c) <= c.max_length,
    ensures
        upkrenc::ops_ok(data@, *c, ops@),
        found_ops(data@, *pc, *c, ops@),
{
    let n: usize = data.len();
    let ghost d = data@;
    let finder: MatchFinder = MatchFinder::new(data, pc);
    let ghost at = |p: int| finder.found_at(p);
    let mut near: Near = Near::new();
    let mut ps: Parser = Parser {
        c: *c,
        table: price_table(),
        nodes: Vec::new(),
        lists: start_lists(n, c),
        best: start_prices(n),
        seen: vec![false; n + 1],
        max_delta: pc.max_cost_delta,
        max_arrivals: pc.max_arrivals,
    };
    let ghost s = Scene { d, c: *c, t: info_table(), pc: *pc };
    let ghost goal = usearch::search(s, at, ps.ways(), near.prev@, near.last@, 0);
    proof {
        assert(ps.nodes@ =~= Seq::<Node>::empty());
        assert forall|q: int| 0 <= q < ps.lists@.len() implies floor_of(
            ps.nodes@,
            (#[trigger] ps.lists@[q])@,
        ) == ps.best@[q] && ps.lists@[q]@.len() <= 1 by {
            reveal_with_fuel(usearch::least, 3);
        }
        assert(usearch::found_tokens(s, at) == goal[n as int][0].ops);
    }
    let ghost mut alive: int = 0;
    let mut pos: usize = 0;
    while pos < n
        invariant
            d == data@,
            n == d.len(),
            n <= MAX_TEXT,
            pos <= n,
            finder.ok(d),
            at == (|p: int| finder.found_at(p)),
            near.ok(pos as int),
            ps.ok(d),
            ps.goes_by(*pc),
            s == ps.scene(d, *pc),
            ps.c == *c,
            pos <= alive <= n,
            ps.lists@[alive]@.len() > 0,
            goal == usearch::search(s, at, ps.ways(), near.prev@, near.last@, pos as int),
        decreases n - pos,
    {
        let ghost ways = ps.ways();
        let ghost lists0 = ps.lists@;
        assert(ways[pos as int] == ways_of(ps.nodes@, lists0[pos as int]@));
        if ps.lists[pos].len() == 0 {
            pos += 1;
        } else {
            let mut here: Vec<Arrival> = Vec::new();
            std::mem::swap(&mut here, &mut ps.lists[pos]);
            ps.best.set(pos, u64::MAX);
            assert(here@ == lists0[pos as int]@);
            assert forall|q: int| 0 <= q < ps.lists@.len() implies floor_of(
                ps.nodes@,
                (#[trigger] ps.lists@[q])@,
            ) == ps.best@[q] && (ps.max_arrivals == 0 ==> ps.lists@[q]@.len() <= 1) by {
                if q != pos {
                    assert(ps.lists@[q] == lists0[q]);
                }
            }
            assert(arrivals_ok(ps.c, ps.nodes@, pos as int, here@));
            assert(lists_ok(ps.c, ps.nodes@, ps.lists@)) by {
                assert forall|q: int| 0 <= q < ps.lists@.len() implies arrivals_ok(
                    ps.c,
                    ps.nodes@,
                    q,
                    #[trigger] ps.lists@[q]@,
                ) by {
                    if q != pos {
                        assert(ps.lists@[q] == lists0[q]);
                    }
                }
            }
            proof {
                let left = ways.update(pos as int, Seq::empty());
                assert forall|q: int| 0 <= q < left.len() implies ps.ways()[q] == #[trigger] left[q] by {
                    if q != pos {
                        assert(ps.lists@[q] == lists0[q]);
                    } else {
                        assert(ways_of(ps.nodes@, ps.lists@[q]@) =~= Seq::<Way>::empty());
                    }
                }
                assert(ps.ways() =~= left);
            }
            if pc.max_arrivals > 0 {
                here =
                cut_arrivals(
                    here,
                    pc.max_arrivals,
                    &mut ps.seen,
                    Ghost(ps.c),
                    Ghost(ps.nodes@),
                    Ghost(pos as int),
                );
            }
            assert(ways_of(ps.nodes@, here@) == usearch::taken(s, ways[pos as int]));
            let found: Vec<Found> = finder.matches(data, pos);
            assert(found@ == at(pos as int));
            let reached: usize = ps.advance(data, pos, &here, &found, &near, pc);
            near.note(pos, data[pos]);
            proof {
                alive = reached as int;
            }
            pos += 1;
        }
    }
    let node: usize = ps.lists[n][0].node;
    proof {
        assert(arrivals_ok(ps.c, ps.nodes@, n as int, ps.lists@[n as int]@));
        assert(arrival_ok(ps.c, ps.nodes@, n as int, ps.lists@[n as int]@[0]));
        assert(goal == ps.ways());
        assert(goal[n as int][0] == way_of(ps.nodes@, ps.lists@[n as int]@[0]));
        assert(finder.is_for(d, *pc));
    }
    walk_back(&ps.nodes, node, Ghost(d), Ghost(*c))
}

} // verus!
