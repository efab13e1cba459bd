//! Matches for the Shrinkler parser: for each length the nearest few, and a
//! shorter match only where it is nearer than every longer one.
use crate::lz;
use crate::suffix::{inverse_of, lcp_array, suffix_array, MAX_TEXT};
use crate::uparse::Found;
use crate::suffix;
use crate::uparse;
use vstd::multiset::Multiset;
use vstd::prelude::*;

verus! {

// ---------------------------------------------------------------------------
// A heap
// ---------------------------------------------------------------------------
/// No place holds less than the place above it.
pub open spec fn above_ok(s: Seq<usize>, i: int) -> bool {
    i > 0 ==> s[(i - 1) / 2] <= s[i]
}

pub open spec fn heap_ok(s: Seq<usize>) -> bool {
    forall|i: int| 0 <= i < s.len() ==> #[trigger] above_ok(s, i)
}

/// The first is the least.
pub proof fn lemma_heap_top(s: Seq<usize>, i: int)
    requires
        heap_ok(s),
        0 <= i < s.len(),
    ensures
        s[0] <= s[i],
    decreases i,
{
    if i > 0 {
        assert(above_ok(s, i));
        lemma_heap_top(s, (i - 1) / 2);
    }
}

proof fn lemma_heap_least(s: Seq<usize>)
    requires
        heap_ok(s),
        s.to_multiset().len() > 0,
    ensures
        s.len() > 0,
        s.to_multiset().count(s[0]) > 0,
        forall|x: usize| s.to_multiset().count(x) > 0 ==> s[0] <= x,
{
    broadcast use vstd::seq_lib::group_to_multiset_ensures;

    assert forall|x: usize| s.to_multiset().count(x) > 0 implies s[0] <= x by {
        assert(s.contains(x));
        let i = choose|i: int| 0 <= i < s.len() && s[i] == x;
        lemma_heap_top(s, i);
    }
    assert(s.contains(s[0]));
}

proof fn lemma_update_multiset(s: Seq<usize>, i: int, v: usize)
    requires
        0 <= i < s.len(),
    ensures
        s.update(i, v).to_multiset() =~= s.to_multiset().remove(s[i]).insert(v),
{
    broadcast use vstd::seq_lib::group_to_multiset_ensures;

    let t = s.update(i, v);
    assert(t.remove(i) =~= s.remove(i));
    assert(t.remove(i).to_multiset() == t.to_multiset().remove(v));
    assert(s.remove(i).to_multiset() == s.to_multiset().remove(s[i]));
    assert(t.contains(t[i]));
    assert(t.to_multiset().count(v) > 0);
    assert(t.to_multiset() =~= t.to_multiset().remove(v).insert(v));
}

proof fn lemma_swap_multiset(s: Seq<usize>, i: int, j: int)
    requires
        0 <= i < s.len(),
        0 <= j < s.len(),
        i != j,
    ensures
        s.update(i, s[j]).update(j, s[i]).to_multiset() =~= s.to_multiset(),
{
    broadcast use vstd::seq_lib::group_to_multiset_ensures;

    let a = s[i];
    let b = s[j];
    lemma_update_multiset(s, i, b);
    lemma_update_multiset(s.update(i, b), j, a);
    assert(s.contains(s[i]));
    assert(s.to_multiset().count(a) > 0);
    assert(s.contains(s[j]));
    assert(s.to_multiset().count(b) > 0);
    assert(s.to_multiset().remove(a).insert(b).remove(b).insert(a) =~= s.to_multiset());
}

/// Numbers, of which the least can be taken.
pub struct MinHeap {
    data: Vec<usize>,
}

impl View for MinHeap {
    type V = Multiset<usize>;

    closed spec fn view(&self) -> Multiset<usize> {
        self.data@.to_multiset()
    }
}

impl MinHeap {
    pub closed spec fn wf(&self) -> bool {
        heap_ok(self.data@)
    }

    pub fn new() -> (h: MinHeap)
        ensures
            h.wf(),
            h@ == Multiset::<usize>::empty(),
    {
        let h: MinHeap = MinHeap { data: Vec::new() };
        proof {
            broadcast use vstd::seq_lib::group_to_multiset_ensures;

            assert(h.data@.to_multiset() =~= Multiset::empty());
        }
        h
    }

    pub fn len(&self) -> (n: usize)
        ensures
            n == self@.len(),
    {
        proof {
            broadcast use vstd::seq_lib::group_to_multiset_ensures;

        }
        self.data.len()
    }

    /// The least number.
    pub fn top(&self) -> (v: usize)
        requires
            self.wf(),
            self@.len() > 0,
        ensures
            self@.count(v) > 0,
            forall|x: usize| self@.count(x) > 0 ==> v <= x,
    {
        proof {
            lemma_heap_least(self.data@);
        }
        self.data[0]
    }

    pub fn push(&mut self, v: usize)
        requires
            old(self).wf(),
        ensures
            final(self).wf(),
            final(self)@ == old(self)@.insert(v),
    {
        let ghost d0 = self.data@;
        self.data.push(v);
        proof {
            broadcast use vstd::seq_lib::group_to_multiset_ensures;

            assert(self.data@ == d0.push(v));
            assert forall|j: int| 0 <= j < self.data@.len() && j != d0.len() implies #[trigger] above_ok(
                self.data@,
                j,
            ) by {
                assert(above_ok(d0, j));
            }
        }
        let mut i: usize = self.data.len() - 1;
        while i > 0
            invariant_except_break
                0 <= i < self.data@.len(),
                self.data@.to_multiset() == d0.to_multiset().insert(v),
                forall|j: int|
                    0 <= j < self.data@.len() && j != i ==> #[trigger] above_ok(self.data@, j),
                i > 0 ==> forall|j: int|
                    0 < j < self.data@.len() && (j - 1) / 2 == i ==> self.data@[(i - 1) / 2]
                        <= #[trigger] self.data@[j],
            ensures
                heap_ok(self.data@),
                self.data@.to_multiset() == d0.to_multiset().insert(v),
            decreases i,
        {
            let p: usize = (i - 1) / 2;
            let a: usize = self.data[p];
            let b: usize = self.data[i];
            if a <= b {
                assert(above_ok(self.data@, i as int));
                break;
            }
            let ghost s = self.data@;
            self.data.set(p, b);
            self.data.set(i, a);
            proof {
                lemma_swap_multiset(s, p as int, i as int);
                let t = self.data@;
                assert(t =~= s.update(p as int, s[i as int]).update(i as int, s[p as int]));
                assert forall|j: int| 0 <= j < t.len() && j != p implies #[trigger] above_ok(t, j) by {
                    if j != i {
                        assert(above_ok(s, j));
                    }
                }
                if p > 0 {
                    assert(above_ok(s, p as int));
                    assert forall|j: int| 0 < j < t.len() && (j - 1) / 2 == p implies t[(p - 1) / 2]
                        <= #[trigger] t[j] by {
                        if j != i {
                            assert(above_ok(s, j));
                        }
                    }
                }
            }
            i = p;
            if i == 0 {
                assert(above_ok(self.data@, 0));
            }
        }
    }

    /// Takes the least number away.
    pub fn pop(&mut self) -> (v: usize)
        requires
            old(self).wf(),
            old(self)@.len() > 0,
        ensures
            final(self).wf(),
            final(self)@ == old(self)@.remove(v),
            old(self)@.count(v) > 0,
            forall|x: usize| old(self)@.count(x) > 0 ==> v <= x,
    {
        let ghost d0 = self.data@;
        proof {
            lemma_heap_least(d0);
        }
        let n: usize = self.data.len();
        let v: usize = self.data[0];
        let last: usize = self.data[n - 1];
        self.data.set(0, last);
        let ghost d1 = self.data@;
        let _ = self.data.pop();
        let ghost want = d0.to_multiset().remove(d0[0]);
        proof {
            broadcast use vstd::seq_lib::group_to_multiset_ensures;

            lemma_update_multiset(d0, 0, last);
            assert(self.data@ =~= d1.remove(n - 1));
            assert(d1.remove(n - 1).to_multiset() == d1.to_multiset().remove(d1[n - 1]));
            assert(self.data@.to_multiset() =~= want);
            assert forall|j: int| 0 <= j < self.data@.len() && (j - 1) / 2 != 0 implies #[trigger] above_ok(
                self.data@,
                j,
            ) by {
                assert(above_ok(d0, j));
            }
        }
        let m: usize = self.data.len();
        let mut i: usize = 0;
        assert forall|j: int| 0 <= j < m && (j <= 0 || (j - 1) / 2 != 0) implies #[trigger] above_ok(
            self.data@,
            j,
        ) by {
            if j > 0 {
                assert(above_ok(d0, j));
            }
        }
        while i < m && i < m / 2
            invariant_except_break
                m == self.data@.len(),
                i <= m,
                self.data@.to_multiset() == want,
                forall|j: int|
                    0 <= j < m && (j <= 0 || (j - 1) / 2 != i) ==> #[trigger] above_ok(
                        self.data@,
                        j,
                    ),
                i > 0 ==> forall|j: int|
                    0 < j < m && (j - 1) / 2 == i ==> self.data@[(i - 1) / 2]
                        <= #[trigger] self.data@[j],
            ensures
                heap_ok(self.data@),
                self.data@.to_multiset() == want,
            decreases m - i,
        {
            let l: usize = 2 * i + 1;
            let r: usize = 2 * i + 2;
            let mut c: usize = i;
            if l < m && self.data[l] < self.data[c] {
                c = l;
            }
            if r < m && self.data[r] < self.data[c] {
                c = r;
            }
            let ghost s = self.data@;
            if c == i {
                assert forall|j: int| 0 <= j < m implies #[trigger] above_ok(s, j) by {
                    if j > 0 && (j - 1) / 2 == i {
                        assert(j == l || j == r);
                    }
                }
                break;
            }
            let a: usize = self.data[i];
            let b: usize = self.data[c];
            self.data.set(i, b);
            self.data.set(c, a);
            proof {
                lemma_swap_multiset(s, i as int, c as int);
                let t = self.data@;
                assert(t =~= s.update(i as int, s[c as int]).update(c as int, s[i as int]));
                assert((c - 1) / 2 == i);
                assert forall|j: int| 0 <= j < m && (j <= 0 || (j - 1) / 2 != c) implies #[trigger] above_ok(
                    t,
                    j,
                ) by {
                    if j > 0 && (j - 1) / 2 == i {
                        assert(j == l || j == r);
                    } else if j == i {
                        if i > 0 {
                            assert(s[(i - 1) / 2] <= s[c as int]);
                        }
                    } else {
                        assert(above_ok(s, j));
                    }
                }
                assert forall|j: int| 0 < j < m && (j - 1) / 2 == c implies t[(c - 1) / 2]
                    <= #[trigger] t[j] by {
                    assert(above_ok(s, j));
                }
            }
            i = c;
        }
        v
    }
}

// ---------------------------------------------------------------------------
// Matches
// ---------------------------------------------------------------------------
/// Finds matches by walking from a suffix to its neighbours.
pub struct MatchFinder {
    sa: Vec<u32>,
    inv: Vec<u32>,
    lcp: Vec<u32>,
    match_patience: usize,
    max_same_length: usize,
}

/// The shortest match.
pub const MIN_LENGTH: usize = 2;

/// What a finder goes by: the suffixes in order, where each stands, how many bytes
/// each has in common with the next, and how hard to look.
pub struct Order {
    pub sa: Seq<u32>,
    pub inv: Seq<u32>,
    pub lcp: Seq<u32>,
    pub match_patience: int,
    pub max_same_length: int,
}

/// Where the walk among the suffixes stands on both sides, with how many bytes each
/// has in common with the text, the place below which none is looked at, the
/// largest place met, and the places that are held.
struct Around {
    li: usize,
    ll: usize,
    ri: usize,
    rl: usize,
    min_pos: usize,
    new_min: usize,
    held: Multiset<usize>,
}

spec fn is_least(b: Multiset<usize>, v: usize) -> bool {
    b.count(v) > 0 && forall|x: usize| b.count(x) > 0 ==> v <= x
}

/// The least of the places.
spec fn least(b: Multiset<usize>) -> usize {
    choose|v: usize| is_least(b, v)
}

proof fn lemma_least(b: Multiset<usize>, v: usize)
    requires
        is_least(b, v),
    ensures
        least(b) == v,
{
    let c = least(b);
    assert(is_least(b, c));
}

/// `found` and the places that are held, the least first.
spec fn emptied(held: Multiset<usize>, left: nat, len: usize, found: Seq<Found>) -> Seq<Found>
    decreases left,
{
    if left == 0 {
        found
    } else {
        let v = least(held);
        emptied(held.remove(v), (left - 1) as nat, len, found.push(Found { pos: v, len }))
    }
}

spec fn smaller(a: int, b: int) -> int {
    if a < b {
        a
    } else {
        b
    }
}

impl Order {
    /// The next suffix to the left that starts before `pos` and not before
    /// `min_pos`, after at most `left` that do not.
    spec fn left_of(&self, pos: int, min_pos: int, i: int, l: int, left: int) -> (int, int)
        decreases i,
    {
        if l < MIN_LENGTH {
            (i, l)
        } else if i <= 0 {
            (i, 0)
        } else {
            let m = smaller(self.lcp[i - 1] as int, l);
            let p = self.sa[i - 1] as int;
            if p < pos && p >= min_pos {
                (i - 1, m)
            } else if left <= 0 {
                (i - 1, 0)
            } else {
                self.left_of(pos, min_pos, i - 1, m, left - 1)
            }
        }
    }

    /// The same to the right.
    spec fn right_of(&self, pos: int, min_pos: int, i: int, l: int, left: int) -> (int, int)
        decreases self.sa.len() - i,
    {
        if i + 1 >= self.sa.len() {
            (i, 0)
        } else {
            let m = smaller(self.lcp[i] as int, l);
            let p = self.sa[i + 1] as int;
            if m < MIN_LENGTH {
                (i, 0)
            } else if p < pos && p >= min_pos {
                (i + 1, m)
            } else if left <= 0 {
                (i + 1, 0)
            } else {
                self.right_of(pos, min_pos, i + 1, m, left - 1)
            }
        }
    }

    /// How far the walk can still go.
    spec fn room(&self, a: Around) -> int {
        reach_left(a.ll, a.li) + reach_right(a.rl, a.ri, self.sa.len() as usize)
    }

    /// One place more: that of the side with more bytes in common. Where all room is
    /// taken it stands for the least, if it is larger.
    spec fn one_more(&self, pos: int, a: Around) -> Around {
        let left = a.ll > a.rl;
        let place = if left {
            self.sa[a.li as int] as usize
        } else {
            self.sa[a.ri as int] as usize
        };
        let l = self.left_of(
            pos,
            a.min_pos as int,
            a.li as int,
            a.ll as int,
            self.match_patience,
        );
        let r = self.right_of(
            pos,
            a.min_pos as int,
            a.ri as int,
            a.rl as int,
            self.match_patience,
        );
        let fits = a.held.len() < self.max_same_length || a.held.len() == 0;
        let held = if fits {
            a.held.insert(place)
        } else if place > least(a.held) {
            a.held.remove(least(a.held)).insert(place)
        } else {
            a.held
        };
        Around {
            li: if left {
                l.0 as usize
            } else {
                a.li
            },
            ll: if left {
                l.1 as usize
            } else {
                a.ll
            },
            ri: if left {
                a.ri
            } else {
                r.0 as usize
            },
            rl: if left {
                a.rl
            } else {
                r.1 as usize
            },
            min_pos: if fits {
                a.min_pos
            } else {
                least(held)
            },
            new_min: if place > a.new_min {
                place
            } else {
                a.new_min
            },
            held,
        }
    }

    /// All places with `cur` bytes in common.
    spec fn gathered(&self, pos: int, cur: usize, a: Around) -> Around
        decreases self.room(a),
    {
        let b = self.one_more(pos, a);
        if (a.ll == cur || a.rl == cur) && 0 <= self.room(b) < self.room(a) {
            self.gathered(pos, cur, b)
        } else {
            a
        }
    }

    /// `found` and the matches that are left, the longest first and of one length
    /// the farthest first.
    spec fn listed(&self, pos: int, a: Around, found: Seq<Found>) -> Seq<Found>
        decreases self.room(a),
    {
        let cur = if a.ll > a.rl {
            a.ll
        } else {
            a.rl
        };
        let b = self.gathered(
            pos,
            cur,
            Around { new_min: a.min_pos, held: Multiset::empty(), ..a },
        );
        if cur < MIN_LENGTH || !(0 <= self.room(b) < self.room(a)) {
            found
        } else {
            self.listed(
                pos,
                Around { min_pos: b.new_min, new_min: 0, held: Multiset::empty(), ..b },
                emptied(b.held, b.held.len(), cur, found),
            )
        }
    }

    /// The matches that are listed at `pos`.
    spec fn found_at(&self, pos: int) -> Seq<Found> {
        let i = self.inv[pos] as int;
        let whole = self.sa.len() - pos;
        let l = self.left_of(pos, 0, i, whole, self.match_patience);
        let r = self.right_of(pos, 0, i, whole, self.match_patience);
        self.listed(
            pos,
            Around {
                li: l.0 as usize,
                ll: l.1 as usize,
                ri: r.0 as usize,
                rl: r.1 as usize,
                min_pos: 0,
                new_min: 0,
                held: Multiset::empty(),
            },
            Seq::empty(),
        )
    }
}

impl MatchFinder {
    pub closed spec fn ok(&self, d: Seq<u8>) -> bool {
        &&& d.len() <= MAX_TEXT
        &&& suffix::is_suffix_array(d, self.sa@)
        &&& suffix::inverse(self.sa@, self.inv@)
        &&& suffix::is_lcp(d, self.sa@, self.lcp@)
    }

    /// A finder for `d` with these limits.
    pub closed spec fn is_for(&self, d: Seq<u8>, match_patience: int, max_same_length: int) -> bool {
        &&& self.ok(d)
        &&& self.match_patience == match_patience
        &&& self.max_same_length == max_same_length
    }

    pub fn new(data: &[u8], match_patience: usize, max_same_length: usize) -> (f: MatchFinder)
        requires
            data@.len() <= MAX_TEXT,
        ensures
            f.ok(data@),
            f.is_for(data@, match_patience as int, max_same_length as int),
    {
        let sa: Vec<u32> = suffix_array(data);
        let inv: Vec<u32> = inverse_of(&sa, Ghost(data@));
        let lcp: Vec<u32> = lcp_array(data, &sa, &inv);
        MatchFinder { sa, inv, lcp, match_patience, max_same_length }
    }

    /// The next suffix to the left that starts before `pos`, not before
    /// `min_pos`.
    fn extend_left(
        &self,
        pos: usize,
        min_pos: usize,
        index: usize,
        length: usize,
        Ghost(d): Ghost<Seq<u8>>,
    ) -> (r: (usize, usize))
        requires
            self.ok(d),
            pos < d.len(),
            uparse::shares(d, self.sa@, pos as int, index as int, length as int),
        ensures
            uparse::shares(d, self.sa@, pos as int, r.0 as int, r.1 as int),
            r.1 >= MIN_LENGTH && length >= MIN_LENGTH ==> r.0 < index,
            r.1 >= MIN_LENGTH ==> length >= MIN_LENGTH && self.sa@[r.0 as int] < pos,
            r.1 <= length,
            (r.0 as int, r.1 as int) == self.order().left_of(
                pos as int,
                min_pos as int,
                index as int,
                length as int,
                self.match_patience as int,
            ),
    {
        let ghost goal = self.order().left_of(
            pos as int,
            min_pos as int,
            index as int,
            length as int,
            self.match_patience as int,
        );
        let mut i: usize = index;
        let mut l: usize = length;
        let mut left: usize = self.match_patience;
        while l >= MIN_LENGTH
            invariant
                self.ok(d),
                pos < d.len(),
                i <= index,
                l <= length,
                goal == self.order().left_of(
                    pos as int,
                    min_pos as int,
                    index as int,
                    length as int,
                    self.match_patience as int,
                ),
                goal == self.order().left_of(
                    pos as int,
                    min_pos as int,
                    i as int,
                    l as int,
                    left as int,
                ),
                uparse::shares(d, self.sa@, pos as int, i as int, l as int),
            decreases i,
        {
            if i == 0 {
                return (i, 0);
            }
            proof {
                uparse::lemma_step(d, self.sa@, self.lcp@, pos as int, i - 1, false, l as int);
            }
            i -= 1;
            let h: usize = self.lcp[i] as usize;
            if h < l {
                l = h;
            }
            let p: usize = self.sa[i] as usize;
            if p < pos && p >= min_pos {
                return (i, l);
            }
            if left == 0 {
                return (i, 0);
            }
            left -= 1;
        }
        (i, l)
    }

    /// The next suffix to the right that starts before `pos`, not before
    /// `min_pos`.
    fn extend_right(
        &self,
        pos: usize,
        min_pos: usize,
        index: usize,
        length: usize,
        Ghost(d): Ghost<Seq<u8>>,
    ) -> (r: (usize, usize))
        requires
            self.ok(d),
            pos < d.len(),
            uparse::shares(d, self.sa@, pos as int, index as int, length as int),
        ensures
            uparse::shares(d, self.sa@, pos as int, r.0 as int, r.1 as int),
            r.1 >= MIN_LENGTH ==> r.0 > index && self.sa@[r.0 as int] < pos,
            r.1 <= length,
            (r.0 as int, r.1 as int) == self.order().right_of(
                pos as int,
                min_pos as int,
                index as int,
                length as int,
                self.match_patience as int,
            ),
    {
        let ghost goal = self.order().right_of(
            pos as int,
            min_pos as int,
            index as int,
            length as int,
            self.match_patience as int,
        );
        let n: usize = self.sa.len();
        let mut i: usize = index;
        let mut l: usize = length;
        let mut left: usize = self.match_patience;
        loop
            invariant
                self.ok(d),
                n == self.sa@.len(),
                n <= MAX_TEXT,
                pos < d.len(),
                index <= i < n,
                l <= length,
                goal == self.order().right_of(
                    pos as int,
                    min_pos as int,
                    index as int,
                    length as int,
                    self.match_patience as int,
                ),
                goal == self.order().right_of(
                    pos as int,
                    min_pos as int,
                    i as int,
                    l as int,
                    left as int,
                ),
                uparse::shares(d, self.sa@, pos as int, i as int, l as int),
            decreases n - i,
        {
            if i + 1 >= n {
                return (i, 0);
            }
            proof {
                uparse::lemma_step(d, self.sa@, self.lcp@, pos as int, i as int, true, l as int);
            }
            let h: usize = self.lcp[i] as usize;
            let next: usize = if h < l {
                h
            } else {
                l
            };
            if next < MIN_LENGTH {
                return (i, 0);
            }
            l = next;
            i += 1;
            let p: usize = self.sa[i] as usize;
            if p < pos && p >= min_pos {
                return (i, l);
            }
            if left == 0 {
                return (i, 0);
            }
            left -= 1;
        }
    }

    /// What the finder goes by.
    pub closed spec fn order(&self) -> Order {
        Order {
            sa: self.sa@,
            inv: self.inv@,
            lcp: if self.lcp@.len() == 0 {
                self.lcp@
            } else {
                self.lcp@.drop_last()
            },
            match_patience: self.match_patience as int,
            max_same_length: self.max_same_length as int,
        }
    }

    /// The matches that are listed at `pos`: the longest first and of one length
    /// the farthest first.
    pub closed spec fn found_at(&self, pos: int) -> Seq<Found> {
        self.order().found_at(pos)
    }

    /// Two finders for one input list the same.
    pub proof fn lemma_same_order(&self, o: &Self, d: Seq<u8>, patience: int, same: int)
        requires
            self.is_for(d, patience, same),
            o.is_for(d, patience, same),
        ensures
            forall|p: int| self.found_at(p) == o.found_at(p),
    {
        suffix::lemma_one_order(d, self.sa@, o.sa@);
        suffix::lemma_one_inverse(self.sa@, self.inv@, o.inv@);
        if d.len() > 0 {
            suffix::lemma_one_lcp(d, self.sa@, self.lcp@, o.lcp@);
        } else {
            assert(self.lcp@ =~= o.lcp@);
        }
        assert(self.order() == o.order());
    }

    /// Matches at `pos`, the longest first and of one length the farthest first.
    #[verifier::rlimit(40)]
    pub fn matches(&self, data: &[u8], pos: usize) -> (found: Vec<Found>)
        requires
            self.ok(data@),
            pos < data@.len(),
        ensures
            found@ == self.found_at(pos as int),
            forall|k: int|
                0 <= k < found@.len() ==> uparse::found_ok(data@, pos as int, #[trigger] found@[k]),
    {
        let ghost goal = self.found_at(pos as int);
        let ghost d = data@;
        let n: usize = self.sa.len();
        let mut found: Vec<Found> = Vec::new();
        let start: usize = self.inv[pos] as usize;
        assert(self.inv@[pos as int] < self.sa@.len() && self.sa@[start as int] == pos);
        let whole: usize = data.len() - pos;
        assert(suffix::same_to(d, pos as int, pos as int, whole as int));
        let mut min_pos: usize = 0;
        let (mut li, mut ll): (usize, usize) = self.extend_left(pos, 0, start, whole, Ghost(d));
        let (mut ri, mut rl): (usize, usize) = self.extend_right(pos, 0, start, whole, Ghost(d));
        assert(found@ =~= Seq::<Found>::empty());
        loop
            invariant
                d == data@,
                n == self.sa@.len(),
                self.ok(d),
                pos < d.len(),
                goal == self.found_at(pos as int),
                goal == self.order().listed(
                    pos as int,
                    Around {
                        li,
                        ll,
                        ri,
                        rl,
                        min_pos,
                        new_min: 0,
                        held: Multiset::empty(),
                    },
                    found@,
                ),
                uparse::shares(d, self.sa@, pos as int, li as int, ll as int),
                uparse::shares(d, self.sa@, pos as int, ri as int, rl as int),
                ll >= MIN_LENGTH ==> self.sa@[li as int] < pos,
                rl >= MIN_LENGTH ==> self.sa@[ri as int] < pos,
                forall|k: int|
                    0 <= k < found@.len() ==> uparse::found_ok(d, pos as int, #[trigger] found@[k]),
            decreases reach_left(ll, li) + reach_right(rl, ri, n),
        {
            let current: usize = if ll > rl {
                ll
            } else {
                rl
            };
            if current < MIN_LENGTH {
                return found;
            }
            let ghost r0 = reach_left(ll, li) + reach_right(rl, ri, n);
            let mut new_min_pos: usize = min_pos;
            let mut buffer: MinHeap = MinHeap::new();
            let ghost all = self.order().gathered(
                pos as int,
                current,
                Around {
                    li,
                    ll,
                    ri,
                    rl,
                    min_pos,
                    new_min: min_pos,
                    held: Multiset::empty(),
                },
            );
            let mut going: bool = true;
            while going
                invariant
                    d == data@,
                    n == self.sa@.len(),
                    self.ok(d),
                    pos < d.len(),
                    current >= MIN_LENGTH,
                    buffer.wf(),
                    ll <= current && rl <= current,
                    going == (ll == current || rl == current),
                    all == self.order().gathered(
                        pos as int,
                        current,
                        Around { li, ll, ri, rl, min_pos, new_min: new_min_pos, held: buffer@ },
                    ),
                    going ==> ll == current || rl == current,
                    uparse::shares(d, self.sa@, pos as int, li as int, ll as int),
                    uparse::shares(d, self.sa@, pos as int, ri as int, rl as int),
                    ll >= MIN_LENGTH ==> self.sa@[li as int] < pos,
                    rl >= MIN_LENGTH ==> self.sa@[ri as int] < pos,
                    reach_left(ll, li) + reach_right(rl, ri, n) <= r0,
                    !going ==> reach_left(ll, li) + reach_right(rl, ri, n) < r0,
                    forall|x: usize|
                        #[trigger] buffer@.count(x) > 0 ==> x < pos && suffix::same_to(
                            d,
                            pos as int,
                            x as int,
                            current as int,
                        ),
                decreases (going as int) + 2 * (reach_left(ll, li) + reach_right(rl, ri, n)),
            {
                let match_pos: usize;
                let ghost was = Around {
                    li,
                    ll,
                    ri,
                    rl,
                    min_pos,
                    new_min: new_min_pos,
                    held: buffer@,
                };
                if ll > rl {
                    match_pos = self.sa[li] as usize;
                    let r: (usize, usize) = self.extend_left(pos, min_pos, li, ll, Ghost(d));
                    li = r.0;
                    ll = r.1;
                } else {
                    match_pos = self.sa[ri] as usize;
                    let r: (usize, usize) = self.extend_right(pos, min_pos, ri, rl, Ghost(d));
                    ri = r.0;
                    rl = r.1;
                }
                if match_pos > new_min_pos {
                    new_min_pos = match_pos;
                }
                if buffer.len() < self.max_same_length || buffer.len() == 0 {
                    buffer.push(match_pos);
                } else {
                    let low: usize = buffer.top();
                    proof {
                        lemma_least(buffer@, low);
                    }
                    if match_pos > low {
                        let out: usize = buffer.pop();
                        proof {
                            lemma_least(was.held, out);
                        }
                        buffer.push(match_pos);
                    }
                    min_pos = buffer.top();
                    proof {
                        lemma_least(buffer@, min_pos);
                    }
                }
                proof {
                    let now = Around {
                        li,
                        ll,
                        ri,
                        rl,
                        min_pos,
                        new_min: new_min_pos,
                        held: buffer@,
                    };
                    assert(now == self.order().one_more(pos as int, was));
                    assert(0 <= self.order().room(now) < self.order().room(was));
                }
                going = ll == current || rl == current;
            }
            min_pos = new_min_pos;
            let ghost list = emptied(buffer@, buffer@.len(), current, found@);
            let mut more: bool = buffer.len() > 0;
            while more
                invariant
                    d == data@,
                    self.ok(d),
                    pos < d.len(),
                    current >= MIN_LENGTH,
                    buffer.wf(),
                    more == (buffer@.len() > 0),
                    list == emptied(buffer@, buffer@.len(), current, found@),
                    forall|x: usize|
                        #[trigger] buffer@.count(x) > 0 ==> x < pos && suffix::same_to(
                            d,
                            pos as int,
                            x as int,
                            current as int,
                        ),
                    forall|k: int|
                        0 <= k < found@.len() ==> uparse::found_ok(d, pos as int, #[trigger] found@[k]),
                decreases buffer@.len(),
            {
                let ghost was = buffer@;
                let v: usize = buffer.pop();
                proof {
                    lemma_least(was, v);
                    uparse::lemma_found(d, pos as int, v as int, current as int);
                }
                found.push(Found { pos: v, len: current });
                more = buffer.len() > 0;
            }
        }
    }
}

/// How far the walk to the left can still go.
spec fn reach_left(l: usize, i: usize) -> int {
    if l >= MIN_LENGTH {
        1 + i
    } else {
        0
    }
}

spec fn reach_right(l: usize, i: usize, n: usize) -> int {
    if l >= MIN_LENGTH && i < n {
        n - i
    } else {
        0
    }
}

// ---------------------------------------------------------------------------
// Repeats are found
// ---------------------------------------------------------------------------
proof fn lemma_left_goes(x: Order, pos: int, min_pos: int, i: int, l: int, left: int)
    requires
        0 <= i < x.sa.len(),
        0 <= l,
    ensures
        ({
            let r = x.left_of(pos, min_pos, i, l, left);
            &&& 0 <= r.0 <= i
            &&& 0 <= r.1 <= l
            &&& l >= MIN_LENGTH ==> r.0 < i || r.1 == 0
        }),
    decreases i,
{
    if l >= MIN_LENGTH && i > 0 {
        let m = smaller(x.lcp[i - 1] as int, l);
        lemma_left_goes(x, pos, min_pos, i - 1, m, left - 1);
    }
}

proof fn lemma_right_goes(x: Order, pos: int, min_pos: int, i: int, l: int, left: int)
    requires
        0 <= i < x.sa.len(),
        0 <= l,
    ensures
        ({
            let r = x.right_of(pos, min_pos, i, l, left);
            &&& i <= r.0 < x.sa.len()
            &&& 0 <= r.1 <= l
            &&& r.0 > i || r.1 == 0
        }),
    decreases x.sa.len() - i,
{
    if i + 1 < x.sa.len() {
        let m = smaller(x.lcp[i] as int, l);
        if m >= MIN_LENGTH {
            lemma_right_goes(x, pos, min_pos, i + 1, m, left - 1);
        }
    }
}

spec fn inside(x: Order, a: Around) -> bool {
    a.li < x.sa.len() && a.ri < x.sa.len() && x.sa.len() <= u32::MAX
}

proof fn lemma_one_more(x: Order, pos: int, a: Around)
    requires
        inside(x, a),
        a.ll >= MIN_LENGTH || a.rl >= MIN_LENGTH,
    ensures
        inside(x, x.one_more(pos, a)),
        0 <= x.room(x.one_more(pos, a)) < x.room(a),
        x.one_more(pos, a).held.len() >= 1,
{
    lemma_left_goes(x, pos, a.min_pos as int, a.li as int, a.ll as int, x.match_patience);
    lemma_right_goes(x, pos, a.min_pos as int, a.ri as int, a.rl as int, x.match_patience);
}

proof fn lemma_gathered(x: Order, pos: int, cur: usize, a: Around)
    requires
        inside(x, a),
        cur >= MIN_LENGTH,
    ensures
        inside(x, x.gathered(pos, cur, a)),
        0 <= x.room(x.gathered(pos, cur, a)) <= x.room(a),
        a.held.len() >= 1 ==> x.gathered(pos, cur, a).held.len() >= 1,
        a.ll == cur || a.rl == cur ==> x.gathered(pos, cur, a).held.len() >= 1 && x.room(
            x.gathered(pos, cur, a),
        ) < x.room(a),
    decreases x.room(a),
{
    if a.ll == cur || a.rl == cur {
        lemma_one_more(x, pos, a);
        lemma_gathered(x, pos, cur, x.one_more(pos, a));
    }
}

proof fn lemma_emptied_keeps(held: Multiset<usize>, left: nat, len: usize, found: Seq<Found>)
    ensures
        emptied(held, left, len, found).len() == found.len() + left,
        emptied(held, left, len, found).take(found.len() as int) == found,
        left > 0 ==> emptied(held, left, len, found)[found.len() as int].len == len,
    decreases left,
{
    let r = emptied(held, left, len, found);
    if left == 0 {
        assert(r.take(found.len() as int) =~= found);
    } else {
        let v = least(held);
        let more = found.push(Found { pos: v, len });
        lemma_emptied_keeps(held.remove(v), (left - 1) as nat, len, more);
        assert(r.take(found.len() as int) =~= r.take(more.len() as int).take(found.len() as int));
        assert(more.take(found.len() as int) =~= found);
        assert(r.take(more.len() as int)[found.len() as int] == r[found.len() as int]);
    }
}

proof fn lemma_listed_keeps(x: Order, pos: int, a: Around, found: Seq<Found>)
    ensures
        x.listed(pos, a, found).len() >= found.len(),
        x.listed(pos, a, found).take(found.len() as int) == found,
    decreases x.room(a),
{
    let r = x.listed(pos, a, found);
    let cur = if a.ll > a.rl {
        a.ll
    } else {
        a.rl
    };
    let b = x.gathered(pos, cur, Around { new_min: a.min_pos, held: Multiset::empty(), ..a });
    if cur < MIN_LENGTH || !(0 <= x.room(b) < x.room(a)) {
        assert(r.take(found.len() as int) =~= found);
    } else {
        let more = emptied(b.held, b.held.len(), cur, found);
        lemma_emptied_keeps(b.held, b.held.len(), cur, found);
        let next = Around { min_pos: b.new_min, new_min: 0, held: Multiset::empty(), ..b };
        assert(x.room(next) == x.room(b));
        lemma_listed_keeps(x, pos, next, more);
        assert(r.take(found.len() as int) =~= r.take(more.len() as int).take(found.len() as int));
    }
}

/// A walk to the left meets an earlier place that has as many bytes in common as
/// one farther left.
proof fn lemma_left_meets(x: Order, d: Seq<u8>, lcp: Seq<u32>, pos: int, i: int, j: int, k: int, l: int, left: int, len: int)
    requires
        suffix::is_suffix_array(d, x.sa),
        suffix::is_lcp(d, x.sa, lcp),
        x.lcp == lcp.drop_last(),
        0 <= pos < d.len(),
        0 <= k < j <= i < x.sa.len(),
        x.sa[i] == pos,
        x.sa[k] < pos,
        suffix::same_to(d, pos, x.sa[k] as int, len),
        2 <= len <= l,
        forall|t: int| j <= t < i ==> pos < (#[trigger] x.sa[t]),
        left + (i - j) >= suffix::later_places(d, pos, len).len(),
    ensures
        x.left_of(pos, 0, j, l, left).1 >= len,
    decreases j,
{
    assert forall|t: int| j <= t < i implies pos < (#[trigger] x.sa[t]) && suffix::same_to(
        d,
        pos,
        x.sa[t] as int,
        len,
    ) by {
        suffix::lemma_all_between(d, x.sa, i, k, t, len);
    }
    suffix::lemma_all_between(d, x.sa, i, k, j, len);
    suffix::lemma_all_between(d, x.sa, i, k, j - 1, len);
    suffix::lemma_neighbours(d, x.sa, lcp, pos, j - 1, len);
    assert(x.lcp[j - 1] == lcp[j - 1]);
    let m = smaller(x.lcp[j - 1] as int, l);
    if x.sa[j - 1] >= pos {
        assert(x.sa[j - 1] != pos) by {
            suffix::lemma_suf_asym(d, x.sa[j - 1] as int, x.sa[i] as int);
        }
        assert forall|t: int| j - 1 <= t < i implies pos < (#[trigger] x.sa[t]) && suffix::same_to(
            d,
            pos,
            x.sa[t] as int,
            len,
        ) by {}
        suffix::lemma_few_skipped(d, x.sa, pos, j - 1, i, len);
        lemma_left_meets(x, d, lcp, pos, i, j - 1, k, m, left - 1, len);
    }
}

/// The same to the right.
proof fn lemma_right_meets(x: Order, d: Seq<u8>, lcp: Seq<u32>, pos: int, i: int, j: int, k: int, l: int, left: int, len: int)
    requires
        suffix::is_suffix_array(d, x.sa),
        suffix::is_lcp(d, x.sa, lcp),
        x.lcp == lcp.drop_last(),
        0 <= pos < d.len(),
        0 <= i <= j < k < x.sa.len(),
        x.sa[i] == pos,
        x.sa[k] < pos,
        suffix::same_to(d, pos, x.sa[k] as int, len),
        2 <= len <= l,
        forall|t: int| i < t <= j ==> pos < (#[trigger] x.sa[t]),
        left + (j - i) >= suffix::later_places(d, pos, len).len(),
    ensures
        x.right_of(pos, 0, j, l, left).1 >= len,
    decreases x.sa.len() - j,
{
    assert forall|t: int| i + 1 <= t < j + 1 implies pos < (#[trigger] x.sa[t]) && suffix::same_to(
        d,
        pos,
        x.sa[t] as int,
        len,
    ) by {
        suffix::lemma_all_between(d, x.sa, i, k, t, len);
    }
    suffix::lemma_all_between(d, x.sa, i, k, j, len);
    suffix::lemma_all_between(d, x.sa, i, k, j + 1, len);
    suffix::lemma_neighbours(d, x.sa, lcp, pos, j, len);
    assert(x.lcp[j] == lcp[j]);
    let m = smaller(x.lcp[j] as int, l);
    if x.sa[j + 1] >= pos {
        assert(x.sa[j + 1] != pos) by {
            suffix::lemma_suf_asym(d, x.sa[i] as int, x.sa[j + 1] as int);
        }
        assert forall|t: int| i + 1 <= t < j + 2 implies pos < (#[trigger] x.sa[t])
            && suffix::same_to(d, pos, x.sa[t] as int, len) by {}
        suffix::lemma_few_skipped(d, x.sa, pos, i + 1, j + 2, len);
        lemma_right_meets(x, d, lcp, pos, i, j + 1, k, m, left - 1, len);
    }
}

/// Where the bytes at `pos` occur earlier, for `len` bytes from two on, and no more
/// later places than the patience have them too, a match is listed, and the first one
/// is as long.
pub proof fn lemma_repeats_are_found(
    f: &MatchFinder,
    d: Seq<u8>,
    patience: int,
    same: int,
    pos: int,
    q: int,
    len: int,
)
    requires
        f.is_for(d, patience, same),
        0 <= q < pos < d.len(),
        len >= 2,
        lz::is_match(d, pos, pos - q, len),
        suffix::later_places(d, pos, len).len() <= patience,
    ensures
        f.found_at(pos).len() > 0,
        f.found_at(pos)[0].len >= len,
{
    let x = f.order();
    let lcp = f.lcp@;
    let (i, k) = (x.inv[pos] as int, x.inv[q] as int);
    assert(x.sa[i] == pos && x.sa[k] == q);
    suffix::lemma_match_same(d, pos, q, len);
    let whole = x.sa.len() - pos;
    let l = x.left_of(pos, 0, i, whole, x.match_patience);
    let r = x.right_of(pos, 0, i, whole, x.match_patience);
    lemma_left_goes(x, pos, 0, i, whole, x.match_patience);
    lemma_right_goes(x, pos, 0, i, whole, x.match_patience);
    if k < i {
        lemma_left_meets(x, d, lcp, pos, i, i, k, whole, x.match_patience, len);
    } else {
        assert(k != i);
        lemma_right_meets(x, d, lcp, pos, i, i, k, whole, x.match_patience, len);
    }
    let a = Around {
        li: l.0 as usize,
        ll: l.1 as usize,
        ri: r.0 as usize,
        rl: r.1 as usize,
        min_pos: 0,
        new_min: 0,
        held: Multiset::empty(),
    };
    let cur = if a.ll > a.rl {
        a.ll
    } else {
        a.rl
    };
    assert(cur >= len);
    let c = Around { new_min: a.min_pos, held: Multiset::empty(), ..a };
    let b = x.gathered(pos, cur, c);
    lemma_gathered(x, pos, cur, c);
    let more = emptied(b.held, b.held.len(), cur, Seq::empty());
    lemma_emptied_keeps(b.held, b.held.len(), cur, Seq::empty());
    let next = Around { min_pos: b.new_min, new_min: 0, held: Multiset::empty(), ..b };
    lemma_listed_keeps(x, pos, next, more);
    let all = f.found_at(pos);
    assert(all == x.listed(pos, next, more));
    assert(all.take(more.len() as int)[0] == all[0]);
}

} // verus!
