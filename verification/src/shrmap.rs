//! A map from offsets to numbers, by cuckoo hashing: every key is in one of two
//! places, and a new key may push others to their second place.
use vstd::arithmetic::power2::{lemma_pow2_pos, lemma_pow2_unfold, pow2};
use vstd::prelude::*;

verus! {

/// Marks a free place.
pub const UNUSED: u32 = 0xffff_ffff;

/// The table has four places at first.
const FIRST_SHIFT: u32 = 30;

/// The table does not grow beyond this.
const LAST_SHIFT: u32 = 8;

/// The first place of a key, or the second.
spec fn place(key: u32, shift: u32, second: bool) -> int {
    let f = vstd::wrapping::u32_specs::wrapping_add((key << 1u32) as u32, 1);
    let m: u32 = if second {
        0x8084027f
    } else {
        0xf230d3a1
    };
    (vstd::wrapping::u32_specs::wrapping_mul(f, m) >> shift) as int
}

proof fn lemma_place(key: u32, shift: u32, second: bool)
    requires
        LAST_SHIFT <= shift <= FIRST_SHIFT,
    ensures
        0 <= place(key, shift, second) < pow2((32 - shift) as nat),
{
    let f = vstd::wrapping::u32_specs::wrapping_add((key << 1u32) as u32, 1);
    let m: u32 = if second {
        0x8084027f
    } else {
        0xf230d3a1
    };
    let x = vstd::wrapping::u32_specs::wrapping_mul(f, m);
    vstd::bits::lemma_u32_shr_is_div(x, shift);
    vstd::arithmetic::power2::lemma_pow2_adds((32 - shift) as nat, shift as nat);
    assert(pow2(32) == 0x1_0000_0000) by {
        vstd::arithmetic::power2::lemma2_to64();
    }
    lemma_pow2_pos(shift as nat);
    let p = pow2(shift as nat) as int;
    let q = pow2((32 - shift) as nat) as int;
    assert((x as int) / p < q) by (nonlinear_arith)
        requires
            0 <= x < q * p,
            p > 0,
    ;
}

/// Every key that is there stands at one of its places, and only once.
spec fn slots_ok(keys: Seq<u32>, shift: u32) -> bool {
    &&& forall|i: int|
        0 <= i < keys.len() && #[trigger] keys[i] != UNUSED ==> i == place(keys[i], shift, false) || i
            == place(keys[i], shift, true)
    &&& forall|i: int, j: int|
        #![trigger keys[i], keys[j]]
        0 <= i < j < keys.len() && keys[i] != UNUSED ==> keys[i] != keys[j]
}

spec fn stands(keys: Seq<u32>, k: u32, i: int) -> bool {
    0 <= i < keys.len() && keys[i] == k
}

spec fn where_is(keys: Seq<u32>, k: u32) -> int {
    choose|i: int| stands(keys, k, i)
}

/// The map that the places hold.
spec fn slots_map(keys: Seq<u32>, vals: Seq<u32>) -> Map<u32, u32> {
    Map::new(
        |k: u32| k != UNUSED && exists|i: int| #[trigger] stands(keys, k, i),
        |k: u32| vals[where_is(keys, k)],
    )
}

proof fn lemma_stands(keys: Seq<u32>, vals: Seq<u32>, shift: u32, i: int)
    requires
        slots_ok(keys, shift),
        0 <= i < keys.len(),
        keys[i] != UNUSED,
    ensures
        slots_map(keys, vals).contains_key(keys[i]),
        slots_map(keys, vals)[keys[i]] == vals[i],
        where_is(keys, keys[i]) == i,
{
    assert(stands(keys, keys[i], i));
    let j = where_is(keys, keys[i]);
    assert(stands(keys, keys[i], j));
    if i < j {
        assert(keys[i] != keys[j]);
    } else if j < i {
        assert(keys[j] != keys[i]);
    }
}

/// A key that is at neither place is not there.
proof fn lemma_absent(keys: Seq<u32>, vals: Seq<u32>, shift: u32, k: u32)
    requires
        slots_ok(keys, shift),
        keys.len() > 0 ==> keys[place(k, shift, false)] != k && keys[place(k, shift, true)] != k,
    ensures
        !slots_map(keys, vals).contains_key(k),
{
    if slots_map(keys, vals).contains_key(k) {
        let i = choose|i: int| #[trigger] stands(keys, k, i);
        assert(keys[i] == k);
    }
}

/// Filling a free place adds a key.
proof fn lemma_fill(keys: Seq<u32>, vals: Seq<u32>, shift: u32, i: int, k: u32, v: u32)
    requires
        slots_ok(keys, shift),
        keys.len() == vals.len(),
        0 <= i < keys.len(),
        keys[i] == UNUSED,
        k != UNUSED,
        i == place(k, shift, false) || i == place(k, shift, true),
        !slots_map(keys, vals).contains_key(k),
    ensures
        slots_ok(keys.update(i, k), shift),
        slots_map(keys.update(i, k), vals.update(i, v)) == slots_map(keys, vals).insert(k, v),
{
    let keys2 = keys.update(i, k);
    let vals2 = vals.update(i, v);
    assert forall|a: int, b: int|
        #![trigger keys2[a], keys2[b]]
        0 <= a < b < keys2.len() && keys2[a] != UNUSED implies keys2[a] != keys2[b] by {
        if a == i {
            if keys[b] == k {
                assert(stands(keys, k, b));
            }
        } else if b == i {
            if keys[a] == k {
                assert(stands(keys, k, a));
            }
        } else {
            assert(keys[a] != keys[b]);
        }
    }
    assert(slots_ok(keys2, shift));
    let m1 = slots_map(keys2, vals2);
    let m2 = slots_map(keys, vals).insert(k, v);
    assert forall|x: u32| #[trigger]
        m1.dom().contains(x) == m2.dom().contains(x) && (m1.dom().contains(x) ==> m1[x] == m2[x]) by {
        lemma_stands(keys2, vals2, shift, i);
        if x != k && x != UNUSED {
            if m1.contains_key(x) {
                let j = choose|j: int| #[trigger] stands(keys2, x, j);
                lemma_stands(keys2, vals2, shift, j);
                assert(keys[j] == x);
                lemma_stands(keys, vals, shift, j);
            }
            if m2.contains_key(x) {
                let j = choose|j: int| #[trigger] stands(keys, x, j);
                assert(keys2[j] == x);
                lemma_stands(keys2, vals2, shift, j);
                lemma_stands(keys, vals, shift, j);
            }
        }
    }
    assert(m1 =~= m2);
}

/// Freeing a place takes its key away.
proof fn lemma_free(keys: Seq<u32>, vals: Seq<u32>, shift: u32, i: int)
    requires
        slots_ok(keys, shift),
        keys.len() == vals.len(),
        0 <= i < keys.len(),
        keys[i] != UNUSED,
    ensures
        slots_ok(keys.update(i, UNUSED), shift),
        slots_map(keys.update(i, UNUSED), vals) == slots_map(keys, vals).remove(keys[i]),
{
    let keys2 = keys.update(i, UNUSED);
    assert(slots_ok(keys2, shift)) by {
        assert forall|a: int, b: int|
            #![trigger keys2[a], keys2[b]]
            0 <= a < b < keys2.len() && keys2[a] != UNUSED implies keys2[a] != keys2[b] by {
            assert(keys[a] != keys[b]);
        }
    }
    let m1 = slots_map(keys2, vals);
    let m2 = slots_map(keys, vals).remove(keys[i]);
    assert forall|x: u32| #[trigger]
        m1.dom().contains(x) == m2.dom().contains(x) && (m1.dom().contains(x) ==> m1[x] == m2[x]) by {
        if x != UNUSED {
            if m1.contains_key(x) {
                let j = choose|j: int| #[trigger] stands(keys2, x, j);
                lemma_stands(keys2, vals, shift, j);
                assert(keys[j] == x && j != i);
                lemma_stands(keys, vals, shift, j);
                if j < i {
                    assert(keys[j] != keys[i]);
                } else {
                    assert(keys[i] != keys[j]);
                }
            }
            if m2.contains_key(x) {
                let j = choose|j: int| #[trigger] stands(keys, x, j);
                assert(keys2[j] == x);
                lemma_stands(keys2, vals, shift, j);
                lemma_stands(keys, vals, shift, j);
            }
        }
    }
    assert(m1 =~= m2);
}

/// A new number for a key that is there.
proof fn lemma_renew(keys: Seq<u32>, vals: Seq<u32>, shift: u32, i: int, v: u32)
    requires
        slots_ok(keys, shift),
        keys.len() == vals.len(),
        0 <= i < keys.len(),
        keys[i] != UNUSED,
    ensures
        slots_map(keys, vals.update(i, v)) == slots_map(keys, vals).insert(keys[i], v),
{
    let m1 = slots_map(keys, vals.update(i, v));
    let m2 = slots_map(keys, vals).insert(keys[i], v);
    assert forall|x: u32| #[trigger]
        m1.dom().contains(x) == m2.dom().contains(x) && (m1.dom().contains(x) ==> m1[x] == m2[x]) by {
        lemma_stands(keys, vals, shift, i);
        if m1.contains_key(x) {
            let j = choose|j: int| #[trigger] stands(keys, x, j);
            lemma_stands(keys, vals, shift, j);
            lemma_stands(keys, vals.update(i, v), shift, j);
        }
    }
    assert(m1 =~= m2);
}

/// The map that the first `n` places hold.
spec fn first_slots(keys: Seq<u32>, vals: Seq<u32>, n: int) -> Map<u32, u32>
    decreases n,
{
    if n <= 0 {
        Map::empty()
    } else if keys[n - 1] == UNUSED {
        first_slots(keys, vals, n - 1)
    } else {
        first_slots(keys, vals, n - 1).insert(keys[n - 1], vals[n - 1])
    }
}

proof fn lemma_first_slots(keys: Seq<u32>, vals: Seq<u32>, n: int, x: u32)
    requires
        0 <= n <= keys.len(),
        keys.len() == vals.len(),
        forall|i: int, j: int|
            #![trigger keys[i], keys[j]]
            0 <= i < j < keys.len() && keys[i] != UNUSED ==> keys[i] != keys[j],
    ensures
        first_slots(keys, vals, n).contains_key(x) <==> x != UNUSED && exists|i: int|
            i < n && #[trigger] stands(keys, x, i),
        forall|i: int|
            i < n && x != UNUSED && #[trigger] stands(keys, x, i) ==> first_slots(keys, vals, n)[x]
                == vals[i],
    decreases n,
{
    if n > 0 {
        lemma_first_slots(keys, vals, n - 1, x);
        assert(stands(keys, keys[n - 1], n - 1));
    }
}

proof fn lemma_first_len(keys: Seq<u32>, vals: Seq<u32>, n: int)
    requires
        n >= 0,
    ensures
        first_slots(keys, vals, n).dom().finite(),
        first_slots(keys, vals, n).dom().len() <= n,
    decreases n,
{
    if n > 0 {
        lemma_first_len(keys, vals, n - 1);
        let m = first_slots(keys, vals, n - 1);
        assert(m.insert(keys[n - 1], vals[n - 1]).dom() =~= m.dom().insert(keys[n - 1]));
    } else {
        assert(Map::<u32, u32>::empty().dom() =~= Set::<u32>::empty());
    }
}

proof fn lemma_all_slots(keys: Seq<u32>, vals: Seq<u32>, shift: u32)
    requires
        slots_ok(keys, shift),
        keys.len() == vals.len(),
    ensures
        first_slots(keys, vals, keys.len() as int) == slots_map(keys, vals),
{
    let n = keys.len() as int;
    let m1 = first_slots(keys, vals, n);
    let m2 = slots_map(keys, vals);
    assert forall|x: u32| #[trigger]
        m1.dom().contains(x) == m2.dom().contains(x) && (m1.dom().contains(x) ==> m1[x] == m2[x]) by {
        lemma_first_slots(keys, vals, n, x);
        if m1.contains_key(x) {
            let i = choose|i: int| i < n && #[trigger] stands(keys, x, i);
            lemma_stands(keys, vals, shift, i);
        }
        if m2.contains_key(x) {
            let i = choose|i: int| #[trigger] stands(keys, x, i);
            assert(i < n);
        }
    }
    assert(m1 =~= m2);
}

proof fn lemma_no_slots(keys: Seq<u32>, vals: Seq<u32>, shift: u32)
    requires
        forall|i: int| 0 <= i < keys.len() ==> #[trigger] keys[i] == UNUSED,
    ensures
        slots_ok(keys, shift),
        slots_map(keys, vals) == Map::<u32, u32>::empty(),
{
    let m = slots_map(keys, vals);
    assert forall|x: u32| !m.contains_key(x) by {
        if m.contains_key(x) {
            let i = choose|i: int| #[trigger] stands(keys, x, i);
            assert(keys[i] == UNUSED);
        }
    }
    assert(m =~= Map::<u32, u32>::empty());
}

/// The place of a key.
fn home(key: u32, shift: u32, second: bool) -> (i: usize)
    requires
        LAST_SHIFT <= shift <= FIRST_SHIFT,
    ensures
        i == place(key, shift, second),
        i < pow2((32 - shift) as nat),
{
    proof {
        lemma_place(key, shift, second);
    }
    let f: u32 = (key << 1u32).wrapping_add(1);
    if second {
        (f.wrapping_mul(0x8084027f) >> shift) as usize
    } else {
        (f.wrapping_mul(0xf230d3a1) >> shift) as usize
    }
}

/// Every pair of `b` is one of `a`.
pub open spec fn part_of(b: Map<u32, u32>, a: Map<u32, u32>) -> bool {
    forall|k: u32| #[trigger] b.contains_key(k) ==> a.contains_key(k) && b[k] == a[k]
}

/// The first `k` slots that are in use, in their order.
pub open spec fn in_use(slots: Seq<(u32, u32)>, k: int) -> Seq<(u32, u32)>
    decreases k,
{
    if k <= 0 {
        seq![]
    } else if slots[k - 1].0 != UNUSED {
        in_use(slots, k - 1).push(slots[k - 1])
    } else {
        in_use(slots, k - 1)
    }
}

/// A map from keys to numbers.
pub struct CuckooHash {
    keys: Vec<u32>,
    vals: Vec<u32>,
    count: usize,
    shift: u32,
    size: usize,
}

impl View for CuckooHash {
    type V = Map<u32, u32>;

    closed spec fn view(&self) -> Map<u32, u32> {
        slots_map(self.keys@, self.vals@)
    }
}

impl CuckooHash {
    /// The slots of the table, each with its key and its number.
    pub closed spec fn slots(&self) -> Seq<(u32, u32)> {
        Seq::new(self.keys@.len(), |i: int| (self.keys@[i], self.vals@[i]))
    }

    /// The keys and their numbers in the order of their slots.
    pub open spec fn entries(&self) -> Seq<(u32, u32)> {
        in_use(self.slots(), self.slots().len() as int)
    }

    spec fn shape(&self) -> bool {
        &&& LAST_SHIFT <= self.shift <= FIRST_SHIFT
        &&& self.size == pow2((32 - self.shift) as nat)
        &&& self.keys@.len() == self.vals@.len()
        &&& self.keys@.len() == 0 || self.keys@.len() == self.size
        &&& slots_ok(self.keys@, self.shift)
    }

    /// Falls as the table grows.
    pub closed spec fn level(&self) -> int {
        self.shift as int
    }

    /// The table is as large as it can be.
    pub closed spec fn full_size(&self) -> bool {
        self.shift == LAST_SHIFT
    }

    pub closed spec fn wf(&self) -> bool {
        &&& self.shape()
        &&& self@.dom().finite()
        &&& self.count == self@.dom().len()
    }

    pub fn new() -> (c: CuckooHash)
        ensures
            c.wf(),
            c@ == Map::<u32, u32>::empty(),
    {
        let c: CuckooHash = CuckooHash {
            keys: Vec::new(),
            vals: Vec::new(),
            count: 0,
            shift: FIRST_SHIFT,
            size: 4,
        };
        proof {
            vstd::arithmetic::power2::lemma2_to64();
            lemma_no_slots(c.keys@, c.vals@, c.shift);
            assert(c@.dom() =~= Set::<u32>::empty());
        }
        c
    }

    /// How many keys there are.
    pub fn size(&self) -> (n: usize)
        requires
            self.wf(),
        ensures
            n == self@.dom().len(),
    {
        self.count
    }

    /// The number of a key.
    pub fn get(&self, key: u32) -> (r: Option<u32>)
        requires
            self.wf(),
            key != UNUSED,
        ensures
            r == if self@.contains_key(key) {
                Some(self@[key])
            } else {
                None
            },
    {
        if self.keys.len() == 0 {
            proof {
                lemma_absent(self.keys@, self.vals@, self.shift, key);
            }
            return None;
        }
        let a: usize = home(key, self.shift, false);
        if self.keys[a] == key {
            proof {
                lemma_stands(self.keys@, self.vals@, self.shift, a as int);
            }
            return Some(self.vals[a]);
        }
        let b: usize = home(key, self.shift, true);
        if self.keys[b] == key {
            proof {
                lemma_stands(self.keys@, self.vals@, self.shift, b as int);
            }
            return Some(self.vals[b]);
        }
        proof {
            lemma_absent(self.keys@, self.vals@, self.shift, key);
        }
        None
    }

    fn ensure_array(&mut self)
        requires
            old(self).wf(),
        ensures
            final(self).wf(),
            final(self)@ == old(self)@,
            final(self).keys@.len() == final(self).size,
            final(self).shift == old(self).shift,
            final(self).count == old(self).count,
            final(self).size == old(self).size,
    {
        if self.keys.len() == 0 {
            let ghost m = self@;
            proof {
                lemma_no_slots(self.keys@, self.vals@, self.shift);
            }
            let mut keys: Vec<u32> = Vec::new();
            let mut vals: Vec<u32> = Vec::new();
            while keys.len() < self.size
                invariant
                    keys@.len() <= self.size,
                    vals@.len() == keys@.len(),
                    forall|i: int| 0 <= i < keys@.len() ==> #[trigger] keys@[i] == UNUSED,
                decreases self.size - keys.len(),
            {
                keys.push(UNUSED);
                vals.push(0);
            }
            self.keys = keys;
            self.vals = vals;
            proof {
                lemma_no_slots(self.keys@, self.vals@, self.shift);
            }
        }
    }

    pub fn erase(&mut self, key: u32)
        requires
            old(self).wf(),
            key != UNUSED,
        ensures
            final(self).wf(),
            final(self)@ == old(self)@.remove(key),
    {
        if self.keys.len() == 0 {
            proof {
                lemma_absent(self.keys@, self.vals@, self.shift, key);
                assert(self@.remove(key) =~= self@);
            }
            return ;
        }
        let a: usize = home(key, self.shift, false);
        let b: usize = home(key, self.shift, true);
        let ghost k0 = self.keys@;
        let ghost m0 = self@;
        if self.keys[a] == key || self.keys[b] == key {
            let i: usize = if self.keys[a] == key {
                a
            } else {
                b
            };
            proof {
                lemma_free(k0, self.vals@, self.shift, i as int);
                lemma_stands(k0, self.vals@, self.shift, i as int);
                assert(m0.remove(key).dom() =~= m0.dom().remove(key));
            }
            self.keys.set(i, UNUSED);
            self.count = self.count - 1;
        } else {
            proof {
                lemma_absent(k0, self.vals@, self.shift, key);
                assert(m0.remove(key) =~= m0);
            }
        }
    }

    /// Gives a key a number. Where that is false, the table can grow no more and
    /// some other keys were lost for want of room.
    #[verifier::rlimit(40)]
    pub fn put(&mut self, key: u32, value: u32) -> (kept: bool)
        requires
            old(self).wf(),
            key != UNUSED,
        ensures
            final(self).wf(),
            final(self).level() <= old(self).level(),
            kept ==> final(self)@ == old(self)@.insert(key, value),
            !kept ==> final(self).full_size(),
            old(self).full_size() ==> final(self).full_size(),
            old(self)@.contains_key(key) ==> kept,
            part_of(final(self)@, old(self)@.insert(key, value)),
        decreases old(self).level(), 1int,
    {
        self.ensure_array();
        let ghost m0 = self@;
        let ghost want = m0.insert(key, value);
        let a: usize = home(key, self.shift, false);
        let b: usize = home(key, self.shift, true);
        let ghost k0 = self.keys@;
        let ghost v0 = self.vals@;
        let ghost s0 = self.shift;
        if self.keys[a] == key || self.keys[b] == key {
            let i: usize = if self.keys[a] == key {
                a
            } else {
                b
            };
            proof {
                lemma_renew(k0, v0, s0, i as int, value);
                lemma_stands(k0, v0, s0, i as int);
                assert(want.dom() =~= m0.dom());
            }
            self.vals.set(i, value);
            return true;
        }
        proof {
            lemma_absent(k0, v0, s0, key);
            assert(want.dom() =~= m0.dom().insert(key));
        }
        if self.keys[a] != UNUSED && self.keys[b] == UNUSED {
            proof {
                lemma_fill(k0, v0, s0, b as int, key, value);
            }
            self.keys.set(b, key);
            self.vals.set(b, value);
            proof {
                self.lemma_room();
            }
            self.count = self.count + 1;
            return true;
        }
        let n: usize = self.count;
        let mut k: u32 = key;
        let mut v: u32 = value;
        let mut h: usize = a;
        let mut left: usize = n;
        while self.keys[h] != UNUSED
            invariant
                self.shape(),
                self.keys@.len() == self.size,
                self.shift == s0,
                self.count == n,
                n == m0.dom().len(),
                m0.dom().finite(),
                want == m0.insert(key, value),
                m0 == old(self)@,
                !m0.contains_key(key),
                h < self.size,
                k != UNUSED,
                h == place(k, self.shift, false) || h == place(k, self.shift, true),
                !self@.contains_key(k),
                self@.insert(k, v) == want,
                s0 == old(self).shift,
            decreases left,
        {
            if left == 0 {
                proof {
                    self.lemma_room();
                    assert(want.dom() =~= self@.dom().insert(k));
                    assert(want.dom() =~= m0.dom().insert(key));
                    assert(!m0.dom().contains(key) && !self@.dom().contains(k));
                    assert(m0.dom().insert(key).len() == n + 1);
                    assert(self@.dom().insert(k).len() == self@.dom().len() + 1);
                }
                return self.rehash(k, v, Ghost(want));
            }
            left -= 1;
            let ghost k1 = self.keys@;
            let ghost v1 = self.vals@;
            let ghost m1 = self@;
            let k2: u32 = self.keys[h];
            let v2: u32 = self.vals[h];
            proof {
                lemma_free(k1, v1, s0, h as int);
                lemma_stands(k1, v1, s0, h as int);
                assert(!m1.remove(k2).contains_key(k));
                lemma_fill(k1.update(h as int, UNUSED), v1, s0, h as int, k, v);
                assert(k1.update(h as int, UNUSED).update(h as int, k) =~= k1.update(h as int, k));
                assert(m1.remove(k2).insert(k, v).insert(k2, v2) =~= m1.insert(k, v));
            }
            self.keys.set(h, k);
            self.vals.set(h, v);
            k = k2;
            v = v2;
            let x: usize = home(k, self.shift, false);
            h = if h == x {
                home(k, self.shift, true)
            } else {
                x
            };
        }
        proof {
            lemma_fill(self.keys@, self.vals@, s0, h as int, k, v);
            assert(want.dom() =~= m0.dom().insert(key));
        }
        self.keys.set(h, k);
        self.vals.set(h, v);
        proof {
            self.lemma_room();
        }
        self.count = self.count + 1;
        true
    }

    /// A table has no more keys than places.
    proof fn lemma_room(&self)
        requires
            self.shape(),
        ensures
            self@.dom().finite(),
            self@.dom().len() <= self.keys@.len(),
    {
        lemma_all_slots(self.keys@, self.vals@, self.shift);
        lemma_first_len(self.keys@, self.vals@, self.keys@.len() as int);
    }

    /// A larger table with the same keys and one more.
    fn rehash(&mut self, key: u32, value: u32, Ghost(want): Ghost<Map<u32, u32>>) -> (kept: bool)
        requires
            old(self).wf(),
            key != UNUSED,
            old(self)@.insert(key, value) == want,
            !old(self)@.contains_key(key),
        ensures
            final(self).wf(),
            final(self).shift <= old(self).shift,
            kept ==> final(self)@ == want,
            part_of(final(self)@, want),
            !kept ==> final(self).full_size(),
        decreases old(self).level(), 0int,
    {
        if self.shift == LAST_SHIFT {
            return false;
        }
        let n: usize = self.keys.len();
        let ghost m0 = self@;
        proof {
            lemma_pow2_unfold((33 - self.shift) as nat);
            lemma_size_small(self.shift);
        }
        let mut next: CuckooHash = CuckooHash {
            keys: Vec::new(),
            vals: Vec::new(),
            count: 0,
            shift: self.shift - 1,
            size: 2 * self.size,
        };
        proof {
            lemma_no_slots(next.keys@, next.vals@, next.shift);
            assert(next@.dom() =~= Set::<u32>::empty());
        }
        let mut kept: bool = true;
        let mut i: usize = 0;
        assert(next@ =~= first_slots(self.keys@, self.vals@, 0));
        while i < n
            invariant
                n == self.keys@.len(),
                self.vals@.len() == n,
                i <= n,
                next.wf(),
                next.shift < self.shift,
                self.shift == old(self).shift,
                kept ==> next@ == first_slots(self.keys@, self.vals@, i as int),
                part_of(next@, first_slots(self.keys@, self.vals@, i as int)),
                !kept ==> next.full_size(),
            decreases n - i,
        {
            if self.keys[i] != UNUSED {
                let ok: bool = next.put(self.keys[i], self.vals[i]);
                kept = kept && ok;
            }
            i += 1;
        }
        proof {
            lemma_all_slots(self.keys@, self.vals@, self.shift);
        }
        let ok: bool = next.put(key, value);
        *self = next;
        kept && ok
    }

    /// The keys and their numbers, in the order of their slots.
    pub fn iter_entries(&self) -> (list: Vec<(u32, u32)>)
        requires
            self.wf(),
        ensures
            list@ == self.entries(),
            forall|e: int|
                0 <= e < list@.len() ==> self@.contains_pair((#[trigger] list@[e]).0, list@[e].1) && list@[e].0 != UNUSED,
            forall|k: u32| #[trigger]
                self@.contains_key(k) ==> exists|e: int|
                    0 <= e < list@.len() && #[trigger] list@[e] == (k, self@[k]),
            forall|d: int, e: int|
                0 <= d < e < list@.len() ==> (#[trigger] list@[d]).0 != (#[trigger] list@[e]).0,
    {
        let n: usize = self.keys.len();
        let mut list: Vec<(u32, u32)> = Vec::new();
        let mut i: usize = 0;
        while i < n
            invariant
                n == self.keys@.len(),
                n == self.vals@.len(),
                i <= n,
                self.wf(),
                list@ == in_use(self.slots(), i as int),
                forall|e: int|
                    0 <= e < list@.len() ==> self@.contains_pair(
                        (#[trigger] list@[e]).0,
                        list@[e].1,
                    ) && list@[e].0 != UNUSED,
                forall|j: int|
                    0 <= j < i && #[trigger] self.keys@[j] != UNUSED ==> list@.contains(
                        (self.keys@[j], self.vals@[j]),
                    ),
                forall|e: int|
                    0 <= e < list@.len() ==> where_is(self.keys@, (#[trigger] list@[e]).0) < i,
                forall|d: int, e: int|
                    0 <= d < e < list@.len() ==> (#[trigger] list@[d]).0 != (#[trigger] list@[e]).0,
            decreases n - i,
        {
            if self.keys[i] != UNUSED {
                let ghost l0 = list@;
                list.push((self.keys[i], self.vals[i]));
                proof {
                    lemma_stands(self.keys@, self.vals@, self.shift, i as int);
                    assert forall|e: int| 0 <= e < list@.len() implies where_is(
                        self.keys@,
                        (#[trigger] list@[e]).0,
                    ) < i + 1 by {
                        if e < l0.len() {
                            assert(list@[e] == l0[e]);
                        }
                    }
                    assert forall|d: int, e: int| 0 <= d < e < list@.len() implies (
                    #[trigger] list@[d]).0 != (#[trigger] list@[e]).0 by {
                        assert(list@[d] == l0[d]);
                        if e < l0.len() {
                            assert(list@[e] == l0[e]);
                        } else {
                            assert(where_is(self.keys@, l0[d].0) < i);
                        }
                    }
                    assert(list@[l0.len() as int] == (self.keys@[i as int], self.vals@[i as int]));
                    assert forall|j: int| 0 <= j < i + 1 && #[trigger] self.keys@[j] != UNUSED implies list@.contains(
                        (self.keys@[j], self.vals@[j]),
                    ) by {
                        if j < i {
                            let e = choose|e: int|
                                0 <= e < l0.len() && l0[e] == (self.keys@[j], self.vals@[j]);
                            assert(list@[e] == l0[e]);
                        }
                    }
                }
            }
            i += 1;
        }
        assert forall|k: u32| #[trigger] self@.contains_key(k) implies exists|e: int|
            0 <= e < list@.len() && #[trigger] list@[e] == (k, self@[k]) by {
            let j = choose|j: int| #[trigger] stands(self.keys@, k, j);
            lemma_stands(self.keys@, self.vals@, self.shift, j);
            assert(self.keys@[j] != UNUSED);
            let e = choose|e: int|
                0 <= e < list@.len() && list@[e] == (self.keys@[j], self.vals@[j]);
            assert(list@[e] == (k, self@[k]));
        }
        list
    }
}

proof fn lemma_size_small(shift: u32)
    requires
        LAST_SHIFT < shift <= FIRST_SHIFT,
    ensures
        pow2((32 - shift) as nat) < 0x100_0000,
{
    assert(pow2(24) == 0x100_0000) by {
        vstd::arithmetic::power2::lemma2_to64();
    }
    vstd::arithmetic::power2::lemma_pow2_strictly_increases((32 - shift) as nat, 24);
}

} // verus!
