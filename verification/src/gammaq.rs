//! Offers that each stand at a position and grow dearer with the length from
//! there on, as a gamma code does. Only those that may still become the
//! cheapest are kept.
use crate::bitio;
use crate::zx::gamma_bits;
use vstd::prelude::*;

verus! {

/// What an offer that does not exist costs.
pub const NO_BITS: u64 = 0x1000_0000_0000_0000;

/// Bits of the gamma code of a length.
pub open spec fn gamma(x: int) -> int {
    bitio::gamma_len(x as nat) as int
}

/// An offer at `pos`. `tag` says where it comes from.
#[derive(Clone, Copy)]
pub struct Item {
    pub base: u64,
    pub pos: usize,
    pub tag: usize,
}

/// What the offer at `j` costs at `x`.
pub open spec fn cost_at(offers: Seq<int>, j: int, x: int) -> int {
    offers[j] + gamma(x - j)
}

/// What a kept offer costs at `x`.
pub open spec fn item_at(it: Item, x: int) -> int {
    it.base + gamma(x - it.pos)
}

/// A kept offer is no dearer at `x`.
pub open spec fn served(items: Seq<Item>, offers: Seq<int>, j: int, x: int) -> bool {
    exists|i: int| 0 <= i < items.len() && item_at(#[trigger] items[i], x) <= cost_at(offers, j, x)
}

/// The kept offers are among those made, one for each position, and from the
/// next position on one of the kept ones is the cheapest.
pub open spec fn kept_ok(items: Seq<Item>, offers: Seq<int>) -> bool {
    &&& forall|i: int|
        0 <= i < items.len() ==> {
            let it = #[trigger] items[i];
            it.pos < offers.len() && offers[it.pos as int] == it.base && it.base < NO_BITS
        }
    &&& forall|j: int, x: int|
        0 <= j < offers.len() && offers[j] < NO_BITS && x >= offers.len() ==> #[trigger] served(
            items,
            offers,
            j,
            x,
        )
}

pub proof fn lemma_log_sum(a: nat, k: nat)
    requires
        a >= 1,
    ensures
        bitio::floor_log2(a + k) <= bitio::floor_log2(a) + bitio::floor_log2(k + 1),
    decreases a + k,
{
    if k == 0 {
    } else if a == 1 {
        assert(a + k == k + 1);
    } else {
        let b = a / 2;
        let h = ((k + 1) / 2) as nat;
        lemma_log_sum(b, h);
        bitio::lemma_gamma_monotone(((a + k) / 2) as nat, b + h);
        bitio::lemma_gamma_monotone(h + 1, k + 1);
    }
}

pub proof fn lemma_gamma_range(x: int)
    requires
        0 <= x <= u32::MAX,
    ensures
        1 <= gamma(x) <= 63,
{
    if x >= 1 {
        bitio::lemma_floor_log2_lz(x as u32);
    }
}

/// An offer that is not made leaves all as it is.
pub proof fn lemma_no_offer(items: Seq<Item>, offers: Seq<int>, none: int)
    requires
        kept_ok(items, offers),
        none >= NO_BITS,
    ensures
        kept_ok(items, offers.push(none)),
{
    let next = offers.push(none);
    assert forall|j: int, x: int|
        0 <= j < next.len() && next[j] < NO_BITS && x >= next.len() implies #[trigger] served(
        items,
        next,
        j,
        x,
    ) by {
        assert(served(items, offers, j, x));
        let i = choose|i: int|
            0 <= i < items.len() && item_at(#[trigger] items[i], x) <= cost_at(offers, j, x);
        assert(item_at(items[i], x) <= cost_at(next, j, x));
    }
}

/// Bits of the gamma code of a length that is not zero.
pub fn length_bits(len: usize) -> (bits: u64)
    requires
        1 <= len <= u32::MAX,
    ensures
        bits == gamma(len as int),
        1 <= bits <= 63,
{
    gamma_bits(len as u32) as u64
}

pub struct Queue {
    pub items: Vec<Item>,
}

impl Queue {
    pub fn new() -> (q: Queue)
        ensures
            q.items@.len() == 0,
    {
        Queue { items: Vec::new() }
    }

    pub fn clear(&mut self)
        ensures
            final(self).items@.len() == 0,
    {
        self.items.clear();
    }

    /// Makes an offer at the next position. What is left is what was kept, or
    /// the new offer.
    pub fn push(&mut self, base: u64, pos: usize, tag: usize, Ghost(offers): Ghost<Seq<int>>)
        requires
            kept_ok(old(self).items@, offers),
            pos == offers.len(),
            pos < u32::MAX,
            base < NO_BITS,
        ensures
            kept_ok(final(self).items@, offers.push(base as int)),
            forall|i: int|
                0 <= i < final(self).items@.len() ==> (#[trigger] final(self).items@[i] == (Item {
                    base,
                    pos,
                    tag,
                })) || old(self).items@.contains(final(self).items@[i]),
    {
        let ghost next = offers.push(base as int);
        if self.items.len() > 0 {
            let it: Item = self.items[0];
            let far: u64 = length_bits(pos - it.pos + 1);
            if base >= it.base + (far - 1) {
                proof {
                    let items = self.items@;
                    lemma_no_offer(items, offers, NO_BITS as int);
                    assert forall|j: int, x: int|
                        0 <= j < next.len() && next[j] < NO_BITS && x
                            >= next.len() implies #[trigger] served(items, next, j, x) by {
                        if j < pos {
                            assert(served(items, offers, j, x));
                            let i = choose|i: int|
                                0 <= i < items.len() && item_at(#[trigger] items[i], x) <= cost_at(
                                    offers,
                                    j,
                                    x,
                                );
                            assert(item_at(items[i], x) <= cost_at(next, j, x));
                        } else {
                            lemma_log_sum((x - pos) as nat, (pos - it.pos) as nat);
                            assert((x - pos) as nat + (pos - it.pos) as nat == (x - it.pos) as nat);
                            assert(item_at(items[0], x) <= cost_at(next, j, x));
                        }
                    }
                    assert forall|i: int| 0 <= i < items.len() implies (#[trigger] items[i] == (Item {
                        base,
                        pos,
                        tag,
                    })) || old(self).items@.contains(items[i]) by {
                        assert(old(self).items@[i] == items[i]);
                    }
                }
                return ;
            }
        }
        let ghost all = self.items@;
        let mut count: usize = self.items.len();
        while count > 0 && self.items[count - 1].base >= base
            invariant
                count <= all.len(),
                self.items@ == all,
                forall|i: int| count <= i < all.len() ==> (#[trigger] all[i]).base >= base,
            decreases count,
        {
            count -= 1;
        }
        self.items.truncate(count);
        self.items.push(Item { base, pos, tag });
        proof {
            let items = self.items@;
            assert forall|i: int| 0 <= i < items.len() implies {
                let it = #[trigger] items[i];
                it.pos < next.len() && next[it.pos as int] == it.base && it.base < NO_BITS
            } by {
                if i < count {
                    assert(items[i] == all[i]);
                }
            }
            assert forall|j: int, x: int|
                0 <= j < next.len() && next[j] < NO_BITS && x >= next.len() implies #[trigger] served(
                items,
                next,
                j,
                x,
            ) by {
                if j < pos {
                    assert(served(all, offers, j, x));
                    let i = choose|i: int|
                        0 <= i < all.len() && item_at(#[trigger] all[i], x) <= cost_at(
                            offers,
                            j,
                            x,
                        );
                    if i < count {
                        assert(items[i] == all[i]);
                        assert(item_at(items[i], x) <= cost_at(next, j, x));
                    } else {
                        bitio::lemma_gamma_monotone((x - pos) as nat, (x - all[i].pos) as nat);
                        assert(item_at(items[count as int], x) <= cost_at(next, j, x));
                    }
                } else {
                    assert(item_at(items[count as int], x) <= cost_at(next, j, x));
                }
            }
            assert forall|i: int| 0 <= i < items.len() implies (#[trigger] items[i] == (Item {
                base,
                pos,
                tag,
            })) || old(self).items@.contains(items[i]) by {
                if i < count {
                    assert(items[i] == all[i]);
                }
            }
        }
    }

    /// The cheapest offer at `x`, if any was made.
    pub fn cheapest(&self, x: usize, Ghost(offers): Ghost<Seq<int>>) -> (r: Option<Item>)
        requires
            kept_ok(self.items@, offers),
            offers.len() <= x <= u32::MAX,
        ensures
            match r {
                None => self.items@.len() == 0 && forall|j: int|
                    0 <= j < offers.len() ==> (#[trigger] offers[j]) >= NO_BITS,
                Some(it) => {
                    &&& self.items@.contains(it)
                    &&& it.pos < offers.len()
                    &&& it.base == offers[it.pos as int]
                    &&& it.base < NO_BITS
                    &&& forall|j: int|
                        0 <= j < offers.len() && (#[trigger] offers[j]) < NO_BITS ==> item_at(
                            it,
                            x as int,
                        ) <= cost_at(offers, j, x as int)
                },
            },
    {
        let n: usize = self.items.len();
        if n == 0 {
            proof {
                assert forall|j: int| 0 <= j < offers.len() implies (#[trigger] offers[j])
                    >= NO_BITS by {
                    if offers[j] < NO_BITS {
                        assert(served(self.items@, offers, j, x as int));
                    }
                }
            }
            return None;
        }
        let mut best: usize = 0;
        let mut bits: u64 = self.items[0].base + length_bits(x - self.items[0].pos);
        let mut i: usize = 1;
        while i < n
            invariant
                n == self.items@.len(),
                1 <= i <= n,
                best < n,
                offers.len() <= x <= u32::MAX,
                kept_ok(self.items@, offers),
                bits == item_at(self.items@[best as int], x as int),
                forall|k: int|
                    0 <= k < i ==> bits <= item_at(#[trigger] self.items@[k], x as int),
            decreases n - i,
        {
            let it: Item = self.items[i];
            let b: u64 = it.base + length_bits(x - it.pos);
            if b < bits {
                bits = b;
                best = i;
            }
            i += 1;
        }
        let it: Item = self.items[best];
        proof {
            assert forall|j: int| 0 <= j < offers.len() && (#[trigger] offers[j]) < NO_BITS implies item_at(
                it,
                x as int,
            ) <= cost_at(offers, j, x as int) by {
                assert(served(self.items@, offers, j, x as int));
            }
        }
        Some(it)
    }
}

} // verus!
