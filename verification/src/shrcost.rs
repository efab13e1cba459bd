//! What bits in contexts cost, measured in 64ths of a bit from how often each
//! was seen.
use crate::shrenc::Sym;
use crate::shrstream::{CONTEXTS, KIND, LENGTHS, MAX_INPUT, OFFSETS, REPEATED};
use crate::upkrenc::Op;
use crate::shrenc;
use vstd::arithmetic::power2::{lemma_pow2_pos, lemma_pow2_unfold, pow2};
use vstd::prelude::*;

verus! {

/// No bit costs less.
pub const MIN_SIZE: u32 = 2;

/// No bit costs more.
pub const MAX_SIZE: u32 = 768;

/// The first `k` binary digits of the logarithm to base 2 of `x / 2^62`, which is
/// at least 1 and below 2: to square the number moves the point by one digit.
pub open spec fn log_digits(x: int, k: nat) -> int
    decreases k,
{
    if k == 0 {
        0
    } else {
        let y = x * x / 0x4000_0000_0000_0000;
        if y >= 0x8000_0000_0000_0000 {
            pow2((k - 1) as nat) + log_digits(y / 2, (k - 1) as nat)
        } else {
            log_digits(y, (k - 1) as nat)
        }
    }
}

/// The logarithm of `num / den` to base 2, in units of 2^-24.
pub open spec fn log2_fixed(num: int, den: int) -> int
    decreases num - den,
{
    if 1 <= den <= num / 2 {
        0x100_0000 + log2_fixed(num, 2 * den)
    } else {
        log_digits(num * 0x4000_0000_0000_0000 / den, 24)
    }
}

fn log2_ratio(num: u64, den: u64) -> (l: u64)
    requires
        1 <= den <= num < 0x2_0000_0000_0000,
    ensures
        l <= 0x4000_0000,
        l == log2_fixed(num as int, den as int),
{
    let mut whole: u64 = 0;
    let mut d: u64 = den;
    proof {
        vstd::arithmetic::power2::lemma2_to64();
    }
    while d <= num / 2
        invariant
            1 <= d <= num < 0x2_0000_0000_0000,
            whole <= 62,
            pow2(whole as nat) <= d,
            log2_fixed(num as int, den as int) == whole * 0x100_0000 + log2_fixed(
                num as int,
                d as int,
            ),
        decreases num - d,
    {
        proof {
            lemma_pow2_unfold((whole + 1) as nat);
            lemma_small_exponent(whole as nat, d as int);
        }
        d = 2 * d;
        whole = whole + 1;
    }
    assert(num < 2 * d);
    let one: u128 = 0x4000_0000_0000_0000;
    let mut x: u128 = (num as u128 * one) / (d as u128);
    assert(one <= x < 2 * one) by (nonlinear_arith)
        requires
            x == (num * one) / (d as int),
            1 <= d <= num < 2 * d,
            one == 0x4000_0000_0000_0000,
    ;
    let ghost x0 = x as int;
    let mut frac: u64 = 0;
    let mut k: u32 = 0;
    assert(frac * pow2(24) == 0) by (nonlinear_arith)
        requires
            frac == 0,
    ;
    while k < 24
        invariant
            one == 0x4000_0000_0000_0000,
            one <= x < 2 * one,
            k <= 24,
            frac < pow2(k as nat),
            log_digits(x0, 24) == frac * pow2((24 - k) as nat) + log_digits(
                x as int,
                (24 - k) as nat,
            ),
        decreases 24 - k,
    {
        proof {
            lemma_pow2_unfold((k + 1) as nat);
            assert(pow2(24) == 0x100_0000) by {
                vstd::arithmetic::power2::lemma2_to64();
            }
            vstd::arithmetic::power2::lemma_pow2_strictly_increases(k as nat, 24);
            assert(one * one <= x * x < (2 * one) * (2 * one)) by (nonlinear_arith)
                requires
                    one <= x < 2 * one,
            ;
            assert((2 * one) * (2 * one) == 0x4000_0000_0000_0000_0000_0000_0000_0000) by (nonlinear_arith)
                requires
                    one == 0x4000_0000_0000_0000,
            ;
        }
        let y: u128 = x * x / one;
        assert(one <= y < 4 * one) by (nonlinear_arith)
            requires
                one == 0x4000_0000_0000_0000,
                one * one <= x * x < (2 * one) * (2 * one),
                y == (x * x) / (one as int),
        ;
        let ghost f0 = frac as int;
        if y >= 2 * one {
            x = y / 2;
            frac = 2 * frac + 1;
        } else {
            x = y;
            frac = 2 * frac;
        }
        proof {
            let p = pow2((24 - k - 1) as nat) as int;
            lemma_pow2_unfold((24 - k) as nat);
            assert(f0 * (2 * p) == (2 * f0) * p && (2 * f0 + 1) * p == (2 * f0) * p + p)
                by (nonlinear_arith);
        }
        k += 1;
    }
    proof {
        assert(pow2(24) == 0x100_0000) by {
            vstd::arithmetic::power2::lemma2_to64();
        }
        assert(pow2(0) == 1) by {
            vstd::arithmetic::power2::lemma2_to64();
        }
        let p = pow2((24 - k) as nat) as int;
        assert(frac * p == frac) by (nonlinear_arith)
            requires
                p == 1,
        ;
        assert(log_digits(x as int, 0) == 0);
        assert(log_digits(x0, 24) == frac);
        assert(x0 == num * 0x4000_0000_0000_0000 / (d as int));
        assert(log2_fixed(num as int, d as int) == log_digits(x0, 24));
    }
    whole * 0x100_0000 + frac
}

proof fn lemma_small_exponent(e: nat, d: int)
    requires
        pow2(e) <= d < 0x2_0000_0000_0000,
    ensures
        e <= 48,
{
    if e > 48 {
        assert(pow2(49) == 0x2_0000_0000_0000) by {
            vstd::arithmetic::power2::lemma2_to64_rest();
        }
        if e > 49 {
            vstd::arithmetic::power2::lemma_pow2_strictly_increases(49, e);
        }
    }
}

/// A logarithm in 64ths of a bit.
pub open spec fn in_64ths(l: int) -> int {
    (64 * l + 0x80_0000) / 0x100_0000
}

/// What a bit costs that was seen `count` times of `total`.
pub open spec fn price_of(count: int, total: int) -> int {
    let s = in_64ths(log2_fixed(total, count));
    if s < MIN_SIZE {
        MIN_SIZE as int
    } else if s > MAX_SIZE {
        MAX_SIZE as int
    } else {
        s
    }
}

fn size_for_count(count: u64, total: u64) -> (size: u32)
    requires
        1 <= count <= total < 0x2_0000_0000_0000,
    ensures
        MIN_SIZE <= size <= MAX_SIZE,
        size == price_of(count as int, total as int),
{
    let l: u64 = log2_ratio(total, count);
    let s: u64 = (64 * l + 0x80_0000) / 0x100_0000;
    if s < MIN_SIZE as u64 {
        MIN_SIZE
    } else if s > MAX_SIZE as u64 {
        MAX_SIZE
    } else {
        s as u32
    }
}

/// For the interval of the range coder in steps of 256: how far it is from
/// 65536, in 64ths of a bit.
pub fn build_sizetable() -> (table: Vec<u32>)
    ensures
        table@.len() == 128,
        forall|i: int|
            0 <= i < 128 ==> #[trigger] table@[i] == in_64ths(log2_fixed(256, 128 + i)),
{
    let mut table: Vec<u32> = Vec::new();
    let mut i: u64 = 0;
    while i < 128
        invariant
            i <= 128,
            table@.len() == i,
            forall|k: int|
                0 <= k < i ==> #[trigger] table@[k] == in_64ths(log2_fixed(256, 128 + k)),
        decreases 128 - i,
    {
        let l: u64 = log2_ratio(256, 128 + i);
        table.push(((64 * l + 0x80_0000) / 0x100_0000) as u32);
        i += 1;
    }
    table
}

/// How often each bit was seen in each context.
pub struct CountingCoder {
    pub zeros: Vec<u32>,
    pub ones: Vec<u32>,
}

impl CountingCoder {
    pub open spec fn ok(&self) -> bool {
        self.zeros@.len() == CONTEXTS && self.ones@.len() == CONTEXTS
    }

    pub fn new() -> (c: CountingCoder)
        ensures
            c.ok(),
            forall|i: int| 0 <= i < CONTEXTS ==> c.zeros@[i] == 0 && c.ones@[i] == 0,
    {
        let mut zeros: Vec<u32> = Vec::new();
        let mut ones: Vec<u32> = Vec::new();
        while zeros.len() < CONTEXTS
            invariant
                zeros@.len() == ones@.len(),
                zeros@.len() <= CONTEXTS,
                forall|i: int| 0 <= i < zeros@.len() ==> zeros@[i] == 0 && ones@[i] == 0,
            decreases CONTEXTS - zeros.len(),
        {
            zeros.push(0);
            ones.push(0);
        }
        CountingCoder { zeros, ones }
    }

    /// Adds the bits of a stream.
    pub fn count(&mut self, list: &Vec<Sym>)
        requires
            old(self).ok(),
            shrenc::syms_ok(list@),
        ensures
            final(self).ok(),
            forall|i: int|
                0 <= i < CONTEXTS ==> {
                    &&& #[trigger] final(self).zeros@[i] == capped(old(self).zeros@[i] + seen(list@, i, false))
                    &&& final(self).ones@[i] == capped(old(self).ones@[i] + seen(list@, i, true))
                },
    {
        let n: usize = list.len();
        let ghost z0 = self.zeros@;
        let ghost o0 = self.ones@;
        let mut k: usize = 0;
        while k < n
            invariant
                n == list@.len(),
                k <= n,
                self.ok(),
                shrenc::syms_ok(list@),
                z0.len() == CONTEXTS,
                o0.len() == CONTEXTS,
                forall|i: int|
                    0 <= i < CONTEXTS ==> #[trigger] self.zeros@[i] == capped(
                        z0[i] + seen(list@.take(k as int), i, false),
                    ),
                forall|i: int|
                    0 <= i < CONTEXTS ==> #[trigger] self.ones@[i] == capped(
                        o0[i] + seen(list@.take(k as int), i, true),
                    ),
            decreases n - k,
        {
            let s: Sym = list[k];
            let c: usize = s.ctx as usize;
            assert(list@[k as int].ctx < CONTEXTS);
            proof {
                let a = list@.take(k + 1);
                assert(a.drop_last() =~= list@.take(k as int));
                assert(a.last() == s);
                assert forall|i: int, b: bool| #[trigger] seen(a, i, b) == seen(
                    list@.take(k as int),
                    i,
                    b,
                ) + if i == c && b == s.bit {
                    1int
                } else {
                    0
                } by {}
            }
            if s.bit {
                let v: u32 = self.ones[c].saturating_add(1);
                self.ones.set(c, v);
            } else {
                let v: u32 = self.zeros[c].saturating_add(1);
                self.zeros.set(c, v);
            }
            k += 1;
        }
        assert(list@.take(n as int) =~= list@);
    }

    /// Lets what was seen fade by a quarter.
    pub fn fade(&mut self)
        requires
            old(self).ok(),
        ensures
            final(self).ok(),
            forall|i: int|
                0 <= i < CONTEXTS ==> {
                    &&& #[trigger] final(self).zeros@[i] == 3 * old(self).zeros@[i] / 4
                    &&& final(self).ones@[i] == 3 * old(self).ones@[i] / 4
                },
    {
        let ghost z0 = self.zeros@;
        let ghost o0 = self.ones@;
        let mut k: usize = 0;
        while k < CONTEXTS
            invariant
                k <= CONTEXTS,
                self.ok(),
                forall|i: int|
                    0 <= i < CONTEXTS ==> #[trigger] self.zeros@[i] == if i < k {
                        3 * z0[i] / 4
                    } else {
                        z0[i] as int
                    },
                forall|i: int|
                    0 <= i < CONTEXTS ==> #[trigger] self.ones@[i] == if i < k {
                        3 * o0[i] / 4
                    } else {
                        o0[i] as int
                    },
            decreases CONTEXTS - k,
        {
            let z: u32 = (3 * (self.zeros[k] as u64) / 4) as u32;
            let o: u32 = (3 * (self.ones[k] as u64) / 4) as u32;
            self.zeros.set(k, z);
            self.ones.set(k, o);
            k += 1;
        }
    }
}

/// How often `bit` stands in context `ctx`.
pub open spec fn seen(syms: Seq<Sym>, ctx: int, bit: bool) -> int
    decreases syms.len(),
{
    if syms.len() == 0 {
        0
    } else {
        seen(syms.drop_last(), ctx, bit) + if syms.last().ctx == ctx && syms.last().bit == bit {
            1int
        } else {
            0
        }
    }
}

pub open spec fn capped(v: int) -> int {
    if v > 0xffff_ffff {
        0xffff_ffff
    } else {
        v
    }
}

// ---------------------------------------------------------------------------
// Sizes
// ---------------------------------------------------------------------------
pub open spec fn sym_size(zeros: Seq<u32>, ones: Seq<u32>, s: Sym) -> int {
    if s.bit {
        ones[s.ctx as int] as int
    } else {
        zeros[s.ctx as int] as int
    }
}

/// What a list of bits costs.
pub open spec fn syms_size(zeros: Seq<u32>, ones: Seq<u32>, syms: Seq<Sym>) -> int
    decreases syms.len(),
{
    if syms.len() == 0 {
        0
    } else {
        sym_size(zeros, ones, syms[0]) + syms_size(zeros, ones, syms.skip(1))
    }
}

proof fn lemma_size_first(zeros: Seq<u32>, ones: Seq<u32>, s: Sym, rest: Seq<Sym>)
    ensures
        syms_size(zeros, ones, seq![s] + rest) == sym_size(zeros, ones, s) + syms_size(
            zeros,
            ones,
            rest,
        ),
{
    assert((seq![s] + rest).skip(1) =~= rest);
    assert((seq![s] + rest)[0] == s);
}

proof fn lemma_size_concat(zeros: Seq<u32>, ones: Seq<u32>, a: Seq<Sym>, b: Seq<Sym>)
    ensures
        syms_size(zeros, ones, a + b) == syms_size(zeros, ones, a) + syms_size(zeros, ones, b),
    decreases a.len(),
{
    if a.len() == 0 {
        assert(a + b =~= b);
    } else {
        assert((a + b).skip(1) =~= a.skip(1) + b);
        assert((a + b)[0] == a[0]);
        lemma_size_concat(zeros, ones, a.skip(1), b);
    }
}

/// What a bit costs in a context, by how often either bit was seen there. Each
/// counts as seen once more.
pub open spec fn counted_price(c: &CountingCoder, s: Sym) -> int {
    let zeros = 1 + c.zeros@[s.ctx as int];
    let ones = 1 + c.ones@[s.ctx as int];
    if s.bit {
        price_of(ones, zeros + ones)
    } else {
        price_of(zeros, zeros + ones)
    }
}

/// What a list of bits costs by what was seen.
pub open spec fn counted_size(c: &CountingCoder, syms: Seq<Sym>) -> int
    decreases syms.len(),
{
    if syms.len() == 0 {
        0
    } else {
        counted_price(c, syms[0]) + counted_size(c, syms.skip(1))
    }
}

pub open spec fn in_contexts(syms: Seq<Sym>) -> bool {
    forall|k: int| 0 <= k < syms.len() ==> (#[trigger] syms[k]).ctx < CONTEXTS
}

proof fn lemma_counted(c: &CountingCoder, zeros: Seq<u32>, ones: Seq<u32>, syms: Seq<Sym>)
    requires
        in_contexts(syms),
        forall|i: int|
            0 <= i < CONTEXTS ==> #[trigger] zeros[i] == price_of(
                1 + c.zeros@[i],
                (1 + c.zeros@[i]) + (1 + c.ones@[i]),
            ),
        forall|i: int|
            0 <= i < CONTEXTS ==> #[trigger] ones[i] == price_of(
                1 + c.ones@[i],
                (1 + c.zeros@[i]) + (1 + c.ones@[i]),
            ),
    ensures
        syms_size(zeros, ones, syms) == counted_size(c, syms),
    decreases syms.len(),
{
    if syms.len() > 0 {
        assert(syms[0].ctx < CONTEXTS);
        assert forall|k: int| 0 <= k < syms.skip(1).len() implies (#[trigger] syms.skip(1)[k]).ctx
            < CONTEXTS by {
            assert(syms[k + 1].ctx < CONTEXTS);
        }
        lemma_counted(c, zeros, ones, syms.skip(1));
    }
}

/// Prices for bits, and for numbers below the length of the lists.
pub struct SizeMeasurer {
    zeros: Vec<u32>,
    ones: Vec<u32>,
    offsets: Vec<u32>,
    lengths: Vec<u32>,
}

impl SizeMeasurer {
    pub closed spec fn size_of(&self, syms: Seq<Sym>) -> int {
        syms_size(self.zeros@, self.ones@, syms)
    }

    spec fn bits_ok(&self) -> bool {
        &&& self.zeros@.len() == CONTEXTS
        &&& self.ones@.len() == CONTEXTS
        &&& forall|i: int| 0 <= i < CONTEXTS ==> #[trigger] self.zeros@[i] <= MAX_SIZE
        &&& forall|i: int| 0 <= i < CONTEXTS ==> #[trigger] self.ones@[i] <= MAX_SIZE
    }

    pub closed spec fn ok(&self) -> bool {
        &&& self.bits_ok()
        &&& forall|v: int|
            2 <= v < self.offsets@.len() ==> #[trigger] self.offsets@[v] == self.size_of(
                shrenc::num_syms(OFFSETS as int, v),
            )
        &&& forall|v: int|
            2 <= v < self.lengths@.len() ==> #[trigger] self.lengths@[v] == self.size_of(
                shrenc::num_syms(LENGTHS as int, v),
            )
    }

    /// Nothing costs less than nothing.
    pub proof fn lemma_size_is_positive(&self, syms: Seq<Sym>)
        ensures
            self.size_of(syms) >= 0,
        decreases syms.len(),
    {
        if syms.len() > 0 {
            self.lemma_size_is_positive(syms.skip(1));
        }
    }

    fn bit(&self, ctx: usize, bit: bool) -> (size: u32)
        requires
            self.bits_ok(),
            ctx < CONTEXTS,
        ensures
            size == sym_size(self.zeros@, self.ones@, shrenc::sym(ctx as int, bit)),
            size <= MAX_SIZE,
    {
        if bit {
            self.ones[ctx]
        } else {
            self.zeros[ctx]
        }
    }

    /// Prices from what was seen, with lists for numbers up to `max_number`.
    pub fn from_counting(c: &CountingCoder, max_number: usize) -> (m: SizeMeasurer)
        requires
            c.ok(),
            max_number <= MAX_INPUT,
        ensures
            m.ok(),
            forall|syms: Seq<Sym>|
                in_contexts(syms) ==> #[trigger] m.size_of(syms) == counted_size(c, syms),
    {
        let mut zeros: Vec<u32> = Vec::new();
        let mut ones: Vec<u32> = Vec::new();
        let mut i: usize = 0;
        while i < CONTEXTS
            invariant
                i <= CONTEXTS,
                c.ok(),
                zeros@.len() == i,
                ones@.len() == i,
                forall|k: int| 0 <= k < i ==> #[trigger] zeros@[k] <= MAX_SIZE,
                forall|k: int| 0 <= k < i ==> #[trigger] ones@[k] <= MAX_SIZE,
                forall|k: int|
                    0 <= k < i ==> #[trigger] zeros@[k] == price_of(
                        1 + c.zeros@[k],
                        (1 + c.zeros@[k]) + (1 + c.ones@[k]),
                    ),
                forall|k: int|
                    0 <= k < i ==> #[trigger] ones@[k] == price_of(
                        1 + c.ones@[k],
                        (1 + c.zeros@[k]) + (1 + c.ones@[k]),
                    ),
            decreases CONTEXTS - i,
        {
            let a: u64 = 1 + c.zeros[i] as u64;
            let b: u64 = 1 + c.ones[i] as u64;
            zeros.push(size_for_count(a, a + b));
            ones.push(size_for_count(b, a + b));
            i += 1;
        }
        let mut m: SizeMeasurer = SizeMeasurer {
            zeros,
            ones,
            offsets: Vec::new(),
            lengths: Vec::new(),
        };
        let offsets: Vec<u32> = m.number_list(OFFSETS, max_number);
        let lengths: Vec<u32> = m.number_list(LENGTHS, max_number);
        m.offsets = offsets;
        m.lengths = lengths;
        proof {
            assert forall|syms: Seq<Sym>| in_contexts(syms) implies #[trigger] m.size_of(syms)
                == counted_size(c, syms) by {
                lemma_counted(c, m.zeros@, m.ones@, syms);
            }
        }
        m
    }

    fn number_list(&self, base: usize, max_number: usize) -> (list: Vec<u32>)
        requires
            self.bits_ok(),
            base + 70 <= CONTEXTS,
            max_number <= MAX_INPUT,
        ensures
            forall|v: int|
                2 <= v < list@.len() ==> #[trigger] list@[v] == self.size_of(
                    shrenc::num_syms(base as int, v),
                ),
    {
        let mut list: Vec<u32> = Vec::new();
        list.push(0);
        list.push(0);
        let mut v: usize = 2;
        while v <= max_number
            invariant
                self.bits_ok(),
                base + 70 <= CONTEXTS,
                2 <= v,
                max_number <= MAX_INPUT,
                v <= max_number + 1 || v == 2,
                list@.len() == v,
                forall|k: int|
                    2 <= k < v ==> #[trigger] list@[k] == self.size_of(
                        shrenc::num_syms(base as int, k),
                    ),
            decreases max_number + 1 - v,
        {
            let s: u32 = self.number(base, v as u32);
            list.push(s);
            v += 1;
        }
        list
    }

    /// What a number costs.
    fn number(&self, base: usize, v: u32) -> (size: u32)
        requires
            self.bits_ok(),
            base + 70 <= CONTEXTS,
            2 <= v <= 0x7fff_ffff,
        ensures
            size == self.size_of(shrenc::num_syms(base as int, v as int)),
            size <= 62 * MAX_SIZE,
    {
        let ghost z = self.zeros@;
        let ghost o = self.ones@;
        let ghost top = shrenc::num_top(v as int);
        let ghost all_ones = shrenc::ones_syms(base as int, 0, top);
        let mut size: u32 = 0;
        let mut i: usize = 0;
        let mut unit: u32 = 2;
        proof {
            shrenc::lemma_num_top(v as int);
            shrenc::lemma_top_small(v as int);
            vstd::arithmetic::power2::lemma2_to64();
        }
        while v / 2 >= unit
            invariant
                self.bits_ok(),
                z == self.zeros@,
                o == self.ones@,
                2 <= v <= 0x7fff_ffff,
                base + 70 <= CONTEXTS,
                i <= top < 30,
                top == shrenc::num_top(v as int),
                pow2((top + 1) as nat) <= v < pow2((top + 2) as nat),
                unit == pow2((i + 1) as nat),
                unit <= v,
                size <= i * MAX_SIZE,
                size + syms_size(z, o, shrenc::ones_syms(base as int, i as int, top)) == syms_size(
                    z,
                    o,
                    all_ones,
                ),
            decreases top - i,
        {
            proof {
                lemma_pow2_unfold((i + 2) as nat);
                lemma_size_first(
                    z,
                    o,
                    shrenc::sym(base + 2 * i + 2, true),
                    shrenc::ones_syms(base as int, i + 1, top),
                );
            }
            size = size + self.bit(base + 2 * i + 2, true);
            i += 1;
            unit = unit * 2;
        }
        proof {
            lemma_pow2_unfold((i + 2) as nat);
            if i < top {
                if i + 2 < top + 1 {
                    vstd::arithmetic::power2::lemma_pow2_strictly_increases(
                        (i + 2) as nat,
                        (top + 1) as nat,
                    );
                }
                assert(false);
            }
            let last = shrenc::sym(base + 2 * i + 2, false);
            lemma_size_first(z, o, last, Seq::empty());
            assert(seq![last] + Seq::<Sym>::empty() =~= shrenc::ones_syms(base as int, i as int, top));
        }
        size = size + self.bit(base + 2 * i + 2, false);
        let ghost head = size;
        let mut rest: u32 = v - unit;
        let mut k: usize = i + 1;
        let ghost all = shrenc::bits_syms(base as int, (top + 1) as nat, v - unit);
        proof {
            lemma_pow2_unfold((top + 2) as nat);
            lemma_size_concat(z, o, all_ones, all);
        }
        while k > 0
            invariant
                self.bits_ok(),
                z == self.zeros@,
                o == self.ones@,
                base + 70 <= CONTEXTS,
                k <= 30,
                unit == pow2(k as nat),
                rest < unit,
                size <= (61 - k) * MAX_SIZE,
                size + syms_size(z, o, shrenc::bits_syms(base as int, k as nat, rest as int)) == head
                    + syms_size(z, o, all),
            decreases k,
        {
            proof {
                lemma_pow2_unfold(k as nat);
            }
            unit = unit / 2;
            k -= 1;
            let bit: bool = rest >= unit;
            if bit {
                rest = rest - unit;
            }
            proof {
                lemma_size_first(
                    z,
                    o,
                    shrenc::sym(base + 2 * k + 1, bit),
                    shrenc::bits_syms(base as int, k as nat, rest as int),
                );
            }
            size = size + self.bit(base + 2 * k + 1, bit);
        }
        size
    }

    fn offset_number(&self, v: u32) -> (size: u32)
        requires
            self.ok(),
            2 <= v <= 0x7fff_ffff,
        ensures
            size == self.size_of(shrenc::num_syms(OFFSETS as int, v as int)),
    {
        if (v as usize) < self.offsets.len() {
            self.offsets[v as usize]
        } else {
            self.number(OFFSETS, v)
        }
    }

    fn length_number(&self, v: u32) -> (size: u32)
        requires
            self.ok(),
            2 <= v <= 0x7fff_ffff,
        ensures
            size == self.size_of(shrenc::num_syms(LENGTHS as int, v as int)),
    {
        if (v as usize) < self.lengths.len() {
            self.lengths[v as usize]
        } else {
            self.number(LENGTHS, v)
        }
    }

    /// What a literal byte costs; the first has no bit for its kind.
    pub fn literal(&self, byte: u8, first: bool, Ghost(p): Ghost<int>) -> (size: u64)
        requires
            self.ok(),
            first == (p <= 0),
        ensures
            size == self.size_of(shrenc::op_syms(Op::Literal(byte), p, 0, false)),
            size <= 9 * MAX_SIZE,
    {
        let ghost z = self.zeros@;
        let ghost o = self.ones@;
        let ghost all = shrenc::lit_syms(1, 8, byte as int);
        let mut size: u32 = 0;
        if !first {
            size = self.bit(KIND, false);
        }
        proof {
            let s = shrenc::sym(KIND as int, false);
            lemma_size_first(z, o, s, Seq::empty());
            assert(seq![s] + Seq::<Sym>::empty() =~= seq![s]);
            lemma_size_concat(z, o, seq![s], all);
            lemma_size_concat(z, o, Seq::empty(), all);
            vstd::arithmetic::power2::lemma2_to64();
        }
        let ghost head = size;
        let mut node: usize = 1;
        let mut unit: u16 = 256;
        let mut rest: u16 = byte as u16;
        let mut k: usize = 8;
        while k > 0
            invariant
                self.bits_ok(),
                z == self.zeros@,
                o == self.ones@,
                k <= 8,
                unit == pow2(k as nat),
                unit <= 256,
                rest < unit,
                node * unit + rest < 512,
                node >= 1,
                size <= (9 - k) * MAX_SIZE,
                size + syms_size(z, o, shrenc::lit_syms(node as int, k as nat, rest as int)) == head
                    + syms_size(z, o, all),
            decreases k,
        {
            proof {
                lemma_pow2_unfold(k as nat);
                lemma_pow2_pos((k - 1) as nat);
            }
            let ghost u0 = unit as int;
            let ghost n0 = node as int;
            proof {
                assert(n0 * 2 <= n0 * u0) by (nonlinear_arith)
                    requires
                        n0 >= 1,
                        u0 >= 2,
                ;
            }
            unit = unit / 2;
            k -= 1;
            let bit: bool = rest >= unit;
            size = size + self.bit(node + 1, bit);
            if bit {
                rest = rest - unit;
                node = 2 * node + 1;
            } else {
                node = 2 * node;
            }
            proof {
                lemma_size_first(
                    z,
                    o,
                    shrenc::sym(1 + n0, bit),
                    shrenc::lit_syms(node as int, k as nat, rest as int),
                );
                let u = unit as int;
                assert((2 * n0) * u == n0 * (2 * u)) by (nonlinear_arith);
                assert((2 * n0 + 1) * u == (2 * n0) * u + u) by (nonlinear_arith);
            }
        }
        size as u64
    }

    /// What a reference costs.
    pub fn reference(&self, offset: u32, len: u32, after_ref: bool, last: u32, Ghost(p): Ghost<int>) -> (size: u64)
        requires
            self.ok(),
            1 <= offset <= MAX_INPUT,
            2 <= len <= MAX_INPUT,
        ensures
            size == self.size_of(
                shrenc::op_syms(Op::Match { offset, len }, p, last as int, after_ref),
            ),
            size <= 0x2_0000_1000,
    {
        let ghost z = self.zeros@;
        let ghost o = self.ones@;
        let kind: u64 = self.bit(KIND, true) as u64;
        let flag: u64 = if after_ref {
            0
        } else {
            self.bit(REPEATED, offset == last) as u64
        };
        let off: u64 = if offset == last {
            0
        } else {
            self.offset_number(offset + 2) as u64
        };
        let ln: u64 = self.length_number(len) as u64;
        proof {
            let a = seq![shrenc::sym(KIND as int, true)];
            let b = if after_ref {
                Seq::empty()
            } else {
                seq![shrenc::sym(REPEATED as int, offset == last)]
            };
            let c = if offset == last {
                Seq::empty()
            } else {
                shrenc::num_syms(OFFSETS as int, offset + 2)
            };
            lemma_size_concat(z, o, a + b + c, shrenc::num_syms(LENGTHS as int, len as int));
            lemma_size_concat(z, o, a + b, c);
            lemma_size_concat(z, o, a, b);
            lemma_size_first(z, o, shrenc::sym(KIND as int, true), Seq::empty());
            assert(a + Seq::<Sym>::empty() =~= a);
            lemma_size_first(z, o, shrenc::sym(REPEATED as int, offset == last), Seq::empty());
            assert(seq![shrenc::sym(REPEATED as int, offset == last)] + Seq::<Sym>::empty()
                =~= seq![shrenc::sym(REPEATED as int, offset == last)]);
        }
        kind + flag + off + ln
    }
}

} // verus!
