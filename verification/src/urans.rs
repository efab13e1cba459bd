//! A range-variant entropy coder (rANS) for single bits with probabilities in
//! 256ths. The coder holds one number; what no longer fits is pushed out as
//! bytes or as bits, and the decoder takes it back in the opposite order.
use crate::bitio;
use crate::lz::reversed;
use vstd::prelude::*;

verus! {

// ---------------------------------------------------------------------------
// The decoder as mathematics
// ---------------------------------------------------------------------------
/// How digits lie in a stream: whole bytes, or bits from the most or the least
/// significant of each byte.
pub struct RansMode {
    pub bits: bool,
    pub big: bool,
}

pub open spec fn radix(m: RansMode) -> int {
    if m.bits {
        2
    } else {
        256
    }
}

/// The least number that the decoder goes on with.
pub open spec fn low_end(m: RansMode) -> int {
    if m.bits {
        32768
    } else {
        4096
    }
}

pub open spec fn high_end(m: RansMode) -> int {
    low_end(m) * radix(m)
}

pub open spec fn digit_count(data: Seq<u8>, m: RansMode) -> int {
    if m.bits {
        8 * (data.len() as int)
    } else {
        data.len() as int
    }
}

pub open spec fn bit_digit(b: u8, k: int) -> int {
    if bitio::bit_of(b, k) {
        1
    } else {
        0
    }
}

/// Digit `k` of a stream.
pub open spec fn digit(data: Seq<u8>, m: RansMode, k: int) -> int {
    if !m.bits {
        data[k] as int
    } else if m.big {
        bit_digit(data[k / 8], 7 - k % 8)
    } else {
        bit_digit(data[k / 8], k % 8)
    }
}

/// The number of the decoder and how many digits it has taken.
pub struct RansSt {
    pub x: int,
    pub pos: int,
}

/// Takes digits until the number is large enough; `None` when they run out.
pub open spec fn refill(data: Seq<u8>, m: RansMode, s: RansSt) -> Option<RansSt>
    decreases digit_count(data, m) - s.pos,
{
    if s.x >= low_end(m) {
        Some(s)
    } else if s.pos >= digit_count(data, m) {
        None
    } else {
        refill(
            data,
            m,
            RansSt { x: s.x * radix(m) + digit(data, m, s.pos), pos: s.pos + 1 },
        )
    }
}

/// A bit that is 1 with probability `p` in 256ths.
pub open spec fn rans_bit(data: Seq<u8>, m: RansMode, s: RansSt, p: int) -> Option<(bool, RansSt)> {
    match refill(data, m, s) {
        None => None,
        Some(r) => {
            let lo = r.x % 256;
            let b = lo < p;
            Some(
                (
                    b,
                    RansSt {
                        x: if b {
                            p * (r.x / 256) + lo
                        } else {
                            (256 - p) * (r.x / 256) + lo - p
                        },
                        pos: r.pos,
                    },
                ),
            )
        },
    }
}

/// A bit and the probability that it was coded with.
#[derive(Clone, Copy)]
pub struct Coded {
    pub bit: bool,
    pub prob: u8,
}

/// The state after these bits, if they are what the stream holds.
pub open spec fn after_bits(data: Seq<u8>, m: RansMode, s: RansSt, bits: Seq<Coded>) -> Option<RansSt>
    decreases bits.len(),
{
    if bits.len() == 0 {
        Some(s)
    } else {
        match rans_bit(data, m, s, bits[0].prob as int) {
            None => None,
            Some((b, s1)) => if b == bits[0].bit {
                after_bits(data, m, s1, bits.skip(1))
            } else {
                None
            },
        }
    }
}

pub proof fn lemma_after_concat(data: Seq<u8>, m: RansMode, s: RansSt, a: Seq<Coded>, b: Seq<Coded>)
    ensures
        after_bits(data, m, s, a + b) == match after_bits(data, m, s, a) {
            None => None::<RansSt>,
            Some(s1) => after_bits(data, m, s1, b),
        },
    decreases a.len(),
{
    if a.len() == 0 {
        assert(a + b =~= b);
    } else {
        assert((a + b).skip(1) =~= a.skip(1) + b);
        assert((a + b)[0] == a[0]);
        if let Some((_, s1)) = rans_bit(data, m, s, a[0].prob as int) {
            lemma_after_concat(data, m, s1, a.skip(1), b);
        }
    }
}

/// Bounds on the number between bits.
pub open spec fn rans_wf(data: Seq<u8>, m: RansMode, s: RansSt) -> bool {
    &&& 0 <= s.x < high_end(m)
    &&& 0 <= s.pos <= digit_count(data, m)
}

/// Falls with every digit taken and with every bit.
pub open spec fn rans_left(data: Seq<u8>, m: RansMode, s: RansSt) -> int {
    (digit_count(data, m) - s.pos) * high_end(m) + s.x
}

pub proof fn lemma_refill(data: Seq<u8>, m: RansMode, s: RansSt)
    requires
        rans_wf(data, m, s),
    ensures
        refill(data, m, s) matches Some(r) ==> rans_wf(data, m, r) && r.x >= low_end(m) && r.pos
            >= s.pos && rans_left(data, m, r) <= rans_left(data, m, s),
    decreases digit_count(data, m) - s.pos,
{
    if s.x < low_end(m) && s.pos < digit_count(data, m) {
        let t = RansSt { x: s.x * radix(m) + digit(data, m, s.pos), pos: s.pos + 1 };
        let d = digit(data, m, s.pos);
        let left = digit_count(data, m) - s.pos;
        assert(0 <= d < radix(m));
        assert(0 <= t.x < high_end(m)) by (nonlinear_arith)
            requires
                0 <= s.x < low_end(m),
                0 <= d < radix(m),
                t.x == s.x * radix(m) + d,
                high_end(m) == low_end(m) * radix(m),
        ;
        assert((left - 1) * high_end(m) == left * high_end(m) - high_end(m)) by (nonlinear_arith);
        lemma_refill(data, m, t);
    }
}

pub proof fn lemma_rans_bit(data: Seq<u8>, m: RansMode, s: RansSt, p: int)
    requires
        rans_wf(data, m, s),
        1 <= p <= 255,
    ensures
        rans_bit(data, m, s, p) matches Some((_, r)) ==> rans_wf(data, m, r) && r.pos >= s.pos
            && rans_left(data, m, r) < rans_left(data, m, s),
{
    lemma_refill(data, m, s);
    if let Some(r) = refill(data, m, s) {
        let q = r.x / 256;
        let lo = r.x % 256;
        let w = if lo < p {
            p
        } else {
            256 - p
        };
        assert(q >= 1);
        assert(0 <= w * q <= 255 * q) by (nonlinear_arith)
            requires
                1 <= w <= 255,
                q >= 1,
        ;
    }
}

// ---------------------------------------------------------------------------
// Decoder
// ---------------------------------------------------------------------------
/// Reads bits that were coded with known probabilities.
pub struct RansDecoder<'a> {
    data: &'a [u8],
    pos: usize,
    state: u32,
    use_bitstream: bool,
    left: u8,
    big: bool,
}

impl<'a> RansDecoder<'a> {
    pub closed spec fn source(&self) -> Seq<u8> {
        self.data@
    }

    pub closed spec fn mode(&self) -> RansMode {
        RansMode { bits: self.use_bitstream, big: self.big }
    }

    pub closed spec fn st(&self) -> RansSt {
        RansSt {
            x: self.state as int,
            pos: if self.use_bitstream {
                8 * self.pos - self.left
            } else {
                self.pos as int
            },
        }
    }

    pub closed spec fn wf(&self) -> bool {
        &&& self.pos <= self.data@.len()
        &&& self.left <= 7
        &&& self.left > 0 ==> self.pos > 0
        &&& rans_wf(self.data@, self.mode(), self.st())
    }

    pub open spec fn same_stream(&self, o: &Self) -> bool {
        &&& self.source() == o.source()
        &&& self.mode() == o.mode()
    }

    /// A decoder that has taken its first digits; `None` where there are too
    /// few.
    pub fn new(data: &'a [u8], use_bitstream: bool, big: bool) -> (r: Option<RansDecoder<'a>>)
        ensures
            match r {
                None => refill(
                    data@,
                    RansMode { bits: use_bitstream, big },
                    RansSt { x: 0, pos: 0 },
                ) is None,
                Some(d) => d.wf() && d.source() == data@ && d.mode() == (RansMode {
                    bits: use_bitstream,
                    big,
                }) && refill(data@, d.mode(), RansSt { x: 0, pos: 0 }) == Some(d.st()),
            },
    {
        let mut d: RansDecoder = RansDecoder {
            data,
            pos: 0,
            state: 0,
            use_bitstream,
            left: 0,
            big,
        };
        if d.refill_digits() {
            Some(d)
        } else {
            None
        }
    }

    /// How many bytes have been taken.
    pub fn position(&self) -> (p: usize)
        requires
            self.wf(),
        ensures
            p <= self.source().len(),
            p == if self.mode().bits {
                (self.st().pos + 7) / 8
            } else {
                self.st().pos
            },
    {
        self.pos
    }

    fn refill_digits(&mut self) -> (ok: bool)
        requires
            old(self).wf(),
        ensures
            final(self).same_stream(old(self)),
            ok ==> final(self).wf() && refill(old(self).source(), old(self).mode(), old(self).st())
                == Some(final(self).st()) && final(self).st().x >= low_end(old(self).mode()),
            !ok ==> refill(old(self).source(), old(self).mode(), old(self).st()) is None,
    {
        let n: usize = self.data.len();
        let low: u32 = if self.use_bitstream {
            32768
        } else {
            4096
        };
        let ghost goal = refill(self.source(), self.mode(), self.st());
        let ghost data = self.source();
        let ghost m = self.mode();
        while self.state < low
            invariant
                self.wf(),
                self.same_stream(old(self)),
                data == self.source(),
                m == self.mode(),
                n == self.data@.len(),
                low == low_end(m),
                goal == refill(old(self).source(), old(self).mode(), old(self).st()),
                goal == refill(data, m, self.st()),
            decreases digit_count(data, m) - self.st().pos,
        {
            let ghost s0 = self.st();
            if self.use_bitstream {
                if self.left == 0 {
                    if self.pos >= n {
                        return false;
                    }
                    self.pos = self.pos + 1;
                    self.left = 8;
                }
                self.left = self.left - 1;
                let b: u8 = self.data[self.pos - 1];
                let k: u8 = if self.big {
                    self.left
                } else {
                    7 - self.left
                };
                let d: u32 = if (b >> k) & 1u8 == 1u8 {
                    1
                } else {
                    0
                };
                proof {
                    assert(s0.pos / 8 == self.pos - 1);
                    assert(s0.pos % 8 == 7 - self.left);
                    assert(d == digit(data, m, s0.pos));
                }
                self.state = self.state * 2 + d;
            } else {
                if self.pos >= n {
                    return false;
                }
                self.state = self.state * 256 + self.data[self.pos] as u32;
                self.pos = self.pos + 1;
            }
            assert(self.st() == (RansSt {
                x: s0.x * radix(m) + digit(data, m, s0.pos),
                pos: s0.pos + 1,
            }));
        }
        true
    }

    /// The next bit, which is 1 with probability `prob` in 256ths.
    pub fn decode_bit(&mut self, prob: u8) -> (bit: Option<bool>)
        requires
            old(self).wf(),
            prob >= 1,
        ensures
            final(self).same_stream(old(self)),
            match bit {
                None => rans_bit(
                    old(self).source(),
                    old(self).mode(),
                    old(self).st(),
                    prob as int,
                ) is None,
                Some(b) => final(self).wf() && rans_bit(
                    old(self).source(),
                    old(self).mode(),
                    old(self).st(),
                    prob as int,
                ) == Some((b, final(self).st())) && final(self).st().pos >= old(self).st().pos
                    && rans_left(old(self).source(), old(self).mode(), final(self).st())
                    < rans_left(old(self).source(), old(self).mode(), old(self).st()),
            },
    {
        proof {
            lemma_rans_bit(self.source(), self.mode(), self.st(), prob as int);
        }
        if !self.refill_digits() {
            return None;
        }
        let p: u32 = prob as u32;
        let hi: u32 = self.state / 256;
        let lo: u32 = self.state % 256;
        let bit: bool = lo < p;
        proof {
            assert(p * hi <= 255 * hi) by (nonlinear_arith)
                requires
                    p <= 255,
            ;
            assert((256 - p) * hi <= 255 * hi) by (nonlinear_arith)
                requires
                    1 <= p,
            ;
            assert(0 <= (256 - p) * hi) by (nonlinear_arith)
                requires
                    p <= 256,
            ;
        }
        if bit {
            self.state = p * hi + lo;
        } else {
            self.state = (256 - p) * hi + (lo - p);
        }
        Some(bit)
    }
}

// ---------------------------------------------------------------------------
// Encoder
// ---------------------------------------------------------------------------
/// The stream ends with the digits of `stack`, the first of them last.
pub open spec fn tail_is(data: Seq<u8>, m: RansMode, stack: Seq<u8>) -> bool {
    &&& stack.len() <= digit_count(data, m)
    &&& forall|j: int|
        0 <= j < stack.len() ==> digit(data, m, digit_count(data, m) - 1 - j) == #[trigger] stack[j]
}

pub open spec fn at_tail(data: Seq<u8>, m: RansMode, x: int, stack: Seq<u8>) -> RansSt {
    RansSt { x, pos: digit_count(data, m) - stack.len() }
}

/// A decoder that has reached `x` with the digits of `stack` to come reads
/// `rest`.
pub open spec fn reads(m: RansMode, stack: Seq<u8>, x: int, rest: Seq<Coded>) -> bool {
    forall|data: Seq<u8>, s: RansSt|
        #![trigger tail_is(data, m, stack), after_bits(data, m, s, rest)]
        tail_is(data, m, stack) && refill(data, m, s) == Some(at_tail(data, m, x, stack))
            ==> after_bits(data, m, s, rest) is Some
}

/// Taking back what was pushed after `stack` gives `x` again.
pub open spec fn pushed(m: RansMode, stack: Seq<u8>, x: int, stack2: Seq<u8>, x1: int) -> bool {
    forall|data: Seq<u8>| #[trigger]
        tail_is(data, m, stack2) ==> tail_is(data, m, stack) && refill(
            data,
            m,
            at_tail(data, m, x1, stack2),
        ) == Some(at_tail(data, m, x, stack))
}

proof fn lemma_encode(
    m: RansMode,
    stack: Seq<u8>,
    x: int,
    rest: Seq<Coded>,
    stack2: Seq<u8>,
    x1: int,
    x2: int,
    c: Coded,
)
    requires
        reads(m, stack, x, rest),
        pushed(m, stack, x, stack2, x1),
        1 <= c.prob,
        x1 >= 0,
        ({
            let w = if c.bit {
                c.prob as int
            } else {
                256 - c.prob
            };
            let start = if c.bit {
                0
            } else {
                c.prob as int
            };
            x2 == (x1 / w) * 256 + x1 % w + start
        }),
    ensures
        reads(m, stack2, x2, seq![c] + rest),
{
    let p = c.prob as int;
    let w = if c.bit {
        p
    } else {
        256 - p
    };
    let q = x1 / w;
    let r = x1 % w;
    assert(0 <= r < w) by (nonlinear_arith)
        requires
            r == x1 % w,
            w > 0,
    ;
    assert(x1 == w * q + r) by (nonlinear_arith)
        requires
            q == x1 / w,
            r == x1 % w,
            w > 0,
    ;
    let lo = r + if c.bit {
        0
    } else {
        p
    };
    assert(x2 == 256 * q + lo);
    assert(x2 % 256 == lo && x2 / 256 == q);
    let bits = seq![c] + rest;
    assert(bits.skip(1) =~= rest);
    assert(bits[0] == c);
    assert forall|data: Seq<u8>, s: RansSt|
        #![trigger tail_is(data, m, stack2), after_bits(data, m, s, bits)]
        tail_is(data, m, stack2) && refill(data, m, s) == Some(
            at_tail(data, m, x2, stack2),
        ) implies after_bits(data, m, s, bits) is Some by {
        let s1 = at_tail(data, m, x1, stack2);
        assert(rans_bit(data, m, s, p) == Some((c.bit, s1)));
        assert(tail_is(data, m, stack));
        assert(after_bits(data, m, s1, rest) is Some);
    }
}

pub open spec fn digits_small(stack: Seq<u8>) -> bool {
    forall|j: int| 0 <= j < stack.len() ==> #[trigger] stack[j] <= 1
}

/// A number and the digits that were pushed so far, after digits were pushed until
/// it is below `bound`.
pub open spec fn flushed(m: RansMode, stack: Seq<u8>, x: int, bound: int) -> (Seq<u8>, int)
    decreases x,
{
    if x >= bound && x > 0 {
        flushed(m, stack.push((x % radix(m)) as u8), x / radix(m), bound)
    } else {
        (stack, x)
    }
}

/// The digits and the number when the bits from `i` on are coded, the last first.
pub open spec fn coded_from(m: RansMode, coded: Seq<Coded>, i: int) -> (Seq<u8>, int)
    decreases coded.len() - i,
{
    if i < 0 || i >= coded.len() {
        (Seq::empty(), low_end(m))
    } else {
        let c = coded[i];
        let start = if c.bit {
            0
        } else {
            c.prob as int
        };
        let w = if c.bit {
            c.prob as int
        } else {
            256 - c.prob
        };
        let (stack, x) = coded_from(m, coded, i + 1);
        let (more, y) = flushed(m, stack, x, high_end(m) / 256 * w);
        (more, (y / w) * 256 + y % w + start)
    }
}

/// Eight bits as a byte, from bit `k` of the stack that is read from its top, with
/// zeros above it.
pub open spec fn bits_byte(stack: Seq<u8>, count: int, k: int, big: bool) -> u8 {
    if big {
        (128 * padded(stack, count, k) + 64 * padded(stack, count, k + 1) + 32 * padded(
            stack,
            count,
            k + 2,
        ) + 16 * padded(stack, count, k + 3) + 8 * padded(stack, count, k + 4) + 4 * padded(
            stack,
            count,
            k + 5,
        ) + 2 * padded(stack, count, k + 6) + padded(stack, count, k + 7)) as u8
    } else {
        (128 * padded(stack, count, k + 7) + 64 * padded(stack, count, k + 6) + 32 * padded(
            stack,
            count,
            k + 5,
        ) + 16 * padded(stack, count, k + 4) + 8 * padded(stack, count, k + 3) + 4 * padded(
            stack,
            count,
            k + 2,
        ) + 2 * padded(stack, count, k + 1) + padded(stack, count, k)) as u8
    }
}

/// Bits as bytes, with zeros in front.
pub open spec fn packed_bits(stack: Seq<u8>, big: bool) -> Seq<u8> {
    let bytes = (stack.len() + 7) as int / 8;
    Seq::new(bytes as nat, |i: int| bits_byte(stack, 8 * bytes, 8 * i, big))
}

/// The bytes of a stream of coded bits.
pub open spec fn rans_bytes(m: RansMode, coded: Seq<Coded>) -> Seq<u8> {
    let (stack, x) = coded_from(m, coded, 0);
    let all = flushed(m, stack, x, 1).0;
    if m.bits {
        packed_bits(all, m.big)
    } else {
        all.reverse()
    }
}

/// Pushes digits of `x` until it is below `bound`.
fn flush(stack: &mut Vec<u8>, x: u32, bound: u32, bits: bool, Ghost(m): Ghost<RansMode>) -> (r: u32)
    requires
        m.bits == bits,
        low_end(m) <= x < high_end(m),
        bound >= 1,
    ensures
        pushed(m, old(stack)@, x as int, final(stack)@, r as int),
        r < bound,
        r == x || r >= bound as int / radix(m),
        r <= x,
        bits && digits_small(old(stack)@) ==> digits_small(final(stack)@),
        (final(stack)@, r as int) == flushed(m, old(stack)@, x as int, bound as int),
{
    let ghost s0 = stack@;
    let mut y: u32 = x;
    assert(forall|data: Seq<u8>| #[trigger]
        tail_is(data, m, s0) ==> refill(data, m, at_tail(data, m, x as int, s0)) == Some(
            at_tail(data, m, x as int, s0),
        ));
    while y >= bound
        invariant
            m.bits == bits,
            low_end(m) <= x < high_end(m),
            bound >= 1,
            y <= x,
            y == x || y >= bound as int / radix(m),
            pushed(m, s0, x as int, stack@, y as int),
            bits && digits_small(s0) ==> digits_small(stack@),
            flushed(m, s0, x as int, bound as int) == flushed(m, stack@, y as int, bound as int),
        decreases y,
    {
        let ghost s1 = stack@;
        let ghost y1 = y as int;
        if bits {
            stack.push((y % 2) as u8);
            y = y / 2;
        } else {
            stack.push((y % 256) as u8);
            y = y / 256;
        }
        proof {
            let d = (y1 % radix(m)) as u8;
            assert(stack@ == s1.push(d));
            assert(y < low_end(m));
            assert forall|data: Seq<u8>| #[trigger] tail_is(data, m, stack@) implies tail_is(
                data,
                m,
                s0,
            ) && refill(data, m, at_tail(data, m, y as int, stack@)) == Some(
                at_tail(data, m, x as int, s0),
            ) by {
                let n = digit_count(data, m);
                assert(tail_is(data, m, s1)) by {
                    assert forall|j: int| 0 <= j < s1.len() implies digit(data, m, n - 1 - j)
                        == #[trigger] s1[j] by {
                        assert(stack@[j] == s1[j]);
                    }
                }
                assert(stack@[s1.len() as int] == d);
                assert(digit(data, m, n - 1 - s1.len()) == d);
                assert(y * radix(m) + d == y1);
                assert(refill(data, m, at_tail(data, m, y as int, stack@)) == refill(
                    data,
                    m,
                    at_tail(data, m, y1, s1),
                ));
            }
        }
    }
    y
}

proof fn lemma_pack_big(b: u8, d0: u8, d1: u8, d2: u8, d3: u8, d4: u8, d5: u8, d6: u8, d7: u8)
    by (bit_vector)
    requires
        d0 <= 1 && d1 <= 1 && d2 <= 1 && d3 <= 1 && d4 <= 1 && d5 <= 1 && d6 <= 1 && d7 <= 1,
        b == 128 * d0 + 64 * d1 + 32 * d2 + 16 * d3 + 8 * d4 + 4 * d5 + 2 * d6 + d7,
    ensures
        (b >> 7u8) & 1u8 == d0,
        (b >> 6u8) & 1u8 == d1,
        (b >> 5u8) & 1u8 == d2,
        (b >> 4u8) & 1u8 == d3,
        (b >> 3u8) & 1u8 == d4,
        (b >> 2u8) & 1u8 == d5,
        (b >> 1u8) & 1u8 == d6,
        (b >> 0u8) & 1u8 == d7,
{
}

/// Digit `k` of a stream that starts with zeros and ends with the stack.
pub open spec fn padded(stack: Seq<u8>, count: int, k: int) -> int {
    if k < count - stack.len() {
        0
    } else {
        stack[count - 1 - k] as int
    }
}

/// Digit `j` of a byte that takes `take` digits from the top of the stack, of
/// which `top` are left.
fn padded_at(stack: &Vec<u8>, top: usize, take: usize, j: usize) -> (d: u8)
    requires
        top <= stack@.len(),
        take <= top,
        1 <= take <= 8,
        j < 8,
        digits_small(stack@),
    ensures
        d == if j + take < 8 {
            0
        } else {
            stack@[top - 1 - (j + take - 8)]
        },
        d <= 1,
{
    if j + take < 8 {
        0
    } else {
        stack[top - 1 - (j + take - 8)]
    }
}

/// Bits as bytes, with zeros in front.
fn pack_bits(stack: &Vec<u8>, big: bool) -> (out: Vec<u8>)
    requires
        digits_small(stack@),
    ensures
        ({
            let m = RansMode { bits: true, big };
            &&& tail_is(out@, m, stack@)
            &&& forall|k: int|
                0 <= k < digit_count(out@, m) - stack@.len() ==> #[trigger] digit(out@, m, k) == 0
            &&& digit_count(out@, m) < stack@.len() + 8
        }),
        out@ == packed_bits(stack@, big),
{
    let ghost m = RansMode { bits: true, big };
    let len: usize = stack.len();
    let ghost count = (len + 7) / 8 * 8;
    let mut out: Vec<u8> = Vec::new();
    let mut top: usize = len;
    while top > 0
        invariant
            len == stack@.len(),
            count == (len + 7) / 8 * 8,
            top <= len,
            top == len || top == count - 8 * out@.len(),
            top == len ==> out@.len() == 0,
            top < len ==> out@.len() > 0,
            digits_small(stack@),
            m == (RansMode { bits: true, big }),
            forall|k: int|
                0 <= k < out@.len() ==> #[trigger] out@[k] == bits_byte(stack@, count, 8 * k, big),
            forall|k: int|
                0 <= k < 8 * out@.len() ==> #[trigger] digit(out@, m, k) == padded(stack@, count, k),
        decreases top,
    {
        let ghost before = out@;
        let ghost i = out@.len() as int;
        let take: usize = if top % 8 == 0 {
            8
        } else {
            top % 8
        };
        let d0: u8 = padded_at(stack, top, take, 0);
        let d1: u8 = padded_at(stack, top, take, 1);
        let d2: u8 = padded_at(stack, top, take, 2);
        let d3: u8 = padded_at(stack, top, take, 3);
        let d4: u8 = padded_at(stack, top, take, 4);
        let d5: u8 = padded_at(stack, top, take, 5);
        let d6: u8 = padded_at(stack, top, take, 6);
        let d7: u8 = padded_at(stack, top, take, 7);
        let b: u8 = if big {
            128 * d0 + 64 * d1 + 32 * d2 + 16 * d3 + 8 * d4 + 4 * d5 + 2 * d6 + d7
        } else {
            128 * d7 + 64 * d6 + 32 * d5 + 16 * d4 + 8 * d3 + 4 * d2 + 2 * d1 + d0
        };
        proof {
            if big {
                lemma_pack_big(b, d0, d1, d2, d3, d4, d5, d6, d7);
            } else {
                lemma_pack_big(b, d7, d6, d5, d4, d3, d2, d1, d0);
            }
            if top == len {
                assert(count == len + 8 - take);
            } else {
                assert(take == 8);
            }
            let g = |j: int| padded(stack@, count, 8 * i + j);
            assert(d0 == g(0) && d1 == g(1) && d2 == g(2) && d3 == g(3));
            assert(d4 == g(4) && d5 == g(5) && d6 == g(6) && d7 == g(7));
            assert(b == bits_byte(stack@, count, 8 * i, big));
        }
        out.push(b);
        top = top - take;
        assert forall|j: int| 0 <= j < 8 * out@.len() implies #[trigger] digit(out@, m, j) == padded(
            stack@,
            count,
            j,
        ) by {
            if j < 8 * i {
                assert(out@[j / 8] == before[j / 8]);
                assert(digit(before, m, j) == padded(stack@, count, j));
            } else {
                assert(j / 8 == i);
                let r = j % 8;
                assert(j == 8 * i + r);
                assert(out@[i] == b);
                assert(r == 0 || r == 1 || r == 2 || r == 3 || r == 4 || r == 5 || r == 6 || r
                    == 7);
            }
        }
    }
    assert(digit_count(out@, m) == count);
    assert(out@ =~= packed_bits(stack@, big));
    assert forall|j: int| 0 <= j < stack@.len() implies digit(
        out@,
        m,
        digit_count(out@, m) - 1 - j,
    ) == #[trigger] stack@[j] by {
        assert(digit(out@, m, count - 1 - j) == padded(stack@, count, count - 1 - j));
    }
    out
}

/// Zeros in front change nothing.
proof fn lemma_leading_zeros(data: Seq<u8>, m: RansMode, k: int, n: int)
    requires
        0 <= k <= n <= digit_count(data, m),
        forall|j: int| 0 <= j < n ==> #[trigger] digit(data, m, j) == 0,
    ensures
        refill(data, m, RansSt { x: 0, pos: k }) == refill(data, m, RansSt { x: 0, pos: n }),
    decreases n - k,
{
    if k < n {
        assert(digit(data, m, k) == 0);
        lemma_leading_zeros(data, m, k + 1, n);
    }
}

/// The stream of a list of bits. It is made from the last bit to the first.
#[verifier::rlimit(40)]
pub fn finish(coded: &Vec<Coded>, use_bitstream: bool, big: bool) -> (out: Vec<u8>)
    requires
        forall|k: int| 0 <= k < coded@.len() ==> 1 <= #[trigger] coded@[k].prob,
    ensures
        ({
            let m = RansMode { bits: use_bitstream, big };
            refill(out@, m, RansSt { x: 0, pos: 0 }) matches Some(s) && after_bits(
                out@,
                m,
                s,
                coded@,
            ) is Some
        }),
        out@ == rans_bytes(RansMode { bits: use_bitstream, big }, coded@),
{
    let ghost m = RansMode { bits: use_bitstream, big };
    let (low, factor): (u32, u32) = if use_bitstream {
        (32768, 256)
    } else {
        (4096, 4096)
    };
    let mut stack: Vec<u8> = Vec::new();
    let mut x: u32 = low;
    let n: usize = coded.len();
    let mut i: usize = n;
    assert(coded@.skip(n as int) =~= Seq::<Coded>::empty());
    assert(stack@ =~= Seq::<u8>::empty());
    while i > 0
        invariant
            m == (RansMode { bits: use_bitstream, big }),
            n == coded@.len(),
            i <= n,
            factor * 256 == high_end(m),
            low_end(m) <= x < high_end(m),
            forall|k: int| 0 <= k < coded@.len() ==> 1 <= #[trigger] coded@[k].prob,
            use_bitstream ==> digits_small(stack@),
            reads(m, stack@, x as int, coded@.skip(i as int)),
            (stack@, x as int) == coded_from(m, coded@, i as int),
        decreases i,
    {
        i -= 1;
        let c: Coded = coded[i];
        assert(1 <= coded@[i as int].prob);
        let (start, w): (u32, u32) = if c.bit {
            (0, c.prob as u32)
        } else {
            (c.prob as u32, 256 - c.prob as u32)
        };
        let ghost s0 = stack@;
        let ghost x0 = x as int;
        assert(factor * w <= factor * 255) by (nonlinear_arith)
            requires
                w <= 255,
        ;
        assert(factor * w >= factor) by (nonlinear_arith)
            requires
                w >= 1,
        ;
        let y: u32 = flush(&mut stack, x, factor * w, use_bitstream, Ghost(m));
        proof {
            lemma_range(m, y as int, x0, factor as int, w as int);
        }
        x = (y / w) * 256 + y % w + start;
        proof {
            lemma_encode(m, s0, x0, coded@.skip(i + 1), stack@, y as int, x as int, c);
            assert(coded@.skip(i as int) =~= seq![c] + coded@.skip(i + 1));
        }
    }
    let ghost s0 = stack@;
    let _zero: u32 = flush(&mut stack, x, 1, use_bitstream, Ghost(m));
    assert(coded@.skip(0) =~= coded@);
    let out: Vec<u8> = if use_bitstream {
        pack_bits(&stack, big)
    } else {
        unstack(&stack)
    };
    proof {
        let pad = digit_count(out@, m) - stack@.len();
        assert(tail_is(out@, m, stack@));
        lemma_leading_zeros(out@, m, 0, pad);
        let s = at_tail(out@, m, x as int, s0);
        assert(refill(out@, m, at_tail(out@, m, 0, stack@)) == Some(s));
        assert(refill(out@, m, s) == Some(s));
        assert(after_bits(out@, m, s, coded@) is Some);
    }
    out
}

/// The bytes of the stack from the last to the first.
fn unstack(stack: &Vec<u8>) -> (out: Vec<u8>)
    ensures
        forall|big: bool| #[trigger] tail_is(out@, RansMode { bits: false, big }, stack@),
        out@.len() == stack@.len(),
        out@ == stack@.reverse(),
{
    let out: Vec<u8> = reversed(stack.as_slice());
    assert forall|big: bool| #[trigger] tail_is(out@, RansMode { bits: false, big }, stack@) by {
        let m = RansMode { bits: false, big };
        assert forall|j: int| 0 <= j < stack@.len() implies digit(
            out@,
            m,
            digit_count(out@, m) - 1 - j,
        ) == #[trigger] stack@[j] by {}
    }
    out
}

/// A bit leaves the number within its bounds.
proof fn lemma_range(m: RansMode, y: int, x: int, factor: int, w: int)
    requires
        1 <= w <= 255,
        low_end(m) <= x < high_end(m),
        factor * 256 == high_end(m),
        0 <= y < factor * w,
        y == x || y >= (factor * w) / radix(m),
    ensures
        low_end(m) / 256 <= y / w < factor,
        0 <= y % w < w,
{
    if m.bits {
        assert(factor == 256);
        assert(y >= 128 * w);
        assert(128 <= y / w < 256) by (nonlinear_arith)
            requires
                128 * w <= y < 256 * w,
                w >= 1,
        ;
    } else {
        assert(factor == 4096);
        assert(y >= 16 * w);
        assert(16 <= y / w < 4096) by (nonlinear_arith)
            requires
                16 * w <= y < 4096 * w,
                w >= 1,
        ;
    }
    assert(0 <= y % w < w) by (nonlinear_arith)
        requires
            w >= 1,
    ;
}

} // verus!
