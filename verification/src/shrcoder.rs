//! A binary range coder. The interval of the coder is kept exactly: its low end
//! is a number whose upper digits are the bits written so far, and carries run
//! back through them.
use vstd::arithmetic::power2::{lemma_pow2_pos, lemma_pow2_unfold, pow2};
use crate::bitio;
use vstd::prelude::*;

verus! {

// ---------------------------------------------------------------------------
// The decoder as mathematics
// ---------------------------------------------------------------------------
/// Bit `k` of a stream, most significant first; zero past its end.
pub open spec fn s_bit(data: Seq<u8>, k: int) -> int {
    if 0 <= k < 8 * data.len() && bitio::bit_of(data[k / 8], 7 - k % 8) {
        1
    } else {
        0
    }
}

/// The first `n` bits as a number.
pub open spec fn s_prefix(data: Seq<u8>, n: int) -> int
    decreases n,
{
    if n <= 0 {
        0
    } else {
        2 * s_prefix(data, n - 1) + s_bit(data, n - 1)
    }
}

/// The decoder: the size of its interval, where the stream lies in it, and how
/// many bits were taken.
pub struct RcSt {
    pub size: int,
    pub value: int,
    pub pos: int,
}

/// Takes bits until the interval is large enough.
pub open spec fn rc_fill(data: Seq<u8>, s: RcSt) -> RcSt
    decreases 0x10000 - s.size,
{
    if s.size >= 0x8000 || s.size <= 0 {
        s
    } else {
        rc_fill(
            data,
            RcSt { size: 2 * s.size, value: 2 * s.value + s_bit(data, s.pos), pos: s.pos + 1 },
        )
    }
}

pub open spec fn rc_start(data: Seq<u8>) -> RcSt {
    rc_fill(data, RcSt { size: 1, value: 0, pos: 0 })
}

/// The part of the interval that stands for a 1, which has probability `p` in
/// 65536ths.
pub open spec fn rc_split(size: int, p: int) -> int {
    (size * p) / 65536
}

pub open spec fn rc_bit(data: Seq<u8>, s: RcSt, p: int) -> (bool, RcSt) {
    let t = rc_split(s.size, p);
    if s.value < t {
        (true, rc_fill(data, RcSt { size: t, value: s.value, pos: s.pos }))
    } else {
        (false, rc_fill(data, RcSt { size: s.size - t, value: s.value - t, pos: s.pos }))
    }
}

/// The probability after a bit.
pub open spec fn rc_adapt(p: u16, bit: bool) -> int {
    if bit {
        p + 4095 - p / 16
    } else {
        p - p / 16
    }
}

/// Both parts of an interval are there.
pub proof fn lemma_split(size: int, p: int)
    requires
        0x8000 <= size < 0x10000,
        2 <= p < 0x10000,
    ensures
        1 <= rc_split(size, p) < size,
{
    assert(65536 <= size * p) by (nonlinear_arith)
        requires
            size >= 0x8000,
            p >= 2,
    ;
    assert(size * p < size * 65536) by (nonlinear_arith)
        requires
            size >= 1,
            p < 65536,
    ;
}

// ---------------------------------------------------------------------------
// The encoder as mathematics
// ---------------------------------------------------------------------------
/// The interval of the encoder after `d` doublings.
pub struct RcEnc {
    pub low: int,
    pub size: int,
    pub d: int,
}

pub open spec fn enc_start() -> RcEnc {
    RcEnc { low: 0, size: 0x8000, d: 0 }
}

/// The interval doubled until it is large enough.
pub open spec fn enc_fill(e: RcEnc) -> RcEnc
    decreases 0x1_0000 - e.size,
{
    if e.size >= 0x8000 || e.size <= 0 {
        e
    } else {
        enc_fill(RcEnc { low: 2 * e.low, size: 2 * e.size, d: e.d + 1 })
    }
}

/// The interval after a bit that is 1 with probability `p` in 65536ths.
pub open spec fn enc_bit(e: RcEnc, p: int, bit: bool) -> RcEnc {
    let t = rc_split(e.size, p);
    enc_fill(
        if bit {
            RcEnc { size: t, ..e }
        } else {
            RcEnc { low: e.low + t, size: e.size - t, ..e }
        },
    )
}

/// The stream lies in the interval.
pub open spec fn inside(data: Seq<u8>, e: RcEnc) -> bool {
    e.low <= s_prefix(data, 15 + e.d) < e.low + e.size
}

/// The decoder where the encoder is.
pub open spec fn rc_at(data: Seq<u8>, e: RcEnc) -> RcSt {
    RcSt { size: e.size, value: s_prefix(data, 15 + e.d) - e.low, pos: 15 + e.d }
}

proof fn lemma_start_from(data: Seq<u8>, k: nat)
    requires
        k <= 15,
    ensures
        rc_fill(data, RcSt { size: pow2(k) as int, value: s_prefix(data, k as int), pos: k as int })
            == (RcSt { size: 0x8000, value: s_prefix(data, 15), pos: 15 }),
    decreases 15 - k,
{
    assert(pow2(15) == 0x8000) by {
        vstd::arithmetic::power2::lemma2_to64();
    }
    if k < 15 {
        vstd::arithmetic::power2::lemma_pow2_strictly_increases(k, 15);
        lemma_pow2_pos(k);
        lemma_pow2_unfold(k + 1);
        lemma_start_from(data, k + 1);
    }
}

/// The decoder starts where the encoder does.
pub proof fn lemma_rc_start(data: Seq<u8>)
    ensures
        rc_start(data) == rc_at(data, enc_start()),
{
    assert(pow2(0) == 1) by {
        vstd::arithmetic::power2::lemma2_to64();
    }
    lemma_start_from(data, 0);
}

// ---------------------------------------------------------------------------
// Bits as a number
// ---------------------------------------------------------------------------
pub open spec fn bits_val(s: Seq<u8>) -> int
    decreases s.len(),
{
    if s.len() == 0 {
        0
    } else {
        2 * bits_val(s.drop_last()) + s.last()
    }
}

pub open spec fn all_bits(s: Seq<u8>) -> bool {
    forall|k: int| 0 <= k < s.len() ==> #[trigger] s[k] <= 1
}

proof fn lemma_val_bound(s: Seq<u8>)
    requires
        all_bits(s),
    ensures
        0 <= bits_val(s) < pow2(s.len()),
    decreases s.len(),
{
    if s.len() == 0 {
        lemma_pow2_pos(0);
    } else {
        assert forall|k: int| 0 <= k < s.drop_last().len() implies #[trigger] s.drop_last()[k] <= 1 by {
            assert(s[k] <= 1);
        }
        lemma_val_bound(s.drop_last());
        lemma_pow2_unfold(s.len());
        assert(s[s.len() - 1] <= 1);
    }
}

/// A number of ones is the largest of its length.
proof fn lemma_val_ones(s: Seq<u8>)
    requires
        forall|k: int| 0 <= k < s.len() ==> #[trigger] s[k] == 1,
    ensures
        bits_val(s) == pow2(s.len()) - 1,
    decreases s.len(),
{
    if s.len() == 0 {
        assert(pow2(0) == 1) by {
            vstd::arithmetic::power2::lemma2_to64();
        }
    } else {
        assert forall|k: int| 0 <= k < s.drop_last().len() implies #[trigger] s.drop_last()[k] == 1 by {
            assert(s[k] == 1);
        }
        lemma_val_ones(s.drop_last());
        lemma_pow2_unfold(s.len());
        assert(s[s.len() - 1] == 1);
    }
}

/// A carry: ones at the end become zeros, and the zero before them a one.
proof fn lemma_val_carry(a: Seq<u8>, b: Seq<u8>, i: int, j: int)
    requires
        a.len() == b.len(),
        1 <= i <= j <= a.len(),
        a.take(i - 1) == b.take(i - 1),
        a[i - 1] == 0,
        b[i - 1] == 1,
        forall|k: int| i <= k < a.len() ==> #[trigger] a[k] == 1,
        forall|k: int| i <= k < a.len() ==> #[trigger] b[k] == 0,
    ensures
        bits_val(b.take(j)) == bits_val(a.take(j)) + 1,
    decreases j,
{
    assert(a.take(j).drop_last() =~= a.take(j - 1));
    assert(b.take(j).drop_last() =~= b.take(j - 1));
    assert(a.take(j).last() == a[j - 1]);
    assert(b.take(j).last() == b[j - 1]);
    if j > i {
        lemma_val_carry(a, b, i, j - 1);
        assert(a[j - 1] == 1);
        assert(b[j - 1] == 0);
    }
}

/// Adds one to the number that the bits form.
fn add_bit(bits: &mut Vec<u8>)
    requires
        all_bits(old(bits)@),
        bits_val(old(bits)@) + 1 < pow2(old(bits)@.len()),
    ensures
        all_bits(final(bits)@),
        final(bits)@.len() == old(bits)@.len(),
        bits_val(final(bits)@) == bits_val(old(bits)@) + 1,
{
    let ghost a = bits@;
    let n: usize = bits.len();
    let mut i: usize = n;
    while i > 0
        invariant
            n == a.len(),
            i <= n,
            bits@.len() == n,
            all_bits(a),
            all_bits(bits@),
            bits_val(a) + 1 < pow2(a.len()),
            forall|k: int| 0 <= k < i ==> #[trigger] bits@[k] == a[k],
            forall|k: int| i <= k < n ==> #[trigger] a[k] == 1,
            forall|k: int| i <= k < n ==> #[trigger] bits@[k] == 0,
            a == old(bits)@,
        decreases i,
    {
        assert(a[i - 1] <= 1);
        assert(bits@[i - 1] == a[i - 1]);
        if bits[i - 1] == 0 {
            bits.set(i - 1, 1);
            proof {
                assert(a.take(i - 1) =~= bits@.take(i - 1));
                lemma_val_carry(a, bits@, i as int, n as int);
                assert(a.take(n as int) =~= a);
                assert(bits@.take(n as int) =~= bits@);
            }
            return ;
        }
        bits.set(i - 1, 0);
        i -= 1;
    }
    proof {
        lemma_val_ones(a);
    }
}

/// The first `n` bits of a string and the zeros after it, as a number.
spec fn ext_val(s: Seq<u8>, n: int) -> int
    decreases n,
{
    if n <= 0 {
        0
    } else {
        2 * ext_val(s, n - 1) + if n <= s.len() {
            s[n - 1] as int
        } else {
            0
        }
    }
}

proof fn lemma_ext_inside(s: Seq<u8>, n: int)
    requires
        0 <= n <= s.len(),
    ensures
        ext_val(s, n) == bits_val(s.take(n)),
    decreases n,
{
    if n > 0 {
        lemma_ext_inside(s, n - 1);
        assert(s.take(n).drop_last() =~= s.take(n - 1));
    }
}

/// Zeros behind a string scale its number.
proof fn lemma_ext_beyond(s: Seq<u8>, k: nat)
    ensures
        ext_val(s, (s.len() + k) as int) == bits_val(s) * pow2(k),
    decreases k,
{
    if k == 0 {
        lemma_ext_inside(s, s.len() as int);
        assert(s.take(s.len() as int) =~= s);
        assert(pow2(0) == 1) by {
            vstd::arithmetic::power2::lemma2_to64();
        }
    } else {
        lemma_ext_beyond(s, (k - 1) as nat);
        lemma_pow2_unfold(k);
        assert(2 * (bits_val(s) * pow2((k - 1) as nat)) == bits_val(s) * (2 * pow2((k - 1) as nat)))
            by (nonlinear_arith);
    }
}

/// A stream that holds the bits behind a leading zero.
spec fn holds_bits(data: Seq<u8>, s: Seq<u8>) -> bool {
    forall|k: int| 0 <= k ==> #[trigger] s_bit(data, k) == (if k + 1 < s.len() {
        s[k + 1] as int
    } else {
        0
    })
}

proof fn lemma_stream_prefix(data: Seq<u8>, s: Seq<u8>, n: int)
    requires
        holds_bits(data, s),
        s.len() >= 1,
        s[0] == 0,
        n >= 0,
    ensures
        s_prefix(data, n) == ext_val(s, n + 1),
    decreases n,
{
    if n == 0 {
        reveal_with_fuel(ext_val, 2);
    } else {
        lemma_stream_prefix(data, s, n - 1);
        assert(s_bit(data, n - 1) == (if n < s.len() {
            s[n] as int
        } else {
            0
        }));
    }
}

proof fn lemma_first_zero(s: Seq<u8>)
    requires
        all_bits(s),
        s.len() >= 1,
        bits_val(s) < pow2((s.len() - 1) as nat),
    ensures
        s[0] == 0,
    decreases s.len(),
{
    assert(s[0] <= 1);
    if s.len() == 1 {
        assert(pow2(0) == 1) by {
            vstd::arithmetic::power2::lemma2_to64();
        }
        assert(s.drop_last().len() == 0);
        reveal_with_fuel(bits_val, 2);
    } else {
        let t = s.drop_last();
        lemma_pow2_unfold((s.len() - 1) as nat);
        assert forall|k: int| 0 <= k < t.len() implies #[trigger] t[k] <= 1 by {
            assert(s[k] <= 1);
        }
        lemma_first_zero(t);
    }
}

/// Setting a bit sets that bit alone.
proof fn lemma_or_bit(b: u8, s: u8, t: u8)
    by (bit_vector)
    requires
        s < 8,
        t < 8,
    ensures
        ((b | (1u8 << s)) >> t) & 1u8 == (if s == t {
            1u8
        } else {
            (b >> t) & 1u8
        }),
{
}

proof fn lemma_zero_bits()
    by (bit_vector)
    ensures
        forall|t: u8| t < 8 ==> #[trigger] (0u8 >> t) & 1u8 == 0u8,
{
}

/// A byte is the sum of its bits.
proof fn lemma_byte_sum(b: u8)
    by (bit_vector)
    ensures
        b == 128 * ((b >> 7u8) & 1u8) + 64 * ((b >> 6u8) & 1u8) + 32 * ((b >> 5u8) & 1u8) + 16 * ((b
            >> 4u8) & 1u8) + 8 * ((b >> 3u8) & 1u8) + 4 * ((b >> 2u8) & 1u8) + 2 * ((b >> 1u8)
            & 1u8) + ((b >> 0u8) & 1u8),
{
}

/// The bit at `k` of a string, or a zero behind its end.
pub open spec fn bit_or_zero(s: Seq<u8>, k: int) -> int {
    if k < s.len() {
        s[k] as int
    } else {
        0
    }
}

/// Eight bits from `k` on as a byte, the first the highest.
pub open spec fn byte_at(s: Seq<u8>, k: int) -> u8 {
    (128 * bit_or_zero(s, k) + 64 * bit_or_zero(s, k + 1) + 32 * bit_or_zero(s, k + 2) + 16
        * bit_or_zero(s, k + 3) + 8 * bit_or_zero(s, k + 4) + 4 * bit_or_zero(s, k + 5) + 2
        * bit_or_zero(s, k + 6) + bit_or_zero(s, k + 7)) as u8
}

/// The bits behind the first as bytes, with zeros at the end.
pub open spec fn packed(s: Seq<u8>) -> Seq<u8> {
    Seq::new(((s.len() + 6) / 8) as nat, |i: int| byte_at(s, 1 + 8 * i))
}

/// The lowest `len` bits of a number, the highest first.
pub open spec fn bits_of(v: int, len: int) -> Seq<u8>
    decreases len,
{
    if len <= 0 {
        Seq::empty()
    } else {
        bits_of(v / 2, len - 1).push((v % 2) as u8)
    }
}

/// Bits are known from their number and how many they are.
proof fn lemma_bits_of(s: Seq<u8>)
    requires
        all_bits(s),
    ensures
        bits_of(bits_val(s), s.len() as int) == s,
    decreases s.len(),
{
    if s.len() > 0 {
        let t = s.drop_last();
        assert forall|k: int| 0 <= k < t.len() implies #[trigger] t[k] <= 1 by {
            assert(s[k] <= 1);
        }
        lemma_bits_of(t);
        lemma_val_bound(t);
        assert(s[s.len() - 1] <= 1);
        assert(bits_val(s) / 2 == bits_val(t));
        assert(bits_val(s) % 2 == s.last());
        assert(t.push(s.last()) =~= s);
    }
    assert(bits_of(bits_val(s), s.len() as int) =~= s);
}

/// Where the interval from `low` to `high` is halved to from `at`, in steps from
/// `s` down: the first place from which a step stays inside, or that a step of
/// one leads to, and the number of steps with the `n` before.
pub open spec fn halved(low: int, high: int, at: int, s: int, n: int) -> (int, int)
    decreases s,
{
    if s >= 1 && (at < low || at + s >= high) {
        halved(
            low,
            high,
            if at + s < high {
                at + s
            } else {
                at
            },
            s / 2,
            n + 1,
        )
    } else {
        (at, n)
    }
}

/// The bytes that end a stream in the state `e`: as few bits as the halving needs
/// for a number that lies in the interval.
pub open spec fn finished(e: RcEnc) -> Seq<u8> {
    let low = e.low % 65536;
    let (at, n) = halved(low, low + e.size, 0, 65536, 0);
    let v = e.low / 65536 * 65536 + at;
    packed(
        bits_of(
            if n <= 16 {
                v / (pow2((16 - n) as nat) as int)
            } else {
                2 * v
            },
            e.d + n,
        ),
    )
}

/// Eight bits, the first the highest.
fn pack_byte(bits: &Vec<u8>, from: usize) -> (b: u8)
    requires
        all_bits(bits@),
        1 <= from < bits@.len(),
    ensures
        forall|j: int| 0 <= j < 8 ==> #[trigger] bitio::bit_of(b, 7 - j) == (from + j < bits@.len()
            && bits@[from + j] == 1),
        b == byte_at(bits@, from as int),
{
    let n: usize = bits.len();
    let mut b: u8 = 0;
    let mut j: usize = 0;
    proof {
        lemma_zero_bits();
    }
    while j < 8
        invariant
            n == bits@.len(),
            all_bits(bits@),
            1 <= from < n,
            j <= 8,
            forall|i: int| 0 <= i < j ==> #[trigger] bitio::bit_of(b, 7 - i) == (from + i < n
                && bits@[from + i] == 1),
            forall|i: int| j <= i < 8 ==> !#[trigger] bitio::bit_of(b, 7 - i),
        decreases 8 - j,
    {
        let ghost b0 = b;
        if j < n - from && bits[from + j] == 1 {
            let s: u8 = (7 - j) as u8;
            b = b | (1u8 << s);
            assert forall|i: int| 0 <= i < 8 && i != j implies #[trigger] bitio::bit_of(b, 7 - i)
                == bitio::bit_of(b0, 7 - i) by {
                lemma_or_bit(b0, s, (7 - i) as u8);
            }
            proof {
                lemma_or_bit(b0, s, s);
            }
        }
        j += 1;
    }
    proof {
        lemma_byte_sum(b);
        assert forall|i: int| 0 <= i < 8 implies (if #[trigger] bitio::bit_of(b, 7 - i) {
            1int
        } else {
            0
        }) == bit_or_zero(bits@, from + i) by {
            if from + i < n {
                assert(bits@[from + i] <= 1);
            }
        }
        lemma_bit_values(b);
        assert(bitio::bit_of(b, 7 - 0) == (bit_or_zero(bits@, from + 0) == 1));
        assert((b >> 7u8) & 1u8 == bit_or_zero(bits@, from + 0));
        assert(bitio::bit_of(b, 7 - 1) == (bit_or_zero(bits@, from + 1) == 1));
        assert((b >> 6u8) & 1u8 == bit_or_zero(bits@, from + 1));
        assert(bitio::bit_of(b, 7 - 2) == (bit_or_zero(bits@, from + 2) == 1));
        assert((b >> 5u8) & 1u8 == bit_or_zero(bits@, from + 2));
        assert(bitio::bit_of(b, 7 - 3) == (bit_or_zero(bits@, from + 3) == 1));
        assert((b >> 4u8) & 1u8 == bit_or_zero(bits@, from + 3));
        assert(bitio::bit_of(b, 7 - 4) == (bit_or_zero(bits@, from + 4) == 1));
        assert((b >> 3u8) & 1u8 == bit_or_zero(bits@, from + 4));
        assert(bitio::bit_of(b, 7 - 5) == (bit_or_zero(bits@, from + 5) == 1));
        assert((b >> 2u8) & 1u8 == bit_or_zero(bits@, from + 5));
        assert(bitio::bit_of(b, 7 - 6) == (bit_or_zero(bits@, from + 6) == 1));
        assert((b >> 1u8) & 1u8 == bit_or_zero(bits@, from + 6));
        assert(bitio::bit_of(b, 7 - 7) == (bit_or_zero(bits@, from + 7) == 1));
        assert((b >> 0u8) & 1u8 == bit_or_zero(bits@, from + 7));
    }
    b
}

proof fn lemma_bit_values(b: u8)
    by (bit_vector)
    ensures
        (b >> 7u8) & 1u8 <= 1,
        (b >> 6u8) & 1u8 <= 1,
        (b >> 5u8) & 1u8 <= 1,
        (b >> 4u8) & 1u8 <= 1,
        (b >> 3u8) & 1u8 <= 1,
        (b >> 2u8) & 1u8 <= 1,
        (b >> 1u8) & 1u8 <= 1,
        (b >> 0u8) & 1u8 <= 1,
{
}

/// The bits behind the leading zero as bytes, with zeros at the end.
fn pack(bits: &Vec<u8>) -> (out: Vec<u8>)
    requires
        all_bits(bits@),
        bits@.len() >= 1,
    ensures
        holds_bits(out@, bits@),
        bits@.len() - 1 <= 8 * out@.len() < bits@.len() - 1 + 8,
        out@ == packed(bits@),
{
    let n: usize = bits.len();
    let mut out: Vec<u8> = Vec::new();
    let mut p: usize = 1;
    while p < n
        invariant
            n == bits@.len(),
            all_bits(bits@),
            1 <= p,
            p < n || 8 * out@.len() >= n - 1,
            p < n ==> p == 1 + 8 * out@.len(),
            8 * out@.len() < n - 1 + 8,
            forall|i: int| 0 <= i < out@.len() ==> #[trigger] out@[i] == byte_at(bits@, 1 + 8 * i),
            forall|k: int|
                0 <= k < 8 * out@.len() ==> #[trigger] s_bit(out@, k) == (if k + 1 < n {
                    bits@[k + 1] as int
                } else {
                    0
                }),
        decreases n - p,
    {
        let ghost o0 = out@;
        let b: u8 = pack_byte(bits, p);
        out.push(b);
        assert forall|k: int| 0 <= k < 8 * out@.len() implies #[trigger] s_bit(out@, k) == (if k + 1
            < n {
            bits@[k + 1] as int
        } else {
            0
        }) by {
            if k < 8 * o0.len() {
                assert(s_bit(o0, k) == s_bit(out@, k));
            } else {
                let j = k - 8 * o0.len();
                assert(k / 8 == o0.len() && k % 8 == j);
                assert(bitio::bit_of(b, 7 - j) == (p + j < n && bits@[p + j] == 1));
                if k + 1 < n {
                    assert(bits@[k + 1] <= 1);
                }
            }
        }
        if n - p > 8 {
            p += 8;
        } else {
            p = n;
        }
    }
    assert(out@ =~= packed(bits@));
    out
}

/// There is room for one more in the bits while the number stays below the end
/// of the interval.
proof fn lemma_step_bound(b: Seq<u8>, v0: int, at: int, s: int, high: int, d: nat, k: nat)
    requires
        all_bits(b),
        s == pow2(k),
        k <= 16,
        b.len() + k == d + 16,
        bits_val(b) * s == v0 * 65536 + at,
        v0 * 65536 + high <= pow2(15 + d),
        v0 >= 0,
    ensures
        at + s < high ==> bits_val(b) + 1 < pow2(b.len()),
        b.len() >= 1 || high <= 0x8000,
{
    vstd::arithmetic::power2::lemma2_to64();
    lemma_pow2_pos(k);
    let v = bits_val(b);
    assert((v + 1) * s == v * s + s) by (nonlinear_arith);
    if at + s < high {
        assert((v + 1) * s < pow2(15 + d));
        lemma_pow2_unfold(16 + d);
        vstd::arithmetic::power2::lemma_pow2_adds(b.len(), k);
        let q = pow2(b.len());
        assert(v + 1 < q) by (nonlinear_arith)
            requires
                (v + 1) * s < q * s,
                s > 0,
        ;
    }
}

/// The number that was reached, and where its leading bit stands.
proof fn lemma_finished(b: Seq<u8>, w: Seq<u8>, v0: int, at: int, s: int, high: int, d: nat, k: nat)
    requires
        all_bits(b),
        all_bits(w),
        b == w || b == w.push(0),
        w.len() >= 1,
        s == pow2(k),
        k <= 16,
        b == w.push(0) ==> k == 0,
        w.len() + k == d + 16,
        bits_val(w) * s == v0 * 65536 + at,
        at < high,
        v0 * 65536 + high <= pow2(15 + d),
    ensures
        b[0] == 0,
        ext_val(b, (d + 16) as int) == v0 * 65536 + at,
{
    let v = bits_val(w);
    lemma_ext_beyond(w, k);
    lemma_ext_same(b, w, (d + 16) as int);
    lemma_pow2_pos(k);
    vstd::arithmetic::power2::lemma_pow2_adds((w.len() - 1) as nat, k);
    let q = pow2((w.len() - 1) as nat);
    assert(v < q) by (nonlinear_arith)
        requires
            v * s < q * s,
            s > 0,
    ;
    lemma_first_zero(w);
}

/// A zero behind a string changes none of its numbers.
proof fn lemma_ext_same(b: Seq<u8>, w: Seq<u8>, n: int)
    requires
        b == w || b == w.push(0),
    ensures
        ext_val(b, n) == ext_val(w, n),
    decreases n,
{
    if n > 0 {
        lemma_ext_same(b, w, n - 1);
    }
}

// ---------------------------------------------------------------------------
// Encoder
// ---------------------------------------------------------------------------
/// The range coder. The first of its bits is always zero and is not part of the
/// stream.
pub struct RangeCoder {
    bits: Vec<u8>,
    min: u32,
    size: u32,
}

impl View for RangeCoder {
    type V = RcEnc;

    closed spec fn view(&self) -> RcEnc {
        RcEnc {
            low: bits_val(self.bits@) * 65536 + self.min,
            size: self.size as int,
            d: self.bits@.len() as int,
        }
    }
}

impl RangeCoder {
    pub closed spec fn wf(&self) -> bool {
        &&& 0x8000 <= self.size < 0x10000
        &&& self.narrow_wf()
    }

    spec fn narrow_wf(&self) -> bool {
        &&& 1 <= self.size < 0x10000
        &&& self.min < 0x10000
        &&& all_bits(self.bits@)
        &&& self@.low + self.size <= pow2((15 + self.bits@.len()) as nat)
    }

    pub fn new() -> (r: RangeCoder)
        ensures
            r.wf(),
            r@ == enc_start(),
    {
        let r: RangeCoder = RangeCoder { bits: Vec::new(), min: 0, size: 0x8000 };
        proof {
            assert(pow2(15) == 0x8000) by {
                vstd::arithmetic::power2::lemma2_to64();
            }
        }
        r
    }

    /// Brings a low part of 65536 and more back into range.
    fn carry(&mut self)
        requires
            old(self).min < 0x20000,
            1 <= old(self).size < 0x10000,
            all_bits(old(self).bits@),
            old(self)@.low + old(self).size <= pow2((15 + old(self).bits@.len()) as nat),
        ensures
            final(self).narrow_wf(),
            final(self)@ == old(self)@,
    {
        if self.min >= 0x10000 {
            proof {
                let n = self.bits@.len();
                let v = bits_val(self.bits@);
                lemma_val_bound(self.bits@);
                assert(pow2(15) == 0x8000) by {
                    vstd::arithmetic::power2::lemma2_to64();
                }
                vstd::arithmetic::power2::lemma_pow2_adds(15, n);
                assert(v + 1 < pow2(n)) by (nonlinear_arith)
                    requires
                        v >= 0,
                        v * 65536 + 65536 + 1 <= 0x8000 * pow2(n),
                ;
            }
            add_bit(&mut self.bits);
            self.min = self.min - 0x10000;
        }
    }

    /// Doubles the interval until it is large enough.
    fn spread(&mut self)
        requires
            old(self).narrow_wf(),
        ensures
            final(self).wf(),
            final(self)@ == enc_fill(old(self)@),
            final(self)@.d >= old(self)@.d,
            old(self)@.size < 0x8000 ==> final(self)@.d > old(self)@.d,
            forall|data: Seq<u8>| #[trigger]
                inside(data, final(self)@) ==> inside(data, old(self)@) && rc_fill(
                    data,
                    rc_at(data, old(self)@),
                ) == rc_at(data, final(self)@),
    {
        let ghost e0 = self@;
        while self.size < 0x8000
            invariant
                self.narrow_wf(),
                enc_fill(self@) == enc_fill(e0),
                self@.d > e0.d || self@ == e0,
                forall|data: Seq<u8>| #[trigger]
                    inside(data, self@) ==> inside(data, e0) && rc_fill(data, rc_at(data, e0))
                        == rc_fill(data, rc_at(data, self@)),
            decreases 0x10000 - self.size,
        {
            let ghost e1 = self@;
            let ghost b1 = self.bits@;
            proof {
                lemma_pow2_unfold((16 + b1.len()) as nat);
            }
            self.bits.push(0);
            proof {
                assert(self.bits@.drop_last() =~= b1);
                assert(bits_val(self.bits@) == 2 * bits_val(b1));
                assert(all_bits(self.bits@)) by {
                    assert forall|k: int| 0 <= k < self.bits@.len() implies #[trigger] self.bits@[k]
                        <= 1 by {
                        if k < b1.len() {
                            assert(b1[k] <= 1);
                        }
                    }
                }
            }
            self.size = 2 * self.size;
            self.min = 2 * self.min;
            self.carry();
            proof {
                let e2 = self@;
                assert(e2 == (RcEnc { low: 2 * e1.low, size: 2 * e1.size, d: e1.d + 1 }));
                assert forall|data: Seq<u8>| #[trigger] inside(data, e2) implies inside(data, e0)
                    && rc_fill(data, rc_at(data, e0)) == rc_fill(data, rc_at(data, e2)) by {
                    assert(inside(data, e1));
                    let s = rc_at(data, e1);
                    assert(rc_fill(data, s) == rc_fill(data, rc_at(data, e2)));
                }
            }
        }
    }

    /// Codes a bit that is 1 with probability `p` in 65536ths.
    pub fn code(&mut self, p: u16, bit: bool)
        requires
            old(self).wf(),
            p >= 2,
        ensures
            final(self).wf(),
            final(self)@ == enc_bit(old(self)@, p as int, bit),
            final(self)@.d >= old(self)@.d,
            old(self)@.size == 0x8000 ==> final(self)@.d > old(self)@.d,
            forall|data: Seq<u8>| #[trigger]
                inside(data, final(self)@) ==> inside(data, old(self)@) && rc_bit(
                    data,
                    rc_at(data, old(self)@),
                    p as int,
                ) == (bit, rc_at(data, final(self)@)),
    {
        let ghost e0 = self@;
        proof {
            lemma_split(self.size as int, p as int);
            assert(self.size * p <= 0xffff * 0xffff) by (nonlinear_arith)
                requires
                    self.size <= 0xffff,
                    p <= 0xffff,
            ;
        }
        let t: u32 = (self.size * p as u32) / 65536;
        if bit {
            self.size = t;
        } else {
            self.size = self.size - t;
            self.min = self.min + t;
            self.carry();
        }
        let ghost e1 = self@;
        self.spread();
        assert forall|data: Seq<u8>| #[trigger] inside(data, self@) implies inside(data, e0)
            && rc_bit(data, rc_at(data, e0), p as int) == (bit, rc_at(data, self@)) by {
            assert(inside(data, e1));
            assert(rc_fill(data, rc_at(data, e1)) == rc_at(data, self@));
        }
    }

    /// What was written so far, in 64ths of a bit: the doublings, and what
    /// `table` has for the size of the interval.
    pub fn measure(&self, table: &Vec<u32>) -> (size: u128)
        requires
            self.wf(),
            table@.len() == 128,
        ensures
            0x8000 <= self@.size < 0x1_0000,
            size == 64 * self@.d + table@[(self@.size - 0x8000) / 256],
    {
        let i: usize = ((self.size - 0x8000) / 256) as usize;
        64 * (self.bits.len() as u128) + table[i] as u128
    }

    /// Ends the stream with as few further bits as the halving needs for a number
    /// that lies in the interval.
    pub fn finish(self) -> (out: Vec<u8>)
        requires
            self.wf(),
        ensures
            out@ == finished(self@),
            inside(out@, self@),
            self@.d >= 1 ==> out@.len() >= 1,
    {
        let ghost e = self@;
        let ghost v0 = bits_val(self.bits@);
        let ghost d = self.bits@.len();
        let low: u32 = self.min;
        let high: u32 = self.min + self.size;
        let mut bits: Vec<u8> = self.bits;
        let mut at: u32 = 0;
        let mut s: u32 = 0x10000;
        let ghost mut k: nat = 16;
        let ghost goal = halved(low as int, high as int, 0, 65536, 0);
        proof {
            assert(e.low % 65536 == low && e.low / 65536 == v0);
            vstd::arithmetic::power2::lemma2_to64();
            lemma_val_bound(bits@);
        }
        while s >= 2 && (at < low || at + s >= high)
            invariant
                all_bits(bits@),
                low < 0x10000,
                low + 0x8000 <= high < 0x20000,
                at < high <= at + 2 * s,
                s <= 0x10000,
                k <= 16,
                k == 16 ==> at == 0 && s == 0x10000,
                low + 0xffff >= high,
                s == pow2(k),
                bits@.len() + k == d + 16,
                bits_val(bits@) * s == v0 * 65536 + at,
                v0 * 65536 + high <= pow2((15 + d) as nat),
                v0 >= 0,
                goal == halved(low as int, high as int, at as int, s as int, 16 - k),
            decreases s,
        {
            let ghost b0 = bits@;
            proof {
                assert(pow2(0) == 1) by {
                    vstd::arithmetic::power2::lemma2_to64();
                }
                assert(k > 0);
                lemma_step_bound(b0, v0, at as int, s as int, high as int, d, k);
            }
            if at + s < high {
                add_bit(&mut bits);
                assert((bits_val(b0) + 1) * s == bits_val(b0) * s + s) by (nonlinear_arith);
                at = at + s;
            }
            let ghost b1 = bits@;
            bits.push(0);
            proof {
                assert(bits@.drop_last() =~= b1);
                assert forall|i: int| 0 <= i < bits@.len() implies #[trigger] bits@[i] <= 1 by {
                    if i < b1.len() {
                        assert(b1[i] <= 1);
                    }
                }
                lemma_pow2_unfold(k);
                lemma_pow2_pos((k - 1) as nat);
                k = (k - 1) as nat;
                assert(s == 2 * pow2(k));
                assert((2 * bits_val(b1)) * pow2(k) == bits_val(b1) * (2 * pow2(k)))
                    by (nonlinear_arith);
            }
            s = s / 2;
        }
        let ghost whole = bits@;
        if s == 1 && (at < low || at + s >= high) {
            proof {
                lemma_step_bound(bits@, v0, at as int, s as int, high as int, d, k);
            }
            if at + 1 < high {
                add_bit(&mut bits);
                at = at + 1;
            }
            proof {
                whole = bits@;
            }
            bits.push(0);
            proof {
                assert(bits@.drop_last() =~= whole);
                assert forall|i: int| 0 <= i < bits@.len() implies #[trigger] bits@[i] <= 1 by {
                    if i < whole.len() {
                        assert(whole[i] <= 1);
                    }
                }
            }
        }
        proof {
            lemma_finished(bits@, whole, v0, at as int, s as int, high as int, d, k);
            lemma_bits_of(bits@);
            let v = v0 * 65536 + at;
            lemma_pow2_pos(k);
            lemma_val_bound(whole);
            reveal_with_fuel(halved, 3);
            if bits@ == whole {
                assert(goal == (at as int, 16 - k));
                vstd::arithmetic::div_mod::lemma_div_by_multiple(bits_val(whole), s as int);
                assert(bits_val(bits@) == v / (s as int));
                assert((16 - goal.1) as nat == k);
            } else {
                assert(goal == (at as int, 17int));
                assert(bits_val(bits@) == 2 * bits_val(whole));
                assert(bits_val(whole) * 1 == bits_val(whole)) by (nonlinear_arith);
            }
            assert(e.d + goal.1 == bits@.len());
            assert(high == e.low % 65536 + e.size);
            let n = goal.1;
            let value = if n <= 16 {
                v / (pow2((16 - n) as nat) as int)
            } else {
                2 * v
            };
            assert(value == bits_val(bits@));
            assert(finished(e) == packed(bits@));
        }
        let out: Vec<u8> = pack(&bits);
        proof {
            lemma_stream_prefix(out@, bits@, (15 + d) as int);
        }
        out
    }
}

} // verus!
