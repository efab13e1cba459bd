//! Bit streams that interleave single bits, taken most significant first from
//! bytes opened on demand, with whole bytes, and the backtrack bit that rides
//! in bit 0 of the last whole byte.
use vstd::prelude::*;
use vstd::std_specs::bits::*;

verus! {

// ---------------------------------------------------------------------------
// The stream as mathematics
// ---------------------------------------------------------------------------
/// A place in a stream: the next byte to take, the byte that bits come from,
/// how many of its bits are left, and whether the next bit is the backtrack
/// bit.
pub struct BitPos {
    pub pos: int,
    pub bpos: int,
    pub left: int,
    pub bt: bool,
}

/// The place before anything was taken.
pub open spec fn bit_start() -> BitPos {
    BitPos { pos: 0, bpos: 0, left: 0, bt: false }
}

/// One byte further; a place never runs past the largest index.
pub open spec fn bump(p: int) -> int {
    if p < usize::MAX {
        p + 1
    } else {
        p
    }
}

/// The byte at index `i`; zero outside the string.
pub open spec fn byte_at(data: Seq<u8>, i: int) -> u8 {
    if 0 <= i < data.len() {
        data[i]
    } else {
        0
    }
}

/// Bit `k` of `b`, counted from the least significant.
pub open spec fn bit_of(b: u8, k: int) -> bool {
    (b >> (k as u8)) & 1u8 == 1u8
}

pub open spec fn get_byte(data: Seq<u8>, s: BitPos) -> (u8, BitPos) {
    (byte_at(data, s.pos), BitPos { pos: bump(s.pos), ..s })
}

pub open spec fn get_bit(data: Seq<u8>, s: BitPos) -> (bool, BitPos) {
    if s.bt {
        (bit_of(byte_at(data, s.pos - 1), 0), BitPos { bt: false, ..s })
    } else if s.left == 0 {
        (bit_of(byte_at(data, s.pos), 7), BitPos { pos: bump(s.pos), bpos: s.pos, left: 7, bt: false })
    } else {
        (bit_of(byte_at(data, s.bpos), s.left - 1), BitPos { left: s.left - 1, ..s })
    }
}

pub open spec fn bit_u32(b: bool) -> u32 {
    if b {
        1
    } else {
        0
    }
}

/// Interlaced Elias gamma with `acc` read so far: a control bit `cont` is
/// followed by one data bit, inverted with `inv`; the other control bit stops.
pub open spec fn get_gamma_from(
    data: Seq<u8>,
    s: BitPos,
    cont: bool,
    inv: bool,
    acc: u32,
    fuel: nat,
) -> Option<(u32, BitPos)>
    decreases fuel,
{
    if fuel == 0 {
        None
    } else {
        let (c, s1) = get_bit(data, s);
        if c != cont {
            Some((acc, s1))
        } else {
            let (d, s2) = get_bit(data, s1);
            get_gamma_from(
                data,
                s2,
                cont,
                inv,
                (acc << 1u32) | bit_u32(d != inv),
                (fuel - 1) as nat,
            )
        }
    }
}

/// More data bits than the stream holds: a gamma code that has not stopped by
/// now never does.
pub open spec fn gamma_fuel(data: Seq<u8>) -> nat {
    8 * data.len() + 40
}

/// The gamma code at `s`; `None` when it never stops.
pub open spec fn get_gamma_as(data: Seq<u8>, s: BitPos, cont: bool, inv: bool) -> Option<
    (u32, BitPos),
> {
    get_gamma_from(data, s, cont, inv, 1, gamma_fuel(data))
}

/// The plain gamma code at `s`: control bit 0 goes on, 1 stops.
pub open spec fn get_gamma(data: Seq<u8>, s: BitPos) -> Option<(u32, BitPos)> {
    get_gamma_as(data, s, false, false)
}

/// The bytes written so far and the place of the next bit.
pub struct BitOut {
    pub bytes: Seq<u8>,
    pub bpos: int,
    pub left: int,
    pub bt: bool,
}

impl BitOut {
    pub open spec fn st(self) -> BitPos {
        BitPos { pos: self.bytes.len() as int, bpos: self.bpos, left: self.left, bt: self.bt }
    }

    /// Unwritten bits are zero.
    pub open spec fn wf(self) -> bool {
        let n = self.bytes.len() as int;
        &&& n <= usize::MAX
        &&& 0 <= self.left <= 7
        &&& self.left > 0 ==> 0 <= self.bpos < n && self.bytes[self.bpos] << ((8 - self.left) as u8)
            == 0u8
        &&& self.bt ==> n > 0 && self.bytes[n - 1] & 1u8 == 0u8 && !(self.left > 0 && self.bpos == n
            - 1)
    }

    /// Bits written, counting a whole byte as eight.
    pub open spec fn nbits(self) -> int {
        8 * self.bytes.len() - self.left - if self.bt {
            1int
        } else {
            0int
        }
    }
}

pub open spec fn put_byte(w: BitOut, b: u8) -> BitOut {
    BitOut { bytes: w.bytes.push(b), ..w }
}

pub open spec fn put_bit(w: BitOut, v: bool) -> BitOut {
    if w.bt {
        let last = w.bytes.len() - 1;
        BitOut {
            bytes: if v {
                w.bytes.update(last, w.bytes[last] | 1u8)
            } else {
                w.bytes
            },
            bt: false,
            ..w
        }
    } else if w.left == 0 {
        BitOut {
            bytes: w.bytes.push(
                if v {
                    0x80u8
                } else {
                    0u8
                },
            ),
            bpos: w.bytes.len() as int,
            left: 7,
            bt: false,
        }
    } else {
        BitOut {
            bytes: if v {
                w.bytes.update(w.bpos, w.bytes[w.bpos] | (1u8 << ((w.left - 1) as u8)))
            } else {
                w.bytes
            },
            left: w.left - 1,
            ..w
        }
    }
}

/// `data` begins with what `w` has written: bytes that are complete are equal,
/// and of the bytes still open the written bits are.
pub open spec fn agrees(w: BitOut, data: Seq<u8>) -> bool {
    let n = w.bytes.len() as int;
    &&& n <= data.len()
    &&& forall|i: int|
        0 <= i < n && !(w.left > 0 && i == w.bpos) && !(w.bt && i == n - 1) ==> #[trigger] data[i]
            == w.bytes[i]
    &&& w.left > 0 ==> data[w.bpos] >> (w.left as u8) == w.bytes[w.bpos] >> (w.left as u8)
    &&& w.bt ==> data[n - 1] >> 1u8 == w.bytes[n - 1] >> 1u8
}

proof fn lemma_set_bit(b: u8, l: u8, d: u8)
    by (bit_vector)
    requires
        l <= 6,
        b << ((7 - l) as u8) == 0u8,
    ensures
        d >> l == (b | (1u8 << l)) >> l ==> d >> ((l + 1) as u8) == b >> ((l + 1) as u8) && (d >> l)
            & 1u8 == 1u8,
        d >> l == b >> l ==> d >> ((l + 1) as u8) == b >> ((l + 1) as u8) && (d >> l) & 1u8 == 0u8,
        l > 0 ==> (b | (1u8 << l)) << ((8 - l) as u8) == 0u8 && b << ((8 - l) as u8) == 0u8,
        l == 0 ==> (d >> l == d && b >> l == b && (b | (1u8 << l)) >> l == b | (1u8 << l)),
{
}

proof fn lemma_top_bit(d: u8)
    by (bit_vector)
    ensures
        d >> 7u8 == 0x80u8 >> 7u8 ==> (d >> 7u8) & 1u8 == 1u8,
        d >> 7u8 == 0u8 >> 7u8 ==> (d >> 7u8) & 1u8 == 0u8,
        0x80u8 << 1u8 == 0u8,
        0u8 << 1u8 == 0u8,
{
}

proof fn lemma_low_bit(b: u8, d: u8)
    by (bit_vector)
    requires
        b & 1u8 == 0u8,
    ensures
        d == b | 1u8 ==> d >> 1u8 == b >> 1u8 && (d >> 0u8) & 1u8 == 1u8,
        d == b ==> (d >> 0u8) & 1u8 == 0u8,
{
}

/// A stream that holds a written byte gives it back.
pub proof fn lemma_put_byte(w: BitOut, b: u8)
    requires
        w.wf(),
        !w.bt,
        w.bytes.len() < usize::MAX,
    ensures
        put_byte(w, b).wf(),
        forall|data: Seq<u8>| #[trigger]
            agrees(put_byte(w, b), data) ==> agrees(w, data) && get_byte(data, w.st()) == (
                b,
                put_byte(w, b).st(),
            ),
{
    let w2 = put_byte(w, b);
    let n = w.bytes.len() as int;
    assert forall|data: Seq<u8>| #[trigger] agrees(w2, data) implies agrees(w, data) && get_byte(
        data,
        w.st(),
    ) == (b, w2.st()) by {
        assert(data[n] == w2.bytes[n]);
        assert forall|i: int| 0 <= i < n && !(w.left > 0 && i == w.bpos) && !(w.bt && i == n - 1) implies
            #[trigger] data[i] == w.bytes[i] by {
            assert(w2.bytes[i] == w.bytes[i]);
        }
    }
}

/// A stream that holds a written bit gives it back.
pub proof fn lemma_put_bit(w: BitOut, v: bool)
    requires
        w.wf(),
        w.bytes.len() < usize::MAX,
    ensures
        put_bit(w, v).wf(),
        put_bit(w, v).nbits() == w.nbits() + 1,
        forall|data: Seq<u8>| #[trigger]
            agrees(put_bit(w, v), data) ==> agrees(w, data) && get_bit(data, w.st()) == (
                v,
                put_bit(w, v).st(),
            ),
{
    let w2 = put_bit(w, v);
    let n = w.bytes.len() as int;
    if w.bt {
        let b = w.bytes[n - 1];
        lemma_low_bit(b, b);
        lemma_low_bit(b, b | 1u8);
    } else if w.left == 0 {
        lemma_top_bit(0);
    } else {
        lemma_set_bit(w.bytes[w.bpos], (w.left - 1) as u8, 0);
    }
    assert forall|data: Seq<u8>| #[trigger] agrees(w2, data) implies agrees(w, data) && get_bit(
        data,
        w.st(),
    ) == (v, w2.st()) by {
        if w.bt {
            lemma_low_bit(w.bytes[n - 1], data[n - 1]);
            assert(data[n - 1] == w2.bytes[n - 1]);
            assert forall|i: int| 0 <= i < n && !(w.left > 0 && i == w.bpos) && !(w.bt && i == n
                - 1) implies #[trigger] data[i] == w.bytes[i] by {
                assert(w2.bytes[i] == w.bytes[i]);
            }
        } else if w.left == 0 {
            lemma_top_bit(data[n]);
            assert forall|i: int| 0 <= i < n implies #[trigger] data[i] == w.bytes[i] by {
                assert(w2.bytes[i] == w.bytes[i]);
            }
        } else {
            let l = (w.left - 1) as u8;
            if l == 0 {
                lemma_set_bit(w.bytes[w.bpos], l, data[w.bpos]);
                assert(data[w.bpos] == w2.bytes[w.bpos]);
            }
            lemma_set_bit(w.bytes[w.bpos], l, data[w.bpos]);
            assert forall|i: int| 0 <= i < n && i != w.bpos implies #[trigger] data[i]
                == w.bytes[i] by {
                assert(w2.bytes[i] == w.bytes[i]);
            }
        }
    }
}

/// A byte written and marked for backtracking.
pub open spec fn put_byte_bt(w: BitOut, b: u8) -> BitOut {
    BitOut { bytes: w.bytes.push(b), bpos: w.bpos, left: w.left, bt: true }
}

/// The rest of a gamma code, `i` bits below the leading one being left.
pub open spec fn put_gamma_from(w: BitOut, value: u32, i: int, cont: bool, inv: bool) -> BitOut
    decreases i,
{
    if i <= 0 {
        put_bit(w, !cont)
    } else {
        put_gamma_from(
            put_bit(put_bit(w, cont), ((value >> ((i - 1) as u32)) & 1 == 1) != inv),
            value,
            i - 1,
            cont,
            inv,
        )
    }
}

/// A gamma code, with control bit `cont` in front of a data bit, and data bits
/// inverted with `inv`.
pub open spec fn put_gamma(w: BitOut, value: u32, cont: bool, inv: bool) -> BitOut {
    put_gamma_from(w, value, floor_log2(value as nat) as int, cont, inv)
}

/// A byte marked for backtracking gives back all but its lowest bit.
pub proof fn lemma_put_byte_bt(w: BitOut, b: u8)
    requires
        w.wf(),
        !w.bt,
        w.bytes.len() < usize::MAX,
    ensures
        forall|data: Seq<u8>| #[trigger]
            agrees(put_byte_bt(w, b), data) ==> agrees(w, data) && get_byte(
                data,
                w.st(),
            ).1 == put_byte(w, b).st() && get_byte(data, w.st()).0 >> 1u8 == b >> 1u8,
{
    let w2 = put_byte_bt(w, b);
    let n = w.bytes.len() as int;
    assert forall|data: Seq<u8>| #[trigger] agrees(w2, data) implies agrees(w, data) && get_byte(
        data,
        w.st(),
    ).1 == put_byte(w, b).st() && get_byte(data, w.st()).0 >> 1u8 == b >> 1u8 by {
        assert(w2.bytes[n] == b);
        assert forall|i: int| 0 <= i < n && !(w.left > 0 && i == w.bpos) implies #[trigger] data[i]
            == w.bytes[i] by {
            assert(w2.bytes[i] == w.bytes[i]);
        }
    }
}

/// Position of the leading one bit.
pub open spec fn floor_log2(v: nat) -> nat
    decreases v,
{
    if v <= 1 {
        0
    } else {
        1 + floor_log2(v / 2)
    }
}

/// Bits of the interlaced Elias gamma code of `v`.
pub open spec fn gamma_len(v: nat) -> nat {
    1 + 2 * floor_log2(v)
}

proof fn lemma_shift_one(v: u32, k: u32)
    requires
        k <= 31,
        v >> k == 1u32,
    ensures
        floor_log2(v as nat) == k,
    decreases k,
{
    if k == 0 {
        assert(v >> 0u32 == v) by (bit_vector);
    } else {
        assert((v / 2) >> ((k - 1) as u32) == v >> k && v >= 2) by (bit_vector)
            requires
                1 <= k <= 31,
                v >> k == 1u32,
        ;
        lemma_shift_one(v / 2, (k - 1) as u32);
    }
}

/// The leading one bit, counted from the other end.
pub proof fn lemma_floor_log2_lz(v: u32)
    requires
        v >= 1,
    ensures
        floor_log2(v as nat) == 31 - u32_leading_zeros(v),
        floor_log2(v as nat) <= 31,
        v >> (floor_log2(v as nat) as u32) == 1u32,
{
    axiom_u32_leading_zeros(v);
    let z = u32_leading_zeros(v);
    let k = (31 - z) as u32;
    let k1 = (32 - z) as u32;
    assert((v >> k) & 1u32 != 0u32);
    assert(v >> k1 == 0);
    assert(v >> k == 1u32) by (bit_vector)
        requires
            k <= 31,
            k1 == k + 1,
            (v >> k) & 1u32 != 0u32,
            v >> k1 == 0,
    ;
    lemma_shift_one(v, k);
}

pub proof fn lemma_gamma_monotone(v: nat, w: nat)
    requires
        v <= w,
    ensures
        floor_log2(v) <= floor_log2(w),
    decreases w,
{
    if w > 1 && v > 1 {
        lemma_gamma_monotone(v / 2, w / 2);
    }
}

proof fn lemma_gamma_step(v: u32, i: u32)
    by (bit_vector)
    requires
        i < 31,
    ensures
        ((v >> ((i + 1) as u32)) << 1u32) | ((v >> i) & 1u32) == v >> i,
        ((v >> i) & 1u32) == 0u32 || ((v >> i) & 1u32) == 1u32,
        v >> 0u32 == v,
{
}

// ---------------------------------------------------------------------------
// Writer
// ---------------------------------------------------------------------------
/// Bit writer: bits most significant first, whole bytes in between. The next
/// bit after `set_backtrack` goes to bit 0 of the byte written last.
pub struct BitWriter {
    bytes: Vec<u8>,
    left: u8,
    bit_index: usize,
    backtrack: bool,
}

impl View for BitWriter {
    type V = BitOut;

    closed spec fn view(&self) -> BitOut {
        BitOut {
            bytes: self.bytes@,
            bpos: self.bit_index as int,
            left: self.left as int,
            bt: self.backtrack,
        }
    }
}

impl BitWriter {
    pub fn new() -> (w: Self)
        ensures
            w@ == (BitOut { bytes: Seq::<u8>::empty(), bpos: 0, left: 0, bt: false }),
            w@.wf(),
            w@.nbits() == 0,
            w@.st() == bit_start(),
    {
        BitWriter { bytes: Vec::new(), left: 0, bit_index: 0, backtrack: false }
    }

    /// Appends a whole byte.
    pub fn write_byte(&mut self, v: u8)
        requires
            old(self)@.wf(),
            !old(self)@.bt,
        ensures
            final(self)@ == put_byte(old(self)@, v),
            final(self)@.wf(),
            final(self)@.nbits() == old(self)@.nbits() + 8,
            forall|data: Seq<u8>| #[trigger]
                agrees(final(self)@, data) ==> agrees(old(self)@, data) && get_byte(
                    data,
                    old(self)@.st(),
                ) == (v, final(self)@.st()),
    {
        self.bytes.push(v);
        assert(self.bytes.len() <= usize::MAX);
        assert(self@ == put_byte(old(self)@, v));
        proof {
            lemma_put_byte(old(self)@, v);
        }
    }

    /// Sends the next bit to bit 0 of the byte written last, which must be
    /// even and not the byte that bits go to.
    pub fn set_backtrack(&mut self)
        requires
            old(self)@.wf(),
            !old(self)@.bt,
            old(self)@.bytes.len() > 0,
            old(self)@.bytes[old(self)@.bytes.len() - 1] & 1u8 == 0u8,
            !(old(self)@.left > 0 && old(self)@.bpos == old(self)@.bytes.len() - 1),
        ensures
            final(self)@ == (BitOut { bt: true, ..old(self)@ }),
            final(self)@.wf(),
            final(self)@.nbits() == old(self)@.nbits() - 1,
    {
        self.backtrack = true;
    }

    /// Writes one bit: 1 when `value` is not zero.
    pub fn write_bit(&mut self, value: u32)
        requires
            old(self)@.wf(),
        ensures
            final(self)@ == put_bit(old(self)@, value != 0),
            final(self)@.wf(),
            final(self)@.nbits() == old(self)@.nbits() + 1,
            !final(self)@.bt,
            forall|data: Seq<u8>| #[trigger]
                agrees(final(self)@, data) ==> agrees(old(self)@, data) && get_bit(
                    data,
                    old(self)@.st(),
                ) == (value != 0, final(self)@.st()),
    {
        let ghost w0 = self@;
        if self.backtrack {
            if value != 0 {
                let last: usize = self.bytes.len() - 1;
                let b: u8 = self.bytes[last];
                self.bytes.set(last, b | 1u8);
            }
            self.backtrack = false;
        } else {
            if self.left == 0 {
                self.left = 8;
                self.bit_index = self.bytes.len();
                self.bytes.push(0);
            }
            self.left = self.left - 1;
            if value != 0 {
                let b: u8 = self.bytes[self.bit_index];
                self.bytes.set(self.bit_index, b | (1u8 << self.left));
            }
            assert(0u8 | (1u8 << 7u8) == 0x80u8) by (bit_vector);
        }
        assert(self.bytes.len() <= usize::MAX);
        assert(self@.bytes =~= put_bit(w0, value != 0).bytes);
        proof {
            if w0.bytes.len() == usize::MAX {
                lemma_put_bit_full(w0, value != 0);
            } else {
                lemma_put_bit(w0, value != 0);
            }
        }
    }

    /// Writes the interlaced Elias gamma code of `value`: the bits below the
    /// leading one, each behind a control bit 0, then a control bit 1.
    pub fn write_gamma(&mut self, value: u32)
        requires
            old(self)@.wf(),
            value >= 1,
        ensures
            final(self)@.wf(),
            !final(self)@.bt,
            final(self)@.nbits() == old(self)@.nbits() + gamma_len(value as nat),
            final(self)@ == put_gamma(old(self)@, value, false, false),
            forall|data: Seq<u8>| #[trigger]
                agrees(final(self)@, data) ==> agrees(old(self)@, data) && get_gamma(
                    data,
                    old(self)@.st(),
                ) == Some((value, final(self)@.st())),
    {
        self.write_gamma_as(value, false, false);
    }

    /// The same with control bit `cont` in front of a data bit, and data bits
    /// inverted with `inv`.
    pub fn write_gamma_as(&mut self, value: u32, cont: bool, inv: bool)
        requires
            old(self)@.wf(),
            value >= 1,
        ensures
            final(self)@.wf(),
            !final(self)@.bt,
            final(self)@.nbits() == old(self)@.nbits() + gamma_len(value as nat),
            final(self)@ == put_gamma(old(self)@, value, cont, inv),
            forall|data: Seq<u8>| #[trigger]
                agrees(final(self)@, data) ==> agrees(old(self)@, data) && get_gamma_as(
                    data,
                    old(self)@.st(),
                    cont,
                    inv,
                ) == Some((value, final(self)@.st())),
    {
        let ghost w0 = self@;
        let k: u32 = 31 - value.leading_zeros();
        let mut i: u32 = k;
        proof {
            lemma_floor_log2_lz(value);
            lemma_gamma_step(value, 0);
        }
        while i > 0
            invariant
                i <= k <= 31,
                self@.wf(),
                k == floor_log2(value as nat),
                i < k ==> !self@.bt,
                i == k ==> self@ == w0,
                self@.nbits() == w0.nbits() + 2 * (k - i),
                put_gamma(w0, value, cont, inv) == put_gamma_from(
                    self@,
                    value,
                    i as int,
                    cont,
                    inv,
                ),
                forall|data: Seq<u8>, f: nat|
                    #![trigger agrees(self@, data), get_gamma_from(data, w0.st(), cont, inv, 1, (f + (k - i)) as nat)]
                    agrees(self@, data) ==> agrees(w0, data) && get_gamma_from(
                        data,
                        w0.st(),
                        cont,
                        inv,
                        1,
                        (f + (k - i)) as nat,
                    ) == get_gamma_from(data, self@.st(), cont, inv, value >> i, f),
            decreases i,
        {
            let ghost wa = self@;
            let ghost i0 = i;
            i = i - 1;
            proof {
                lemma_gamma_step(value, i);
            }
            self.write_bit(
                if cont {
                    1
                } else {
                    0
                },
            );
            let ghost wb = self@;
            let bit: bool = (value >> i) & 1 == 1;
            self.write_bit(
                if bit != inv {
                    1
                } else {
                    0
                },
            );
            assert forall|data: Seq<u8>, f: nat|
                #![trigger agrees(self@, data), get_gamma_from(data, w0.st(), cont, inv, 1, (f + (k - i)) as nat)]
                agrees(self@, data) implies agrees(w0, data) && get_gamma_from(
                data,
                w0.st(),
                cont,
                inv,
                1,
                (f + (k - i)) as nat,
            ) == get_gamma_from(data, self@.st(), cont, inv, value >> i, f) by {
                assert(agrees(wb, data));
                assert(agrees(wa, data));
                let g = (f + 1) as nat;
                assert((g + (k - i0)) as nat == (f + (k - i)) as nat);
                assert(get_gamma_from(data, w0.st(), cont, inv, 1, (g + (k - i0)) as nat)
                    == get_gamma_from(data, wa.st(), cont, inv, value >> i0, g));
                assert(get_gamma_from(data, wa.st(), cont, inv, value >> i0, g) == get_gamma_from(
                    data,
                    self@.st(),
                    cont,
                    inv,
                    value >> i,
                    f,
                ));
            }
        }
        let ghost wa = self@;
        self.write_bit(
            if cont {
                0
            } else {
                1
            },
        );
        assert forall|data: Seq<u8>| #[trigger] agrees(self@, data) implies agrees(w0, data)
            && get_gamma_as(data, w0.st(), cont, inv) == Some((value, self@.st())) by {
            assert(agrees(wa, data));
            let f = (gamma_fuel(data) - k) as nat;
            assert((f + (k - i)) as nat == gamma_fuel(data));
            assert(get_gamma_from(data, w0.st(), cont, inv, 1, (f + (k - i)) as nat)
                == get_gamma_from(data, wa.st(), cont, inv, value >> i, f));
        }
    }

    /// The bytes written; unwritten bits of the last one are zero.
    pub fn finish(self) -> (out: Vec<u8>)
        requires
            self@.wf(),
            !self@.bt,
        ensures
            out@ == self@.bytes,
            agrees(self@, out@),
            8 * out@.len() == self@.nbits() + self@.left,
            0 <= self@.left <= 7,
    {
        self.bytes
    }

    pub fn len_bytes(&self) -> (n: usize)
        ensures
            n == self@.bytes.len(),
    {
        self.bytes.len()
    }

    /// Bits of the byte that bits go to that are still free.
    pub fn bits_open(&self) -> (n: u8)
        ensures
            n == self@.left,
    {
        self.left
    }
}

/// At the largest length a bit still fits where no byte has to be opened.
proof fn lemma_put_bit_full(w: BitOut, v: bool)
    requires
        w.wf(),
        put_bit(w, v).bytes.len() <= usize::MAX,
        w.bytes.len() == usize::MAX,
    ensures
        put_bit(w, v).wf(),
        put_bit(w, v).nbits() == w.nbits() + 1,
        forall|data: Seq<u8>| #[trigger]
            agrees(put_bit(w, v), data) ==> agrees(w, data) && get_bit(data, w.st()) == (
                v,
                put_bit(w, v).st(),
            ),
{
    let w2 = put_bit(w, v);
    let n = w.bytes.len() as int;
    if w.bt {
        let b = w.bytes[n - 1];
        lemma_low_bit(b, b);
        lemma_low_bit(b, b | 1u8);
    } else {
        lemma_set_bit(w.bytes[w.bpos], (w.left - 1) as u8, 0);
    }
    assert forall|data: Seq<u8>| #[trigger] agrees(w2, data) implies agrees(w, data) && get_bit(
        data,
        w.st(),
    ) == (v, w2.st()) by {
        if w.bt {
            lemma_low_bit(w.bytes[n - 1], data[n - 1]);
            assert(data[n - 1] == w2.bytes[n - 1]);
            assert forall|i: int| 0 <= i < n && !(w.left > 0 && i == w.bpos) && !(w.bt && i == n
                - 1) implies #[trigger] data[i] == w.bytes[i] by {
                assert(w2.bytes[i] == w.bytes[i]);
            }
        } else {
            let l = (w.left - 1) as u8;
            lemma_set_bit(w.bytes[w.bpos], l, data[w.bpos]);
            if l == 0 {
                assert(data[w.bpos] == w2.bytes[w.bpos]);
            }
            assert forall|i: int| 0 <= i < n && i != w.bpos implies #[trigger] data[i]
                == w.bytes[i] by {
                assert(w2.bytes[i] == w.bytes[i]);
            }
        }
    }
}

// ---------------------------------------------------------------------------
// Readers
// ---------------------------------------------------------------------------
/// Bit reader over `data`, or over `data` read from its end. Past the end it
/// reads zeros.
pub struct BitReader<'a> {
    data: &'a [u8],
    rev: bool,
    pos: usize,
    bpos: usize,
    left: u8,
    backtrack: bool,
}

impl<'a> BitReader<'a> {
    /// The bytes in the order in which they are read.
    pub closed spec fn source(&self) -> Seq<u8> {
        if self.rev {
            self.data@.reverse()
        } else {
            self.data@
        }
    }

    pub closed spec fn st(&self) -> BitPos {
        BitPos {
            pos: self.pos as int,
            bpos: self.bpos as int,
            left: self.left as int,
            bt: self.backtrack,
        }
    }

    pub closed spec fn wf(&self) -> bool {
        self.left <= 8
    }

    pub fn new(data: &'a [u8]) -> (r: Self)
        ensures
            r.source() == data@,
            r.st() == bit_start(),
            r.wf(),
    {
        BitReader { data, rev: false, pos: 0, bpos: 0, left: 0, backtrack: false }
    }

    /// A reader that takes the bytes from the last to the first.
    pub fn from_end(data: &'a [u8]) -> (r: Self)
        ensures
            r.source() == data@.reverse(),
            r.st() == bit_start(),
            r.wf(),
    {
        BitReader { data, rev: true, pos: 0, bpos: 0, left: 0, backtrack: false }
    }

    fn fetch(&self, i: usize) -> (b: u8)
        ensures
            b == byte_at(self.source(), i as int),
    {
        let n: usize = self.data.len();
        if i < n {
            if self.rev {
                self.data[n - 1 - i]
            } else {
                self.data[i]
            }
        } else {
            0
        }
    }

    /// How many bytes have been taken.
    pub fn position(&self) -> (p: usize)
        ensures
            p == self.st().pos,
    {
        self.pos
    }

    pub fn read_byte(&mut self) -> (b: u8)
        requires
            old(self).wf(),
        ensures
            (b, final(self).st()) == get_byte(old(self).source(), old(self).st()),
            final(self).source() == old(self).source(),
            final(self).wf(),
    {
        let b: u8 = self.fetch(self.pos);
        self.pos = self.pos.saturating_add(1);
        b
    }

    /// Takes the next bit from bit 0 of the byte taken last.
    pub fn set_backtrack(&mut self)
        requires
            old(self).wf(),
        ensures
            final(self).st() == (BitPos { bt: true, ..old(self).st() }),
            final(self).source() == old(self).source(),
            final(self).wf(),
    {
        self.backtrack = true;
    }

    pub fn read_bit(&mut self) -> (b: u32)
        requires
            old(self).wf(),
        ensures
            b == bit_u32(get_bit(old(self).source(), old(self).st()).0),
            final(self).st() == get_bit(old(self).source(), old(self).st()).1,
            final(self).source() == old(self).source(),
            final(self).wf(),
    {
        if self.backtrack {
            self.backtrack = false;
            let b: u8 = if self.pos > 0 {
                self.fetch(self.pos - 1)
            } else {
                0
            };
            return if (b >> 0u8) & 1u8 == 1u8 {
                1
            } else {
                0
            };
        }
        if self.left == 0 {
            self.bpos = self.pos;
            self.pos = self.pos.saturating_add(1);
            self.left = 8;
        }
        self.left = self.left - 1;
        let b: u8 = self.fetch(self.bpos);
        assert(self.left < 8);
        if (b >> self.left) & 1u8 == 1u8 {
            1
        } else {
            0
        }
    }

    /// Reads an interlaced Elias gamma code.
    pub fn read_gamma(&mut self) -> (value: u32)
        requires
            old(self).wf(),
            get_gamma(old(self).source(), old(self).st()) is Some,
        ensures
            get_gamma(old(self).source(), old(self).st()) == Some((value, final(self).st())),
            final(self).source() == old(self).source(),
            final(self).wf(),
    {
        self.read_gamma_as(false, false)
    }

    /// The same with control bit `cont` in front of a data bit, and data bits
    /// inverted with `inv`.
    pub fn read_gamma_as(&mut self, cont: bool, inv: bool) -> (value: u32)
        requires
            old(self).wf(),
            get_gamma_as(old(self).source(), old(self).st(), cont, inv) is Some,
        ensures
            get_gamma_as(old(self).source(), old(self).st(), cont, inv) == Some(
                (value, final(self).st()),
            ),
            final(self).source() == old(self).source(),
            final(self).wf(),
    {
        let ghost data = self.source();
        let ghost target = get_gamma_as(data, self.st(), cont, inv);
        let ghost mut fuel: nat = gamma_fuel(data);
        let mut value: u32 = 1;
        loop
            invariant_except_break
                get_gamma_from(data, self.st(), cont, inv, value, fuel) == target,
            invariant
                self.wf(),
                self.source() == data,
                target is Some,
            ensures
                target == Some((value, self.st())),
            decreases fuel,
        {
            let c: bool = self.read_bit() == 1;
            if c != cont {
                break;
            }
            let d: bool = self.read_bit() == 1;
            value = (value << 1u32) | if d != inv {
                1
            } else {
                0
            };
            proof {
                fuel = (fuel - 1) as nat;
            }
        }
        value
    }
}

/// Bit reader that takes the bytes from the last to the first.
pub struct BackwardBitReader<'a> {
    inner: BitReader<'a>,
}

impl<'a> BackwardBitReader<'a> {
    /// The bytes in the order in which they are read.
    pub closed spec fn source(&self) -> Seq<u8> {
        self.inner.source()
    }

    pub closed spec fn st(&self) -> BitPos {
        self.inner.st()
    }

    pub closed spec fn wf(&self) -> bool {
        self.inner.wf()
    }

    pub fn new(data: &'a [u8]) -> (r: Self)
        ensures
            r.source() == data@.reverse(),
            r.st() == bit_start(),
            r.wf(),
    {
        BackwardBitReader { inner: BitReader::from_end(data) }
    }

    pub fn read_byte(&mut self) -> (b: u8)
        requires
            old(self).wf(),
        ensures
            (b, final(self).st()) == get_byte(old(self).source(), old(self).st()),
            final(self).source() == old(self).source(),
            final(self).wf(),
    {
        self.inner.read_byte()
    }

    pub fn set_backtrack(&mut self)
        requires
            old(self).wf(),
        ensures
            final(self).st() == (BitPos { bt: true, ..old(self).st() }),
            final(self).source() == old(self).source(),
            final(self).wf(),
    {
        self.inner.set_backtrack();
    }

    pub fn read_bit(&mut self) -> (b: u32)
        requires
            old(self).wf(),
        ensures
            b == bit_u32(get_bit(old(self).source(), old(self).st()).0),
            final(self).st() == get_bit(old(self).source(), old(self).st()).1,
            final(self).source() == old(self).source(),
            final(self).wf(),
    {
        self.inner.read_bit()
    }

    pub fn read_gamma(&mut self) -> (value: u32)
        requires
            old(self).wf(),
            get_gamma(old(self).source(), old(self).st()) is Some,
        ensures
            get_gamma(old(self).source(), old(self).st()) == Some((value, final(self).st())),
            final(self).source() == old(self).source(),
            final(self).wf(),
    {
        self.inner.read_gamma()
    }
}

/// Number of bits of the interlaced Elias gamma code of `value`.
pub fn gamma_bits(value: u32) -> (bits: u32)
    requires
        value >= 1,
    ensures
        bits == gamma_len(value as nat),
        1 <= bits <= 63,
{
    proof {
        lemma_floor_log2_lz(value);
    }
    1 + 2 * (31 - value.leading_zeros())
}

} // verus!
