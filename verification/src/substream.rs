//! The Subsizer stream: an end marker, five tables of part widths, and tokens. A
//! number is coded as the part that holds it, then its place within the part;
//! a part of width `w` holds two to the power `w` numbers. Bits are taken most
//! significant first, and whole bytes stand in between.
use crate::bitio::{BitOut, BitPos, BitReader, BitWriter};
use crate::lz::copy_match;
use crate::pustream::two_to;
use vstd::arithmetic::power2::{lemma_pow2_pos, lemma_pow2_unfold, pow2};
use crate::lz;
use crate::bitio;
use vstd::prelude::*;

verus! {

/// Longest match.
pub const MAX_MATCH: u32 = 256;

/// Largest offset.
pub const MAX_OFFS: u32 = 0xffff;

/// The cost of a number that a table does not hold.
pub const ENC_FAULT: u32 = 0x100000;

/// Parts of the tables of lengths and of offsets.
pub const PARTS: usize = 16;

/// Parts of the table of offsets of single bytes.
pub const SINGLE_BYTE_PARTS: usize = 4;

// ---------------------------------------------------------------------------
// Numbers
// ---------------------------------------------------------------------------
/// A table: how a part is selected, and the widths of the parts.
pub struct Code {
    pub unary: bool,
    pub parts: Seq<u8>,
}

pub open spec fn code_wf(c: Code) -> bool {
    &&& c.parts.len() == PARTS || c.parts.len() == SINGLE_BYTE_PARTS
    &&& forall|k: int| 0 <= k < c.parts.len() ==> #[trigger] c.parts[k] <= 15
}

/// The first number of part `i`.
pub open spec fn part_start(parts: Seq<u8>, i: int) -> int
    decreases i,
{
    if i <= 0 {
        1
    } else {
        part_start(parts, i - 1) + pow2(parts[i - 1] as nat)
    }
}

/// The first part from `i` on that does not end before `v`.
pub open spec fn part_from(parts: Seq<u8>, v: int, i: int) -> int
    decreases parts.len() - i,
{
    if i >= parts.len() {
        parts.len() as int
    } else if v < part_start(parts, i + 1) {
        i
    } else {
        part_from(parts, v, i + 1)
    }
}

pub open spec fn code_holds(c: Code, v: int) -> bool {
    1 <= v < part_start(c.parts, c.parts.len() as int)
}

/// Bits that select one of the parts of a binary table.
pub open spec fn select_bits(c: Code) -> nat {
    if c.parts.len() == SINGLE_BYTE_PARTS {
        2
    } else {
        4
    }
}

/// Bits that select part `i`.
pub open spec fn select_cost(c: Code, i: int) -> int {
    if !c.unary {
        select_bits(c) as int
    } else if i == c.parts.len() - 1 {
        i
    } else {
        i + 1
    }
}

/// Bits of `v`.
pub open spec fn code_cost(c: Code, v: int) -> int {
    if code_holds(c, v) {
        let i = part_from(c.parts, v, 0);
        select_cost(c, i) + c.parts[i]
    } else {
        ENC_FAULT as int
    }
}

/// A number of `n` bits, most significant first.
pub open spec fn get_num(data: Seq<u8>, s: BitPos, n: nat) -> (int, BitPos)
    decreases n,
{
    if n == 0 {
        (0, s)
    } else {
        let (hi, s1) = get_num(data, s, (n - 1) as nat);
        let (b, s2) = bitio::get_bit(data, s1);
        (2 * hi + bitio::bit_u32(b), s2)
    }
}

/// A count of zeros, ended by a one or by the count `max`.
pub open spec fn get_zeros(data: Seq<u8>, s: BitPos, n: nat, max: nat) -> (nat, BitPos)
    decreases max - n,
{
    if n >= max {
        (n, s)
    } else {
        let (b, s1) = bitio::get_bit(data, s);
        if b {
            (n, s1)
        } else {
            get_zeros(data, s1, n + 1, max)
        }
    }
}

/// The part that a number is in.
pub open spec fn get_part(data: Seq<u8>, s: BitPos, c: Code) -> (int, BitPos) {
    if c.unary {
        let (i, s1) = get_zeros(data, s, 0, (c.parts.len() - 1) as nat);
        (i as int, s1)
    } else {
        get_num(data, s, select_bits(c))
    }
}

pub open spec fn get_code(data: Seq<u8>, s: BitPos, c: Code) -> (int, BitPos) {
    let (i, s1) = get_part(data, s, c);
    let (r, s2) = get_num(data, s1, c.parts[i] as nat);
    (part_start(c.parts, i) + r, s2)
}

/// `n` widths of four bits.
pub open spec fn get_parts(data: Seq<u8>, s: BitPos, n: nat) -> (Seq<u8>, BitPos)
    decreases n,
{
    if n == 0 {
        (Seq::empty(), s)
    } else {
        let (p, s1) = get_parts(data, s, (n - 1) as nat);
        let (v, s2) = get_num(data, s1, 4);
        (p.push(v as u8), s2)
    }
}

// ---------------------------------------------------------------------------
// What a stream decodes to
// ---------------------------------------------------------------------------
/// The end marker and the tables: of lengths, of the offsets of one, two and
/// three bytes, and of the offsets of more.
pub struct Tables {
    pub endm: int,
    pub lens: Code,
    pub offs1: Code,
    pub offs2: Code,
    pub offs3: Code,
    pub offs: Code,
}

pub open spec fn offs_code(t: Tables, len: int) -> Code {
    if len == 1 {
        t.offs1
    } else if len == 2 {
        t.offs2
    } else if len == 3 {
        t.offs3
    } else {
        t.offs
    }
}

pub open spec fn tables_wf(t: Tables) -> bool {
    &&& code_wf(t.lens) && t.lens.unary && t.lens.parts.len() == PARTS
    &&& code_wf(t.offs1) && !t.offs1.unary && t.offs1.parts.len() == SINGLE_BYTE_PARTS
    &&& code_wf(t.offs2) && !t.offs2.unary && t.offs2.parts.len() == PARTS
    &&& code_wf(t.offs3) && !t.offs3.unary && t.offs3.parts.len() == PARTS
    &&& code_wf(t.offs) && !t.offs.unary && t.offs.parts.len() == PARTS
}

pub open spec fn get_tables(data: Seq<u8>, s: BitPos) -> (Tables, BitPos) {
    let (endm, s0) = bitio::get_byte(data, s);
    let (l, s1) = get_parts(data, s0, PARTS as nat);
    let (p2, s2) = get_parts(data, s1, PARTS as nat);
    let (p3, s3) = get_parts(data, s2, PARTS as nat);
    let (p, s4) = get_parts(data, s3, PARTS as nat);
    let (p1, s5) = get_parts(data, s4, SINGLE_BYTE_PARTS as nat);
    (
        Tables {
            endm: endm as int,
            lens: Code { unary: true, parts: l },
            offs1: Code { unary: false, parts: p1 },
            offs2: Code { unary: false, parts: p2 },
            offs3: Code { unary: false, parts: p3 },
            offs: Code { unary: false, parts: p },
        },
        s5,
    )
}

/// The state of a decoder; `gap` is the largest lead of the output over the
/// bytes taken.
pub struct SubState {
    pub s: BitPos,
    pub out: Seq<u8>,
    pub gap: int,
}

pub enum SubStep {
    Stop(Seq<u8>, int),
    /// The output would be longer than an index can say.
    TooLong,
    Next(SubState),
}

/// One token. A match that reaches back before the output stops like the end
/// marker.
pub open spec fn sub_step(data: Seq<u8>, t: Tables, d: SubState) -> SubStep {
    let lead = d.out.len() - d.s.pos;
    let gap = if lead > d.gap {
        lead
    } else {
        d.gap
    };
    let (lit, s1) = bitio::get_bit(data, d.s);
    if lit {
        let (b, s2) = bitio::get_byte(data, s1);
        SubStep::Next(SubState { s: s2, out: d.out.push(b), gap })
    } else {
        let (len, s2) = get_code(data, s1, t.lens);
        if len == t.endm {
            SubStep::Stop(d.out, gap)
        } else {
            let (offs, s3) = get_code(data, s2, offs_code(t, len));
            if offs > d.out.len() {
                SubStep::Stop(d.out, gap)
            } else if d.out.len() + len > usize::MAX {
                SubStep::TooLong
            } else {
                SubStep::Next(SubState { s: s3, out: lz::lz_copy(d.out, offs, len as nat), gap })
            }
        }
    }
}

pub open spec fn sub_run(data: Seq<u8>, t: Tables, d: SubState, fuel: nat) -> Option<(Seq<u8>, int)>
    decreases fuel,
{
    if fuel == 0 {
        None
    } else {
        match sub_step(data, t, d) {
            SubStep::Stop(o, g) => Some((o, g)),
            SubStep::TooLong => None,
            SubStep::Next(e) => sub_run(data, t, e, (fuel - 1) as nat),
        }
    }
}

/// More tokens than the stream has bits: tokens beyond its end are all alike,
/// and where the first of them does not stop, none does.
pub open spec fn sub_fuel(data: Seq<u8>) -> nat {
    8 * data.len() + 2
}

/// The output of the stream that starts at `s`, and its largest lead over the
/// bytes taken; `None` for a stream that never ends.
pub open spec fn sub_decoded(data: Seq<u8>, s: BitPos) -> Option<(Seq<u8>, int)> {
    let (t, s1) = get_tables(data, s);
    sub_run(data, t, SubState { s: s1, out: Seq::empty(), gap: 0 }, sub_fuel(data))
}

/// In-place gap of a stream of `n` bytes: how far the output may run ahead of
/// the bytes taken, against where both end.
pub open spec fn sub_gap(r: (Seq<u8>, int), n: int) -> int {
    let gap = r.1 - (r.0.len() - n);
    if gap > 0 {
        gap
    } else {
        0
    }
}

// ---------------------------------------------------------------------------
// Laws of the tables
// ---------------------------------------------------------------------------
proof fn lemma_width(w: u8)
    requires
        w <= 15,
    ensures
        1 <= pow2(w as nat) <= 32768,
{
    lemma_pow2_pos(w as nat);
    vstd::arithmetic::power2::lemma2_to64();
    if w < 15 {
        vstd::arithmetic::power2::lemma_pow2_strictly_increases(w as nat, 15);
    }
}

/// Parts follow each other, none empty and none longer than 32768.
pub proof fn lemma_part_start(parts: Seq<u8>, i: int, j: int)
    requires
        0 <= i <= j <= parts.len(),
        forall|k: int| 0 <= k < parts.len() ==> #[trigger] parts[k] <= 15,
    ensures
        part_start(parts, i) + (j - i) <= part_start(parts, j) <= part_start(parts, i) + 32768 * (j
            - i),
    decreases j - i,
{
    if i < j {
        lemma_part_start(parts, i, j - 1);
        lemma_width(parts[j - 1]);
    }
}

/// The part that is found holds the number.
pub proof fn lemma_part_from(parts: Seq<u8>, v: int, i: int)
    requires
        0 <= i <= parts.len(),
        part_start(parts, i) <= v,
    ensures
        i <= part_from(parts, v, i) <= parts.len(),
        part_from(parts, v, i) < parts.len() ==> part_start(parts, part_from(parts, v, i)) <= v
            < part_start(parts, part_from(parts, v, i) + 1),
        part_from(parts, v, i) == parts.len() ==> part_start(parts, parts.len() as int) <= v,
    decreases parts.len() - i,
{
    if i < parts.len() && v >= part_start(parts, i + 1) {
        lemma_part_from(parts, v, i + 1);
    }
}

proof fn lemma_holds_part(c: Code, v: int)
    requires
        code_holds(c, v),
    ensures
        0 <= part_from(c.parts, v, 0) < c.parts.len(),
        part_start(c.parts, part_from(c.parts, v, 0)) <= v < part_start(
            c.parts,
            part_from(c.parts, v, 0),
        ) + pow2(c.parts[part_from(c.parts, v, 0)] as nat),
{
    lemma_part_from(c.parts, v, 0);
}

/// A number that a table holds costs at most 30 bits.
pub proof fn lemma_code_cost(c: Code, v: int)
    requires
        code_wf(c),
    ensures
        0 <= code_cost(c, v) <= ENC_FAULT,
        code_holds(c, v) <==> code_cost(c, v) < ENC_FAULT,
        code_holds(c, v) ==> code_cost(c, v) <= 31,
{
    if code_holds(c, v) {
        lemma_holds_part(c, v);
    }
}

// ---------------------------------------------------------------------------
// Tables
// ---------------------------------------------------------------------------
/// A table of part widths.
pub struct Encoding {
    pub unary: bool,
    pub parts: Vec<u8>,
}

impl View for Encoding {
    type V = Code;

    open spec fn view(&self) -> Code {
        Code { unary: self.unary, parts: self.parts@ }
    }
}

impl Encoding {
    /// A table of `n` parts of one number each.
    pub fn zeroed(n: usize, unary: bool) -> (e: Encoding)
        requires
            n == PARTS || n == SINGLE_BYTE_PARTS,
        ensures
            e@.unary == unary,
            e@.parts == Seq::new(n as nat, |k: int| 0u8),
            code_wf(e@),
    {
        let mut parts: Vec<u8> = Vec::new();
        let mut i: usize = 0;
        while i < n
            invariant
                i <= n,
                parts@.len() == i,
                forall|k: int| 0 <= k < i ==> parts@[k] == 0,
            decreases n - i,
        {
            parts.push(0);
            i += 1;
        }
        assert(parts@ =~= Seq::new(n as nat, |k: int| 0u8));
        Encoding { unary, parts }
    }

    /// The same table once more.
    pub fn copied(&self) -> (e: Encoding)
        ensures
            e@ == self@,
    {
        let n: usize = self.parts.len();
        let mut parts: Vec<u8> = Vec::new();
        let mut i: usize = 0;
        while i < n
            invariant
                n == self.parts@.len(),
                i <= n,
                parts@ == self.parts@.take(i as int),
            decreases n - i,
        {
            parts.push(self.parts[i]);
            i += 1;
            assert(parts@ =~= self.parts@.take(i as int));
        }
        assert(parts@ =~= self.parts@);
        Encoding { unary: self.unary, parts }
    }

    pub fn same(&self, o: &Encoding) -> (r: bool)
        ensures
            r == (self@ == o@),
    {
        let n: usize = self.parts.len();
        if self.unary != o.unary || n != o.parts.len() {
            return false;
        }
        let mut i: usize = 0;
        while i < n
            invariant
                n == self.parts@.len(),
                n == o.parts@.len(),
                i <= n,
                forall|k: int| 0 <= k < i ==> self.parts@[k] == o.parts@[k],
            decreases n - i,
        {
            if self.parts[i] != o.parts[i] {
                return false;
            }
            i += 1;
        }
        assert(self.parts@ =~= o.parts@);
        true
    }
}

/// The part of `enc` that holds `v`, with its first number.
fn find_part(enc: &Encoding, v: u32) -> (r: Option<(usize, u32)>)
    requires
        code_wf(enc@),
        v >= 1,
    ensures
        match r {
            Some((i, start)) => code_holds(enc@, v as int) && i == part_from(
                enc@.parts,
                v as int,
                0,
            ) && i < enc@.parts.len() && start == part_start(enc@.parts, i as int) && start <= v,
            None => !code_holds(enc@, v as int),
        },
{
    let n: usize = enc.parts.len();
    let ghost parts = enc@.parts;
    let mut i: usize = 0;
    let mut base: u32 = 1;
    while i < n
        invariant
            n == parts.len(),
            parts == enc.parts@,
            n <= 16,
            i <= n,
            forall|k: int| 0 <= k < parts.len() ==> #[trigger] parts[k] <= 15,
            base == part_start(parts, i as int),
            1 <= base <= v,
            base <= 1 + 32768 * i,
            part_from(parts, v as int, 0) == part_from(parts, v as int, i as int),
            enc@.parts == parts,
        decreases n - i,
    {
        let w: u8 = enc.parts[i];
        proof {
            lemma_width(w);
            lemma_part_start(parts, i + 1, n as int);
        }
        let size: u32 = two_to(w as u32);
        assert(part_start(parts, i + 1) == base + size);
        if v < base + size {
            assert(code_holds(enc@, v as int));
            return Some((i, base));
        }
        base = base + size;
        i += 1;
    }
    None
}

/// The bits of `v`, or the fault cost.
pub fn cost_enc(enc: &Encoding, v: u32) -> (bits: u32)
    requires
        code_wf(enc@),
        v >= 1,
    ensures
        bits == code_cost(enc@, v as int),
        bits <= ENC_FAULT,
{
    proof {
        lemma_code_cost(enc@, v as int);
    }
    let n: usize = enc.parts.len();
    match find_part(enc, v) {
        None => ENC_FAULT,
        Some((i, _)) => {
            let select: u32 = if !enc.unary {
                if n == SINGLE_BYTE_PARTS {
                    2
                } else {
                    4
                }
            } else if i == n - 1 {
                i as u32
            } else {
                i as u32 + 1
            };
            select + enc.parts[i] as u32
        },
    }
}

/// A table of parts of no width.
pub open spec fn zero_code(n: int, unary: bool) -> Code {
    Code { unary, parts: Seq::new(n as nat, |k: int| 0u8) }
}

/// Tables of parts of no width.
pub open spec fn zero_tables() -> Tables {
    Tables {
        endm: 0,
        lens: zero_code(PARTS as int, true),
        offs1: zero_code(SINGLE_BYTE_PARTS as int, false),
        offs2: zero_code(PARTS as int, false),
        offs3: zero_code(PARTS as int, false),
        offs: zero_code(PARTS as int, false),
    }
}

/// The end marker and the five tables.
pub struct EncodingSet {
    pub endm: u32,
    pub bitsl: Encoding,
    pub bits1: Encoding,
    pub bits2: Encoding,
    pub bits3: Encoding,
    pub bits: Encoding,
}

impl View for EncodingSet {
    type V = Tables;

    open spec fn view(&self) -> Tables {
        Tables {
            endm: self.endm as int,
            lens: self.bitsl@,
            offs1: self.bits1@,
            offs2: self.bits2@,
            offs3: self.bits3@,
            offs: self.bits@,
        }
    }
}

impl EncodingSet {
    /// Tables in which every part holds one number.
    pub fn zeroed() -> (e: EncodingSet)
        ensures
            tables_wf(e@),
            e@ == zero_tables(),
            e@.endm == 0,
            e@.lens.parts == Seq::new(PARTS as nat, |k: int| 0u8),
    {
        EncodingSet {
            endm: 0,
            bitsl: Encoding::zeroed(PARTS, true),
            bits1: Encoding::zeroed(SINGLE_BYTE_PARTS, false),
            bits2: Encoding::zeroed(PARTS, false),
            bits3: Encoding::zeroed(PARTS, false),
            bits: Encoding::zeroed(PARTS, false),
        }
    }

    pub fn copied(&self) -> (e: EncodingSet)
        ensures
            e@ == self@,
    {
        EncodingSet {
            endm: self.endm,
            bitsl: self.bitsl.copied(),
            bits1: self.bits1.copied(),
            bits2: self.bits2.copied(),
            bits3: self.bits3.copied(),
            bits: self.bits.copied(),
        }
    }

    pub fn same(&self, o: &EncodingSet) -> (r: bool)
        ensures
            r == (self@ == o@),
    {
        self.endm == o.endm && self.bitsl.same(&o.bitsl) && self.bits1.same(&o.bits1)
            && self.bits2.same(&o.bits2) && self.bits3.same(&o.bits3) && self.bits.same(&o.bits)
    }

    /// The table of the offsets of matches of `len` bytes.
    pub fn offs_table(&self, len: u32) -> (e: &Encoding)
        ensures
            e@ == offs_code(self@, len as int),
    {
        if len == 1 {
            &self.bits1
        } else if len == 2 {
            &self.bits2
        } else if len == 3 {
            &self.bits3
        } else {
            &self.bits
        }
    }
}

// ---------------------------------------------------------------------------
// Decoder
// ---------------------------------------------------------------------------
fn read_num(r: &mut BitReader, n: u8) -> (v: u32)
    requires
        old(r).wf(),
        n <= 15,
    ensures
        final(r).wf(),
        final(r).source() == old(r).source(),
        get_num(old(r).source(), old(r).st(), n as nat) == (v as int, final(r).st()),
        v < pow2(n as nat),
{
    let ghost data = r.source();
    let ghost s0 = r.st();
    let mut v: u32 = 0;
    let mut i: u8 = 0;
    proof {
        lemma_width(0);
    }
    while i < n
        invariant
            i <= n <= 15,
            r.wf(),
            r.source() == data,
            get_num(data, s0, i as nat) == (v as int, r.st()),
            v < pow2(i as nat) <= 32768,
        decreases n - i,
    {
        proof {
            lemma_width((i + 1) as u8);
            lemma_pow2_unfold((i + 1) as nat);
        }
        let b: u32 = r.read_bit();
        v = 2 * v + b;
        i += 1;
    }
    v
}

fn read_zeros(r: &mut BitReader, max: usize) -> (n: usize)
    requires
        old(r).wf(),
    ensures
        final(r).wf(),
        final(r).source() == old(r).source(),
        get_zeros(old(r).source(), old(r).st(), 0, max as nat) == (n as nat, final(r).st()),
        n <= max,
{
    let ghost data = r.source();
    let ghost goal = get_zeros(data, r.st(), 0, max as nat);
    let mut n: usize = 0;
    while n < max
        invariant
            n <= max,
            r.wf(),
            r.source() == data,
            data == old(r).source(),
            goal == get_zeros(data, old(r).st(), 0, max as nat),
            goal == get_zeros(data, r.st(), n as nat, max as nat),
        decreases max - n,
    {
        if r.read_bit() == 1 {
            return n;
        }
        n += 1;
    }
    n
}

/// A number of a table.
fn read_enc(r: &mut BitReader, enc: &Encoding) -> (v: u32)
    requires
        old(r).wf(),
        code_wf(enc@),
    ensures
        final(r).wf(),
        final(r).source() == old(r).source(),
        get_code(old(r).source(), old(r).st(), enc@) == (v as int, final(r).st()),
        1 <= v <= 0x90000,
{
    let ghost data = r.source();
    let n: usize = enc.parts.len();
    let ghost parts = enc@.parts;
    let i: usize = if enc.unary {
        read_zeros(r, n - 1)
    } else if n == SINGLE_BYTE_PARTS {
        let v: u32 = read_num(r, 2);
        proof {
            assert(pow2(2) == 4) by {
                vstd::arithmetic::power2::lemma2_to64();
            }
        }
        v as usize
    } else {
        let v: u32 = read_num(r, 4);
        proof {
            assert(pow2(4) == 16) by {
                vstd::arithmetic::power2::lemma2_to64();
            }
        }
        v as usize
    };
    assert(get_part(data, old(r).st(), enc@) == (i as int, r.st()));
    let mut base: u32 = 1;
    let mut k: usize = 0;
    while k < i
        invariant
            k <= i < n,
            n == parts.len(),
            n <= 16,
            parts == enc.parts@,
            forall|j: int| 0 <= j < parts.len() ==> #[trigger] parts[j] <= 15,
            base == part_start(parts, k as int),
            1 <= base <= 1 + 32768 * k,
        decreases i - k,
    {
        let w: u8 = enc.parts[k];
        proof {
            lemma_width(w);
        }
        base = base + two_to(w as u32);
        k += 1;
    }
    let w: u8 = enc.parts[i];
    proof {
        assert(parts[i as int] <= 15);
        lemma_width(w);
    }
    base + read_num(r, w)
}

fn read_parts(r: &mut BitReader, n: usize, unary: bool) -> (e: Encoding)
    requires
        old(r).wf(),
        n == PARTS || n == SINGLE_BYTE_PARTS,
    ensures
        final(r).wf(),
        final(r).source() == old(r).source(),
        get_parts(old(r).source(), old(r).st(), n as nat) == (e@.parts, final(r).st()),
        e@.unary == unary,
        code_wf(e@),
        e@.parts.len() == n,
{
    let ghost data = r.source();
    let ghost s0 = r.st();
    let mut parts: Vec<u8> = Vec::new();
    let mut i: usize = 0;
    assert(parts@ =~= Seq::<u8>::empty());
    proof {
        assert(pow2(4) == 16) by {
            vstd::arithmetic::power2::lemma2_to64();
        }
    }
    while i < n
        invariant
            i <= n,
            r.wf(),
            r.source() == data,
            parts@.len() == i,
            get_parts(data, s0, i as nat) == (parts@, r.st()),
            forall|k: int| 0 <= k < parts@.len() ==> #[trigger] parts@[k] <= 15,
            pow2(4) == 16,
        decreases n - i,
    {
        let v: u32 = read_num(r, 4);
        parts.push(v as u8);
        i += 1;
    }
    Encoding { unary, parts }
}

fn read_tables(r: &mut BitReader) -> (es: EncodingSet)
    requires
        old(r).wf(),
    ensures
        final(r).wf(),
        final(r).source() == old(r).source(),
        get_tables(old(r).source(), old(r).st()) == (es@, final(r).st()),
        tables_wf(es@),
        es@.endm <= 255,
{
    let endm: u8 = r.read_byte();
    let bitsl: Encoding = read_parts(r, PARTS, true);
    let bits2: Encoding = read_parts(r, PARTS, false);
    let bits3: Encoding = read_parts(r, PARTS, false);
    let bits: Encoding = read_parts(r, PARTS, false);
    let bits1: Encoding = read_parts(r, SINGLE_BYTE_PARTS, false);
    EncodingSet { endm: endm as u32, bitsl, bits1, bits2, bits3, bits }
}

/// Decodes the stream that `r` stands before: the output, and the largest lead
/// of the output over the bytes taken.
pub fn decode_from(r: &mut BitReader) -> (res: (Vec<u8>, i128))
    requires
        old(r).wf(),
        sub_decoded(old(r).source(), old(r).st()) is Some,
    ensures
        sub_decoded(old(r).source(), old(r).st()) == Some((res.0@, res.1 as int)),
        0 <= res.1 <= res.0@.len(),
{
    let ghost data = r.source();
    let ghost goal = sub_decoded(data, r.st());
    let es: EncodingSet = read_tables(r);
    let ghost t = es@;
    let mut out: Vec<u8> = Vec::new();
    let mut gap: i128 = 0;
    let ghost mut fuel = sub_fuel(data);
    assert(out@ =~= Seq::<u8>::empty());
    loop
        invariant
            r.wf(),
            r.source() == data,
            t == es@,
            tables_wf(t),
            goal is Some,
            goal == sub_decoded(data, old(r).st()),
            data == old(r).source(),
            goal == sub_run(data, t, SubState { s: r.st(), out: out@, gap: gap as int }, fuel),
            0 <= gap <= out@.len(),
        decreases fuel,
    {
        let ghost d = SubState { s: r.st(), out: out@, gap: gap as int };
        let lead: i128 = out.len() as i128 - r.position() as i128;
        if lead > gap {
            gap = lead;
        }
        if r.read_bit() == 1 {
            let b: u8 = r.read_byte();
            out.push(b);
        } else {
            let len: u32 = read_enc(r, &es.bitsl);
            if len == es.endm {
                return (out, gap);
            }
            let offs: u32 = read_enc(r, es.offs_table(len));
            let count: usize = out.len();
            if offs as usize > count {
                return (out, gap);
            }
            assert(sub_step(data, t, d) !is TooLong);
            copy_match(&mut out, offs as usize, len as usize);
        }
        proof {
            assert(sub_step(data, t, d) == SubStep::Next(
                SubState { s: r.st(), out: out@, gap: gap as int },
            ));
            fuel = (fuel - 1) as nat;
        }
    }
}

// ---------------------------------------------------------------------------
// Paths
// ---------------------------------------------------------------------------
/// A token of a stream.
#[derive(Clone, Copy, PartialEq, Eq, Structural, Debug)]
pub enum PathStep {
    Literal,
    Match { offs: u32, len: u32 },
}

pub open spec fn step_len(p: PathStep) -> int {
    match p {
        PathStep::Literal => 1,
        PathStep::Match { offs, len } => len as int,
    }
}

/// Where token `k` starts.
pub open spec fn path_pos(path: Seq<PathStep>, k: int) -> int
    decreases k,
{
    if k <= 0 {
        0
    } else {
        path_pos(path, k - 1) + step_len(path[k - 1])
    }
}

/// The token stands for the bytes of the input at `p`.
pub open spec fn step_ok(input: Seq<u8>, p: int, st: PathStep) -> bool {
    match st {
        PathStep::Literal => 0 <= p < input.len(),
        PathStep::Match { offs, len } => 1 <= len <= MAX_MATCH && offs <= MAX_OFFS && lz::is_match(
            input,
            p,
            offs as int,
            len as int,
        ),
    }
}

/// The tokens stand for the input.
pub open spec fn path_ok(input: Seq<u8>, path: Seq<PathStep>) -> bool {
    &&& path_pos(path, path.len() as int) == input.len()
    &&& forall|k: int|
        0 <= k < path.len() ==> #[trigger] step_ok(input, path_pos(path, k), path[k])
}

/// The tables hold the token.
pub open spec fn step_encodable(t: Tables, st: PathStep) -> bool {
    match st {
        PathStep::Literal => true,
        PathStep::Match { offs, len } => code_holds(t.lens, len as int) && len != t.endm
            && code_holds(offs_code(t, len as int), offs as int),
    }
}

/// The tables hold every token and the end marker, which is the length of no
/// match.
pub open spec fn encodable(t: Tables, path: Seq<PathStep>) -> bool {
    &&& tables_wf(t)
    &&& 1 <= t.endm <= 255
    &&& code_holds(t.lens, t.endm)
    &&& forall|k: int| 0 <= k < path.len() ==> step_encodable(t, #[trigger] path[k])
}

/// Bits of a token.
pub open spec fn step_bits(t: Tables, st: PathStep) -> int {
    match st {
        PathStep::Literal => 9,
        PathStep::Match { offs, len } => 1 + code_cost(t.lens, len as int) + code_cost(
            offs_code(t, len as int),
            offs as int,
        ),
    }
}

/// Bits of the first `k` tokens.
pub open spec fn path_bits(t: Tables, path: Seq<PathStep>, k: int) -> int
    decreases k,
{
    if k <= 0 {
        0
    } else {
        path_bits(t, path, k - 1) + step_bits(t, path[k - 1])
    }
}

/// Bits of a stream: the end marker, 68 widths, the tokens and the mark at the
/// end.
pub open spec fn stream_bits(t: Tables, path: Seq<PathStep>) -> int {
    8 + 272 + path_bits(t, path, path.len() as int) + 1 + code_cost(t.lens, t.endm)
}

// ---------------------------------------------------------------------------
// Encoder
// ---------------------------------------------------------------------------
/// A number in `n` bits, the highest first.
pub open spec fn put_num(w: BitOut, v: int, n: nat) -> BitOut
    decreases n,
{
    if n == 0 {
        w
    } else {
        bitio::put_bit(put_num(w, v / 2, (n - 1) as nat), v % 2 != 0)
    }
}

/// Zero bits.
pub open spec fn put_zeros(w: BitOut, n: nat) -> BitOut
    decreases n,
{
    if n == 0 {
        w
    } else {
        bitio::put_bit(put_zeros(w, (n - 1) as nat), false)
    }
}

/// The choice of part `i` of a table.
pub open spec fn put_part(w: BitOut, c: Code, i: int) -> BitOut {
    if !c.unary {
        put_num(w, i, select_bits(c))
    } else if i == c.parts.len() - 1 {
        put_zeros(w, i as nat)
    } else {
        bitio::put_bit(put_zeros(w, i as nat), true)
    }
}

/// A number of a table: its part, and which number of the part it is.
pub open spec fn put_code(w: BitOut, c: Code, v: int) -> BitOut {
    let i = part_from(c.parts, v, 0);
    put_num(put_part(w, c, i), v - part_start(c.parts, i), c.parts[i] as nat)
}

/// The widths of the first `k` parts.
pub open spec fn put_parts(w: BitOut, parts: Seq<u8>, k: int) -> BitOut
    decreases k,
{
    if k <= 0 {
        w
    } else {
        put_num(put_parts(w, parts, k - 1), parts[k - 1] as int, 4)
    }
}

/// The end marker and the tables.
pub open spec fn put_tables(w: BitOut, t: Tables) -> BitOut {
    let n = PARTS as int;
    let a = put_parts(bitio::put_byte(w, t.endm as u8), t.lens.parts, n);
    let b = put_parts(put_parts(a, t.offs2.parts, n), t.offs3.parts, n);
    put_parts(put_parts(b, t.offs.parts, n), t.offs1.parts, SINGLE_BYTE_PARTS as int)
}

/// A token at `p`.
pub open spec fn put_step(w: BitOut, input: Seq<u8>, p: int, t: Tables, st: PathStep) -> BitOut {
    match st {
        PathStep::Literal => bitio::put_byte(bitio::put_bit(w, true), input[p]),
        PathStep::Match { offs, len } => put_code(
            put_code(bitio::put_bit(w, false), t.lens, len as int),
            offs_code(t, len as int),
            offs as int,
        ),
    }
}

/// The first `k` tokens of a path.
pub open spec fn put_steps(w: BitOut, input: Seq<u8>, t: Tables, path: Seq<PathStep>, k: int) -> BitOut
    decreases k,
{
    if k <= 0 {
        w
    } else {
        put_step(
            put_steps(w, input, t, path, k - 1),
            input,
            path_pos(path, k - 1),
            t,
            path[k - 1],
        )
    }
}

/// The bytes of a stream: the tables, the tokens and the end marker.
pub open spec fn plain_bytes(input: Seq<u8>, t: Tables, path: Seq<PathStep>, shift: bool) -> Seq<u8> {
    let w = BitOut { bytes: Seq::<u8>::empty(), bpos: 0, left: 0, bt: false };
    let a = if shift {
        bitio::put_bit(w, false)
    } else {
        w
    };
    let b = put_steps(put_tables(a, t), input, t, path, path.len() as int);
    put_code(bitio::put_bit(b, false), t.lens, t.endm).bytes
}

/// The same; with `shift` the first bit, which is zero, makes room for a marker.
pub open spec fn stream_bytes(input: Seq<u8>, t: Tables, path: Seq<PathStep>, shift: bool) -> Seq<u8> {
    let plain = plain_bytes(input, t, path, shift);
    if shift {
        plain.update(0, (plain[0] << 1u8) | 1u8)
    } else {
        plain
    }
}

fn write_num(w: &mut BitWriter, v: u32, n: u8)
    requires
        old(w)@.wf(),
        !old(w)@.bt,
        n <= 15,
        v < pow2(n as nat),
    ensures
        final(w)@.wf(),
        !final(w)@.bt,
        final(w)@ == put_num(old(w)@, v as int, n as nat),
        final(w)@.nbits() == old(w)@.nbits() + n,
        forall|data: Seq<u8>| #[trigger]
            bitio::agrees(final(w)@, data) ==> bitio::agrees(old(w)@, data) && get_num(
                data,
                old(w)@.st(),
                n as nat,
            ) == (v as int, final(w)@.st()),
    decreases n,
{
    if n == 0 {
        proof {
            assert(pow2(0) == 1) by {
                vstd::arithmetic::power2::lemma2_to64();
            }
        }
        return ;
    }
    let ghost w0 = w@;
    proof {
        lemma_pow2_unfold(n as nat);
    }
    write_num(w, v / 2, n - 1);
    let ghost w1 = w@;
    w.write_bit(v % 2);
    assert forall|data: Seq<u8>| #[trigger] bitio::agrees(w@, data) implies bitio::agrees(w0, data)
        && get_num(data, w0.st(), n as nat) == (v as int, w@.st()) by {
        assert(bitio::agrees(w1, data));
    }
}

fn write_zeros(w: &mut BitWriter, v: usize, max: usize)
    requires
        old(w)@.wf(),
        !old(w)@.bt,
        v <= max,
    ensures
        final(w)@.wf(),
        !final(w)@.bt,
        final(w)@ == if v == max {
            put_zeros(old(w)@, v as nat)
        } else {
            bitio::put_bit(put_zeros(old(w)@, v as nat), true)
        },
        final(w)@.nbits() == old(w)@.nbits() + if v == max {
            v as int
        } else {
            v + 1
        },
        forall|data: Seq<u8>| #[trigger]
            bitio::agrees(final(w)@, data) ==> bitio::agrees(old(w)@, data) && get_zeros(
                data,
                old(w)@.st(),
                0,
                max as nat,
            ) == (v as nat, final(w)@.st()),
{
    let ghost w0 = w@;
    let mut i: usize = 0;
    while i < v
        invariant
            i <= v <= max,
            w@.wf(),
            !w@.bt,
            w@.nbits() == w0.nbits() + i,
            w@ == put_zeros(w0, i as nat),
            forall|data: Seq<u8>| #[trigger]
                bitio::agrees(w@, data) ==> bitio::agrees(w0, data) && get_zeros(
                    data,
                    w0.st(),
                    0,
                    max as nat,
                ) == get_zeros(data, w@.st(), i as nat, max as nat),
        decreases v - i,
    {
        let ghost wa = w@;
        w.write_bit(0);
        i += 1;
        assert forall|data: Seq<u8>| #[trigger] bitio::agrees(w@, data) implies bitio::agrees(
            w0,
            data,
        ) && get_zeros(data, w0.st(), 0, max as nat) == get_zeros(
            data,
            w@.st(),
            i as nat,
            max as nat,
        ) by {
            assert(bitio::agrees(wa, data));
        }
    }
    if v < max {
        let ghost wa = w@;
        w.write_bit(1);
        assert forall|data: Seq<u8>| #[trigger] bitio::agrees(w@, data) implies bitio::agrees(
            w0,
            data,
        ) && get_zeros(data, w0.st(), 0, max as nat) == (v as nat, w@.st()) by {
            assert(bitio::agrees(wa, data));
        }
    }
}

/// Writes a number of a table.
fn write_enc(w: &mut BitWriter, enc: &Encoding, v: u32)
    requires
        old(w)@.wf(),
        !old(w)@.bt,
        code_wf(enc@),
        code_holds(enc@, v as int),
    ensures
        final(w)@.wf(),
        !final(w)@.bt,
        final(w)@ == put_code(old(w)@, enc@, v as int),
        final(w)@.nbits() == old(w)@.nbits() + code_cost(enc@, v as int),
        forall|data: Seq<u8>| #[trigger]
            bitio::agrees(final(w)@, data) ==> bitio::agrees(old(w)@, data) && get_code(
                data,
                old(w)@.st(),
                enc@,
            ) == (v as int, final(w)@.st()),
{
    let ghost w0 = w@;
    let n: usize = enc.parts.len();
    let (i, start): (usize, u32) = match find_part(enc, v) {
        Some(p) => p,
        None => (0, 0),
    };
    proof {
        lemma_holds_part(enc@, v as int);
        assert(pow2(2) == 4 && pow2(4) == 16) by {
            vstd::arithmetic::power2::lemma2_to64();
        }
    }
    if enc.unary {
        write_zeros(w, i, n - 1);
    } else if n == SINGLE_BYTE_PARTS {
        write_num(w, i as u32, 2);
    } else {
        write_num(w, i as u32, 4);
    }
    let ghost w1 = w@;
    assert(forall|data: Seq<u8>| #[trigger]
        bitio::agrees(w1, data) ==> bitio::agrees(w0, data) && get_part(data, w0.st(), enc@) == (
            i as int,
            w1.st(),
        ));
    write_num(w, v - start, enc.parts[i]);
    assert forall|data: Seq<u8>| #[trigger] bitio::agrees(w@, data) implies bitio::agrees(w0, data)
        && get_code(data, w0.st(), enc@) == (v as int, w@.st()) by {
        assert(bitio::agrees(w1, data));
    }
}

fn write_parts(w: &mut BitWriter, enc: &Encoding)
    requires
        old(w)@.wf(),
        !old(w)@.bt,
        code_wf(enc@),
    ensures
        final(w)@.wf(),
        !final(w)@.bt,
        final(w)@ == put_parts(old(w)@, enc@.parts, enc@.parts.len() as int),
        final(w)@.nbits() == old(w)@.nbits() + 4 * enc@.parts.len(),
        forall|data: Seq<u8>| #[trigger]
            bitio::agrees(final(w)@, data) ==> bitio::agrees(old(w)@, data) && get_parts(
                data,
                old(w)@.st(),
                enc@.parts.len(),
            ) == (enc@.parts, final(w)@.st()),
{
    let ghost w0 = w@;
    let ghost parts = enc@.parts;
    let n: usize = enc.parts.len();
    let mut i: usize = 0;
    proof {
        assert(pow2(4) == 16) by {
            vstd::arithmetic::power2::lemma2_to64();
        }
        assert(parts.take(0) =~= Seq::empty());
    }
    while i < n
        invariant
            n == parts.len(),
            parts == enc.parts@,
            i <= n,
            pow2(4) == 16,
            forall|k: int| 0 <= k < parts.len() ==> #[trigger] parts[k] <= 15,
            w@.wf(),
            !w@.bt,
            w@.nbits() == w0.nbits() + 4 * i,
            w@ == put_parts(w0, parts, i as int),
            forall|data: Seq<u8>| #[trigger]
                bitio::agrees(w@, data) ==> bitio::agrees(w0, data) && get_parts(
                    data,
                    w0.st(),
                    i as nat,
                ) == (parts.take(i as int), w@.st()),
        decreases n - i,
    {
        let ghost wa = w@;
        let v: u8 = enc.parts[i];
        write_num(w, v as u32, 4);
        i += 1;
        assert(parts.take(i as int) =~= parts.take(i - 1).push(v));
        assert forall|data: Seq<u8>| #[trigger] bitio::agrees(w@, data) implies bitio::agrees(
            w0,
            data,
        ) && get_parts(data, w0.st(), i as nat) == (parts.take(i as int), w@.st()) by {
            assert(bitio::agrees(wa, data));
        }
    }
    assert(parts.take(n as int) =~= parts);
}

/// Writes the end marker and the tables.
fn write_tables(w: &mut BitWriter, es: &EncodingSet)
    requires
        old(w)@.wf(),
        !old(w)@.bt,
        tables_wf(es@),
        es@.endm <= 255,
    ensures
        final(w)@.wf(),
        !final(w)@.bt,
        final(w)@ == put_tables(old(w)@, es@),
        final(w)@.nbits() == old(w)@.nbits() + 280,
        forall|data: Seq<u8>| #[trigger]
            bitio::agrees(final(w)@, data) ==> bitio::agrees(old(w)@, data) && get_tables(
                data,
                old(w)@.st(),
            ) == (es@, final(w)@.st()),
{
    let ghost w0 = w@;
    w.write_byte(es.endm as u8);
    let ghost w1 = w@;
    write_parts(w, &es.bitsl);
    let ghost w2 = w@;
    write_parts(w, &es.bits2);
    let ghost w3 = w@;
    write_parts(w, &es.bits3);
    let ghost w4 = w@;
    write_parts(w, &es.bits);
    let ghost w5 = w@;
    write_parts(w, &es.bits1);
    assert forall|data: Seq<u8>| #[trigger] bitio::agrees(w@, data) implies bitio::agrees(w0, data)
        && get_tables(data, w0.st()) == (es@, w@.st()) by {
        assert(bitio::agrees(w5, data));
        assert(bitio::agrees(w4, data));
        assert(bitio::agrees(w3, data));
        assert(bitio::agrees(w2, data));
        assert(bitio::agrees(w1, data));
    }
}

/// The decoder before token `k` of a path.
pub open spec fn sub_at(input: Seq<u8>, s: BitPos, p: int, gap: int) -> SubState {
    SubState { s, out: input.take(p), gap }
}

pub open spec fn lead_of(p: int, s: BitPos, gap: int) -> int {
    if p - s.pos > gap {
        p - s.pos
    } else {
        gap
    }
}

/// Writes one token.
fn write_step(w: &mut BitWriter, input: &[u8], p: usize, st: PathStep, es: &EncodingSet, Ghost(gap): Ghost<int>)
    requires
        old(w)@.wf(),
        !old(w)@.bt,
        tables_wf(es@),
        step_ok(input@, p as int, st),
        step_encodable(es@, st),
    ensures
        final(w)@.wf(),
        !final(w)@.bt,
        final(w)@ == put_step(old(w)@, input@, p as int, es@, st),
        final(w)@.nbits() == old(w)@.nbits() + step_bits(es@, st),
        forall|data: Seq<u8>| #[trigger]
            bitio::agrees(final(w)@, data) ==> bitio::agrees(old(w)@, data) && sub_step(
                data,
                es@,
                sub_at(input@, old(w)@.st(), p as int, gap),
            ) == SubStep::Next(
                sub_at(
                    input@,
                    final(w)@.st(),
                    p + step_len(st),
                    lead_of(p as int, old(w)@.st(), gap),
                ),
            ),
{
    let ghost w0 = w@;
    let ghost t = es@;
    let total: usize = input.len();
    match st {
        PathStep::Literal => {
            w.write_bit(1);
            let ghost w1 = w@;
            let b: u8 = input[p];
            w.write_byte(b);
            assert(input@.take(p + 1) =~= input@.take(p as int).push(b));
            assert forall|data: Seq<u8>| #[trigger] bitio::agrees(w@, data) implies bitio::agrees(
                w0,
                data,
            ) && sub_step(data, t, sub_at(input@, w0.st(), p as int, gap)) == SubStep::Next(
                sub_at(input@, w@.st(), p + 1, lead_of(p as int, w0.st(), gap)),
            ) by {
                assert(bitio::agrees(w1, data));
            }
        },
        PathStep::Match { offs, len } => {
            w.write_bit(0);
            let ghost w1 = w@;
            write_enc(w, &es.bitsl, len);
            let ghost w2 = w@;
            write_enc(w, es.offs_table(len), offs);
            proof {
                lz::lemma_lz_copy_match(input@, p as int, offs as int, len as int);
            }
            assert forall|data: Seq<u8>| #[trigger] bitio::agrees(w@, data) implies bitio::agrees(
                w0,
                data,
            ) && sub_step(data, t, sub_at(input@, w0.st(), p as int, gap)) == SubStep::Next(
                sub_at(input@, w@.st(), p + len, lead_of(p as int, w0.st(), gap)),
            ) by {
                assert(bitio::agrees(w2, data));
                assert(bitio::agrees(w1, data));
            }
        },
    }
}

/// Positions on a path that stands for the input lie within it.
pub proof fn lemma_path_pos(input: Seq<u8>, path: Seq<PathStep>, k: int)
    requires
        path_ok(input, path),
        0 <= k <= path.len(),
    ensures
        k <= path_pos(path, k) <= input.len(),
        path.len() - k <= input.len() - path_pos(path, k),
    decreases path.len(),
{
    lemma_path_grows(input, path, 0, k);
    lemma_path_grows(input, path, k, path.len() as int);
}

proof fn lemma_path_grows(input: Seq<u8>, path: Seq<PathStep>, j: int, k: int)
    requires
        path_ok(input, path),
        0 <= j <= k <= path.len(),
    ensures
        path_pos(path, j) + (k - j) <= path_pos(path, k),
    decreases k - j,
{
    if j < k {
        lemma_path_grows(input, path, j, k - 1);
        assert(step_ok(input, path_pos(path, k - 1), path[k - 1]));
    }
}

/// The byte that a stream with a marker starts with, as it was before the
/// marker was shifted in.
pub open spec fn unshifted(data: Seq<u8>) -> Seq<u8> {
    if data.len() == 0 {
        data
    } else {
        data.update(0, data[0] >> 1u8)
    }
}

/// Where the tokens start, behind the bit that makes room for the marker.
pub open spec fn shifted_start() -> BitPos {
    BitPos { pos: 1, bpos: 0, left: 7, bt: false }
}

/// Where a stream, with or without a marker, starts.
pub open spec fn start_of(shift: bool) -> BitPos {
    if shift {
        shifted_start()
    } else {
        bitio::bit_start()
    }
}

proof fn lemma_marker(b: u8)
    by (bit_vector)
    requires
        (b >> 7u8) & 1u8 != 1u8,
    ensures
        ((b << 1u8) | 1u8) >> 1u8 == b,
{
}

/// Writes the stream of a path; with `shift`, behind a bit that is then shifted
/// out for a marker 1 at the low end of the first byte.
#[verifier::rlimit(40)]
pub fn generate_into(path: &Vec<PathStep>, input: &[u8], es: &EncodingSet, shift: bool) -> (out: Vec<u8>)
    requires
        path_ok(input@, path@),
        encodable(es@, path@),
    ensures
        out@.len() >= 2,
        out@.len() == (stream_bits(es@, path@) + if shift {
            1int
        } else {
            0int
        } + 7) / 8,
        shift ==> out@[1] == es@.endm,
        out@ == stream_bytes(input@, es@, path@, shift),
        sub_decoded(
            if shift {
                unshifted(out@)
            } else {
                out@
            },
            start_of(shift),
        ) matches Some(r) && r.0 == input@,
{
    let mut w: BitWriter = BitWriter::new();
    let ghost w0 = w@;
    if shift {
        w.write_bit(0);
    }
    let ghost w1 = w@;
    assert(w1.st() == start_of(shift));
    write_tables(&mut w, es);
    let ghost w2 = w@;
    let ghost t = es@;
    let ghost n0 = w2.nbits();
    let ghost mut gap: int = 0;
    let n: usize = path.len();
    let total: usize = input.len();
    let mut k: usize = 0;
    let mut p: usize = 0;
    assert(input@.take(0) =~= Seq::<u8>::empty());
    while k < n
        invariant
            n == path@.len(),
            total == input@.len(),
            k <= n,
            path_ok(input@, path@),
            encodable(t, path@),
            t == es@,
            p == path_pos(path@, k as int),
            w@.wf(),
            !w@.bt,
            w@.nbits() == n0 + path_bits(t, path@, k as int),
            w@ == put_steps(w2, input@, t, path@, k as int),
            path_bits(t, path@, k as int) >= k,
            n0 == w2.nbits(),
            forall|data: Seq<u8>, f: nat|
                #![trigger bitio::agrees(w@, data), sub_run(data, t, sub_at(input@, w2.st(), 0, 0), (f + k) as nat)]
                bitio::agrees(w@, data) ==> bitio::agrees(w2, data) && sub_run(
                    data,
                    t,
                    sub_at(input@, w2.st(), 0, 0),
                    (f + k) as nat,
                ) == sub_run(data, t, sub_at(input@, w@.st(), p as int, gap), f),
        decreases n - k,
    {
        let ghost wa = w@;
        let ghost gap0 = gap;
        let ghost p0 = p as int;
        let st: PathStep = path[k];
        assert(step_ok(input@, path_pos(path@, k as int), path@[k as int]));
        proof {
            lemma_path_pos(input@, path@, k + 1);
            assert(step_encodable(t, path@[k as int]));
            if let PathStep::Match { offs, len } = st {
                lemma_code_cost(t.lens, len as int);
                lemma_code_cost(offs_code(t, len as int), offs as int);
            }
        }
        write_step(&mut w, input, p, st, es, Ghost(gap));
        proof {
            gap = lead_of(p0, wa.st(), gap0);
        }
        p = p + match st {
            PathStep::Literal => 1,
            PathStep::Match { offs, len } => len as usize,
        };
        k += 1;
        assert forall|data: Seq<u8>, f: nat|
            #![trigger bitio::agrees(w@, data), sub_run(data, t, sub_at(input@, w2.st(), 0, 0), (f + k) as nat)]
            bitio::agrees(w@, data) implies bitio::agrees(w2, data) && sub_run(
            data,
            t,
            sub_at(input@, w2.st(), 0, 0),
            (f + k) as nat,
        ) == sub_run(data, t, sub_at(input@, w@.st(), p as int, gap), f) by {
            assert(bitio::agrees(wa, data));
            let g = (f + 1) as nat;
            assert((g + (k - 1)) as nat == (f + k) as nat);
            assert(sub_run(data, t, sub_at(input@, w2.st(), 0, 0), (g + (k - 1)) as nat) == sub_run(
                data,
                t,
                sub_at(input@, wa.st(), p0, gap0),
                g,
            ));
        }
    }
    let ghost wa = w@;
    w.write_bit(0);
    let ghost wb = w@;
    write_enc(&mut w, &es.bitsl, es.endm);
    let ghost we = w@;
    proof {
        lemma_code_cost(t.lens, t.endm);
        assert(input@.take(p as int) =~= input@);
    }
    let mut out: Vec<u8> = w.finish();
    let ghost plain = out@;
    assert(plain == plain_bytes(input@, t, path@, shift));
    proof {
        assert(bitio::agrees(we, plain));
        assert(bitio::agrees(wb, plain));
        assert(bitio::agrees(wa, plain));
        let f = (sub_fuel(plain) - k) as nat;
        assert((f + k) as nat == sub_fuel(plain));
        assert(sub_run(plain, t, sub_at(input@, w2.st(), 0, 0), (f + k) as nat) == sub_run(
            plain,
            t,
            sub_at(input@, wa.st(), p as int, gap),
            f,
        ));
        assert(bitio::agrees(w2, plain));
        assert(bitio::agrees(w1, plain));
        assert(sub_at(input@, w2.st(), 0, 0) == (SubState { s: w2.st(), out: Seq::empty(), gap: 0 }));
        assert(sub_decoded(plain, start_of(shift)) matches Some(r) && r.0 == input@);
    }
    if shift {
        let b: u8 = out[0];
        proof {
            assert(bitio::get_bit(plain, bitio::bit_start()).0 == false);
            lemma_marker(b);
            assert(bitio::get_byte(plain, w1.st()).0 == plain[1]);
        }
        out.set(0, (b << 1u8) | 1u8);
        assert(unshifted(out@) =~= plain);
    }
    out
}

} // verus!
