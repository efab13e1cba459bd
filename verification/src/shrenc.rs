//! Encoder of Shrinkler streams: tokens become a list of bits in contexts, which
//! is measured, counted or coded.
use crate::shrcoder::RangeCoder;
use crate::shrstream::{DecSt, ShrSt, ShrStep, adapt, fresh_contexts, CONTEXTS, KIND, LENGTHS, MAX_INPUT, OFFSETS, REPEATED};
use crate::upkrenc::Op;
use crate::lz;
use vstd::arithmetic::power2::{lemma_pow2_pos, lemma_pow2_unfold, pow2};
use crate::shrstream;
use crate::upkrenc;
use crate::shrcoder;
use crate::shrcost;
use vstd::prelude::*;

verus! {

/// A bit in a context.
#[derive(Clone, Copy, Debug)]
pub struct Sym {
    pub ctx: u16,
    pub bit: bool,
}

pub open spec fn sym(ctx: int, bit: bool) -> Sym {
    Sym { ctx: ctx as u16, bit }
}

/// The decoder after these bits, if they are what the stream holds.
pub open spec fn after_syms(data: Seq<u8>, m: DecSt, syms: Seq<Sym>) -> Option<DecSt>
    decreases syms.len(),
{
    if syms.len() == 0 {
        Some(m)
    } else {
        let (b, m1) = shrstream::s_code(data, m, syms[0].ctx as int);
        if b == syms[0].bit {
            after_syms(data, m1, syms.skip(1))
        } else {
            None
        }
    }
}

pub proof fn lemma_syms_concat(data: Seq<u8>, m: DecSt, a: Seq<Sym>, b: Seq<Sym>)
    ensures
        after_syms(data, m, a + b) == match after_syms(data, m, a) {
            None => None::<DecSt>,
            Some(m1) => after_syms(data, m1, b),
        },
    decreases a.len(),
{
    if a.len() == 0 {
        assert(a + b =~= b);
    } else {
        assert((a + b).skip(1) =~= a.skip(1) + b);
        assert((a + b)[0] == a[0]);
        lemma_syms_concat(data, shrstream::s_code(data, m, a[0].ctx as int).1, a.skip(1), b);
    }
}

/// What follows the first bit.
proof fn lemma_syms_first(data: Seq<u8>, m: DecSt, s: Sym, rest: Seq<Sym>)
    ensures
        after_syms(data, m, seq![s] + rest) == ({
            let (b, m1) = shrstream::s_code(data, m, s.ctx as int);
            if b == s.bit {
                after_syms(data, m1, rest)
            } else {
                None
            }
        }),
{
    assert((seq![s] + rest).skip(1) =~= rest);
    assert((seq![s] + rest)[0] == s);
}

// ---------------------------------------------------------------------------
// The bits of a token
// ---------------------------------------------------------------------------
/// The `k` lower bits of a byte, from the highest down.
pub open spec fn lit_syms(node: int, k: nat, rest: int) -> Seq<Sym>
    decreases k,
{
    if k == 0 {
        Seq::empty()
    } else {
        let p = pow2((k - 1) as nat) as int;
        if rest >= p {
            seq![sym(1 + node, true)] + lit_syms(2 * node + 1, (k - 1) as nat, rest - p)
        } else {
            seq![sym(1 + node, false)] + lit_syms(2 * node, (k - 1) as nat, rest)
        }
    }
}

/// Ones up to `top`, and a zero.
pub open spec fn ones_syms(base: int, i: int, top: int) -> Seq<Sym>
    decreases top - i,
{
    if i >= top {
        seq![sym(base + 2 * i + 2, false)]
    } else {
        seq![sym(base + 2 * i + 2, true)] + ones_syms(base, i + 1, top)
    }
}

/// The `k` lower bits of a number, from the highest down.
pub open spec fn bits_syms(base: int, k: nat, rest: int) -> Seq<Sym>
    decreases k,
{
    if k == 0 {
        Seq::empty()
    } else {
        let p = pow2((k - 1) as nat) as int;
        let c = base + 2 * (k - 1) + 1;
        if rest >= p {
            seq![sym(c, true)] + bits_syms(base, (k - 1) as nat, rest - p)
        } else {
            seq![sym(c, false)] + bits_syms(base, (k - 1) as nat, rest)
        }
    }
}

/// How many bits a number has between its first and its last.
pub open spec fn num_top(v: int) -> int
    decreases v,
{
    if v < 4 {
        0
    } else {
        1 + num_top(v / 2)
    }
}

pub proof fn lemma_num_top(v: int)
    requires
        v >= 2,
    ensures
        num_top(v) >= 0,
        pow2((num_top(v) + 1) as nat) <= v < pow2((num_top(v) + 2) as nat),
    decreases v,
{
    if v < 4 {
        vstd::arithmetic::power2::lemma2_to64();
    } else {
        lemma_num_top(v / 2);
        lemma_pow2_unfold((num_top(v) + 1) as nat);
        lemma_pow2_unfold((num_top(v) + 2) as nat);
    }
}

/// A number of 31 bits has fewer than 30 between its first and its last.
pub proof fn lemma_top_small(v: int)
    requires
        2 <= v <= 0x7fff_ffff,
    ensures
        num_top(v) < 30,
{
    lemma_num_top(v);
    assert(pow2(31) == 0x8000_0000) by {
        vstd::arithmetic::power2::lemma2_to64();
    }
    if num_top(v) + 1 > 31 {
        vstd::arithmetic::power2::lemma_pow2_strictly_increases(31, (num_top(v) + 1) as nat);
    }
}

pub open spec fn num_syms(base: int, v: int) -> Seq<Sym> {
    ones_syms(base, 0, num_top(v)) + bits_syms(
        base,
        (num_top(v) + 1) as nat,
        v - pow2((num_top(v) + 1) as nat),
    )
}

/// The bits of a token at `p`, behind a token with offset `last`.
pub open spec fn op_syms(op: Op, p: int, last: int, after_ref: bool) -> Seq<Sym> {
    match op {
        Op::Literal(b) => (if p > 0 {
            seq![sym(KIND as int, false)]
        } else {
            Seq::empty()
        }) + lit_syms(1, 8, b as int),
        Op::Match { offset, len } => seq![sym(KIND as int, true)] + (if after_ref {
            Seq::empty()
        } else {
            seq![sym(REPEATED as int, offset == last)]
        }) + (if offset == last {
            Seq::empty()
        } else {
            num_syms(OFFSETS as int, offset + 2)
        }) + num_syms(LENGTHS as int, len as int),
    }
}

pub open spec fn end_syms(after_ref: bool) -> Seq<Sym> {
    seq![sym(KIND as int, true)] + (if after_ref {
        Seq::empty()
    } else {
        seq![sym(REPEATED as int, false)]
    }) + num_syms(OFFSETS as int, 2)
}

proof fn lemma_read_lit(data: Seq<u8>, m: DecSt, node: int, k: nat, rest: int)
    requires
        k <= 8,
        1 <= node,
        node * pow2(k) + rest < 512,
        0 <= rest < pow2(k),
    ensures
        after_syms(data, m, lit_syms(node, k, rest)) matches Some(m1) ==> shrstream::s_lit(
            data,
            m,
            node,
            k,
        ) == (node * pow2(k) + rest, m1),
    decreases k,
{
    if k == 0 {
        assert(pow2(0) == 1) by {
            vstd::arithmetic::power2::lemma2_to64();
        }
        assert(node * 1 == node);
    } else {
        let p = pow2((k - 1) as nat) as int;
        lemma_pow2_unfold(k);
        lemma_pow2_pos((k - 1) as nat);
        let b = rest >= p;
        let n2 = 2 * node + if b {
            1int
        } else {
            0
        };
        let r2 = if b {
            rest - p
        } else {
            rest
        };
        assert(node <= node * pow2(k)) by (nonlinear_arith)
            requires
                node >= 1,
                pow2(k) >= 1,
        ;
        assert((2 * node) * p == node * (2 * p)) by (nonlinear_arith);
        assert((2 * node + 1) * p == (2 * node) * p + p) by (nonlinear_arith);
        let t = lit_syms(n2, (k - 1) as nat, r2);
        let s = sym(1 + node, b);
        assert(lit_syms(node, k, rest) == seq![s] + t);
        lemma_syms_first(data, m, s, t);
        let m1 = shrstream::s_code(data, m, 1 + node).1;
        lemma_read_lit(data, m1, n2, (k - 1) as nat, r2);
    }
}

proof fn lemma_read_ones(data: Seq<u8>, m: DecSt, base: int, i: int, top: int)
    requires
        0 <= i <= top < 30,
        0 <= base < 1000,
    ensures
        after_syms(data, m, ones_syms(base, i, top)) matches Some(m1) ==> shrstream::s_ones(
            data,
            m,
            base,
            i,
        ) == Some((top, m1)),
    decreases top - i,
{
    let c = base + 2 * i + 2;
    let m1 = shrstream::s_code(data, m, c).1;
    if i == top {
        lemma_syms_first(data, m, sym(c, false), Seq::empty());
        assert(seq![sym(c, false)] + Seq::<Sym>::empty() =~= ones_syms(base, i, top));
    } else {
        lemma_syms_first(data, m, sym(c, true), ones_syms(base, i + 1, top));
        lemma_read_ones(data, m1, base, i + 1, top);
    }
}

proof fn lemma_read_bits(data: Seq<u8>, m: DecSt, base: int, k: nat, rest: int, acc: int)
    requires
        k <= 31,
        0 <= base < 1000,
        0 <= rest < pow2(k),
    ensures
        after_syms(data, m, bits_syms(base, k, rest)) matches Some(m1) ==> shrstream::s_bits(
            data,
            m,
            base,
            k,
            acc,
        ) == (acc * pow2(k) + rest, m1),
    decreases k,
{
    if k == 0 {
        assert(pow2(0) == 1) by {
            vstd::arithmetic::power2::lemma2_to64();
        }
        assert(acc * 1 == acc);
    } else {
        let p = pow2((k - 1) as nat) as int;
        lemma_pow2_unfold(k);
        let b = rest >= p;
        let c = base + 2 * (k - 1) + 1;
        let a2 = 2 * acc + if b {
            1int
        } else {
            0
        };
        let r2 = if b {
            rest - p
        } else {
            rest
        };
        assert((2 * acc) * p == acc * (2 * p)) by (nonlinear_arith);
        assert((2 * acc + 1) * p == (2 * acc) * p + p) by (nonlinear_arith);
        let t = bits_syms(base, (k - 1) as nat, r2);
        assert(bits_syms(base, k, rest) == seq![sym(c, b)] + t);
        lemma_syms_first(data, m, sym(c, b), t);
        let m1 = shrstream::s_code(data, m, c).1;
        lemma_read_bits(data, m1, base, (k - 1) as nat, r2, a2);
    }
}

/// A number is read as it was written.
proof fn lemma_read_number(data: Seq<u8>, m: DecSt, base: int, v: int)
    requires
        2 <= v <= 0x7fff_ffff,
        0 <= base < 1000,
    ensures
        after_syms(data, m, num_syms(base, v)) matches Some(m1) ==> shrstream::s_number(
            data,
            m,
            base,
        ) == Some((v, m1)),
{
    let top = num_top(v);
    lemma_num_top(v);
    lemma_top_small(v);
    let a = ones_syms(base, 0, top);
    let rest = v - pow2((top + 1) as nat);
    let b = bits_syms(base, (top + 1) as nat, rest);
    lemma_syms_concat(data, m, a, b);
    lemma_read_ones(data, m, base, 0, top);
    lemma_pow2_unfold((top + 2) as nat);
    if let Some(m1) = after_syms(data, m, a) {
        lemma_read_bits(data, m1, base, (top + 1) as nat, rest, 1);
        assert(1 * pow2((top + 1) as nat) == pow2((top + 1) as nat));
    }
}

// ---------------------------------------------------------------------------
// Token lists
// ---------------------------------------------------------------------------
/// A token that stands for the bytes at `p`, behind a token with offset `last`.
/// Two references in a row have different offsets.
pub open spec fn shr_op_ok(input: Seq<u8>, p: int, op: Op, last: int, after_ref: bool) -> bool {
    match op {
        Op::Literal(b) => 0 <= p < input.len() && b == input[p],
        Op::Match { offset, len } => {
            &&& lz::is_match(input, p, offset as int, len as int)
            &&& 2 <= len <= MAX_INPUT
            &&& offset <= MAX_INPUT
            &&& !(after_ref && offset == last)
        },
    }
}

/// The offset of the last reference before token `k`, or zero.
pub open spec fn last_before(ops: Seq<Op>, k: int) -> int
    decreases k,
{
    if k <= 0 {
        0
    } else {
        match ops[k - 1] {
            Op::Literal(_) => last_before(ops, k - 1),
            Op::Match { offset, len } => offset as int,
        }
    }
}

pub open spec fn ref_before(ops: Seq<Op>, k: int) -> bool {
    k > 0 && ops[k - 1] is Match
}

pub open spec fn shr_op_at(input: Seq<u8>, ops: Seq<Op>, k: int) -> bool {
    shr_op_ok(input, upkrenc::ops_pos(ops, k), ops[k], last_before(ops, k), ref_before(ops, k))
}

/// The tokens stand for the input.
pub open spec fn shr_ops_ok(input: Seq<u8>, ops: Seq<Op>) -> bool {
    &&& upkrenc::ops_pos(ops, ops.len() as int) == input.len()
    &&& forall|k: int| 0 <= k < ops.len() ==> #[trigger] shr_op_at(input, ops, k)
}

/// The bits of the first `k` tokens.
pub open spec fn all_syms(ops: Seq<Op>, k: int) -> Seq<Sym>
    decreases k,
{
    if k <= 0 {
        Seq::empty()
    } else {
        all_syms(ops, k - 1) + op_syms(
            ops[k - 1],
            upkrenc::ops_pos(ops, k - 1),
            last_before(ops, k - 1),
            ref_before(ops, k - 1),
        )
    }
}

/// The bits of the tokens and the end.
pub open spec fn stream_syms(ops: Seq<Op>) -> Seq<Sym> {
    all_syms(ops, ops.len() as int) + end_syms(ref_before(ops, ops.len() as int))
}

pub open spec fn shr_at(input: Seq<u8>, m: DecSt, p: int, last: int, after_ref: bool) -> ShrSt {
    ShrSt { m, out: input.take(p), last, after_ref }
}

proof fn lemma_read_literal(data: Seq<u8>, input: Seq<u8>, m: DecSt, p: int, last: int, after_ref: bool)
    requires
        0 <= p < input.len() <= MAX_INPUT,
    ensures
        after_syms(data, m, op_syms(Op::Literal(input[p]), p, last, after_ref)) matches Some(m1)
            ==> shrstream::s_step(data, shr_at(input, m, p, last, after_ref)) == ShrStep::Next(
            shr_at(input, m1, p + 1, last, false),
        ),
{
    let b = input[p];
    let head = if p > 0 {
        seq![sym(KIND as int, false)]
    } else {
        Seq::empty()
    };
    let lit = lit_syms(1, 8, b as int);
    lemma_syms_concat(data, m, head, lit);
    assert(pow2(8) == 256) by {
        vstd::arithmetic::power2::lemma2_to64();
    }
    if p > 0 {
        lemma_syms_first(data, m, sym(KIND as int, false), Seq::empty());
        assert(seq![sym(KIND as int, false)] + Seq::<Sym>::empty() =~= head);
    }
    if let Some(m1) = after_syms(data, m, head) {
        lemma_read_lit(data, m1, 1, 8, b as int);
        assert(input.take(p + 1) =~= input.take(p).push(b));
        assert(((256 + b) - 256) as u8 == b);
    }
}

#[verifier::rlimit(40)]
proof fn lemma_read_match(
    data: Seq<u8>,
    input: Seq<u8>,
    m: DecSt,
    p: int,
    offset: u32,
    len: u32,
    last: int,
    after_ref: bool,
)
    requires
        input.len() <= MAX_INPUT,
        shr_op_ok(input, p, Op::Match { offset, len }, last, after_ref),
    ensures
        after_syms(data, m, op_syms(Op::Match { offset, len }, p, last, after_ref)) matches Some(m1)
            ==> shrstream::s_step(data, shr_at(input, m, p, last, after_ref)) == ShrStep::Next(
            shr_at(input, m1, p + len, offset as int, true),
        ),
{
    let kind = sym(KIND as int, true);
    let flag = if after_ref {
        Seq::empty()
    } else {
        seq![sym(REPEATED as int, offset == last)]
    };
    let off = if offset == last {
        Seq::empty()
    } else {
        num_syms(OFFSETS as int, offset + 2)
    };
    let ln = num_syms(LENGTHS as int, len as int);
    lemma_syms_concat(data, m, seq![kind] + flag + off, ln);
    lemma_syms_concat(data, m, seq![kind] + flag, off);
    lemma_syms_first(data, m, kind, flag);
    let m1 = shrstream::s_code(data, m, KIND as int).1;
    if !after_ref {
        lemma_syms_first(data, m1, sym(REPEATED as int, offset == last), Seq::empty());
        assert(seq![sym(REPEATED as int, offset == last)] + Seq::<Sym>::empty() =~= flag);
    }
    if let Some(m2) = after_syms(data, m1, flag) {
        if offset != last {
            lemma_read_number(data, m2, OFFSETS as int, offset + 2);
        }
        if let Some(m3) = after_syms(data, m2, off) {
            lemma_read_number(data, m3, LENGTHS as int, len as int);
            lz::lemma_lz_copy_match(input, p, offset as int, len as int);
        }
    }
}

proof fn lemma_read_end(data: Seq<u8>, input: Seq<u8>, m: DecSt, last: int, after_ref: bool)
    requires
        0 < input.len() <= MAX_INPUT,
    ensures
        after_syms(data, m, end_syms(after_ref)) is Some ==> shrstream::s_step(
            data,
            shr_at(input, m, input.len() as int, last, after_ref),
        ) == ShrStep::End(input),
{
    let kind = sym(KIND as int, true);
    let flag = if after_ref {
        Seq::empty()
    } else {
        seq![sym(REPEATED as int, false)]
    };
    let off = num_syms(OFFSETS as int, 2);
    lemma_syms_concat(data, m, seq![kind] + flag, off);
    lemma_syms_first(data, m, kind, flag);
    let m1 = shrstream::s_code(data, m, KIND as int).1;
    if !after_ref {
        lemma_syms_first(data, m1, sym(REPEATED as int, false), Seq::empty());
        assert(seq![sym(REPEATED as int, false)] + Seq::<Sym>::empty() =~= flag);
    }
    if let Some(m2) = after_syms(data, m1, flag) {
        lemma_read_number(data, m2, OFFSETS as int, 2);
    }
    assert(input.take(input.len() as int) =~= input);
}

/// A stream that holds the first `k` tokens brings the decoder behind them.
proof fn lemma_read_ops(data: Seq<u8>, input: Seq<u8>, ops: Seq<Op>, m0: DecSt, k: int, f: nat)
    requires
        input.len() <= MAX_INPUT,
        shr_ops_ok(input, ops),
        0 <= k <= ops.len(),
    ensures
        after_syms(data, m0, all_syms(ops, k)) matches Some(m1) ==> shrstream::s_run(
            data,
            shr_at(input, m0, 0, 0, false),
            f + k as nat,
        ) == shrstream::s_run(
            data,
            shr_at(input, m1, upkrenc::ops_pos(ops, k), last_before(ops, k), ref_before(ops, k)),
            f,
        ),
    decreases k,
{
    if k > 0 {
        let p = upkrenc::ops_pos(ops, k - 1);
        let last = last_before(ops, k - 1);
        let after = ref_before(ops, k - 1);
        lemma_read_ops(data, input, ops, m0, k - 1, f + 1);
        assert(shr_op_at(input, ops, k - 1));
        lemma_syms_concat(data, m0, all_syms(ops, k - 1), op_syms(ops[k - 1], p, last, after));
        if let Some(m1) = after_syms(data, m0, all_syms(ops, k - 1)) {
            match ops[k - 1] {
                Op::Literal(b) => lemma_read_literal(data, input, m1, p, last, after),
                Op::Match { offset, len } => lemma_read_match(
                    data,
                    input,
                    m1,
                    p,
                    offset,
                    len,
                    last,
                    after,
                ),
            }
        }
    }
}

/// A stream that holds the tokens and the end gives the input.
proof fn lemma_read_stream(data: Seq<u8>, input: Seq<u8>, ops: Seq<Op>)
    requires
        0 < input.len() <= MAX_INPUT,
        shr_ops_ok(input, ops),
        after_syms(data, shrstream::s_init(data).m, stream_syms(ops)) is Some,
    ensures
        shrstream::shr_gives(data, input),
{
    let m0 = shrstream::s_init(data).m;
    let n = ops.len() as int;
    lemma_syms_concat(data, m0, all_syms(ops, n), end_syms(ref_before(ops, n)));
    lemma_read_ops(data, input, ops, m0, n, 1);
    let m1 = after_syms(data, m0, all_syms(ops, n)).unwrap();
    lemma_read_end(data, input, m1, last_before(ops, n), ref_before(ops, n));
    assert(input.take(0) =~= Seq::<u8>::empty());
    assert(shr_at(input, m0, 0, 0, false) == shrstream::s_init(data));
    assert(shrstream::s_run(data, shrstream::s_init(data), 1 + n as nat) == Some(input));
}

pub open spec fn syms_ok(syms: Seq<Sym>) -> bool {
    forall|k: int| 0 <= k < syms.len() ==> (#[trigger] syms[k]).ctx < CONTEXTS
}

// ---------------------------------------------------------------------------
// Writing
// ---------------------------------------------------------------------------
/// Appends the bits of a number.
fn encode_number(list: &mut Vec<Sym>, base: usize, v: u32)
    requires
        2 <= v <= 0x7fff_ffff,
        base + 70 <= CONTEXTS,
        syms_ok(old(list)@),
    ensures
        syms_ok(final(list)@),
        final(list)@ == old(list)@ + num_syms(base as int, v as int),
{
    let ghost l0 = list@;
    let ghost top = num_top(v as int);
    let mut i: usize = 0;
    let mut unit: u32 = 2;
    proof {
        lemma_num_top(v as int);
        lemma_top_small(v as int);
        vstd::arithmetic::power2::lemma2_to64();
    }
    while v / 2 >= unit
        invariant
            syms_ok(list@),
            2 <= v <= 0x7fff_ffff,
            base + 70 <= CONTEXTS,
            i <= top < 30,
            top == num_top(v as int),
            pow2((top + 1) as nat) <= v < pow2((top + 2) as nat),
            unit == pow2((i + 1) as nat),
            unit <= v,
            list@ + ones_syms(base as int, i as int, top) == l0 + ones_syms(base as int, 0, top),
        decreases top - i,
    {
        proof {
            lemma_pow2_unfold((i + 2) as nat);
            if i == top {
                assert(false);
            }
        }
        let ghost l1 = list@;
        list.push(Sym { ctx: (base + 2 * i + 2) as u16, bit: true });
        proof {
            let rest = ones_syms(base as int, i + 1, top);
            assert(list@ + rest =~= l1 + (seq![sym(base + 2 * i + 2, true)] + rest));
        }
        i += 1;
        unit = unit * 2;
    }
    proof {
        lemma_pow2_unfold((i + 2) as nat);
        if i < top {
            if i + 2 < top + 1 {
                vstd::arithmetic::power2::lemma_pow2_strictly_increases((i + 2) as nat, (top + 1) as nat);
            }
            assert(false);
        }
    }
    let ghost l2 = list@;
    list.push(Sym { ctx: (base + 2 * i + 2) as u16, bit: false });
    assert(list@ =~= l2 + ones_syms(base as int, i as int, top));
    let ghost l3 = list@;
    let mut rest: u32 = v - unit;
    let mut k: usize = i + 1;
    let ghost all = bits_syms(base as int, (top + 1) as nat, v - unit);
    proof {
        lemma_pow2_unfold((top + 2) as nat);
    }
    while k > 0
        invariant
            syms_ok(list@),
            base + 70 <= CONTEXTS,
            k <= 30,
            unit == pow2(k as nat),
            rest < unit,
            list@ + bits_syms(base as int, k as nat, rest as int) == l3 + all,
        decreases k,
    {
        proof {
            lemma_pow2_unfold(k as nat);
        }
        let ghost l4 = list@;
        unit = unit / 2;
        k -= 1;
        let bit: bool = rest >= unit;
        list.push(Sym { ctx: (base + 2 * k + 1) as u16, bit });
        if bit {
            rest = rest - unit;
        }
        proof {
            let tail = bits_syms(base as int, k as nat, rest as int);
            assert(list@ + tail =~= l4 + (seq![sym(base + 2 * k + 1, bit)] + tail));
        }
    }
    proof {
        assert(list@ + Seq::<Sym>::empty() =~= list@);
        assert(list@ =~= l0 + (ones_syms(base as int, 0, top) + all));
    }
}

/// Appends the bits of a byte.
fn encode_byte(list: &mut Vec<Sym>, byte: u8)
    requires
        syms_ok(old(list)@),
    ensures
        syms_ok(final(list)@),
        final(list)@ == old(list)@ + lit_syms(1, 8, byte as int),
{
    let ghost l0 = list@;
    let mut node: u16 = 1;
    let mut unit: u16 = 256;
    let mut rest: u16 = byte as u16;
    let mut k: usize = 8;
    proof {
        vstd::arithmetic::power2::lemma2_to64();
    }
    while k > 0
        invariant
            syms_ok(list@),
            k <= 8,
            unit == pow2(k as nat),
            unit <= 256,
            rest < unit,
            node * unit + rest < 512,
            node >= 1,
            list@ + lit_syms(node as int, k as nat, rest as int) == l0 + lit_syms(1, 8, byte as int),
        decreases k,
    {
        proof {
            lemma_pow2_unfold(k as nat);
            lemma_pow2_pos((k - 1) as nat);
        }
        let ghost l1 = list@;
        let ghost u0 = unit as int;
        let ghost n0 = node as int;
        proof {
            assert(n0 * 2 <= n0 * u0) by (nonlinear_arith)
                requires
                    n0 >= 1,
                    u0 >= 2,
            ;
        }
        unit = unit / 2;
        k -= 1;
        let bit: bool = rest >= unit;
        list.push(Sym { ctx: node + 1, bit });
        if bit {
            rest = rest - unit;
            node = 2 * node + 1;
        } else {
            node = 2 * node;
        }
        proof {
            let tail = lit_syms(node as int, k as nat, rest as int);
            assert(list@ + tail =~= l1 + (seq![sym(1 + n0, bit)] + tail));
            let u = unit as int;
            assert((2 * n0) * u == n0 * (2 * u)) by (nonlinear_arith);
            assert((2 * n0 + 1) * u == (2 * n0) * u + u) by (nonlinear_arith);
        }
    }
    assert(list@ + Seq::<Sym>::empty() =~= list@);
}

/// The bits of a list of tokens and the end.
pub fn symbols(ops: &Vec<Op>, Ghost(input): Ghost<Seq<u8>>) -> (list: Vec<Sym>)
    requires
        shr_ops_ok(input, ops@),
        input.len() <= MAX_INPUT,
    ensures
        list@ == stream_syms(ops@),
        list@.len() > 0,
        syms_ok(list@),
{
    let n: usize = ops.len();
    let mut list: Vec<Sym> = Vec::new();
    let mut last: u32 = 0;
    let mut after_ref: bool = false;
    let mut first: bool = true;
    let mut k: usize = 0;
    while k < n
        invariant
            n == ops@.len(),
            k <= n,
            shr_ops_ok(input, ops@),
            syms_ok(list@),
            list@ == all_syms(ops@, k as int),
            last == last_before(ops@, k as int),
            after_ref == ref_before(ops@, k as int),
            first == (upkrenc::ops_pos(ops@, k as int) == 0),
            upkrenc::ops_pos(ops@, k as int) >= 0,
        decreases n - k,
    {
        let ghost l0 = list@;
        let ghost p = upkrenc::ops_pos(ops@, k as int);
        proof {
            assert(shr_op_at(input, ops@, k as int));
        }
        match ops[k] {
            Op::Literal(b) => {
                if !first {
                    list.push(Sym { ctx: KIND as u16, bit: false });
                    assert(list@ =~= l0 + seq![sym(KIND as int, false)]);
                } else {
                    assert(list@ =~= l0 + Seq::<Sym>::empty());
                }
                let ghost l1 = list@;
                encode_byte(&mut list, b);
                assert(list@ =~= l0 + op_syms(ops@[k as int], p, last as int, after_ref));
                after_ref = false;
            },
            Op::Match { offset, len } => {
                list.push(Sym { ctx: KIND as u16, bit: true });
                let ghost l1 = list@;
                assert(l1 =~= l0 + seq![sym(KIND as int, true)]);
                if !after_ref {
                    list.push(Sym { ctx: REPEATED as u16, bit: offset == last });
                }
                let ghost l2 = list@;
                assert(l2 =~= l1 + (if after_ref {
                    Seq::empty()
                } else {
                    seq![sym(REPEATED as int, offset == last)]
                }));
                if offset != last {
                    encode_number(&mut list, OFFSETS, offset + 2);
                }
                let ghost l3 = list@;
                assert(l3 =~= l2 + (if offset == last {
                    Seq::empty()
                } else {
                    num_syms(OFFSETS as int, offset + 2)
                }));
                encode_number(&mut list, LENGTHS, len);
                assert(list@ =~= l0 + op_syms(ops@[k as int], p, last as int, after_ref));
                last = offset;
                after_ref = true;
            },
        }
        first = false;
        k += 1;
    }
    let ghost l0 = list@;
    list.push(Sym { ctx: KIND as u16, bit: true });
    if !after_ref {
        list.push(Sym { ctx: REPEATED as u16, bit: false });
    }
    encode_number(&mut list, OFFSETS, 2);
    assert(list@ =~= l0 + end_syms(after_ref));
    list
}

/// The interval and the probabilities after the first `k` bits.
pub open spec fn coded_at(syms: Seq<Sym>, k: int) -> (shrcoder::RcEnc, Seq<u16>)
    decreases k,
{
    if k <= 0 {
        (shrcoder::enc_start(), Seq::new(CONTEXTS as nat, |i: int| 0x8000u16))
    } else {
        let (e, ctx) = coded_at(syms, k - 1);
        let s = syms[k - 1];
        let p = ctx[s.ctx as int];
        (
            shrcoder::enc_bit(e, p as int, s.bit),
            ctx.update(s.ctx as int, shrcoder::rc_adapt(p, s.bit) as u16),
        )
    }
}

/// The interval that a list of bits leads to.
pub open spec fn coded(syms: Seq<Sym>) -> shrcoder::RcEnc {
    coded_at(syms, syms.len() as int).0
}

/// What a list of bits takes before the last bits, in 64ths of a bit: the
/// doublings of the interval, and how far its size is from 65536.
pub open spec fn coded_size(syms: Seq<Sym>) -> int {
    let e = coded(syms);
    64 * e.d + shrcost::in_64ths(shrcost::log2_fixed(256, 128 + (e.size - 0x8000) / 256))
}

/// The table of distances from 65536.
pub open spec fn table_right(table: Seq<u32>) -> bool {
    &&& table.len() == 128
    &&& forall|i: int|
        0 <= i < 128 ==> #[trigger] table[i] == shrcost::in_64ths(
            shrcost::log2_fixed(256, 128 + i),
        )
}

/// Codes a list of bits. Returns the stream with its length before the last
/// bits, in 64ths of a bit: the doublings of the interval, and what `table` has
/// for its size.
pub fn code_symbols(list: &Vec<Sym>, table: &Vec<u32>) -> (r: (Vec<u8>, u128))
    requires
        syms_ok(list@),
        table_right(table@),
    ensures
        r.1 == coded_size(list@),
        r.0@ == shrcoder::finished(coded(list@)),
        shrcoder::inside(r.0@, coded(list@)),
        after_syms(r.0@, shrstream::s_init(r.0@).m, list@) is Some,
        list@.len() > 0 ==> r.0@.len() > 0,
{
    let n: usize = list.len();
    let mut ctx: Vec<u16> = fresh_contexts();
    let mut rc: RangeCoder = RangeCoder::new();
    let ghost c0 = ctx@;
    let mut k: usize = 0;
    proof {
        assert(list@.take(0) =~= Seq::<Sym>::empty());
        assert forall|data: Seq<u8>| #[trigger] shrcoder::inside(data, rc@) implies after_syms(
            data,
            shrstream::s_init(data).m,
            list@.take(0),
        ) == Some(DecSt { st: shrcoder::rc_at(data, rc@), ctx: ctx@ }) by {
            shrcoder::lemma_rc_start(data);
        }
    }
    while k < n
        invariant
            n == list@.len(),
            k <= n,
            syms_ok(list@),
            rc.wf(),
            shrstream::ctx_good(ctx@),
            k == 0 ==> rc@.size == 0x8000,
            rc@.d >= 0,
            k > 0 ==> rc@.d >= 1,
            coded_at(list@, k as int) == (rc@, ctx@),
            forall|data: Seq<u8>| #[trigger]
                shrcoder::inside(data, rc@) ==> after_syms(
                    data,
                    shrstream::s_init(data).m,
                    list@.take(k as int),
                ) == Some(DecSt { st: shrcoder::rc_at(data, rc@), ctx: ctx@ }),
        decreases n - k,
    {
        let ghost e0 = rc@;
        let ghost x0 = ctx@;
        let s: Sym = list[k];
        assert(list@[k as int].ctx < CONTEXTS);
        let i: usize = s.ctx as usize;
        let p: u16 = ctx[i];
        assert(ctx@[i as int] >= 2);
        rc.code(p, s.bit);
        let q: u16 = adapt(p, s.bit);
        ctx.set(i, q);
        proof {
            assert forall|j: int| 0 <= j < ctx@.len() implies 2 <= #[trigger] ctx@[j] by {
                if j != i {
                    assert(ctx@[j] == x0[j]);
                }
            }
            let a = list@.take(k as int);
            let b = list@.take(k + 1);
            assert(b =~= a + (seq![s] + Seq::<Sym>::empty()));
            assert forall|data: Seq<u8>| #[trigger] shrcoder::inside(data, rc@) implies after_syms(
                data,
                shrstream::s_init(data).m,
                b,
            ) == Some(DecSt { st: shrcoder::rc_at(data, rc@), ctx: ctx@ }) by {
                assert(shrcoder::inside(data, e0));
                let m = DecSt { st: shrcoder::rc_at(data, e0), ctx: x0 };
                lemma_syms_concat(
                    data,
                    shrstream::s_init(data).m,
                    a,
                    seq![s] + Seq::<Sym>::empty(),
                );
                lemma_syms_first(data, m, s, Seq::empty());
            }
        }
        k += 1;
    }
    let size: u128 = rc.measure(table);
    let ghost e = rc@;
    assert(coded(list@) == e);
    assert(table@[(e.size - 0x8000) / 256] == shrcost::in_64ths(
        shrcost::log2_fixed(256, 128 + (e.size - 0x8000) / 256),
    ));
    let out: Vec<u8> = rc.finish();
    proof {
        assert(shrcoder::inside(out@, e));
        assert(list@.take(n as int) =~= list@);
    }
    (out, size)
}

/// Codes a list of tokens. Returns the stream with the measure of its length.
pub fn encode(ops: &Vec<Op>, input: &[u8], table: &Vec<u32>) -> (r: (Vec<u8>, u128))
    requires
        0 < input@.len() <= MAX_INPUT,
        shr_ops_ok(input@, ops@),
        table_right(table@),
    ensures
        r.1 == coded_size(stream_syms(ops@)),
        r.0@ == shrcoder::finished(coded(stream_syms(ops@))),
        r.0@.len() > 0,
        shrstream::shr_decoded(r.0@) == Some(input@),
{
    let list: Vec<Sym> = symbols(ops, Ghost(input@));
    let r: (Vec<u8>, u128) = code_symbols(&list, table);
    proof {
        lemma_read_stream(r.0@, input@, ops@);
        shrstream::lemma_shr_decoded(r.0@, input@);
    }
    r
}

} // verus!
