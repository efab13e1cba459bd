//! Encoder of upkr streams: tokens become bits with their probabilities, which
//! are then coded from the last to the first.
use crate::upkrstream::{new_contexts, next_prob, Config, UState, UStep, URead};
use crate::urans::{finish, Coded, RansSt};
use vstd::arithmetic::power2::{lemma_pow2_pos, lemma_pow2_unfold, pow2};
use crate::lz;
use crate::uparse;
use crate::uparse::{adapted, byte_bits, len_bits, literal_bits, match_bits};
use crate::upkrstream;
use crate::urans;
use vstd::prelude::*;

verus! {

/// A token.
#[derive(Clone, Copy, Debug)]
pub enum Op {
    Literal(u8),
    Match { offset: u32, len: u32 },
}

pub open spec fn op_len(op: Op) -> int {
    match op {
        Op::Literal(_) => 1,
        Op::Match { offset, len } => len as int,
    }
}

/// The token stands for the bytes of the input at `p`.
pub open spec fn op_ok(input: Seq<u8>, c: Config, p: int, op: Op) -> bool {
    match op {
        Op::Literal(b) => 0 <= p < input.len() && b == input[p],
        Op::Match { offset, len } => {
            &&& lz::is_match(input, p, offset as int, len as int)
            &&& upkrstream::min_len(c) <= len <= c.max_length
            &&& offset <= c.max_offset
            &&& offset < 0xffff_ffff
        },
    }
}

/// Where token `k` starts.
pub open spec fn ops_pos(ops: Seq<Op>, k: int) -> int
    decreases k,
{
    if k <= 0 {
        0
    } else {
        ops_pos(ops, k - 1) + op_len(ops[k - 1])
    }
}

/// The tokens stand for the input.
pub open spec fn ops_ok(input: Seq<u8>, c: Config, ops: Seq<Op>) -> bool {
    &&& ops_pos(ops, ops.len() as int) == input.len()
    &&& forall|k: int| 0 <= k < ops.len() ==> #[trigger] op_ok(input, c, ops_pos(ops, k), ops[k])
}

// ---------------------------------------------------------------------------
// What was written
// ---------------------------------------------------------------------------
pub open spec fn extends(a: Seq<Coded>, b: Seq<Coded>) -> bool {
    a.len() <= b.len() && b.take(a.len() as int) == a
}

pub open spec fn delta(a: Seq<Coded>, b: Seq<Coded>) -> Seq<Coded> {
    b.skip(a.len() as int)
}

proof fn lemma_delta(data: Seq<u8>, c: Config, s: RansSt, a: Seq<Coded>, b: Seq<Coded>, e: Seq<Coded>)
    requires
        extends(a, b),
        extends(b, e),
    ensures
        extends(a, e),
        urans::after_bits(data, upkrstream::rans_mode(c), s, delta(a, e)) == match urans::after_bits(
            data,
            upkrstream::rans_mode(c),
            s,
            delta(a, b),
        ) {
            None => None::<RansSt>,
            Some(s1) => urans::after_bits(data, upkrstream::rans_mode(c), s1, delta(b, e)),
        },
{
    assert(e.take(a.len() as int) =~= e.take(b.len() as int).take(a.len() as int));
    assert(delta(a, e) =~= delta(a, b) + delta(b, e)) by {
        assert forall|k: int| 0 <= k < delta(a, e).len() implies delta(a, e)[k] == (delta(a, b)
            + delta(b, e))[k] by {
            if k < delta(a, b).len() {
                assert(e.take(b.len() as int)[a.len() + k] == e[a.len() + k]);
            }
        }
    }
    urans::lemma_after_concat(data, upkrstream::rans_mode(c), s, delta(a, b), delta(b, e));
}

/// A stream that holds what was written between `a` and `b` gives `bit` in
/// context `i`.
spec fn wrote_bit(
    c: Config,
    a: Seq<Coded>,
    actx: Seq<u8>,
    b: Seq<Coded>,
    bctx: Seq<u8>,
    i: int,
    bit: bool,
) -> bool {
    &&& extends(a, b)
    &&& forall|data: Seq<u8>, s: RansSt|
        (#[trigger] urans::after_bits(data, upkrstream::rans_mode(c), s, delta(a, b))) matches Some(
            s1,
        ) ==> upkrstream::u_bit(data, c, URead { st: s, ctx: actx }, i) == Some(
            (bit, URead { st: s1, ctx: bctx }),
        )
}

spec fn wrote_len(
    c: Config,
    a: Seq<Coded>,
    actx: Seq<u8>,
    b: Seq<Coded>,
    bctx: Seq<u8>,
    i: int,
    v: int,
) -> bool {
    &&& extends(a, b)
    &&& forall|data: Seq<u8>, s: RansSt|
        (#[trigger] urans::after_bits(data, upkrstream::rans_mode(c), s, delta(a, b))) matches Some(
            s1,
        ) ==> upkrstream::u_len(data, c, URead { st: s, ctx: actx }, i) == Some(
            (v, URead { st: s1, ctx: bctx }),
        )
}

spec fn wrote_lit(
    c: Config,
    a: Seq<Coded>,
    actx: Seq<u8>,
    b: Seq<Coded>,
    bctx: Seq<u8>,
    base: int,
    v: int,
) -> bool {
    &&& extends(a, b)
    &&& forall|data: Seq<u8>, s: RansSt|
        (#[trigger] urans::after_bits(data, upkrstream::rans_mode(c), s, delta(a, b))) matches Some(
            s1,
        ) ==> upkrstream::u_lit(data, c, URead { st: s, ctx: actx }, base) == Some(
            (v, URead { st: s1, ctx: bctx }),
        )
}

spec fn wrote_fresh(
    c: Config,
    a: Seq<Coded>,
    actx: Seq<u8>,
    b: Seq<Coded>,
    bctx: Seq<u8>,
    prev: bool,
    fresh: bool,
) -> bool {
    &&& extends(a, b)
    &&& forall|data: Seq<u8>, s: RansSt|
        (#[trigger] urans::after_bits(data, upkrstream::rans_mode(c), s, delta(a, b))) matches Some(
            s1,
        ) ==> upkrstream::u_fresh(data, c, prev, URead { st: s, ctx: actx }) == Some(
            (fresh, URead { st: s1, ctx: bctx }),
        )
}

/// The bits with the probabilities that they are coded with, from the state `ctx`.
pub open spec fn coded_of(c: Config, ctx: Seq<u8>, bits: Seq<(int, bool)>) -> Seq<Coded>
    decreases bits.len(),
{
    if bits.len() == 0 {
        Seq::empty()
    } else {
        let before = bits.drop_last();
        coded_of(c, ctx, before).push(
            Coded {
                bit: bits.last().1 != c.invert_bit_encoding,
                prob: adapted(c, ctx, before)[bits.last().0],
            },
        )
    }
}

proof fn lemma_coded_join(c: Config, ctx: Seq<u8>, a: Seq<(int, bool)>, b: Seq<(int, bool)>)
    ensures
        coded_of(c, ctx, a + b) == coded_of(c, ctx, a) + coded_of(c, adapted(c, ctx, a), b),
        adapted(c, ctx, a + b) == adapted(c, adapted(c, ctx, a), b),
    decreases b.len(),
{
    uparse::lemma_adapted_join(c, ctx, a, b);
    if b.len() == 0 {
        assert(a + b =~= a);
        assert(coded_of(c, ctx, a) + Seq::<Coded>::empty() =~= coded_of(c, ctx, a));
    } else {
        assert((a + b).drop_last() =~= a + b.drop_last());
        lemma_coded_join(c, ctx, a, b.drop_last());
        assert(coded_of(c, ctx, a + b) =~= coded_of(c, ctx, a) + coded_of(
            c,
            adapted(c, ctx, a),
            b,
        ));
    }
}

/// `b` is the list `a` with these bits behind it.
spec fn wrote_bits(c: Config, a: BitList, b: BitList, bits: Seq<(int, bool)>) -> bool {
    &&& b.coded@ == a.coded@ + coded_of(c, a.ctx@, bits)
    &&& b.ctx@ == adapted(c, a.ctx@, bits)
}

proof fn lemma_wrote(
    c: Config,
    a: BitList,
    b: BitList,
    e: BitList,
    x: Seq<(int, bool)>,
    y: Seq<(int, bool)>,
)
    requires
        wrote_bits(c, a, b, x),
        wrote_bits(c, b, e, y),
    ensures
        wrote_bits(c, a, e, x + y),
{
    lemma_coded_join(c, a.ctx@, x, y);
    assert(e.coded@ =~= a.coded@ + coded_of(c, a.ctx@, x + y));
}

proof fn lemma_wrote_none(c: Config, a: BitList)
    ensures
        wrote_bits(c, a, a, Seq::empty()),
{
    assert(a.coded@ + Seq::<Coded>::empty() =~= a.coded@);
}

/// The bit that says whether a match has a new offset, where that is open.
pub open spec fn fresh_bits(c: Config, prev: bool, fresh: bool) -> Seq<(int, bool)> {
    if !prev && !c.no_repeated_offsets {
        seq![(256 * c.parity_contexts, fresh == c.new_offset_bit)]
    } else {
        Seq::empty()
    }
}

/// The bits of the end at `pos`.
pub open spec fn eof_bits(c: Config, pos: int, prev: bool) -> Seq<(int, bool)> {
    let fresh = !c.eof_in_length || prev || c.no_repeated_offsets;
    seq![(upkrstream::lit_base(c, pos), c.is_match_bit)] + fresh_bits(c, prev, fresh) + (if fresh {
        len_bits(c, 256 * c.parity_contexts + 1, 1, 0)
    } else {
        Seq::empty()
    }) + (if c.eof_in_length {
        len_bits(c, 256 * c.parity_contexts + 65, 1, 0)
    } else {
        Seq::empty()
    })
}

/// The last offset before token `k`, or 0.
pub open spec fn last_of(ops: Seq<Op>, k: int) -> u32
    decreases k,
{
    if k <= 0 {
        0
    } else {
        match ops[k - 1] {
            Op::Literal(_) => last_of(ops, k - 1),
            Op::Match { offset, len } => offset,
        }
    }
}

/// The bits of token `k`.
pub open spec fn op_bits(c: Config, ops: Seq<Op>, k: int) -> Seq<(int, bool)> {
    let p = ops_pos(ops, k);
    match ops[k] {
        Op::Literal(b) => literal_bits(c, p, b),
        Op::Match { offset, len } => match_bits(
            c,
            p,
            offset,
            len,
            last_of(ops, k),
            k > 0 && ops[k - 1] is Match,
        ),
    }
}

/// The bits of the first `k` tokens.
pub open spec fn ops_bits(c: Config, ops: Seq<Op>, k: int) -> Seq<(int, bool)>
    decreases k,
{
    if k <= 0 {
        Seq::empty()
    } else {
        ops_bits(c, ops, k - 1) + op_bits(c, ops, k - 1)
    }
}

/// The bits of a whole stream.
pub open spec fn all_bits(c: Config, ops: Seq<Op>) -> Seq<(int, bool)> {
    let n = ops.len() as int;
    ops_bits(c, ops, n) + eof_bits(c, ops_pos(ops, n), n > 0 && ops[n - 1] is Match)
}

/// The bytes of the stream of a list of tokens.
pub open spec fn ops_bytes(c: Config, ops: Seq<Op>) -> Seq<u8> {
    urans::rans_bytes(
        upkrstream::rans_mode(c),
        coded_of(c, upkrstream::ctx_start(c), all_bits(c, ops)),
    )
}

/// The list of bits and the contexts.
pub struct BitList {
    pub coded: Vec<Coded>,
    pub ctx: Vec<u8>,
}

impl BitList {
    spec fn ok(&self, c: Config) -> bool {
        &&& upkrstream::ctx_ok(c, self.ctx@)
        &&& forall|k: int| 0 <= k < self.coded@.len() ==> 1 <= (#[trigger] self.coded@[k]).prob
    }

    fn encode_bit(&mut self, c: &Config, i: usize, bit: bool)
        requires
            old(self).ok(*c),
            i < upkrstream::ctx_count(*c),
        ensures
            final(self).ok(*c),
            wrote_bit(
                *c,
                old(self).coded@,
                old(self).ctx@,
                final(self).coded@,
                final(self).ctx@,
                i as int,
                bit,
            ),
            wrote_bits(*c, *old(self), *final(self), seq![(i as int, bit)]),
    {
        let ghost a = self.coded@;
        let ghost actx = self.ctx@;
        let p: u8 = self.ctx[i];
        assert(self.ctx@[i as int] >= 1);
        let b: bool = bit != c.invert_bit_encoding;
        self.coded.push(Coded { bit: b, prob: p });
        self.ctx.set(i, next_prob(p, b, c.simplified_prob_update));
        assert forall|k: int| 0 <= k < self.ctx@.len() implies 1 <= #[trigger] self.ctx@[k] by {
            if k != i {
                assert(self.ctx@[k] == actx[k]);
            }
        }
        proof {
            let e = self.coded@;
            let one = Coded { bit: b, prob: p };
            assert(e.take(a.len() as int) =~= a);
            assert(delta(a, e) =~= seq![one]);
            let bits = seq![(i as int, bit)];
            assert(bits.drop_last() =~= Seq::empty());
            assert(coded_of(*c, actx, bits.drop_last()) == Seq::<Coded>::empty());
            assert(adapted(*c, actx, bits.drop_last()) == actx);
            assert(bits.last() == (i as int, bit));
            assert(coded_of(*c, actx, bits) =~= seq![one]);
            assert(e =~= a + seq![one]);
            assert(self.ctx@ =~= adapted(*c, actx, bits));
            assert(seq![one].skip(1) =~= Seq::<Coded>::empty());
            assert forall|data: Seq<u8>, s: RansSt|
                (#[trigger] urans::after_bits(
                    data,
                    upkrstream::rans_mode(*c),
                    s,
                    delta(a, e),
                )) matches Some(s1) ==> upkrstream::u_bit(
                    data,
                    *c,
                    URead { st: s, ctx: actx },
                    i as int,
                ) == Some((bit, URead { st: s1, ctx: self.ctx@ })) by {
                reveal_with_fuel(urans::after_bits, 2);
                assert(seq![one][0] == one);
            }
        }
    }

    /// Writes a number.
    #[verifier::rlimit(40)]
    fn encode_length(&mut self, c: &Config, i: usize, value: u32)
        requires
            old(self).ok(*c),
            i + 64 <= upkrstream::ctx_count(*c),
            value >= 1,
        ensures
            final(self).ok(*c),
            wrote_len(
                *c,
                old(self).coded@,
                old(self).ctx@,
                final(self).coded@,
                final(self).ctx@,
                i as int,
                value as int,
            ),
            wrote_bits(
                *c,
                *old(self),
                *final(self),
                len_bits(*c, i as int, value as int, 0),
            ),
    {
        let ghost start = *self;
        let ghost whole = len_bits(*c, i as int, value as int, 0);
        let ghost mut done: Seq<(int, bool)> = Seq::empty();
        proof {
            lemma_wrote_none(*c, start);
            assert(done + whole =~= whole);
        }
        let ghost a = self.coded@;
        let ghost actx = self.ctx@;
        let ghost m = upkrstream::rans_mode(*c);
        let n: usize = self.ctx.len();
        let mut v: u32 = value;
        let mut k: usize = 0;
        let ghost mut acc: int = 0;
        proof {
            assert(pow2(0) == 1) by {
                vstd::arithmetic::power2::lemma2_to64();
            }
            assert(a.take(a.len() as int) =~= a);
            assert(delta(a, a) =~= Seq::<Coded>::empty());
        }
        while v >= 2
            invariant
                self.ok(*c),
                m == upkrstream::rans_mode(*c),
                n == upkrstream::ctx_count(*c),
                i + 64 <= n,
                k <= 31,
                v >= 1,
                value == acc + v * pow2(k as nat),
                acc >= 0,
                start == *old(self),
                whole == len_bits(*c, i as int, value as int, 0),
                done + len_bits(*c, i as int, v as int, k as int) == whole,
                wrote_bits(*c, start, *self, done),
                extends(a, self.coded@),
                forall|data: Seq<u8>, s: RansSt|
                    (#[trigger] urans::after_bits(data, m, s, delta(a, self.coded@))) matches Some(
                        s1,
                    ) ==> upkrstream::u_len(data, *c, URead { st: s, ctx: actx }, i as int)
                        == upkrstream::u_len_from(
                        data,
                        *c,
                        URead { st: s1, ctx: self.ctx@ },
                        i as int,
                        k as nat,
                        acc,
                    ),
            decreases v,
        {
            let ghost b0 = self.coded@;
            let ghost c0 = self.ctx@;
            let ghost k0 = k as nat;
            let ghost acc0 = acc;
            let ghost p = pow2(k0) as int;
            proof {
                lemma_pow2_unfold(k0 + 1);
                lemma_pow2_pos(k0);
                lemma_halves(v as int, p, acc);
                lemma_value_bits(value as int, acc, v as int, k0);
            }
            let ghost s0 = *self;
            self.encode_bit(c, i + 2 * k, c.continue_value_bit);
            let ghost b1 = self.coded@;
            let ghost c1 = self.ctx@;
            let ghost s1 = *self;
            let odd: bool = v % 2 == 1;
            self.encode_bit(c, i + 2 * k + 1, odd);
            let ghost b2 = self.coded@;
            proof {
                let x = seq![(i + 2 * k, c.continue_value_bit)];
                let y = seq![(i + 2 * k + 1, odd)];
                lemma_wrote(*c, start, s0, s1, done, x);
                lemma_wrote(*c, start, s1, *self, done + x, y);
                assert(done + x + y + len_bits(*c, i as int, (v / 2) as int, k + 1) =~= done
                    + len_bits(*c, i as int, v as int, k as int));
                done = done + x + y;
                acc = acc + if odd {
                    p
                } else {
                    0int
                };
                assert forall|data: Seq<u8>, s: RansSt|
                    (#[trigger] urans::after_bits(data, m, s, delta(a, b2))) matches Some(s1)
                        ==> upkrstream::u_len(data, *c, URead { st: s, ctx: actx }, i as int)
                        == upkrstream::u_len_from(
                        data,
                        *c,
                        URead { st: s1, ctx: self.ctx@ },
                        i as int,
                        k0 + 1,
                        acc,
                    ) by {
                    lemma_delta(data, *c, s, a, b0, b1);
                    lemma_delta(data, *c, s, a, b1, b2);
                    if let Some(x0) = urans::after_bits(data, m, s, delta(a, b0)) {
                        if let Some(x1) = urans::after_bits(data, m, x0, delta(b0, b1)) {
                            assert(urans::after_bits(data, m, s, delta(a, b1)) == Some(x1));
                            if let Some(x2) = urans::after_bits(data, m, x1, delta(b1, b2)) {
                                assert(upkrstream::u_bit(
                                    data,
                                    *c,
                                    URead { st: x0, ctx: c0 },
                                    i + 2 * k0,
                                ) == Some((c.continue_value_bit, URead { st: x1, ctx: c1 })));
                                assert(upkrstream::u_bit(
                                    data,
                                    *c,
                                    URead { st: x1, ctx: c1 },
                                    i + 2 * k0 + 1,
                                ) == Some((odd, URead { st: x2, ctx: self.ctx@ })));
                            }
                        }
                    }
                }
                lemma_delta(Seq::empty(), *c, RansSt { x: 0, pos: 0 }, a, b0, b1);
                lemma_delta(Seq::empty(), *c, RansSt { x: 0, pos: 0 }, a, b1, b2);
            }
            v = v / 2;
            k += 1;
        }
        let ghost b0 = self.coded@;
        let ghost c0 = self.ctx@;
        let ghost s0 = *self;
        self.encode_bit(c, i + 2 * k, !c.continue_value_bit);
        proof {
            lemma_wrote(*c, start, s0, *self, done, seq![(i + 2 * k, !c.continue_value_bit)]);
            let b1 = self.coded@;
            assert(v == 1);
            assert(v * pow2(k as nat) == pow2(k as nat)) by (nonlinear_arith)
                requires
                    v == 1,
            ;
            lemma_delta(Seq::empty(), *c, RansSt { x: 0, pos: 0 }, a, b0, b1);
            assert forall|data: Seq<u8>, s: RansSt|
                (#[trigger] urans::after_bits(data, m, s, delta(a, b1))) matches Some(s1)
                    ==> upkrstream::u_len(data, *c, URead { st: s, ctx: actx }, i as int) == Some(
                    (value as int, URead { st: s1, ctx: self.ctx@ }),
                ) by {
                lemma_delta(data, *c, s, a, b0, b1);
                if let Some(x0) = urans::after_bits(data, m, s, delta(a, b0)) {
                    if let Some(x1) = urans::after_bits(data, m, x0, delta(b0, b1)) {
                        assert(upkrstream::u_bit(
                            data,
                            *c,
                            URead { st: x0, ctx: c0 },
                            i + 2 * k,
                        ) == Some((!c.continue_value_bit, URead { st: x1, ctx: self.ctx@ })));
                    }
                }
            }
        }
    }

    /// Writes a literal byte.
    #[verifier::rlimit(40)]
    fn encode_literal(&mut self, c: &Config, base: usize, byte: u8)
        requires
            old(self).ok(*c),
            base + 256 <= upkrstream::ctx_count(*c),
        ensures
            final(self).ok(*c),
            wrote_lit(
                *c,
                old(self).coded@,
                old(self).ctx@,
                final(self).coded@,
                final(self).ctx@,
                base as int,
                byte as int,
            ),
            wrote_bits(*c, *old(self), *final(self), byte_bits(base as int, 1, byte as int, 0)),
    {
        let ghost start = *self;
        let ghost whole = byte_bits(base as int, 1, byte as int, 0);
        let ghost mut done: Seq<(int, bool)> = Seq::empty();
        let ghost mut high: int = byte as int;
        proof {
            lemma_wrote_none(*c, start);
            assert(done + whole =~= whole);
        }
        let ghost a = self.coded@;
        let ghost actx = self.ctx@;
        let ghost m = upkrstream::rans_mode(*c);
        let n: usize = self.ctx.len();
        let mut node: usize = 1;
        let mut k: usize = 0;
        let mut unit: usize = 128;
        let mut rest: usize = byte as usize;
        proof {
            assert(a.take(a.len() as int) =~= a);
            assert(delta(a, a) =~= Seq::<Coded>::empty());
        }
        while k < 8
            invariant
                self.ok(*c),
                m == upkrstream::rans_mode(*c),
                n == upkrstream::ctx_count(*c),
                base + 256 <= n,
                k <= 8,
                k == 0 ==> unit == 128 && node == 1,
                k == 1 ==> unit == 64 && 2 <= node < 4,
                k == 2 ==> unit == 32 && 4 <= node < 8,
                k == 3 ==> unit == 16 && 8 <= node < 16,
                k == 4 ==> unit == 8 && 16 <= node < 32,
                k == 5 ==> unit == 4 && 32 <= node < 64,
                k == 6 ==> unit == 2 && 64 <= node < 128,
                k == 7 ==> unit == 1 && 128 <= node < 256,
                k == 8 ==> unit == 0 && rest == 0 && node == 256 + byte,
                k < 8 ==> rest < 2 * unit,
                k == 0 ==> high == rest,
                k == 1 ==> high == 2 * rest,
                k == 2 ==> high == 4 * rest,
                k == 3 ==> high == 8 * rest,
                k == 4 ==> high == 16 * rest,
                k == 5 ==> high == 32 * rest,
                k == 6 ==> high == 64 * rest,
                k == 7 ==> high == 128 * rest,
                start == *old(self),
                whole == byte_bits(base as int, 1, byte as int, 0),
                done + byte_bits(base as int, node as int, high, k as int) == whole,
                wrote_bits(*c, start, *self, done),
                k < 8 ==> node * (2 * unit) + rest == 256 + byte,
                extends(a, self.coded@),
                forall|data: Seq<u8>, s: RansSt|
                    (#[trigger] urans::after_bits(data, m, s, delta(a, self.coded@))) matches Some(
                        s1,
                    ) ==> upkrstream::u_lit(data, *c, URead { st: s, ctx: actx }, base as int)
                        == upkrstream::u_lit_from(
                        data,
                        *c,
                        URead { st: s1, ctx: self.ctx@ },
                        base as int,
                        node as int,
                        k as nat,
                    ),
            decreases 8 - k,
        {
            let ghost b0 = self.coded@;
            let ghost c0 = self.ctx@;
            let ghost k0 = k as nat;
            let ghost node0 = node as int;
            let bit: bool = rest >= unit;
            let ghost s0 = *self;
            self.encode_bit(c, base + node, bit);
            let ghost b1 = self.coded@;
            proof {
                assert(bit == (high >= 128));
                let x = seq![(base + node, bit)];
                lemma_wrote(*c, start, s0, *self, done, x);
                let next = if bit {
                    2 * (high - 128)
                } else {
                    2 * high
                };
                let below = 2 * node + if bit {
                    1int
                } else {
                    0int
                };
                assert(done + x + byte_bits(base as int, below, next, k + 1) =~= done + byte_bits(
                    base as int,
                    node as int,
                    high,
                    k as int,
                ));
                done = done + x;
                high = next;
                let nn = 2 * node0 + if bit {
                    1int
                } else {
                    0int
                };
                assert forall|data: Seq<u8>, s: RansSt|
                    (#[trigger] urans::after_bits(data, m, s, delta(a, b1))) matches Some(s1)
                        ==> upkrstream::u_lit(data, *c, URead { st: s, ctx: actx }, base as int)
                        == upkrstream::u_lit_from(
                        data,
                        *c,
                        URead { st: s1, ctx: self.ctx@ },
                        base as int,
                        nn,
                        k0 + 1,
                    ) by {
                    lemma_delta(data, *c, s, a, b0, b1);
                    if let Some(x0) = urans::after_bits(data, m, s, delta(a, b0)) {
                        if let Some(x1) = urans::after_bits(data, m, x0, delta(b0, b1)) {
                            assert(upkrstream::u_bit(
                                data,
                                *c,
                                URead { st: x0, ctx: c0 },
                                base + node0,
                            ) == Some((bit, URead { st: x1, ctx: self.ctx@ })));
                        }
                    }
                }
                lemma_delta(Seq::empty(), *c, RansSt { x: 0, pos: 0 }, a, b0, b1);
                let n2 = nn;
                assert(node0 * (2 * unit) == (2 * node0) * unit) by (nonlinear_arith);
                assert((2 * node0 + 1) * unit == (2 * node0) * unit + unit) by (nonlinear_arith);
            }
            if bit {
                rest = rest - unit;
            }
            node = 2 * node + if bit {
                1
            } else {
                0
            };
            let ghost u0 = unit;
            unit = unit / 2;
            k += 1;
            assert(k < 8 ==> 2 * unit == u0);
        }
        assert(done + byte_bits(base as int, node as int, high, 8) =~= done);
    }

    /// Says whether a match has a new offset, where that is open.
    fn encode_fresh(&mut self, c: &Config, prev: bool, fresh: bool)
        requires
            old(self).ok(*c),
            upkrstream::config_wf(*c),
            c.no_repeated_offsets || prev ==> fresh,
        ensures
            final(self).ok(*c),
            wrote_fresh(
                *c,
                old(self).coded@,
                old(self).ctx@,
                final(self).coded@,
                final(self).ctx@,
                prev,
                fresh,
            ),
            wrote_bits(*c, *old(self), *final(self), fresh_bits(*c, prev, fresh)),
    {
        if !prev && !c.no_repeated_offsets {
            self.encode_bit(c, 256 * c.parity_contexts, fresh == c.new_offset_bit);
        } else {
            let ghost a = self.coded@;
            proof {
                lemma_wrote_none(*c, *self);
                assert(a.take(a.len() as int) =~= a);
                assert(delta(a, a) =~= Seq::<Coded>::empty());
            }
        }
    }
}

proof fn lemma_halves(v: int, p: int, acc: int)
    requires
        v >= 2,
    ensures
        acc + v * p == acc + (if v % 2 == 1 {
            p
        } else {
            0
        }) + (v / 2) * (2 * p),
{
    let h = v / 2;
    if v % 2 == 1 {
        assert(v == 2 * h + 1);
        assert((2 * h + 1) * p == h * (2 * p) + p) by (nonlinear_arith);
    } else {
        assert(v == 2 * h);
        assert((2 * h) * p == h * (2 * p)) by (nonlinear_arith);
    }
}

/// A number of 32 bits has at most 31 below the leading one.
proof fn lemma_value_bits(value: int, acc: int, v: int, k: nat)
    requires
        value == acc + v * pow2(k),
        acc >= 0,
        v >= 2,
        value <= 0xffff_ffff,
    ensures
        k < 31,
{
    if k >= 31 {
        assert(pow2(31) == 0x8000_0000) by {
            vstd::arithmetic::power2::lemma2_to64();
        }
        if k > 31 {
            vstd::arithmetic::power2::lemma_pow2_strictly_increases(31, k);
        }
        assert(v * pow2(k) >= 2 * 0x8000_0000) by (nonlinear_arith)
            requires
                v >= 2,
                pow2(k) >= 0x8000_0000,
        ;
    }
}

// ---------------------------------------------------------------------------
// Tokens
// ---------------------------------------------------------------------------
/// The decoder before the token at `p`.
pub open spec fn u_at(input: Seq<u8>, s: RansSt, ctx: Seq<u8>, p: int, off: int, prev: bool) -> UState {
    UState { r: URead { st: s, ctx }, out: input.take(p), off, prev }
}

/// What follows in the state of the decoder from a token.
pub open spec fn off_after(op: Op, off: int) -> int {
    match op {
        Op::Literal(_) => off,
        Op::Match { offset, len } => offset as int,
    }
}

spec fn wrote_op(
    input: Seq<u8>,
    c: Config,
    max: int,
    a: Seq<Coded>,
    actx: Seq<u8>,
    b: Seq<Coded>,
    bctx: Seq<u8>,
    p: int,
    off: int,
    prev: bool,
    op: Op,
) -> bool {
    &&& extends(a, b)
    &&& forall|data: Seq<u8>, s: RansSt|
        (#[trigger] urans::after_bits(data, upkrstream::rans_mode(c), s, delta(a, b))) matches Some(
            s1,
        ) ==> upkrstream::u_step(data, c, max, u_at(input, s, actx, p, off, prev)) == UStep::Next(
            u_at(input, s1, bctx, p + op_len(op), off_after(op, off), op is Match),
        )
}

/// Writes a literal byte with its flag.
fn write_literal(bl: &mut BitList, c: &Config, input: &[u8], p: usize, prev: bool, Ghost(off): Ghost<int>, Ghost(max): Ghost<int>)
    requires
        old(bl).ok(*c),
        upkrstream::config_wf(*c),
        p < input@.len(),
        max >= input@.len(),
    ensures
        final(bl).ok(*c),
        wrote_op(
            input@,
            *c,
            max,
            old(bl).coded@,
            old(bl).ctx@,
            final(bl).coded@,
            final(bl).ctx@,
            p as int,
            off,
            prev,
            Op::Literal(input@[p as int]),
        ),
        wrote_bits(*c, *old(bl), *final(bl), literal_bits(*c, p as int, input@[p as int])),
{
    let ghost s0 = *bl;
    let ghost m = upkrstream::rans_mode(*c);
    let ghost a = bl.coded@;
    let ghost actx = bl.ctx@;
    proof {
        upkrstream::lemma_lit_base(*c, p as int);
    }
    let base: usize = (p % c.parity_contexts) * 256;
    let byte: u8 = input[p];
    bl.encode_bit(c, base, !c.is_match_bit);
    let ghost b1 = bl.coded@;
    let ghost c1 = bl.ctx@;
    let ghost s1 = *bl;
    bl.encode_literal(c, base, byte);
    proof {
        lemma_wrote(
            *c,
            s0,
            s1,
            *bl,
            seq![(base as int, !c.is_match_bit)],
            byte_bits(base as int, 1, byte as int, 0),
        );
        let b2 = bl.coded@;
        let inp = input@;
        assert(inp.take(p + 1) =~= inp.take(p as int).push(byte));
        lemma_delta(Seq::empty(), *c, RansSt { x: 0, pos: 0 }, a, b1, b2);
        let op = Op::Literal(byte);
        assert forall|data: Seq<u8>, s: RansSt|
            (#[trigger] urans::after_bits(data, m, s, delta(a, b2))) matches Some(s1)
                ==> upkrstream::u_step(data, *c, max, u_at(inp, s, actx, p as int, off, prev))
                == UStep::Next(u_at(inp, s1, bl.ctx@, p + op_len(op), off_after(op, off), false)) by {
            lemma_delta(data, *c, s, a, b1, b2);
            if let Some(x1) = urans::after_bits(data, m, s, delta(a, b1)) {
                if let Some(x2) = urans::after_bits(data, m, x1, delta(b1, b2)) {
                    assert(upkrstream::u_bit(data, *c, URead { st: s, ctx: actx }, base as int)
                        == Some((!c.is_match_bit, URead { st: x1, ctx: c1 })));
                    assert(upkrstream::u_lit(data, *c, URead { st: x1, ctx: c1 }, base as int)
                        == Some((byte as int, URead { st: x2, ctx: bl.ctx@ })));
                }
            }
        }
    }
}

/// The parts of a match, one behind the other.
proof fn lemma_wrote_match(
    c: Config,
    s0: BitList,
    s1: BitList,
    s2: BitList,
    s3: BitList,
    s4: BitList,
    p: int,
    offset: u32,
    len: u32,
    last_offset: u32,
    prev: bool,
)
    requires
        offset < 0xffff_ffff,
        ({
            let fresh = prev || c.no_repeated_offsets || offset != last_offset;
            let value = if c.eof_in_length {
                offset as int
            } else {
                offset + 1
            };
            &&& wrote_bits(c, s0, s1, seq![(upkrstream::lit_base(c, p), c.is_match_bit)])
            &&& wrote_bits(c, s1, s2, fresh_bits(c, prev, fresh))
            &&& fresh ==> wrote_bits(c, s2, s3, len_bits(c, 256 * c.parity_contexts + 1, value, 0))
            &&& !fresh ==> s3 == s2
            &&& wrote_bits(c, s3, s4, len_bits(c, 256 * c.parity_contexts + 65, len as int, 0))
        }),
    ensures
        wrote_bits(c, s0, s4, match_bits(c, p, offset, len, last_offset, prev)),
{
    let fresh = prev || c.no_repeated_offsets || offset != last_offset;
    let value = if c.eof_in_length {
        offset as int
    } else {
        offset + 1
    };
    let first = seq![(upkrstream::lit_base(c, p), c.is_match_bit)];
    let flag = fresh_bits(c, prev, fresh);
    lemma_wrote(c, s0, s1, s2, first, flag);
    let new = if fresh {
        len_bits(c, 256 * c.parity_contexts + 1, value, 0)
    } else {
        Seq::empty()
    };
    if !fresh {
        lemma_wrote_none(c, s2);
    }
    lemma_wrote(c, s0, s2, s3, first + flag, new);
    let ln = len_bits(c, 256 * c.parity_contexts + 65, len as int, 0);
    lemma_wrote(c, s0, s3, s4, first + flag + new, ln);
    assert(first + flag + new =~= uparse::offset_bits(c, p, offset, last_offset, prev));
}

/// Writes a match.
#[verifier::rlimit(100)]
fn write_match(
    bl: &mut BitList,
    c: &Config,
    input: &[u8],
    p: usize,
    offset: u32,
    len: u32,
    last_offset: u32,
    prev: bool,
    Ghost(off): Ghost<int>,
    Ghost(max): Ghost<int>,
)
    requires
        old(bl).ok(*c),
        upkrstream::config_wf(*c),
        op_ok(input@, *c, p as int, Op::Match { offset, len }),
        max >= input@.len(),
        last_offset > 0 ==> off == last_offset,
    ensures
        final(bl).ok(*c),
        wrote_op(
            input@,
            *c,
            max,
            old(bl).coded@,
            old(bl).ctx@,
            final(bl).coded@,
            final(bl).ctx@,
            p as int,
            off,
            prev,
            Op::Match { offset, len },
        ),
        wrote_bits(
            *c,
            *old(bl),
            *final(bl),
            match_bits(*c, p as int, offset, len, last_offset, prev),
        ),
{
    let ghost s0 = *bl;
    let ghost m = upkrstream::rans_mode(*c);
    let ghost a = bl.coded@;
    let ghost actx = bl.ctx@;
    let ghost inp = input@;
    let ghost pi = p as int;
    let parity: usize = c.parity_contexts;
    proof {
        upkrstream::lemma_lit_base(*c, pi);
        lz::lemma_lz_copy_match(inp, pi, offset as int, len as int);
    }
    let base: usize = (p % parity) * 256;
    let fresh: bool = prev || c.no_repeated_offsets || offset != last_offset;
    bl.encode_bit(c, base, c.is_match_bit);
    let ghost b1 = bl.coded@;
    let ghost c1 = bl.ctx@;
    let ghost s1 = *bl;
    bl.encode_fresh(c, prev, fresh);
    let ghost b2 = bl.coded@;
    let ghost c2 = bl.ctx@;
    let ghost s2 = *bl;
    let value: u32 = if c.eof_in_length {
        offset
    } else {
        offset + 1
    };
    if fresh {
        bl.encode_length(c, 256 * parity + 1, value);
    }
    let ghost b3 = bl.coded@;
    let ghost c3 = bl.ctx@;
    let ghost s3 = *bl;
    bl.encode_length(c, 256 * parity + 65, len);
    proof {
        lemma_wrote_match(*c, s0, s1, s2, s3, *bl, pi, offset, len, last_offset, prev);
        let b4 = bl.coded@;
        let c4 = bl.ctx@;
        let op = Op::Match { offset, len };
        if !fresh {
            assert(b3.take(b2.len() as int) =~= b2);
            assert(delta(b2, b3) =~= Seq::<Coded>::empty());
        }
        lemma_delta(Seq::empty(), *c, RansSt { x: 0, pos: 0 }, a, b1, b2);
        lemma_delta(Seq::empty(), *c, RansSt { x: 0, pos: 0 }, a, b2, b3);
        lemma_delta(Seq::empty(), *c, RansSt { x: 0, pos: 0 }, a, b3, b4);
        assert forall|data: Seq<u8>, s: RansSt|
            (#[trigger] urans::after_bits(data, m, s, delta(a, b4))) matches Some(s1)
                ==> upkrstream::u_step(data, *c, max, u_at(inp, s, actx, pi, off, prev))
                == UStep::Next(u_at(inp, s1, c4, pi + op_len(op), off_after(op, off), true)) by {
            lemma_delta(data, *c, s, a, b1, b2);
            lemma_delta(data, *c, s, a, b2, b3);
            lemma_delta(data, *c, s, a, b3, b4);
            if let Some(x4) = urans::after_bits(data, m, s, delta(a, b4)) {
                let x1 = urans::after_bits(data, m, s, delta(a, b1)).unwrap();
                let x2 = urans::after_bits(data, m, x1, delta(b1, b2)).unwrap();
                let x3 = urans::after_bits(data, m, x2, delta(b2, b3)).unwrap();
                let d = u_at(inp, s, actx, pi, off, prev);
                assert(upkrstream::u_bit(data, *c, URead { st: s, ctx: actx }, base as int) == Some(
                    (c.is_match_bit, URead { st: x1, ctx: c1 }),
                ));
                assert(upkrstream::u_fresh(data, *c, prev, URead { st: x1, ctx: c1 }) == Some(
                    (fresh, URead { st: x2, ctx: c2 }),
                ));
                assert(upkrstream::u_len(
                    data,
                    *c,
                    URead { st: x3, ctx: c3 },
                    upkrstream::flag_ctx(*c) + 65,
                ) == Some((len as int, URead { st: x4, ctx: c4 })));
                assert(upkrstream::u_match(
                    data,
                    *c,
                    max,
                    d,
                    URead { st: x3, ctx: c3 },
                    offset as int,
                ) == UStep::Next(u_at(inp, x4, c4, pi + len, offset as int, true)));
                if fresh {
                    assert(upkrstream::u_len(
                        data,
                        *c,
                        URead { st: x2, ctx: c2 },
                        upkrstream::flag_ctx(*c) + 1,
                    ) == Some(
                        (
                            if c.eof_in_length {
                                offset as int
                            } else {
                                offset + 1
                            },
                            URead { st: x3, ctx: c3 },
                        ),
                    ));
                } else {
                    assert(x3 == x2);
                }
            }
        }
    }
}

spec fn wrote_end(
    input: Seq<u8>,
    c: Config,
    max: int,
    a: Seq<Coded>,
    actx: Seq<u8>,
    b: Seq<Coded>,
    off: int,
    prev: bool,
) -> bool {
    &&& extends(a, b)
    &&& forall|data: Seq<u8>, s: RansSt|
        (#[trigger] urans::after_bits(data, upkrstream::rans_mode(c), s, delta(a, b))) is Some
            ==> upkrstream::u_step(
            data,
            c,
            max,
            u_at(input, s, actx, input.len() as int, off, prev),
        ) == UStep::Stop(input)
}

/// Writes the end.
#[verifier::rlimit(60)]
fn encode_eof(bl: &mut BitList, c: &Config, input: &[u8], prev: bool, Ghost(off): Ghost<int>, Ghost(max): Ghost<int>)
    requires
        old(bl).ok(*c),
        upkrstream::config_wf(*c),
        max >= input@.len(),
    ensures
        final(bl).ok(*c),
        wrote_end(
            input@,
            *c,
            max,
            old(bl).coded@,
            old(bl).ctx@,
            final(bl).coded@,
            off,
            prev,
        ),
        wrote_bits(*c, *old(bl), *final(bl), eof_bits(*c, input@.len() as int, prev)),
{
    let ghost s0 = *bl;
    let ghost m = upkrstream::rans_mode(*c);
    let ghost a = bl.coded@;
    let ghost actx = bl.ctx@;
    let ghost inp = input@;
    let n: usize = input.len();
    let parity: usize = c.parity_contexts;
    proof {
        upkrstream::lemma_lit_base(*c, n as int);
        assert(inp.take(n as int) =~= inp);
    }
    let base: usize = (n % parity) * 256;
    let fresh: bool = !c.eof_in_length || prev || c.no_repeated_offsets;
    bl.encode_bit(c, base, c.is_match_bit);
    let ghost b1 = bl.coded@;
    let ghost c1 = bl.ctx@;
    let ghost s1 = *bl;
    bl.encode_fresh(c, prev, fresh);
    let ghost b2 = bl.coded@;
    let ghost c2 = bl.ctx@;
    let ghost s2 = *bl;
    if fresh {
        bl.encode_length(c, 256 * parity + 1, 1);
    }
    let ghost b3 = bl.coded@;
    let ghost c3 = bl.ctx@;
    let ghost s3 = *bl;
    if c.eof_in_length {
        bl.encode_length(c, 256 * parity + 65, 1);
    }
    proof {
        let first = seq![(base as int, c.is_match_bit)];
        let flag = fresh_bits(*c, prev, fresh);
        lemma_wrote(*c, s0, s1, s2, first, flag);
        let new = if fresh {
            len_bits(*c, 256 * parity + 1, 1, 0)
        } else {
            Seq::empty()
        };
        if !fresh {
            lemma_wrote_none(*c, s2);
        }
        lemma_wrote(*c, s0, s2, s3, first + flag, new);
        let ln = if c.eof_in_length {
            len_bits(*c, 256 * parity + 65, 1, 0)
        } else {
            Seq::empty()
        };
        if !c.eof_in_length {
            lemma_wrote_none(*c, s3);
        }
        lemma_wrote(*c, s0, s3, *bl, first + flag + new, ln);
        let b4 = bl.coded@;
        if !fresh {
            assert(b3.take(b2.len() as int) =~= b2);
            assert(delta(b2, b3) =~= Seq::<Coded>::empty());
        }
        if !c.eof_in_length {
            assert(b4.take(b3.len() as int) =~= b3);
            assert(delta(b3, b4) =~= Seq::<Coded>::empty());
        }
        lemma_delta(Seq::empty(), *c, RansSt { x: 0, pos: 0 }, a, b1, b2);
        lemma_delta(Seq::empty(), *c, RansSt { x: 0, pos: 0 }, a, b2, b3);
        lemma_delta(Seq::empty(), *c, RansSt { x: 0, pos: 0 }, a, b3, b4);
        assert forall|data: Seq<u8>, s: RansSt|
            (#[trigger] urans::after_bits(data, m, s, delta(a, b4))) is Some implies
            upkrstream::u_step(
                data,
                *c,
                max,
                u_at(inp, s, actx, inp.len() as int, off, prev),
            ) == UStep::Stop(inp) by {
            lemma_delta(data, *c, s, a, b1, b2);
            lemma_delta(data, *c, s, a, b2, b3);
            lemma_delta(data, *c, s, a, b3, b4);
            if let Some(x4) = urans::after_bits(data, m, s, delta(a, b4)) {
                let x1 = urans::after_bits(data, m, s, delta(a, b1)).unwrap();
                let x2 = urans::after_bits(data, m, x1, delta(b1, b2)).unwrap();
                let x3 = urans::after_bits(data, m, x2, delta(b2, b3)).unwrap();
                assert(upkrstream::u_bit(data, *c, URead { st: s, ctx: actx }, base as int) == Some(
                    (c.is_match_bit, URead { st: x1, ctx: c1 }),
                ));
                assert(upkrstream::u_fresh(data, *c, prev, URead { st: x1, ctx: c1 }) == Some(
                    (fresh, URead { st: x2, ctx: c2 }),
                ));
                if fresh {
                    assert(upkrstream::u_len(
                        data,
                        *c,
                        URead { st: x2, ctx: c2 },
                        upkrstream::flag_ctx(*c) + 1,
                    ) == Some((1int, URead { st: x3, ctx: c3 })));
                } else {
                    assert(x3 == x2);
                }
                if c.eof_in_length {
                    assert(upkrstream::u_len(
                        data,
                        *c,
                        URead { st: x3, ctx: c3 },
                        upkrstream::flag_ctx(*c) + 65,
                    ) == Some((1int, URead { st: x4, ctx: bl.ctx@ })));
                }
            }
        }
    }
}

pub proof fn lemma_ops_pos(input: Seq<u8>, c: Config, ops: Seq<Op>, j: int, k: int)
    requires
        ops_ok(input, c, ops),
        0 <= j <= k <= ops.len(),
    ensures
        ops_pos(ops, j) + (k - j) <= ops_pos(ops, k),
        ops_pos(ops, 0) == 0,
    decreases k - j,
{
    if j < k {
        lemma_ops_pos(input, c, ops, j, k - 1);
        assert(op_ok(input, c, ops_pos(ops, k - 1), ops[k - 1]));
    }
}

/// The stream of a list of tokens.
#[verifier::rlimit(60)]
pub fn encode_ops(ops: &Vec<Op>, input: &[u8], c: &Config) -> (out: Vec<u8>)
    requires
        upkrstream::config_wf(*c),
        ops_ok(input@, *c, ops@),
    ensures
        forall|max: int|
            max >= input@.len() ==> #[trigger] upkrstream::unpacked(out@, *c, max) == Some(input@),
        out@ == ops_bytes(*c, ops@),
{
    let ghost inp = input@;
    let ghost m = upkrstream::rans_mode(*c);
    let total: usize = input.len();
    let mut bl: BitList = BitList { coded: Vec::new(), ctx: new_contexts(c) };
    let n: usize = ops.len();
    let mut k: usize = 0;
    let mut p: usize = 0;
    let mut last_offset: u32 = 0;
    let mut prev: bool = false;
    let ghost mut off: int = usize::MAX as int;
    let ghost max = total as int;
    proof {
        assert(inp.take(0) =~= Seq::<u8>::empty());
        assert(bl.coded@ =~= Seq::<Coded>::empty());
        lemma_wrote_none(*c, bl);
    }
    let ghost fresh = bl;
    while k < n
        invariant
            inp == input@,
            total == inp.len(),
            max == total,
            m == upkrstream::rans_mode(*c),
            n == ops@.len(),
            k <= n,
            upkrstream::config_wf(*c),
            ops_ok(inp, *c, ops@),
            p == ops_pos(ops@, k as int),
            p <= total,
            bl.ok(*c),
            fresh.coded@ == Seq::<Coded>::empty(),
            fresh.ctx@ == upkrstream::ctx_start(*c),
            wrote_bits(*c, fresh, bl, ops_bits(*c, ops@, k as int)),
            last_offset == last_of(ops@, k as int),
            prev == (k > 0 && ops@[k - 1] is Match),
            last_offset > 0 ==> off == last_offset,
            forall|data: Seq<u8>, s: RansSt, f: nat|
                #![trigger urans::after_bits(data, m, s, bl.coded@), upkrstream::u_run(data, *c, max, upkrstream::u_init(*c, s), (f + k) as nat)]
                urans::after_bits(data, m, s, bl.coded@) matches Some(s1) ==> upkrstream::u_run(
                    data,
                    *c,
                    max,
                    upkrstream::u_init(*c, s),
                    (f + k) as nat,
                ) == upkrstream::u_run(
                    data,
                    *c,
                    max,
                    u_at(inp, s1, bl.ctx@, p as int, off, prev),
                    f,
                ),
        decreases n - k,
    {
        let ghost a = bl.coded@;
        let ghost actx = bl.ctx@;
        let ghost p0 = p as int;
        let ghost off0 = off;
        let ghost prev0 = prev;
        let ghost bl0 = bl;
        let op: Op = ops[k];
        proof {
            assert(op_ok(inp, *c, ops_pos(ops@, k as int), ops@[k as int]));
            lemma_ops_pos(inp, *c, ops@, k + 1, n as int);
        }
        match op {
            Op::Literal(_) => {
                write_literal(&mut bl, c, input, p, prev, Ghost(off), Ghost(max));
                prev = false;
                p += 1;
            },
            Op::Match { offset, len } => {
                write_match(
                    &mut bl,
                    c,
                    input,
                    p,
                    offset,
                    len,
                    last_offset,
                    prev,
                    Ghost(off),
                    Ghost(max),
                );
                last_offset = offset;
                prev = true;
                p += len as usize;
            },
        }
        k += 1;
        proof {
            lemma_wrote(
                *c,
                fresh,
                bl0,
                bl,
                ops_bits(*c, ops@, k - 1),
                op_bits(*c, ops@, k - 1),
            );
            off = off_after(op, off0);
            let b = bl.coded@;
            assert forall|data: Seq<u8>, s: RansSt, f: nat|
                #![trigger urans::after_bits(data, m, s, b), upkrstream::u_run(data, *c, max, upkrstream::u_init(*c, s), (f + k) as nat)]
                urans::after_bits(data, m, s, b) matches Some(s1) ==> upkrstream::u_run(
                    data,
                    *c,
                    max,
                    upkrstream::u_init(*c, s),
                    (f + k) as nat,
                ) == upkrstream::u_run(
                    data,
                    *c,
                    max,
                    u_at(inp, s1, bl.ctx@, p as int, off, prev),
                    f,
                ) by {
                assert(b =~= a + delta(a, b)) by {
                    assert forall|j: int| 0 <= j < a.len() implies b[j] == a[j] by {
                        assert(b.take(a.len() as int)[j] == b[j]);
                    }
                }
                urans::lemma_after_concat(data, m, s, a, delta(a, b));
                if let Some(x0) = urans::after_bits(data, m, s, a) {
                    if let Some(x1) = urans::after_bits(data, m, x0, delta(a, b)) {
                        let g = (f + 1) as nat;
                        assert((g + (k - 1)) as nat == (f + k) as nat);
                        assert(upkrstream::u_run(
                            data,
                            *c,
                            max,
                            upkrstream::u_init(*c, s),
                            (g + (k - 1)) as nat,
                        ) == upkrstream::u_run(
                            data,
                            *c,
                            max,
                            u_at(inp, x0, actx, p0, off0, prev0),
                            g,
                        ));
                        assert(upkrstream::u_step(
                            data,
                            *c,
                            max,
                            u_at(inp, x0, actx, p0, off0, prev0),
                        ) == UStep::Next(u_at(inp, x1, bl.ctx@, p as int, off, prev)));
                    }
                }
            }
        }
    }
    let ghost a = bl.coded@;
    let ghost actx = bl.ctx@;
    let ghost bl0 = bl;
    encode_eof(&mut bl, c, input, prev, Ghost(off), Ghost(max));
    let out: Vec<u8> = finish(&bl.coded, c.use_bitstream, c.bitstream_is_big_endian);
    proof {
        lemma_wrote(
            *c,
            fresh,
            bl0,
            bl,
            ops_bits(*c, ops@, n as int),
            eof_bits(*c, ops_pos(ops@, n as int), n > 0 && ops@[n - 1] is Match),
        );
        assert(bl.coded@ =~= coded_of(*c, upkrstream::ctx_start(*c), all_bits(*c, ops@)));
        let b = bl.coded@;
        let data = out@;
        let s = urans::refill(data, m, RansSt { x: 0, pos: 0 }).unwrap();
        assert(b =~= a + delta(a, b)) by {
            assert forall|j: int| 0 <= j < a.len() implies b[j] == a[j] by {
                assert(b.take(a.len() as int)[j] == b[j]);
            }
        }
        urans::lemma_after_concat(data, m, s, a, delta(a, b));
        let x0 = urans::after_bits(data, m, s, a).unwrap();
        let f0 = upkrstream::u_fuel(data, *c);
        upkrstream::lemma_fuel_start(data, *c, s);
        let d0 = upkrstream::u_init(*c, s);
        upkrstream::lemma_u_fuel(data, *c, max, d0, f0, (f0 + k) as nat);
        assert(upkrstream::u_run(data, *c, max, d0, (f0 + k) as nat) == upkrstream::u_run(
            data,
            *c,
            max,
            u_at(inp, x0, actx, p as int, off, prev),
            f0,
        ));
        assert(upkrstream::unpacked(data, *c, max) == Some(inp));
        assert forall|mx: int| mx >= inp.len() implies #[trigger] upkrstream::unpacked(
            data,
            *c,
            mx,
        ) == Some(inp) by {
            lemma_run_max(data, *c, max, mx, d0, f0);
        }
    }
    out
}

/// A larger limit does not change what is decoded within a smaller one.
pub proof fn lemma_run_max(data: Seq<u8>, c: Config, max: int, mx: int, d: UState, f: nat)
    requires
        max <= mx,
        upkrstream::u_run(data, c, max, d, f) is Some,
    ensures
        upkrstream::u_run(data, c, mx, d, f) == upkrstream::u_run(data, c, max, d, f),
    decreases f,
{
    if f > 0 {
        if let UStep::Next(e) = upkrstream::u_step(data, c, max, d) {
            lemma_run_max(data, c, max, mx, e, (f - 1) as nat);
        }
    }
}

} // verus!
