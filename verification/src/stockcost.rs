//! What the stock parses of ZX0 and ZX02 cost in the stream: no more than the blocks that
//! they were read off from.
use crate::bitio;
use crate::lz;
use crate::stocklaws;
use crate::zx;
use crate::zx::ZxCommand;
use crate::zx02;
use crate::zx02::ZTok;
use crate::zx0compat;
use crate::zx0opt;
use crate::zxbest;
use crate::zxblocks;
use crate::zxblocks::Lane;
use crate::zxcost;
use crate::zxlane::hits;
use crate::zxlaws;
use vstd::prelude::*;

verus! {

spec fn at(input: Seq<u8>, limit: int, opt: Seq<int>, short: bool, off: int, i: int) -> Lane {
    zxblocks::lane_at(input, limit, opt, off, short, i)
}

/// A block of the lane of `off` ends in a match at `e` and costs `b`.
spec fn ends_at(input: Seq<u8>, limit: int, opt: Seq<int>, short: bool, off: int, b: (int, int)) -> bool {
    &&& at(input, limit, opt, short, off, b.1).last_match == Some(b)
    &&& b.1 == 0 ==> off == 1 && b.0 == 0
    &&& b.1 > 0 ==> hits(input, limit, off, b.1 - 1)
}

/// What is known of the lane after `i` bytes.
spec fn lane_true(input: Seq<u8>, limit: int, opt: Seq<int>, short: bool, off: int, i: int) -> bool {
    let l = at(input, limit, opt, short, off, i);
    &&& 0 <= l.run <= i
    &&& forall|q: int| i - l.run <= q < i ==> #[trigger] hits(input, limit, off, q)
    &&& l.run == 0 && i > 0 ==> !hits(input, limit, off, i - 1)
    &&& l.last_match matches Some(b) ==> {
        &&& 0 <= b.1 <= i
        &&& ends_at(input, limit, opt, short, off, b)
        &&& l.run > 0 ==> b.1 == i
    }
    &&& l.last_literal matches Some(c) ==> {
        &&& l.last_match is Some
        &&& 0 <= l.from < c.1 <= i
        &&& l.run > 0 ==> c.1 == i - l.run
        &&& literals_from(input, limit, opt, short, off, l.from, c)
    }
}

/// The literals up to the end of `c` stand behind a match that ends at `from`.
spec fn literals_from(input: Seq<u8>, limit: int, opt: Seq<int>, short: bool, off: int, from: int, c: (int, int)) -> bool {
    at(input, limit, opt, short, off, from).last_match matches Some(x) && x.1 == from && ends_at(
        input,
        limit,
        opt,
        short,
        off,
        x,
    ) && c.0 == zxblocks::literals_after(x, c.1, short)
}

proof fn lemma_lane_true(input: Seq<u8>, limit: int, opt: Seq<int>, short: bool, off: int, i: int)
    requires
        0 <= i <= input.len(),
    ensures
        lane_true(input, limit, opt, short, off, i),
    decreases i,
{
    if i > 0 {
        lemma_lane_true(input, limit, opt, short, off, i - 1);
        let e = i - 1;
        let l = at(input, limit, opt, short, off, e);
        let m = at(input, limit, opt, short, off, i);
        if hits(input, limit, off, e) {
            let o = zxblocks::lane_opened(l, e, short);
            assert(m == zxblocks::lane_hit(opt, o, off, e, short));
            if l.last_match is Some && l.run == 0 {
                let b = l.last_match->0;
                assert(b.1 < e) by {
                    if b.1 == e {
                        assert(e > 0 ==> hits(input, limit, off, e - 1));
                        assert(e > 0);
                    }
                }
                assert(literals_from(input, limit, opt, short, off, b.1, o.last_literal->0));
            }
            assert forall|q: int| i - m.run <= q < i implies #[trigger] hits(
                input,
                limit,
                off,
                q,
            ) by {}
        }
    }
}

/// How the match that ends at `e` came about, with its cost.
spec fn came_about(input: Seq<u8>, limit: int, opt: Seq<int>, short: bool, off: int, b: (int, int)) -> bool {
    let w = zxblocks::origin_at(input, limit, opt, off, short, b.1);
    let (c, e) = b;
    &&& 1 <= w.start < e
    &&& 1 <= off <= limit
    &&& if w.len == 0 {
        &&& 0 <= w.from < w.start
        &&& at(input, limit, opt, short, off, w.from).last_match matches Some(x) && x.1 == w.from
            && ends_at(input, limit, opt, short, off, x) && c == zxblocks::literals_after(
            x,
            w.start,
            short,
        ) + 1 + zxblocks::gamma_cost_of(e - w.start, short)
    } else {
        &&& w.len >= zxblocks::shortest(short)
        &&& w.start == e - w.len
        &&& c == opt[w.start] + zxblocks::length_cost_of(w.len, short) + zxblocks::offset_cost_of(
            off,
            short,
        )
    }
}

proof fn lemma_best_length_range(opt: Seq<int>, short: bool, p: int, len: int)
    requires
        len >= zxblocks::shortest(short),
    ensures
        zxblocks::shortest(short) <= zxblocks::best_length(opt, p, len, short) <= len,
    decreases len,
{
    if len > zxblocks::shortest(short) {
        lemma_best_length_range(opt, short, p, len - 1);
    }
}

proof fn lemma_came_about(input: Seq<u8>, limit: int, opt: Seq<int>, short: bool, off: int, b: (int, int))
    requires
        0 < b.1 <= input.len(),
        ends_at(input, limit, opt, short, off, b),
    ensures
        came_about(input, limit, opt, short, off, b),
{
    let e = b.1 - 1;
    lemma_lane_true(input, limit, opt, short, off, e);
    lemma_lane_true(input, limit, opt, short, off, e + 1);
    let l = at(input, limit, opt, short, off, e);
    let o = zxblocks::opened_at(input, limit, opt, off, short, e);
    assert(at(input, limit, opt, short, off, e + 1) == zxblocks::lane_hit(opt, o, off, e, short));
    if zxblocks::takes_new(opt, o, off, e, short) {
        lemma_best_length_range(opt, short, e + 1, o.run + 1);
        let len = zxblocks::best_length(opt, e + 1, o.run + 1, short);
        assert(hits(input, limit, off, e + 1 - len));
    } else {
        if l.last_match is Some && l.run == 0 {
            let x = l.last_match->0;
            assert(x.1 < e) by {
                if x.1 == e {
                    assert(e > 0);
                    assert(hits(input, limit, off, e - 1));
                }
            }
        }
        assert(o.last_literal is Some);
    }
}

/// The cheapest cost is by the lane of its offset.
proof fn lemma_cheapest_is_offered(input: Seq<u8>, limit: int, opt: Seq<int>, short: bool, p: int, w: int)
    ensures
        zxblocks::cheapest(input, limit, opt, short, p, w) matches Some(c) ==> 1 <= c.1 < w
            && zxblocks::lane_offer(input, limit, opt, c.1, short, p) == Some(c.0),
    decreases w,
{
    if w > 1 {
        lemma_cheapest_is_offered(input, limit, opt, short, p, w - 1);
    }
}

/// How the cheapest way leads to `p`: a match with the offset `o` that ends at the end of
/// `b`, and literals.
spec fn led_to(input: Seq<u8>, limit: int, opt: Seq<int>, short: bool, o: int, p: int, b: (int, int)) -> bool {
    &&& 0 <= b.1 <= p
    &&& ends_at(input, limit, opt, short, o, b)
    &&& zxblocks::match_end(input, limit, short, opt, o, p) == b.1
    &&& b.1 == p ==> opt[p] == b.0
    &&& b.1 < p ==> opt[p] == zxblocks::literals_after(b, p, short)
}

proof fn lemma_led_to(input: Seq<u8>, limit: int, opt: Seq<int>, short: bool, offs: Seq<usize>, p: int) -> (b: (
    int,
    int,
))
    requires
        zxblocks::blocks_right(input, limit, short, opt, offs, input.len() as int),
        1 <= p <= input.len(),
    ensures
        led_to(input, limit, opt, short, offs[p] as int, p, b),
{
    let w = zxblocks::lane_count(input.len() as int, limit) + 1;
    let o = offs[p] as int;
    lemma_cheapest_is_offered(input, limit, opt, short, p, w);
    lemma_lane_true(input, limit, opt, short, o, p);
    assert(zxblocks::cheapest(input, limit, opt, short, p, w) == Some((opt[p], o)));
    at(input, limit, opt, short, o, p).last_match->0
}

// ---------------------------------------------------------------------------
// The table
// ---------------------------------------------------------------------------
/// The table `t` holds the matches of the blocks that lead to the end `e` of a match with
/// the offset `off`, and no others.
spec fn holds_blocks(
    input: Seq<u8>,
    limit: int,
    opt: Seq<int>,
    short: bool,
    offs: Seq<usize>,
    t: Seq<(u32, u32)>,
    off: int,
    e: int,
) -> bool
    decreases e,
{
    e <= 0 || {
        let w = zxblocks::origin_at(input, limit, opt, off, short, e);
        let (o, end) = before_block(input, limit, opt, short, offs, off, e);
        &&& 0 <= end <= w.start < e
        &&& t[w.start] == ((e - w.start) as u32, off as u32)
        &&& forall|q: int| end <= q < w.start ==> (#[trigger] t[q]).0 == 0
        &&& holds_blocks(input, limit, opt, short, offs, t, o, end)
    }
}

/// Offset and end of the match before the block.
spec fn before_block(
    input: Seq<u8>,
    limit: int,
    opt: Seq<int>,
    short: bool,
    offs: Seq<usize>,
    off: int,
    e: int,
) -> (int, int) {
    let w = zxblocks::origin_at(input, limit, opt, off, short, e);
    if w.len == 0 {
        (off, w.from)
    } else {
        let o = offs[e - w.len] as int;
        (o, zxblocks::match_end(input, limit, short, opt, o, e - w.len))
    }
}

proof fn lemma_table_holds(
    input: Seq<u8>,
    limit: int,
    opt: Seq<int>,
    short: bool,
    offs: Seq<usize>,
    off: int,
    b: (int, int),
    best: Seq<(u32, u32)>,
)
    requires
        zxblocks::blocks_right(input, limit, short, opt, offs, input.len() as int),
        0 <= b.1 <= input.len(),
        ends_at(input, limit, opt, short, off, b),
        best.len() == input.len(),
        forall|q: int| 0 <= q < b.1 ==> (#[trigger] best[q]).0 == 0,
    ensures
        ({
            let t = zxblocks::blocks_table(input, limit, short, opt, offs, off, b.1, best);
            &&& t.len() == best.len()
            &&& holds_blocks(input, limit, opt, short, offs, t, off, b.1)
            &&& forall|q: int| b.1 <= q < best.len() ==> #[trigger] t[q] == best[q]
        }),
    decreases b.1,
{
    if b.1 > 0 {
        lemma_came_about(input, limit, opt, short, off, b);
        let w = zxblocks::origin_at(input, limit, opt, off, short, b.1);
        let (o, end) = before_block(input, limit, opt, short, offs, off, b.1);
        let x = if w.len == 0 {
            at(input, limit, opt, short, off, w.from).last_match->0
        } else {
            lemma_led_to(input, limit, opt, short, offs, w.start)
        };
        let put = best.update(w.start, ((b.1 - w.start) as u32, off as u32));
        lemma_table_holds(input, limit, opt, short, offs, o, x, put);
        let t = zxblocks::blocks_table(input, limit, short, opt, offs, off, b.1, best);
        assert(t == zxblocks::blocks_table(input, limit, short, opt, offs, o, end, put));
        assert(t[w.start] == put[w.start]);
        assert forall|q: int| end <= q < w.start implies (#[trigger] t[q]).0 == 0 by {
            assert(t[q] == put[q]);
            assert(put[q] == best[q]);
        }
        assert forall|q: int| b.1 <= q < best.len() implies #[trigger] t[q] == best[q] by {
            assert(t[q] == put[q]);
        }
    }
}

// ---------------------------------------------------------------------------
// Commands and bits
// ---------------------------------------------------------------------------
spec fn none(n: nat) -> Seq<i8> {
    Seq::new(n, |p: int| -1i8)
}

/// What the commands of the table are from `p` on.
spec fn rest(t: Seq<(u32, u32)>, p: int, run: nat, cmds: Seq<ZxCommand>) -> Seq<ZxCommand> {
    zxbest::built_from(t, none(t.len()), zx0opt::rep0_mode(), 32640, p, run, cmds)
}

proof fn lemma_over_literals(t: Seq<(u32, u32)>, p: int, q: int, run: nat, cmds: Seq<ZxCommand>)
    requires
        0 <= p <= q <= t.len(),
        forall|k: int| p <= k < q ==> (#[trigger] t[k]).0 == 0,
    ensures
        rest(t, p, run, cmds) == rest(t, q, run + (q - p) as nat, cmds),
    decreases q - p,
{
    if p < q {
        assert(t[p].0 == 0);
        lemma_over_literals(t, p + 1, q, run + 1, cmds);
    }
}

/// Reading up to the end of the block gives commands that cost no more.
spec fn read_up_to(t: Seq<(u32, u32)>, off: int, b: (int, int), cmds: Seq<ZxCommand>) -> bool {
    let m = zx0opt::rep0_mode();
    let n = cmds.len() as int;
    &&& rest(t, 0, 0, Seq::empty()) == rest(t, b.1, 0, cmds)
    &&& zx::zx_reps(cmds, m, n).len() == 4
    &&& zx::zx_reps(cmds, m, n)[0] == off
    &&& b.1 == 0 ==> n == 0 && b.0 == 0
    &&& b.1 > 0 ==> n > 0 && zx::zx_bits(cmds, m, n) + 1 <= b.0
}

/// One more block: literals from the end of `x` on and a match from `start` on.
#[verifier::rlimit(60)]
#[verifier::spinoff_prover]
proof fn lemma_block_read(
    t: Seq<(u32, u32)>,
    o: int,
    x: (int, int),
    cmds: Seq<ZxCommand>,
    start: int,
    off: int,
    b: (int, int),
) -> (next: Seq<ZxCommand>)
    requires
        read_up_to(t, o, x, cmds),
        0 <= x.1 <= start < b.1 <= t.len() <= 0x3fff_ffff,
        1 <= start,
        1 <= off <= 32640,
        t[start] == ((b.1 - start) as u32, off as u32),
        forall|q: int| x.1 <= q < start ==> (#[trigger] t[q]).0 == 0,
        ({
            let lits = zxblocks::literals_after(x, start, false);
            ||| off == o && x.1 < start && b.0 == lits + 1 + zxblocks::gamma_cost_of(
                b.1 - start,
                false,
            )
            ||| b.1 - start >= 2 && b.0 == (if x.1 == start {
                x.0
            } else {
                lits
            }) + zxblocks::length_cost_of(b.1 - start, false) + zxblocks::offset_cost_of(off, false)
        }),
    ensures
        read_up_to(t, off, b, next),
{
    let m = zx0opt::rep0_mode();
    let run = (start - x.1) as nat;
    lemma_over_literals(t, x.1, start, 0, cmds);
    let n = cmds.len() as int;
    let reps = zx::zx_reps(cmds, m, n);
    let len = b.1 - start;
    let c = ZxCommand {
        lit_len: run as u32,
        lit_start: (start - run) as usize,
        match_off: off as u32,
        match_len: len as u32,
        near_rep_ri: -1i8,
    };
    let next = cmds.push(c);
    let ph = zx::zx_sel(c, reps, m);
    zxcost::lemma_cmd_bits(cmds, c, m);
    zxcost::lemma_gamma_one_more(len as nat);
    if len >= 2 {
        zxcost::lemma_gamma_one_more((len - 1) as nat);
    }
    zxcost::lemma_gamma_one_more(((off - 1) / 128 + 1) as nat);
    assert(none(t.len())[start] == -1i8);
    assert(c == zxbest::match_cmd(t, none(t.len()), m, start, run, reps));
    assert(ph == if run > 0 && reps[0] == off {
        zx::St::Rep(0)
    } else {
        zx::St::NewOffset
    });
    assert(zx::zx_codable(ph, reps, c.match_off, c.match_len, m));
    assert(rest(t, start, run, cmds) == rest(t, b.1, 0, next));
    assert(zx::reps_next(ph, reps, off as u32).len() == 4);
    assert(zx::reps_next(ph, reps, off as u32)[0] == off);
    next
}

proof fn lemma_blocks_cost(
    input: Seq<u8>,
    limit: int,
    opt: Seq<int>,
    offs: Seq<usize>,
    t: Seq<(u32, u32)>,
    off: int,
    b: (int, int),
) -> (cmds: Seq<ZxCommand>)
    requires
        zxblocks::blocks_right(input, limit, false, opt, offs, input.len() as int),
        0 <= b.1 <= input.len() <= 0x3fff_ffff,
        limit <= 32640,
        t.len() == input.len(),
        ends_at(input, limit, opt, false, off, b),
        holds_blocks(input, limit, opt, false, offs, t, off, b.1),
    ensures
        read_up_to(t, off, b, cmds),
    decreases b.1,
{
    let m = zx0opt::rep0_mode();
    if b.1 == 0 {
        Seq::empty()
    } else {
        lemma_came_about(input, limit, opt, false, off, b);
        let w = zxblocks::origin_at(input, limit, opt, off, false, b.1);
        let (o, end) = before_block(input, limit, opt, false, offs, off, b.1);
        let x = if w.len == 0 {
            at(input, limit, opt, false, off, w.from).last_match->0
        } else {
            lemma_led_to(input, limit, opt, false, offs, w.start)
        };
        let cmds = lemma_blocks_cost(input, limit, opt, offs, t, o, x);
        lemma_block_read(t, o, x, cmds, w.start, off, b)
    }
}

/// The commands of the stock parse take fewer bits than the cheapest way to the end
/// costs.
pub proof fn lemma_stock_bits(order: Seq<u8>, cmds: Seq<ZxCommand>) -> (r: (Seq<int>, Seq<usize>))
    requires
        zx0compat::stock_cmds(order, cmds),
        0 < order.len() <= 0x3fff_ffff,
    ensures
        zxblocks::blocks_right(order, 32640, false, r.0, r.1, order.len() as int),
        zx::zx_bits(cmds, zx0opt::rep0_mode(), cmds.len() as int) + 1 <= r.0[order.len() as int],
{
    let n = order.len() as int;
    let best = choose|best: Seq<(u32, u32)>| #[trigger]
        zxblocks::stock_table(order, 32640, false, best) && cmds == zx0compat::rep0_cmds(best);
    let (opt, offs) = choose|opt: Seq<int>, offs: Seq<usize>| #[trigger]
        zxblocks::blocks_right(order, 32640, false, opt, offs, n) && best == zxblocks::table_by(
            order,
            32640,
            false,
            opt,
            offs,
        );
    let b = lemma_led_to(order, 32640, opt, false, offs, n);
    let off = offs[n] as int;
    let zeros = Seq::new(order.len(), |p: int| (0u32, 0u32));
    lemma_table_holds(order, 32640, opt, false, offs, off, b, zeros);
    let made = lemma_blocks_cost(order, 32640, opt, offs, best, off, b);
    assert(cmds == rest(best, 0, 0, Seq::empty()));
    let m = zx0opt::rep0_mode();
    let run = (n - b.1) as nat;
    assert forall|q: int| b.1 <= q < n implies (#[trigger] best[q]).0 == 0 by {
        assert(best[q] == zeros[q]);
    }
    lemma_over_literals(best, b.1, n, 0, made);
    if run > 0 {
        let c = ZxCommand {
            lit_len: run as u32,
            lit_start: (n - run) as usize,
            match_off: 0,
            match_len: 0,
            near_rep_ri: -1i8,
        };
        zxcost::lemma_cmd_bits(made, c, m);
        assert(cmds == made.push(c));
    }
    (opt, offs)
}

// ---------------------------------------------------------------------------
// Bounds
// ---------------------------------------------------------------------------
proof fn lemma_gamma_within(v: nat)
    requires
        v >= 1,
    ensures
        bitio::gamma_len(v) <= 2 * v - 1,
    decreases v,
{
    if v > 1 {
        lemma_gamma_within(v / 2);
    }
}

/// The lane of offset 1 never costs more than twelve bits for a byte.
proof fn lemma_first_lane(input: Seq<u8>, limit: int, opt: Seq<int>, short: bool, i: int)
    requires
        0 <= i <= input.len() <= 0x3fff_ffff,
        short ==> input.len() <= 256,
    ensures
        ({
            let l = at(input, limit, opt, short, 1, i);
            &&& l.last_match matches Some(b) && b.0 <= 12 * b.1
            &&& l.run > 0 ==> l.last_literal is Some
            &&& l.last_literal matches Some(c) ==> c.0 <= 12 * c.1 - 2
        }),
    decreases i,
{
    if i > 0 {
        let e = i - 1;
        lemma_first_lane(input, limit, opt, short, e);
        lemma_lane_true(input, limit, opt, short, 1, e);
        lemma_lane_true(input, limit, opt, short, 1, i);
        let l = at(input, limit, opt, short, 1, e);
        if hits(input, limit, 1, e) {
            let o = zxblocks::lane_opened(l, e, short);
            let b = l.last_match->0;
            if l.run == 0 {
                assert(b.1 < e) by {
                    if b.1 == e {
                        assert(e > 0);
                        assert(hits(input, limit, 1, e - 1));
                    }
                }
                lemma_gamma_within((e - b.1) as nat);
            }
            let c = o.last_literal->0;
            lemma_gamma_within((e + 1 - c.1) as nat);
        }
    }
}

/// No place costs more than twelve bits for a byte to get to.
proof fn lemma_cost_within(input: Seq<u8>, limit: int, opt: Seq<int>, short: bool, offs: Seq<usize>, p: int)
    requires
        zxblocks::blocks_right(input, limit, short, opt, offs, input.len() as int),
        0 <= p <= input.len() <= 0x3fff_ffff,
        short ==> input.len() <= 256,
    ensures
        opt[p] <= 12 * p,
{
    if p > 0 {
        lemma_first_lane(input, limit, opt, short, p);
        lemma_lane_true(input, limit, opt, short, 1, p);
        let b = at(input, limit, opt, short, 1, p).last_match->0;
        if b.1 < p {
            lemma_gamma_within((p - b.1) as nat);
        }
        let w = zxblocks::lane_count(input.len() as int, limit) + 1;
        stocklaws::lemma_cheapest_least(input, limit, opt, short, p, w, 1);
        assert(zxblocks::cheapest(input, limit, opt, short, p, w) == Some(
            (opt[p], offs[p] as int),
        ));
    }
}

/// What a ZX0 stream repeats at its end, from at most 32640 bytes before, costs a few
/// bytes on top of one and a half for each byte before the repeat.
pub proof fn lemma_zx0_repeat_is_short(
    input: Seq<u8>,
    backward: bool,
    stream: Seq<u8>,
    p: int,
    off: int,
)
    requires
        zx0compat::zx0_packed(input, backward, stream),
        input.len() <= 0x1_0000,
        1 <= off <= 32640,
        lz::is_match(zx0compat::turned(input, backward), p, off, input.len() - p),
        p + 2 <= input.len(),
    ensures
        8 * stream.len() <= 12 * p + 81,
{
    let order = zx0compat::turned(input, backward);
    let n = order.len() as int;
    let cmds = choose|cmds: Seq<ZxCommand>| #[trigger]
        zx0compat::zx0_encoded(input, cmds, backward, stream);
    let (opt, offs) = lemma_stock_bits(order, cmds);
    let m = zx0compat::zx0_mode(backward);
    zx::lemma_same_grammar(cmds, zx0opt::rep0_mode(), m, cmds.len() as int);
    stocklaws::lemma_stock_takes_repeats(order, 32640, false, opt, offs, p, off, n - p);
    lemma_cost_within(order, 32640, opt, false, offs, p);
    vstd::arithmetic::power2::lemma2_to64();
    zxlaws::lemma_gamma_small((n - p - 1) as nat, 16);
    zxlaws::lemma_gamma_small(((off - 1) / 128 + 1) as nat, 9);
}

/// A block of 21 bytes or more, said twice, is coded in fewer bytes than it has.
pub proof fn lemma_zx0_twice_is_shorter(block: Seq<u8>, backward: bool, stream: Seq<u8>)
    requires
        zx0compat::zx0_packed(block + block, backward, stream),
        21 <= block.len() <= 32640,
    ensures
        stream.len() < 2 * block.len(),
{
    let input = block + block;
    let n = block.len() as int;
    let order = zx0compat::turned(input, backward);
    assert forall|j: int| n <= j < 2 * n implies #[trigger] order[j] == order[j - n] by {}
    assert(lz::is_match(order, n, n, n));
    lemma_zx0_repeat_is_short(input, backward, stream, n, n);
}

// ---------------------------------------------------------------------------
// ZX02
// ---------------------------------------------------------------------------
proof fn lemma_toks_prefix(a: Seq<ZTok>, b: Seq<ZTok>, k: int)
    requires
        0 <= k <= a.len(),
        k <= b.len(),
        forall|j: int| 0 <= j < k ==> a[j] == b[j],
    ensures
        zx02::z_last(a, k) == zx02::z_last(b, k),
        zx02::z_bits(a, k) == zx02::z_bits(b, k),
    decreases k,
{
    if k > 0 {
        lemma_toks_prefix(a, b, k - 1);
    }
}

/// One more token.
proof fn lemma_tok_push(toks: Seq<ZTok>, t: ZTok)
    ensures
        ({
            let n = toks.len() as int;
            let next = toks.push(t);
            let sel = if n > 0 {
                1int
            } else {
                0
            };
            let last = zx02::z_last(toks, n);
            let again = n > 0 && toks[n - 1].off == 0 && t.off == last;
            &&& zx02::z_last(next, n + 1) == if t.off == 0 {
                last
            } else {
                t.off as int
            }
            &&& zx02::z_bits(next, n + 1) == zx02::z_bits(toks, n) + sel + if t.off == 0 {
                bitio::gamma_len(t.len as nat) + 8 * t.len
            } else if again {
                bitio::gamma_len(t.len as nat) as int
            } else {
                (bitio::gamma_len(((t.off - 1) / 128 + 1) as nat) + 7 + bitio::gamma_len(
                    if t.len == 1 {
                        256
                    } else {
                        (t.len - 1) as nat
                    },
                )) as int
            }
        }),
{
    lemma_toks_prefix(toks, toks.push(t), toks.len() as int);
}

proof fn lemma_run_ends(t: Seq<(u32, u32)>, p: int, q: int)
    requires
        0 <= p <= q <= t.len(),
        forall|k: int| p <= k < q ==> (#[trigger] t[k]).0 == 0,
        q < t.len() ==> t[q].0 != 0,
    ensures
        zx02::run_end(t, p) == q,
    decreases q - p,
{
    if p < q {
        assert(t[p].0 == 0);
        lemma_run_ends(t, p + 1, q);
    }
}

/// The tokens with the literals from `p` to `q`, if there are any.
spec fn with_literals(toks: Seq<ZTok>, p: int, q: int) -> Seq<ZTok> {
    if p < q {
        toks.push(ZTok { off: 0, len: (q - p) as u32 })
    } else {
        toks
    }
}

proof fn lemma_toks_over_literals(input: Seq<u8>, t: Seq<(u32, u32)>, p: int, q: int, toks: Seq<ZTok>)
    requires
        0 <= p <= q <= t.len() <= 256,
        forall|k: int| p <= k < q ==> (#[trigger] t[k]).0 == 0,
        q < t.len() ==> t[q].0 != 0,
    ensures
        zx02::z_tokens(input, t, p, toks) == zx02::z_tokens(input, t, q, with_literals(toks, p, q)),
{
    if p < q {
        assert(t[p].0 == 0);
        lemma_run_ends(t, p + 1, q);
    }
}

/// Reading up to the end of the block gives tokens that cost no more.
spec fn toks_up_to(input: Seq<u8>, t: Seq<(u32, u32)>, off: int, b: (int, int), toks: Seq<ZTok>) -> bool {
    let n = toks.len() as int;
    &&& zx02::z_tokens(input, t, 0, Seq::empty()) == zx02::z_tokens(input, t, b.1, toks)
    &&& zx02::z_last(toks, n) == off
    &&& b.1 == 0 ==> n == 0 && b.0 == 0
    &&& b.1 > 0 ==> n > 0 && toks[n - 1].off != 0 && zx02::z_bits(toks, n) + 1 <= b.0
}

proof fn lemma_toks_read(
    input: Seq<u8>,
    t: Seq<(u32, u32)>,
    o: int,
    x: (int, int),
    toks: Seq<ZTok>,
    start: int,
    off: int,
    b: (int, int),
) -> (next: Seq<ZTok>)
    requires
        toks_up_to(input, t, o, x, toks),
        0 <= x.1 <= start < b.1 <= t.len() <= 256,
        1 <= start,
        1 <= off < 256,
        t[start] == ((b.1 - start) as u32, off as u32),
        forall|q: int| x.1 <= q < start ==> (#[trigger] t[q]).0 == 0,
        ({
            let lits = zxblocks::literals_after(x, start, true);
            ||| off == o && x.1 < start && b.0 == lits + 1 + zxblocks::gamma_cost_of(
                b.1 - start,
                true,
            )
            ||| b.0 == (if x.1 == start {
                x.0
            } else {
                lits
            }) + zxblocks::length_cost_of(b.1 - start, true) + zxblocks::offset_cost_of(off, true)
        }),
    ensures
        toks_up_to(input, t, off, b, next),
{
    let len = b.1 - start;
    let mid = with_literals(toks, x.1, start);
    let tok = ZTok { off: off as u32, len: len as u32 };
    let next = mid.push(tok);
    lemma_toks_over_literals(input, t, x.1, start, toks);
    assert(t[start].0 == len && t[start].1 == off);
    assert(zx02::cut_match(t[start].1, t[start].0 as int, mid) == next);
    assert(zx02::z_tokens(input, t, start, mid) == zx02::z_tokens(input, t, b.1, next));
    if x.1 < start {
        lemma_tok_push(toks, ZTok { off: 0, len: (start - x.1) as u32 });
    }
    lemma_tok_push(mid, tok);
    zxcost::lemma_gamma_one_more(len as nat);
    if len >= 2 {
        zxcost::lemma_gamma_one_more((len - 1) as nat);
    }
    bitio::lemma_gamma_monotone(1, 256);
    bitio::lemma_gamma_monotone(((off - 1) / 128 + 1) as nat, (off / 128 + 1) as nat);
    bitio::lemma_gamma_monotone(1, (off / 128 + 1) as nat);
    next
}

proof fn lemma_toks_cost(
    input: Seq<u8>,
    opt: Seq<int>,
    offs: Seq<usize>,
    t: Seq<(u32, u32)>,
    off: int,
    b: (int, int),
) -> (toks: Seq<ZTok>)
    requires
        zxblocks::blocks_right(input, 32640, true, opt, offs, input.len() as int),
        0 <= b.1 <= input.len() <= 256,
        t.len() == input.len(),
        ends_at(input, 32640, opt, true, off, b),
        holds_blocks(input, 32640, opt, true, offs, t, off, b.1),
    ensures
        toks_up_to(input, t, off, b, toks),
    decreases b.1,
{
    if b.1 == 0 {
        Seq::empty()
    } else {
        lemma_came_about(input, 32640, opt, true, off, b);
        let w = zxblocks::origin_at(input, 32640, opt, off, true, b.1);
        let (o, end) = before_block(input, 32640, opt, true, offs, off, b.1);
        let x = if w.len == 0 {
            at(input, 32640, opt, true, off, w.from).last_match->0
        } else {
            lemma_led_to(input, 32640, opt, true, offs, w.start)
        };
        let toks = lemma_toks_cost(input, opt, offs, t, o, x);
        lemma_toks_read(input, t, o, x, toks, w.start, off, b)
    }
}

/// The tokens of the stock parse of up to 256 bytes take fewer bits than the cheapest way
/// to the end costs.
pub proof fn lemma_stock_toks_bits(input: Seq<u8>, toks: Seq<ZTok>) -> (r: (Seq<int>, Seq<usize>))
    requires
        zx02::stock_toks(input, toks),
        0 < input.len() <= 256,
    ensures
        zxblocks::blocks_right(input, 32640, true, r.0, r.1, input.len() as int),
        zx02::z_bits(toks, toks.len() as int) + 1 <= r.0[input.len() as int],
{
    let n = input.len() as int;
    let best = choose|best: Seq<(u32, u32)>| #[trigger]
        zxblocks::stock_table(input, 32640, true, best) && toks == zx02::z_tokens(
            input,
            best,
            0,
            Seq::empty(),
        );
    let (opt, offs) = choose|opt: Seq<int>, offs: Seq<usize>| #[trigger]
        zxblocks::blocks_right(input, 32640, true, opt, offs, n) && best == zxblocks::table_by(
            input,
            32640,
            true,
            opt,
            offs,
        );
    let b = lemma_led_to(input, 32640, opt, true, offs, n);
    let off = offs[n] as int;
    let zeros = Seq::new(input.len(), |p: int| (0u32, 0u32));
    lemma_table_holds(input, 32640, opt, true, offs, off, b, zeros);
    let made = lemma_toks_cost(input, opt, offs, best, off, b);
    assert forall|q: int| b.1 <= q < n implies (#[trigger] best[q]).0 == 0 by {
        assert(best[q] == zeros[q]);
    }
    lemma_toks_over_literals(input, best, b.1, n, made);
    if b.1 < n {
        lemma_tok_push(made, ZTok { off: 0, len: (n - b.1) as u32 });
    }
    assert(toks == with_literals(made, b.1, n));
    (opt, offs)
}

/// What a ZX02 stream of up to 256 bytes repeats at its end costs a few bytes on top of
/// one and a half for each byte before the repeat.
pub proof fn lemma_zx02_repeat_is_short(input: Seq<u8>, stream: Seq<u8>, p: int, off: int)
    requires
        zx02::zx02_packed(input, stream),
        input.len() <= 256,
        1 <= off,
        lz::is_match(input, p, off, input.len() - p),
        p + 2 <= input.len(),
    ensures
        8 * stream.len() <= 12 * p + 50,
{
    let n = input.len() as int;
    let toks = choose|toks: Seq<ZTok>| #[trigger] zx02::zx02_encoded(input, toks, stream);
    let (opt, offs) = lemma_stock_toks_bits(input, toks);
    stocklaws::lemma_stock_takes_repeats(input, 32640, true, opt, offs, p, off, n - p);
    lemma_cost_within(input, 32640, opt, true, offs, p);
    vstd::arithmetic::power2::lemma2_to64();
    zxlaws::lemma_gamma_small((n - p - 1) as nat, 8);
    zxlaws::lemma_gamma_small((off / 128 + 1) as nat, 2);
}

/// A block of 13 bytes or more, up to 128, said twice, is coded in fewer bytes than it
/// has.
pub proof fn lemma_zx02_twice_is_shorter(block: Seq<u8>, stream: Seq<u8>)
    requires
        zx02::zx02_packed(block + block, stream),
        13 <= block.len() <= 128,
    ensures
        stream.len() < 2 * block.len(),
{
    let input = block + block;
    let n = block.len() as int;
    assert forall|j: int| n <= j < 2 * n implies #[trigger] input[j] == input[j - n] by {}
    assert(lz::is_match(input, n, n, n));
    lemma_zx02_repeat_is_short(input, stream, n, n);
}

} // verus!
