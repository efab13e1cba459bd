//! The parse of the stock packers for streams with one recent offset. For every
//! offset the last block that ends in a literal run and the last one that ends in
//! a match are kept, and for every position the cheapest of all. A match that
//! breaks a long literal run replaces the block before it, so the parse is not
//! always the smallest.
use crate::bitio;
use crate::lz;
use crate::zx::gamma_bits;
use crate::zxbest;
use crate::zxbest::zero_table;
use crate::zxlane;
use crate::zxlane::{hits, ints};
use crate::zxreach::offsets_within;
use vstd::prelude::*;

verus! {

/// What a code that does not exist costs.
pub const NO_GAMMA: u64 = 0x10_0000;

/// Bits of a gamma code. With `short` no code goes beyond 256.
pub open spec fn gamma_cost_of(value: int, short: bool) -> int {
    if value < 1 || value > 0x7fff_ffff || (short && value > 256) {
        NO_GAMMA as int
    } else {
        bitio::gamma_len(value as nat) as int
    }
}

fn gamma_cost(value: usize, short: bool) -> (bits: u64)
    ensures
        bits == gamma_cost_of(value as int, short),
        bits <= NO_GAMMA,
{
    if value < 1 || value > 0x7fff_ffff || (short && value > 256) {
        NO_GAMMA
    } else {
        gamma_bits(value as u32) as u64
    }
}

/// Bits of a length behind a written offset. With `short` the code of 256 stands
/// for a single byte.
pub open spec fn length_cost_of(len: int, short: bool) -> int {
    gamma_cost_of(
        if short && len == 1 {
            256
        } else {
            len - 1
        },
        short,
    )
}

fn length_cost(len: usize, short: bool) -> (bits: u64)
    requires
        len >= 1,
    ensures
        bits == length_cost_of(len as int, short),
        bits <= NO_GAMMA,
{
    if short && len == 1 {
        gamma_cost(256, short)
    } else {
        gamma_cost(len - 1, short)
    }
}

/// Bits of a written offset, with the symbol in front.
pub open spec fn offset_cost_of(off: int, short: bool) -> int {
    8 + gamma_cost_of(
        (if short {
            off
        } else {
            off - 1
        }) / 128 + 1,
        short,
    )
}

fn offset_cost(off: usize, short: bool) -> (bits: u64)
    requires
        1 <= off <= u32::MAX,
    ensures
        bits == offset_cost_of(off as int, short),
        bits <= 8 + NO_GAMMA,
{
    let high: usize = if short {
        off / 128
    } else {
        (off - 1) / 128
    };
    8 + gamma_cost(high + 1, short)
}

/// The shortest match with a written offset.
pub open spec fn shortest(short: bool) -> int {
    if short {
        1
    } else {
        2
    }
}

/// What it costs to get to `len` bytes before `p`, and a length.
pub open spec fn with_length(opt: Seq<int>, p: int, len: int, short: bool) -> int {
    opt[p - len] + length_cost_of(len, short)
}

/// The best length up to `len` of a match that ends at `p`, the longest of equally
/// good ones.
pub open spec fn best_length(opt: Seq<int>, p: int, len: int, short: bool) -> int
    decreases len,
{
    if len <= shortest(short) {
        shortest(short)
    } else {
        let before = best_length(opt, p, len - 1, short);
        if with_length(opt, p, len, short) <= with_length(opt, p, before, short) {
            len
        } else {
            before
        }
    }
}

/// What is known of one offset: the last block that ends in a match with it and
/// the last one that ends in literals behind such a match, each as what it costs
/// to get to its end and that end; the end of the match before these literals; and
/// how many bytes repeat. Costs count one bit more than the blocks take.
pub struct Lane {
    pub last_match: Option<(int, int)>,
    pub last_literal: Option<(int, int)>,
    pub from: int,
    pub run: int,
}

/// How a match came about: behind literals from `from` on as a match from `start`
/// on, or where `len` is not zero as a match of that length with its offset.
pub struct Origin {
    pub start: int,
    pub from: int,
    pub len: int,
}

/// What it costs to get to `e` by literals behind a block.
pub open spec fn literals_after(b: (int, int), e: int, short: bool) -> int {
    b.0 + 1 + 8 * (e - b.1) + gamma_cost_of(e - b.1, short)
}

/// The lane of an offset before the first byte: a match at offset 1 ends there.
pub open spec fn lane_start(off: int) -> Lane {
    Lane {
        last_match: if off == 1 {
            Some((0, 0))
        } else {
            None
        },
        last_literal: None,
        from: 0,
        run: 0,
    }
}

/// The lane as the byte at `e` begins to repeat: the literals before it are a block.
pub open spec fn lane_opened(l: Lane, e: int, short: bool) -> Lane {
    match l.last_match {
        Some(b) => if l.run == 0 {
            Lane { last_literal: Some((literals_after(b, e, short), e)), from: b.1, ..l }
        } else {
            l
        },
        None => l,
    }
}

/// The match behind the literals that ends behind the byte at `e`; without
/// literals the match before.
pub open spec fn rep_block(l: Lane, e: int, short: bool) -> Option<(int, int)> {
    match l.last_literal {
        Some(b) => Some((b.0 + 1 + gamma_cost_of(e + 1 - b.1, short), e + 1)),
        None => l.last_match,
    }
}

/// The match with its offset that ends behind the byte at `e`: its cost and its
/// length.
pub open spec fn new_block(opt: Seq<int>, off: int, e: int, run: int, short: bool) -> (int, int) {
    let len = best_length(opt, e + 1, run, short);
    (with_length(opt, e + 1, len, short) + offset_cost_of(off, short), len)
}

/// The match with its offset is taken: there is no other, or it is cheaper.
pub open spec fn takes_new(opt: Seq<int>, l: Lane, off: int, e: int, short: bool) -> bool {
    &&& l.run + 1 >= shortest(short)
    &&& match rep_block(l, e, short) {
        Some(b) => b.1 != e + 1 || b.0 > new_block(opt, off, e, l.run + 1, short).0,
        None => true,
    }
}

/// The lane after the byte at `e`, which repeats. `l` is opened.
pub open spec fn lane_hit(opt: Seq<int>, l: Lane, off: int, e: int, short: bool) -> Lane {
    Lane {
        last_match: if takes_new(opt, l, off, e, short) {
            Some((new_block(opt, off, e, l.run + 1, short).0, e + 1))
        } else {
            rep_block(l, e, short)
        },
        run: l.run + 1,
        ..l
    }
}

/// How the match that ends behind the byte at `e` came about. `l` is opened.
pub open spec fn origin_of(opt: Seq<int>, l: Lane, off: int, e: int, short: bool) -> Origin {
    if takes_new(opt, l, off, e, short) {
        let len = new_block(opt, off, e, l.run + 1, short).1;
        Origin { start: e + 1 - len, from: 0, len }
    } else {
        Origin {
            start: match l.last_literal {
                Some(b) => b.1,
                None => 0,
            },
            from: l.from,
            len: 0,
        }
    }
}

/// The lane of an offset after the first `i` bytes.
pub open spec fn lane_at(input: Seq<u8>, limit: int, opt: Seq<int>, off: int, short: bool, i: int) -> Lane
    decreases i,
{
    if i <= 0 {
        lane_start(off)
    } else {
        let l = lane_at(input, limit, opt, off, short, i - 1);
        if hits(input, limit, off, i - 1) {
            lane_hit(opt, lane_opened(l, i - 1, short), off, i - 1, short)
        } else {
            Lane { run: 0, ..l }
        }
    }
}

/// The lane before the byte at `e`, opened.
pub open spec fn opened_at(input: Seq<u8>, limit: int, opt: Seq<int>, off: int, short: bool, e: int) -> Lane {
    lane_opened(lane_at(input, limit, opt, off, short, e), e, short)
}

/// How the match with the offset that ends at `p` came about.
pub open spec fn origin_at(input: Seq<u8>, limit: int, opt: Seq<int>, off: int, short: bool, p: int) -> Origin {
    origin_of(opt, opened_at(input, limit, opt, off, short, p - 1), off, p - 1, short)
}

/// What a lane offers at `p`: its match that ends there, or literals.
pub open spec fn offer_of(l: Lane, p: int, short: bool) -> Option<int> {
    match l.last_match {
        Some(b) => if b.1 == p {
            Some(b.0)
        } else if l.run > 0 {
            None
        } else {
            Some(literals_after(b, p, short))
        },
        None => None,
    }
}

pub open spec fn lane_offer(input: Seq<u8>, limit: int, opt: Seq<int>, off: int, short: bool, p: int) -> Option<int> {
    offer_of(lane_at(input, limit, opt, off, short, p), p, short)
}

/// The cheapest of the first offers at `p`, of the offsets below `w`, and its
/// offset; the first of equal ones.
pub open spec fn cheapest(input: Seq<u8>, limit: int, opt: Seq<int>, short: bool, p: int, w: int) -> Option<(int, int)>
    decreases w,
{
    if w <= 1 {
        None
    } else {
        let before = cheapest(input, limit, opt, short, p, w - 1);
        match (lane_offer(input, limit, opt, w - 1, short, p), before) {
            (None, _) => before,
            (Some(x), None) => Some((x, w - 1)),
            (Some(x), Some(y)) => if x < y.0 {
                Some((x, w - 1))
            } else {
                before
            },
        }
    }
}

/// How many offsets there are.
pub open spec fn lane_count(n: int, limit: int) -> int {
    if n <= 2 || limit < 2 {
        1
    } else if limit < n - 1 {
        limit
    } else {
        n - 1
    }
}

/// `opt` has the cheapest cost of every position up to `upto`, and `offs` the
/// offset it is by.
pub open spec fn blocks_right(
    input: Seq<u8>,
    limit: int,
    short: bool,
    opt: Seq<int>,
    offs: Seq<usize>,
    upto: int,
) -> bool {
    let w = lane_count(input.len() as int, limit) + 1;
    &&& opt.len() == upto + 1
    &&& offs.len() == upto + 1
    &&& opt[0] == 0
    &&& offs[0] == 1
    &&& forall|p: int|
        1 <= p <= upto ==> cheapest(input, limit, opt, short, p, w) == Some(
            (opt[p], (#[trigger] offs[p]) as int),
        )
}

/// Where the last match with the offset ends, at or before `p`.
pub open spec fn match_end(input: Seq<u8>, limit: int, short: bool, opt: Seq<int>, off: int, p: int) -> int {
    match lane_at(input, limit, opt, off, short, p).last_match {
        Some(b) => b.1,
        None => 0,
    }
}

/// The matches of the blocks that lead to the end `e` of a match with the offset
/// `off`, put into a table.
pub open spec fn blocks_table(
    input: Seq<u8>,
    limit: int,
    short: bool,
    opt: Seq<int>,
    offs: Seq<usize>,
    off: int,
    e: int,
    best: Seq<(u32, u32)>,
) -> Seq<(u32, u32)>
    decreases e,
{
    if e <= 0 {
        best
    } else {
        let w = origin_at(input, limit, opt, off, short, e);
        let (next_off, next_end) = if w.len == 0 {
            (off, w.from)
        } else {
            let o = offs[e - w.len] as int;
            (o, match_end(input, limit, short, opt, o, e - w.len))
        };
        let put = best.update(w.start, ((e - w.start) as u32, off as u32));
        if !(0 <= next_end < e) {
            put
        } else {
            blocks_table(input, limit, short, opt, offs, next_off, next_end, put)
        }
    }
}

/// The table of the blocks that lead to the cheapest one at the end.
pub open spec fn table_by(input: Seq<u8>, limit: int, short: bool, opt: Seq<int>, offs: Seq<usize>) -> Seq<
    (u32, u32),
> {
    let n = input.len() as int;
    blocks_table(
        input,
        limit,
        short,
        opt,
        offs,
        offs[n] as int,
        match_end(input, limit, short, opt, offs[n] as int, n),
        Seq::new(input.len(), |p: int| (0u32, 0u32)),
    )
}

/// The table of the stock parse: `best` holds the matches of the blocks that lead
/// to the cheapest one at the end.
pub open spec fn stock_table(input: Seq<u8>, limit: int, short: bool, best: Seq<(u32, u32)>) -> bool {
    if input.len() == 0 {
        best.len() == 0
    } else {
        exists|opt: Seq<int>, offs: Seq<usize>| #[trigger]
            blocks_right(input, limit, short, opt, offs, input.len() as int) && best == table_by(
                input,
                limit,
                short,
                opt,
                offs,
            )
    }
}

// ---------------------------------------------------------------------------
// There is one stock parse
// ---------------------------------------------------------------------------
proof fn lemma_best_length_frame(a: Seq<int>, b: Seq<int>, p: int, len: int, short: bool)
    requires
        forall|q: int| 0 <= q < p ==> a[q] == b[q],
        len <= p,
        shortest(short) <= p,
    ensures
        best_length(a, p, len, short) == best_length(b, p, len, short),
        len >= shortest(short) ==> shortest(short) <= best_length(a, p, len, short) <= len,
    decreases len,
{
    if len > shortest(short) {
        lemma_best_length_frame(a, b, p, len - 1, short);
    }
}

/// A lane depends on the costs before it alone.
proof fn lemma_lane_frame(input: Seq<u8>, limit: int, a: Seq<int>, b: Seq<int>, off: int, short: bool, i: int)
    requires
        forall|q: int| 0 <= q < i ==> a[q] == b[q],
    ensures
        lane_at(input, limit, a, off, short, i) == lane_at(input, limit, b, off, short, i),
        i >= 0 ==> zxlane::run_is(
            input,
            limit,
            off,
            i,
            lane_at(input, limit, a, off, short, i).run,
        ),
    decreases i,
{
    if i > 0 {
        lemma_lane_frame(input, limit, a, b, off, short, i - 1);
        let l = lane_at(input, limit, a, off, short, i - 1);
        let e = i - 1;
        if hits(input, limit, off, e) {
            let o = lane_opened(l, e, short);
            if l.run > 0 {
                assert(hits(input, limit, off, e - l.run));
            }
            assert(zxlane::run_is(input, limit, off, i, l.run + 1)) by {
                assert forall|q: int| i - (l.run + 1) <= q < i implies #[trigger] hits(
                    input,
                    limit,
                    off,
                    q,
                ) by {
                    if q != e {
                        assert(e - l.run <= q < e);
                    }
                }
            }
            if l.run + 1 >= shortest(short) {
                lemma_best_length_frame(a, b, i, l.run + 1, short);
            }
        }
    }
}

proof fn lemma_cheapest_frame(input: Seq<u8>, limit: int, a: Seq<int>, b: Seq<int>, short: bool, p: int, w: int)
    requires
        forall|q: int| 0 <= q < p ==> a[q] == b[q],
    ensures
        cheapest(input, limit, a, short, p, w) == cheapest(input, limit, b, short, p, w),
    decreases w,
{
    if w > 1 {
        lemma_cheapest_frame(input, limit, a, b, short, p, w - 1);
        lemma_lane_frame(input, limit, a, b, w - 1, short, p);
    }
}

proof fn lemma_one_right(
    input: Seq<u8>,
    limit: int,
    short: bool,
    a: Seq<int>,
    f: Seq<usize>,
    b: Seq<int>,
    g: Seq<usize>,
    n: int,
    p: int,
)
    requires
        blocks_right(input, limit, short, a, f, n),
        blocks_right(input, limit, short, b, g, n),
        0 <= p <= n,
    ensures
        a[p] == b[p],
        p > 0 ==> f[p] == g[p],
    decreases p,
{
    if p > 0 {
        assert forall|q: int| 0 <= q < p implies a[q] == b[q] by {
            lemma_one_right(input, limit, short, a, f, b, g, n, q);
        }
        lemma_cheapest_frame(input, limit, a, b, short, p, lane_count(input.len() as int, limit) + 1);
        assert(f[p] as int == g[p] as int);
    }
}

/// The stock parse of an input is one table.
pub proof fn lemma_stock_is_one(
    input: Seq<u8>,
    limit: int,
    short: bool,
    a: Seq<(u32, u32)>,
    b: Seq<(u32, u32)>,
)
    requires
        stock_table(input, limit, short, a),
        stock_table(input, limit, short, b),
    ensures
        a == b,
{
    let n = input.len() as int;
    if n == 0 {
        assert(a =~= b);
    } else {
        let (o1, f1) = choose|opt: Seq<int>, offs: Seq<usize>| #[trigger]
            blocks_right(input, limit, short, opt, offs, n) && a == table_by(
                input,
                limit,
                short,
                opt,
                offs,
            );
        let (o2, f2) = choose|opt: Seq<int>, offs: Seq<usize>| #[trigger]
            blocks_right(input, limit, short, opt, offs, n) && b == table_by(
                input,
                limit,
                short,
                opt,
                offs,
            );
        assert forall|p: int| 0 <= p <= n implies o1[p] == o2[p] && f1[p] == f2[p] by {
            lemma_one_right(input, limit, short, o1, f1, o2, f2, n, p);
        }
        assert(o1 =~= o2);
        assert(f1 =~= f2);
    }
}

// ---------------------------------------------------------------------------
// What holds of a lane
// ---------------------------------------------------------------------------
/// No cost is out of range.
pub open spec fn small_bits(bits: int, end: int) -> bool {
    0 <= bits <= 0x40_0000 * (end + 1)
}

pub open spec fn small_opt(opt: Seq<int>) -> bool {
    forall|p: int| 0 <= p < opt.len() ==> small_bits(#[trigger] opt[p], p)
}

/// A match with the offset ends at `e`.
spec fn made(input: Seq<u8>, limit: int, opt: Seq<int>, off: int, short: bool, e: int) -> bool {
    let o = opened_at(input, limit, opt, off, short, e - 1);
    &&& e > 0
    &&& hits(input, limit, off, e - 1)
    &&& takes_new(opt, o, off, e - 1, short) || o.last_literal is Some
}

spec fn lane_ok(input: Seq<u8>, limit: int, opt: Seq<int>, off: int, short: bool, i: int, l: Lane) -> bool {
    &&& zxlane::run_is(input, limit, off, i, l.run)
    &&& l.last_match matches Some(b) ==> {
        &&& 0 <= b.1 <= i
        &&& small_bits(b.0, b.1)
        &&& l.run == 0 && i > 0 ==> b.1 < i
        &&& b.1 == 0 || made(input, limit, opt, off, short, b.1)
    }
    &&& l.last_literal matches Some(b) ==> {
        &&& 0 <= l.from < b.1 <= i
        &&& small_bits(b.0, b.1)
        &&& l.run > 0 ==> b.1 == i - l.run
        &&& l.last_match is Some
        &&& l.from == 0 || made(input, limit, opt, off, short, l.from)
    }
    &&& off == 1 ==> l.last_match is Some && (l.run > 0 ==> l.last_literal is Some && (
    l.last_match->0).1 == i)
}

proof fn lemma_gamma_cost(v: int, short: bool)
    ensures
        0 <= gamma_cost_of(v, short) <= NO_GAMMA,
{
    if 1 <= v <= 0x7fff_ffff {
        bitio::lemma_floor_log2_lz(v as u32);
    }
}

/// What holds when the byte at `e` repeats.
spec fn hit_facts(input: Seq<u8>, limit: int, opt: Seq<int>, off: int, short: bool, e: int, l: Lane) -> bool {
    let o = lane_opened(l, e, short);
    &&& o.last_match == l.last_match
    &&& o.run == l.run
    &&& 0 <= l.run && l.run + 1 <= e
    &&& l.last_match matches Some(b) ==> (l.run == 0 ==> 0 <= b.1 < e && small_bits(
        literals_after(b, e, short),
        e,
    ))
    &&& o.last_literal matches Some(b) ==> {
        &&& b.1 == e - l.run
        &&& 0 <= o.from < b.1
        &&& small_bits(b.0, b.1)
        &&& small_bits(b.0 + 1 + gamma_cost_of(e + 1 - b.1, short), e + 1)
        &&& o.from == 0 || made(input, limit, opt, off, short, o.from)
    }
    &&& l.run + 1 >= shortest(short) ==> {
        let nb = new_block(opt, off, e, l.run + 1, short);
        &&& small_bits(nb.0, e + 1)
        &&& shortest(short) <= nb.1 <= l.run + 1
    }
}

proof fn lemma_hit_facts(input: Seq<u8>, limit: int, opt: Seq<int>, off: int, short: bool, e: int, l: Lane)
    requires
        lane_ok(input, limit, opt, off, short, e, l),
        hits(input, limit, off, e),
        small_opt(opt),
        opt.len() >= e + 1,
        0 <= e < input.len() <= 0x3fff_ffff,
    ensures
        hit_facts(input, limit, opt, off, short, e, l),
{
    let o = lane_opened(l, e, short);
    if l.run > 0 {
        assert(hits(input, limit, off, e - l.run));
    }
    match l.last_match {
        Some(b) => {
            if l.run == 0 {
                lemma_gamma_cost(e - b.1, short);
            }
        },
        None => {},
    }
    match o.last_literal {
        Some(b) => {
            lemma_gamma_cost(e + 1 - b.1, short);
        },
        None => {},
    }
    if l.run + 1 >= shortest(short) {
        lemma_best_length_frame(opt, opt, e + 1, l.run + 1, short);
        let len = best_length(opt, e + 1, l.run + 1, short);
        lemma_gamma_cost(
            if short && len == 1 {
                256
            } else {
                len - 1
            },
            short,
        );
        lemma_gamma_cost(
            (if short {
                off
            } else {
                off - 1
            }) / 128 + 1,
            short,
        );
        assert(small_bits(opt[e + 1 - len], e + 1 - len));
    }
}

/// Every lane is as it should be.
proof fn lemma_lane_ok(input: Seq<u8>, limit: int, opt: Seq<int>, off: int, short: bool, i: int)
    requires
        small_opt(opt),
        opt.len() >= i,
        0 <= i <= input.len() <= 0x3fff_ffff,
    ensures
        lane_ok(input, limit, opt, off, short, i, lane_at(input, limit, opt, off, short, i)),
    decreases i,
{
    lemma_lane_frame(input, limit, opt, opt, off, short, i);
    if i > 0 {
        lemma_lane_ok(input, limit, opt, off, short, i - 1);
        let e = i - 1;
        let l = lane_at(input, limit, opt, off, short, e);
        if hits(input, limit, off, e) {
            lemma_hit_facts(input, limit, opt, off, short, e, l);
            let o = lane_opened(l, e, short);
            assert(o == opened_at(input, limit, opt, off, short, e));
        }
    }
}

// ---------------------------------------------------------------------------
// The search
// ---------------------------------------------------------------------------
/// A lane.
#[derive(Clone, Copy)]
struct Track {
    has_match: bool,
    match_bits: u64,
    match_end: usize,
    has_literal: bool,
    literal_bits: u64,
    literal_end: usize,
    from: usize,
    run: usize,
}

impl Track {
    spec fn lane(&self) -> Lane {
        Lane {
            last_match: if self.has_match {
                Some((self.match_bits as int, self.match_end as int))
            } else {
                None
            },
            last_literal: if self.has_literal {
                Some((self.literal_bits as int, self.literal_end as int))
            } else {
                None
            },
            from: self.from as int,
            run: self.run as int,
        }
    }

    fn start(off: usize) -> (t: Track)
        ensures
            t.lane() == lane_start(off as int),
    {
        Track {
            has_match: off == 1,
            match_bits: 0,
            match_end: 0,
            has_literal: false,
            literal_bits: 0,
            literal_end: 0,
            from: 0,
            run: 0,
        }
    }
}

/// How a match came about.
#[derive(Clone, Copy)]
struct Made {
    start: usize,
    from: usize,
    len: usize,
}

impl Made {
    spec fn origin(&self) -> Origin {
        Origin { start: self.start as int, from: self.from as int, len: self.len as int }
    }
}

/// The best lengths of matches that end at `p`, as far as they are known.
spec fn lengths_ok(bl: Seq<usize>, opt: Seq<int>, p: int, short: bool) -> bool {
    &&& bl.len() > shortest(short)
    &&& forall|len: int|
        shortest(short) <= len < bl.len() ==> #[trigger] bl[len] == best_length(opt, p, len, short)
}

fn no_lengths(short: bool) -> (bl: Vec<usize>)
    ensures
        forall|opt: Seq<int>, p: int| #[trigger] lengths_ok(bl@, opt, p, short),
{
    let mut bl: Vec<usize> = Vec::new();
    bl.push(0);
    if short {
        bl.push(1);
    } else {
        bl.push(0);
        bl.push(2);
    }
    bl
}

/// Extends the best lengths up to `len`.
fn grow_lengths(bl: &mut Vec<usize>, opt: &Vec<u64>, p: usize, len: usize, short: bool)
    requires
        lengths_ok(old(bl)@, ints(opt@), p as int, short),
        len < p <= opt@.len(),
        p <= 0x4000_0000,
        small_opt(ints(opt@)),
    ensures
        lengths_ok(final(bl)@, ints(opt@), p as int, short),
        final(bl)@.len() > len,
{
    let ghost o = ints(opt@);
    while bl.len() <= len
        invariant
            lengths_ok(bl@, o, p as int, short),
            o == ints(opt@),
            len < p <= opt@.len(),
            p <= 0x4000_0000,
            small_opt(o),
        decreases len + 1 - bl@.len(),
    {
        let next: usize = bl.len();
        let before: usize = bl[next - 1];
        proof {
            lemma_best_length_frame(o, o, p as int, next - 1, short);
            assert(bl@[next - 1] == best_length(o, p as int, next - 1, short));
            assert(small_bits(o[p - next], p - next));
            assert(small_bits(o[p - before], p - before));
        }
        let a: u64 = opt[p - next] + length_cost(next, short);
        let b: u64 = opt[p - before] + length_cost(before, short);
        if a <= b {
            bl.push(next);
        } else {
            bl.push(before);
        }
    }
}

/// The lane after the byte at `e`, and how its match came about.
#[verifier::rlimit(40)]
fn step_track(
    input: &[u8],
    limit: usize,
    t: Track,
    off: usize,
    e: usize,
    opt: &Vec<u64>,
    bl: &mut Vec<usize>,
    short: bool,
) -> (r: (Track, Made))
    requires
        1 <= off <= u32::MAX,
        e < input@.len() <= 0x3fff_ffff,
        e < opt@.len(),
        small_opt(ints(opt@)),
        lengths_ok(old(bl)@, ints(opt@), e + 1, short),
        t.lane() == lane_at(input@, limit as int, ints(opt@), off as int, short, e as int),
    ensures
        lengths_ok(final(bl)@, ints(opt@), e + 1, short),
        r.0.lane() == lane_at(input@, limit as int, ints(opt@), off as int, short, e + 1),
        made(input@, limit as int, ints(opt@), off as int, short, e + 1) ==> r.1.origin()
            == origin_at(input@, limit as int, ints(opt@), off as int, short, e + 1),
{
    let ghost o = ints(opt@);
    let ghost l = t.lane();
    proof {
        lemma_lane_ok(input@, limit as int, o, off as int, short, e as int);
    }
    if !(off <= limit && off <= e && input[e] == input[e - off]) {
        assert(!hits(input@, limit as int, off as int, e as int));
        let mut next: Track = t;
        next.run = 0;
        return (next, Made { start: 0, from: 0, len: 0 });
    }
    assert(hits(input@, limit as int, off as int, e as int));
    proof {
        lemma_hit_facts(input@, limit as int, o, off as int, short, e as int, l);
    }
    let mut a: Track = t;
    if t.has_match && t.run == 0 {
        let len: usize = e - t.match_end;
        a.has_literal = true;
        a.literal_bits = t.match_bits + 1 + 8 * (len as u64) + gamma_cost(len, short);
        a.literal_end = e;
        a.from = t.match_end;
    }
    assert(a.lane() == lane_opened(l, e as int, short));
    let ghost op = a.lane();
    let mut has_rep: bool = t.has_match;
    let mut rep_bits: u64 = t.match_bits;
    let mut rep_end: usize = t.match_end;
    if a.has_literal {
        has_rep = true;
        rep_bits = a.literal_bits + 1 + gamma_cost(e + 1 - a.literal_end, short);
        rep_end = e + 1;
    }
    let mut made_by: Made = Made { start: 0, from: a.from, len: 0 };
    if a.has_literal {
        made_by.start = a.literal_end;
    }
    let least: usize = if short {
        1
    } else {
        2
    };
    a.has_match = has_rep;
    a.match_bits = rep_bits;
    a.match_end = rep_end;
    if t.run + 1 >= least {
        grow_lengths(bl, opt, e + 1, t.run + 1, short);
        let len: usize = bl[t.run + 1];
        assert(len == best_length(o, e + 1, t.run + 1, short));
        assert(o[e + 1 - len] == opt@[e + 1 - len]);
        let bits: u64 = opt[e + 1 - len] + length_cost(len, short) + offset_cost(off, short);
        assert(bits == new_block(o, off as int, e as int, t.run + 1, short).0);
        if !has_rep || rep_end != e + 1 || rep_bits > bits {
            assert(takes_new(o, op, off as int, e as int, short));
            a.has_match = true;
            a.match_bits = bits;
            a.match_end = e + 1;
            made_by = Made { start: e + 1 - len, from: 0, len };
        }
    }
    a.run = t.run + 1;
    (a, made_by)
}


/// The lanes before the first byte.
fn start_tracks(w: usize) -> (tracks: Vec<Track>)
    requires
        w < 0x4000_0000,
    ensures
        tracks@.len() == w + 1,
        forall|o: int| 1 <= o <= w ==> (#[trigger] tracks@[o]).lane() == lane_start(o),
{
    let mut tracks: Vec<Track> = Vec::with_capacity(w + 1);
    let mut o: usize = 0;
    while o <= w
        invariant
            o <= w + 1,
            w < 0x4000_0000,
            tracks@.len() == o,
            forall|k: int| 0 <= k < o ==> (#[trigger] tracks@[k]).lane() == lane_start(k),
        decreases w + 1 - o,
    {
        tracks.push(Track::start(o));
        o += 1;
    }
    tracks
}

/// What a lane offers at `p`.
fn offer(t: &Track, p: usize, short: bool, Ghost(l): Ghost<Lane>) -> (r: Option<u64>)
    requires
        t.lane() == l,
        p <= 0x3fff_ffff,
        l.last_match matches Some(b) ==> 0 <= b.1 <= p && small_bits(b.0, b.1) && (l.run == 0 && p
            > 0 ==> b.1 < p),
    ensures
        match r {
            Some(x) => offer_of(l, p as int, short) == Some(x as int) && small_bits(
                x as int,
                p as int,
            ),
            None => offer_of(l, p as int, short) is None,
        },
{
    if !t.has_match {
        None
    } else if t.match_end == p {
        Some(t.match_bits)
    } else if t.run > 0 {
        None
    } else {
        let len: usize = p - t.match_end;
        proof {
            lemma_gamma_cost(len as int, short);
        }
        Some(t.match_bits + 1 + 8 * (len as u64) + gamma_cost(len, short))
    }
}

/// One byte for all offsets: the cheapest cost behind it, and its offset.
#[verifier::rlimit(100)]
#[verifier::spinoff_prover]
fn step_tracks(
    input: &[u8],
    limit: usize,
    tracks: &mut Vec<Track>,
    e: usize,
    opt: &Vec<u64>,
    short: bool,
) -> (r: (u64, usize))
    requires
        2 <= old(tracks)@.len() <= 0x4000_0000,
        e < input@.len() <= 0x3fff_ffff,
        opt@.len() == e + 1,
        small_opt(ints(opt@)),
        forall|o: int|
            1 <= o < old(tracks)@.len() ==> (#[trigger] old(tracks)@[o]).lane() == lane_at(
                input@,
                limit as int,
                ints(opt@),
                o,
                short,
                e as int,
            ),
    ensures
        final(tracks)@.len() == old(tracks)@.len(),
        forall|o: int|
            1 <= o < final(tracks)@.len() ==> (#[trigger] final(tracks)@[o]).lane() == lane_at(
                input@,
                limit as int,
                ints(opt@),
                o,
                short,
                e + 1,
            ),
        cheapest(
            input@,
            limit as int,
            ints(opt@),
            short,
            e + 1,
            final(tracks)@.len() as int,
        ) == Some((r.0 as int, r.1 as int)),
        small_bits(r.0 as int, e + 1),
        1 <= r.1 < final(tracks)@.len(),
{
    let w: usize = tracks.len();
    let p: usize = e + 1;
    let ghost o = ints(opt@);
    let ghost l1 = limit as int;
    let mut bl: Vec<usize> = no_lengths(short);
    assert(lengths_ok(bl@, o, p as int, short));
    let mut best: Option<(u64, usize)> = None;
    let mut off: usize = 1;
    while off < w
        invariant
            1 <= off <= w,
            w == tracks@.len(),
            w == old(tracks)@.len(),
            2 <= w <= 0x4000_0000,
            p == e + 1,
            e < input@.len() <= 0x3fff_ffff,
            opt@.len() == e + 1,
            o == ints(opt@),
            l1 == limit,
            small_opt(o),
            lengths_ok(bl@, o, p as int, short),
            forall|k: int|
                1 <= k < off ==> (#[trigger] tracks@[k]).lane() == lane_at(
                    input@,
                    l1,
                    o,
                    k,
                    short,
                    p as int,
                ),
            forall|k: int|
                off <= k < w ==> (#[trigger] tracks@[k]).lane() == lane_at(
                    input@,
                    l1,
                    o,
                    k,
                    short,
                    e as int,
                ),
            match best {
                Some(b) => cheapest(input@, l1, o, short, p as int, off as int) == Some(
                    (b.0 as int, b.1 as int),
                ) && small_bits(b.0 as int, p as int) && 1 <= b.1 < off,
                None => cheapest(input@, l1, o, short, p as int, off as int) is None && off == 1,
            },
        decreases w - off,
    {
        let (next, _by) = step_track(input, limit, tracks[off], off, e, opt, &mut bl, short);
        tracks.set(off, next);
        proof {
            lemma_lane_ok(input@, l1, o, off as int, short, p as int);
        }
        let x: Option<u64> = offer(&next, p, short, Ghost(next.lane()));
        match x {
            None => {},
            Some(bits) => {
                let better: bool = match best {
                    None => true,
                    Some(b) => bits < b.0,
                };
                if better {
                    best = Some((bits, off));
                }
            },
        }
        off += 1;
    }
    match best {
        Some(b) => b,
        None => (0, 0),
    }
}

/// The cheapest cost of every position, and the offset it is by.
#[verifier::rlimit(40)]
fn find_blocks(input: &[u8], limit: usize, short: bool) -> (r: (Vec<u64>, Vec<usize>))
    requires
        1 <= input@.len() <= 0x3fff_ffff,
    ensures
        blocks_right(input@, limit as int, short, ints(r.0@), r.1@, input@.len() as int),
        small_opt(ints(r.0@)),
        forall|p: int| 0 <= p < r.1@.len() ==> 1 <= #[trigger] r.1@[p] <= 0x3fff_ffff,
{
    let n: usize = input.len();
    let w: usize = if n <= 2 || limit < 2 {
        1
    } else if limit < n - 1 {
        limit
    } else {
        n - 1
    };
    let mut tracks: Vec<Track> = start_tracks(w);
    let mut opt: Vec<u64> = Vec::with_capacity(n + 1);
    let mut offs: Vec<usize> = Vec::with_capacity(n + 1);
    opt.push(0);
    offs.push(1);
    let mut e: usize = 0;
    while e < n
        invariant
            n == input@.len(),
            1 <= n <= 0x3fff_ffff,
            e <= n,
            1 <= w <= 0x3fff_ffff,
            w == lane_count(n as int, limit as int),
            tracks@.len() == w + 1,
            blocks_right(input@, limit as int, short, ints(opt@), offs@, e as int),
            small_opt(ints(opt@)),
            forall|p: int| 0 <= p < offs@.len() ==> 1 <= #[trigger] offs@[p] <= 0x3fff_ffff,
            forall|o: int|
                1 <= o < tracks@.len() ==> (#[trigger] tracks@[o]).lane() == lane_at(
                    input@,
                    limit as int,
                    ints(opt@),
                    o,
                    short,
                    e as int,
                ),
        decreases n - e,
    {
        let ghost o1 = ints(opt@);
        let ghost f1 = offs@;
        let (bits, off) = step_tracks(input, limit, &mut tracks, e, &opt, short);
        opt.push(bits);
        offs.push(off);
        proof {
            let o2 = ints(opt@);
            assert(o2 =~= o1.push(bits as int));
            assert forall|o: int| 1 <= o < tracks@.len() implies (#[trigger] tracks@[o]).lane() == lane_at(
                input@,
                limit as int,
                o2,
                o,
                short,
                e + 1,
            ) by {
                lemma_lane_frame(input@, limit as int, o1, o2, o, short, e + 1);
            }
            assert forall|p: int| 1 <= p <= e + 1 implies cheapest(
                input@,
                limit as int,
                o2,
                short,
                p,
                w + 1,
            ) == Some((o2[p], (#[trigger] offs@[p]) as int)) by {
                lemma_cheapest_frame(input@, limit as int, o1, o2, short, p, w + 1);
                if p <= e {
                    assert(offs@[p] == f1[p]);
                }
            }
        }
        e += 1;
    }
    (opt, offs)
}

/// How the matches with an offset came about, for all ends up to `upto`.
fn origins(
    input: &[u8],
    limit: usize,
    off: usize,
    opt: &Vec<u64>,
    upto: usize,
    short: bool,
) -> (r: (Vec<Made>, Track))
    requires
        1 <= off <= u32::MAX,
        input@.len() <= 0x3fff_ffff,
        upto <= input@.len(),
        upto < opt@.len(),
        small_opt(ints(opt@)),
    ensures
        r.0@.len() == upto + 1,
        r.1.lane() == lane_at(
            input@,
            limit as int,
            ints(opt@),
            off as int,
            short,
            upto as int,
        ),
        forall|p: int|
            1 <= p <= upto && made(input@, limit as int, ints(opt@), off as int, short, p) ==> (
            #[trigger] r.0@[p]).origin() == origin_at(
                input@,
                limit as int,
                ints(opt@),
                off as int,
                short,
                p,
            ),
{
    let ghost o = ints(opt@);
    let mut t: Track = Track::start(off);
    let mut list: Vec<Made> = Vec::with_capacity(upto + 1);
    list.push(Made { start: 0, from: 0, len: 0 });
    let mut e: usize = 0;
    while e < upto
        invariant
            1 <= off <= u32::MAX,
            input@.len() <= 0x3fff_ffff,
            e <= upto <= input@.len(),
            upto < opt@.len(),
            o == ints(opt@),
            small_opt(o),
            list@.len() == e + 1,
            t.lane() == lane_at(input@, limit as int, o, off as int, short, e as int),
            forall|p: int|
                1 <= p <= e && made(input@, limit as int, o, off as int, short, p) ==> (
                #[trigger] list@[p]).origin() == origin_at(
                    input@,
                    limit as int,
                    o,
                    off as int,
                    short,
                    p,
                ),
        decreases upto - e,
    {
        let mut bl: Vec<usize> = no_lengths(short);
        assert(lengths_ok(bl@, o, e + 1, short));
        let (next, by) = step_track(input, limit, t, off, e, opt, &mut bl, short);
        list.push(by);
        t = next;
        e += 1;
    }
    (list, t)
}

/// The match that ends at `e` where one was made.
proof fn lemma_made(input: Seq<u8>, limit: int, opt: Seq<int>, off: int, short: bool, e: int)
    requires
        made(input, limit, opt, off, short, e),
        small_opt(opt),
        opt.len() >= e,
        0 < e <= input.len() <= 0x3fff_ffff,
    ensures
        ({
            let w = origin_at(input, limit, opt, off, short, e);
            &&& 1 <= off <= limit
            &&& 1 <= w.start < e
            &&& lz::is_match(input, w.start, off, e - w.start)
            &&& w.len > 0 ==> w.start == e - w.len
            &&& w.len == 0 ==> 0 <= w.from < w.start && (w.from == 0 || made(
                input,
                limit,
                opt,
                off,
                short,
                w.from,
            ))
            &&& w.len >= 0
        }),
{
    let l = lane_at(input, limit, opt, off, short, e - 1);
    lemma_lane_ok(input, limit, opt, off, short, e - 1);
    lemma_hit_facts(input, limit, opt, off, short, e - 1, l);
    let w = origin_at(input, limit, opt, off, short, e);
    assert forall|k: int| 0 <= k < e - w.start implies #[trigger] input[w.start + k] == input[w.start + k
        - off] by {
        assert(hits(input, limit, off, w.start + k));
    }
    assert(hits(input, limit, off, w.start));
}

/// The stock parse as a table of matches, each at most `offset_limit` back.
/// With `short` the costs are those of codes up to 256, else of any length.
#[verifier::rlimit(60)]
pub fn optimize_blocks(input: &[u8], offset_limit: usize, short: bool) -> (best: Vec<(u32, u32)>)
    requires
        input@.len() <= 0x3fff_ffff,
    ensures
        zxbest::best_ok(input@, best@),
        offsets_within(best@, offset_limit as int),
        stock_table(input@, offset_limit as int, short, best@),
{
    let n: usize = input.len();
    let mut best: Vec<(u32, u32)> = zero_table(n);
    if n == 0 {
        return best;
    }
    let (opt, offs) = find_blocks(input, offset_limit, short);
    let ghost o = ints(opt@);
    let ghost lim = offset_limit as int;
    let ghost goal = table_by(input@, lim, short, o, offs@);
    let mut s: usize = n;
    let mut more: bool = true;
    assert(best@ =~= Seq::new(input@.len(), |p: int| (0u32, 0u32)));
    // `s` is where the blocks that are left end.
    while more
        invariant
            n == input@.len(),
            1 <= n <= 0x3fff_ffff,
            s <= n,
            o == ints(opt@),
            lim == offset_limit,
            opt@.len() == n + 1,
            offs@.len() == n + 1,
            small_opt(o),
            forall|p: int| 0 <= p < offs@.len() ==> 1 <= #[trigger] offs@[p] <= 0x3fff_ffff,
            zxbest::best_ok(input@, best@),
            offsets_within(best@, lim),
            more ==> s >= 1 && goal == blocks_table(
                input@,
                lim,
                short,
                o,
                offs@,
                offs@[s as int] as int,
                match_end(input@, lim, short, o, offs@[s as int] as int, s as int),
                best@,
            ),
            !more ==> goal == best@,
        decreases s, (if more { 1int } else { 0int }),
    {
        let off: usize = offs[s];
        let ghost s0 = s;
        proof {
            lemma_lane_ok(input@, lim, o, off as int, short, s as int);
        }
        let (by, t) = origins(input, offset_limit, off, &opt, s, short);
        let mut e: usize = if t.has_match {
            t.match_end
        } else {
            0
        };
        assert(e == match_end(input@, lim, short, o, off as int, s as int));
        let mut here: bool = true;
        more = false;
        while here && e > 0
            invariant
                n == input@.len(),
                1 <= n <= 0x3fff_ffff,
                e <= s0 <= n,
                1 <= off <= 0x3fff_ffff,
                o == ints(opt@),
                lim == offset_limit,
                opt@.len() == n + 1,
                offs@.len() == n + 1,
                small_opt(o),
                forall|p: int| 0 <= p < offs@.len() ==> 1 <= #[trigger] offs@[p] <= 0x3fff_ffff,
                by@.len() == s0 + 1,
                forall|p: int|
                    1 <= p <= s0 && made(input@, lim, o, off as int, short, p) ==> (
                    #[trigger] by@[p]).origin() == origin_at(input@, lim, o, off as int, short, p),
                zxbest::best_ok(input@, best@),
                offsets_within(best@, lim),
                here ==> !more && (e == 0 || made(input@, lim, o, off as int, short, e as int)),
                here ==> goal == blocks_table(
                    input@,
                    lim,
                    short,
                    o,
                    offs@,
                    off as int,
                    e as int,
                    best@,
                ),
                !here ==> more && 1 <= s < s0 && goal == blocks_table(
                    input@,
                    lim,
                    short,
                    o,
                    offs@,
                    offs@[s as int] as int,
                    match_end(input@, lim, short, o, offs@[s as int] as int, s as int),
                    best@,
                ),
                here ==> s == s0,
            decreases (if here { e + 1 } else { 0 }),
        {
            proof {
                lemma_made(input@, lim, o, off as int, short, e as int);
            }
            let w: Made = by[e];
            assert(w.origin() == origin_at(input@, lim, o, off as int, short, e as int));
            let ghost before = best@;
            best.set(w.start, ((e - w.start) as u32, off as u32));
            proof {
                assert forall|p: int| 0 <= p < best@.len() && (#[trigger] best@[p]).0 > 0 implies lz::is_match(
                    input@,
                    p,
                    best@[p].1 as int,
                    best@[p].0 as int,
                ) by {
                    if p != w.start {
                        assert(best@[p] == before[p]);
                    }
                }
                assert forall|p: int| 0 <= p < best@.len() implies (#[trigger] best@[p]).1 <= lim by {
                    if p != w.start {
                        assert(best@[p] == before[p]);
                    }
                }
            }
            if w.len == 0 {
                e = w.from;
            } else {
                s = w.start;
                proof {
                    lemma_lane_ok(input@, lim, o, offs@[s as int] as int, short, s as int);
                    let t = match_end(input@, lim, short, o, offs@[s as int] as int, s as int);
                    assert(0 <= t <= s < e);
                }
                here = false;
                more = true;
            }
        }
    }
    proof {
        assert(blocks_right(input@, lim, short, o, offs@, n as int));
    }
    best
}

} // verus!
