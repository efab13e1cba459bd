//! Shrinkler: an LZ format whose tokens are coded bit by bit with adaptive
//! probabilities.
use crate::lz::reversed;
use crate::shrcoder;
use crate::shrcost;
use crate::shrenc;
use crate::shrparse;
use crate::shrcost::{build_sizetable, CountingCoder, SizeMeasurer};
use crate::shrenc::{encode, symbols, Sym};
use crate::shrmatch::MatchFinder;
use crate::shrparse::{literal_tokens, parse};
use crate::shrstream::lz_decode;
pub use crate::shrstream::MAX_INPUT;
use crate::upkrenc::Op;
use crate::lz;
use crate::shrstream;
use vstd::prelude::*;

verus! {

/// Level 1 is one parse, level 2 the best of several.
pub const MAX_LEVEL: u8 = 2;

/// How many references the search may hold.
pub const REFERENCES: usize = 100_000;

/// How hard the encoder looks.
#[derive(Clone, Copy, Debug)]
pub struct PackParams {
    /// Contexts by the parity of the position, which this encoder does not use.
    pub parity_context: bool,
    /// How often to parse, each time at the prices of the parses before.
    pub iterations: i32,
    /// How much shorter than a match a reference may be.
    pub length_margin: i32,
    /// A match of this length is taken, and what it covers is not looked at.
    pub skip_length: i32,
    /// How many suffixes in a row may be no match.
    pub match_patience: i32,
    /// How many matches of one length to look at.
    pub max_same_length: i32,
}

/// The strongest of the stock presets.
pub open spec fn stock_params() -> PackParams {
    PackParams {
        parity_context: false,
        iterations: 9,
        length_margin: 9,
        skip_length: 9000,
        match_patience: 900,
        max_same_length: 90,
    }
}

/// The strongest of the stock presets, without contexts by parity.
pub fn params_no_parity() -> (p: PackParams)
    ensures
        p == stock_params(),
        !p.parity_context,
        p.iterations == 9,
        p.length_margin == 9,
        p.skip_length == 9000,
        p.match_patience == 900,
        p.max_same_length == 90,
{
    PackParams {
        parity_context: false,
        iterations: 9,
        length_margin: 9,
        skip_length: 9000,
        match_patience: 900,
        max_same_length: 90,
    }
}

fn not_negative(v: i32) -> (u: usize)
    ensures
        u == floor0(v as int),
{
    if v < 0 {
        0
    } else {
        v as usize
    }
}

/// The counts after a parse: its bits are added to those before, and all fade by
/// a quarter.
pub open spec fn counted_on(a: CountingCoder, ops: Seq<Op>, b: CountingCoder) -> bool {
    let list = shrenc::stream_syms(ops);
    &&& b.ok()
    &&& forall|i: int|
        0 <= i < shrstream::CONTEXTS ==> {
            &&& #[trigger] b.zeros@[i] == 3 * shrcost::capped(
                a.zeros@[i] + shrcost::seen(list, i, false),
            ) / 4
            &&& b.ones@[i] == 3 * shrcost::capped(a.ones@[i] + shrcost::seen(list, i, true)) / 4
        }
}

/// Prices that come from counts.
pub open spec fn prices_from(m: &SizeMeasurer, c: &CountingCoder) -> bool {
    &&& m.ok()
    &&& forall|syms: Seq<Sym>|
        shrcost::in_contexts(syms) ==> #[trigger] m.size_of(syms) == shrcost::counted_size(c, syms)
}

/// Parses one after the other, each the cheapest that the search finds at the
/// prices that the ones before gave, and none dearer than literals alone.
pub open spec fn passes_ok(
    data: Seq<u8>,
    params: PackParams,
    finder: &MatchFinder,
    runs: Seq<Seq<Op>>,
    prices: Seq<SizeMeasurer>,
    counts: Seq<CountingCoder>,
) -> bool {
    &&& finder.is_for(data, floor0(params.match_patience as int), floor0(params.max_same_length as int))
    &&& prices.len() == runs.len()
    &&& counts.len() == runs.len() + 1
    &&& counts[0].ok()
    &&& forall|i: int|
        0 <= i < shrstream::CONTEXTS ==> counts[0].zeros@[i] == 0 && counts[0].ones@[i] == 0
    &&& forall|k: int| 0 <= k < runs.len() ==> #[trigger] pass_ok(
        data,
        params,
        finder,
        runs,
        prices,
        counts,
        k,
    )
}

pub open spec fn floor0(v: int) -> int {
    if v < 0 {
        0
    } else {
        v
    }
}

/// One of these parses.
pub open spec fn pass_ok(
    data: Seq<u8>,
    params: PackParams,
    finder: &MatchFinder,
    runs: Seq<Seq<Op>>,
    prices: Seq<SizeMeasurer>,
    counts: Seq<CountingCoder>,
    k: int,
) -> bool {
    &&& prices_from(&prices[k], &counts[k])
    &&& shrparse::cheap_ops(&prices[k], data, runs[k])
    &&& shrparse::searched(
        data,
        &prices[k],
        finder,
        params.length_margin as int,
        params.skip_length as int,
        REFERENCES,
        runs[k],
    )
    &&& counted_on(counts[k], runs[k], counts[k + 1])
}

/// `out` is the stream of the tokens.
pub open spec fn is_stream(data: Seq<u8>, ops: Seq<Op>, out: Seq<u8>) -> bool {
    &&& out == shrcoder::finished(shrenc::coded(shrenc::stream_syms(ops)))
    &&& out.len() > 0
    &&& shrstream::shr_decoded(out) == Some(data)
}

/// The place of the parse whose stream is measured shortest, the first of them,
/// out of the first `k`.
pub open spec fn shortest_run(runs: Seq<Seq<Op>>, k: int) -> int
    decreases k,
{
    if k <= 1 {
        0
    } else {
        let before = shortest_run(runs, k - 1);
        if shrenc::coded_size(shrenc::stream_syms(runs[k - 1])) < shrenc::coded_size(
            shrenc::stream_syms(runs[before]),
        ) {
            k - 1
        } else {
            before
        }
    }
}

/// `out` comes of as many parses as `params` asks for: it is the stream of the one
/// that is measured shortest. Without any it is that of literals.
pub open spec fn packed_with(data: Seq<u8>, params: PackParams, out: Seq<u8>) -> bool {
    if params.iterations <= 0 {
        exists|ops: Seq<Op>| #[trigger] is_stream(data, ops, out) && only_literals(data, ops)
    } else {
        exists|
            finder: MatchFinder,
            runs: Seq<Seq<Op>>,
            prices: Seq<SizeMeasurer>,
            counts: Seq<CountingCoder>,
        |
            {
                &&& #[trigger] passes_ok(data, params, &finder, runs, prices, counts)
                &&& runs.len() == params.iterations
                &&& is_stream(data, runs[shortest_run(runs, runs.len() as int)], out)
            }
    }
}

pub open spec fn only_literals(data: Seq<u8>, ops: Seq<Op>) -> bool {
    &&& ops.len() == data.len()
    &&& forall|i: int| 0 <= i < ops.len() ==> #[trigger] ops[i] == Op::Literal(data[i])
}

proof fn lemma_shortest_prefix(a: Seq<Seq<Op>>, b: Seq<Seq<Op>>, k: int)
    requires
        k <= a.len(),
        k <= b.len(),
        forall|i: int| 0 <= i < k ==> a[i] == b[i],
        a.len() > 0,
        b.len() > 0,
        a[0] == b[0],
    ensures
        shortest_run(a, k) == shortest_run(b, k),
        0 <= shortest_run(a, k),
        shortest_run(a, k) < k || shortest_run(a, k) == 0,
    decreases k,
{
    if k > 1 {
        lemma_shortest_prefix(a, b, k - 1);
    }
}

/// Parses again and again at the prices that the parses before gave, and codes
/// the smallest.
#[verifier::rlimit(60)]
fn pack_data(data: &[u8], params: &PackParams, references: usize) -> (out: Vec<u8>)
    requires
        0 < data@.len() <= MAX_INPUT,
        references == REFERENCES,
    ensures
        out@.len() > 0,
        shrstream::shr_decoded(out@) == Some(data@),
        packed_with(data@, *params, out@),
{
    let n: usize = data.len();
    let finder: MatchFinder = MatchFinder::new(
        data,
        not_negative(params.match_patience),
        not_negative(params.max_same_length),
    );
    let table: Vec<u32> = build_sizetable();
    let mut counting: CountingCoder = CountingCoder::new();
    let mut best: Option<(Vec<u8>, u128)> = None;
    let mut left: i32 = params.iterations;
    let ghost mut runs = Seq::<Seq<Op>>::empty();
    let ghost mut prices = Seq::<SizeMeasurer>::empty();
    let ghost mut counts = seq![counting];
    while left > 0
        invariant
            n == data@.len(),
            0 < n <= MAX_INPUT,
            finder.ok(data@),
            counting.ok(),
            shrenc::table_right(table@),
            left <= params.iterations,
            params.iterations > 0 ==> left + runs.len() == params.iterations && left >= 0,
            params.iterations <= 0 ==> runs.len() == 0,
            passes_ok(data@, *params, &finder, runs, prices, counts),
            references == REFERENCES,
            counts.last() == counting,
            best is None <==> runs.len() == 0,
            best matches Some(b) ==> {
                let at = shortest_run(runs, runs.len() as int);
                &&& 0 <= at < runs.len()
                &&& is_stream(data@, runs[at], b.0@)
                &&& b.1 == shrenc::coded_size(shrenc::stream_syms(runs[at]))
            },
        decreases left,
    {
        let m: SizeMeasurer = SizeMeasurer::from_counting(&counting, n);
        let ghost c0 = counting;
        let ops: Vec<Op> = parse(
            data,
            &finder,
            &m,
            params.length_margin,
            params.skip_length,
            references,
        );
        let coded: (Vec<u8>, u128) = encode(&ops, data, &table);
        let list: Vec<Sym> = symbols(&ops, Ghost(data@));
        counting.count(&list);
        counting.fade();
        let better: bool = match &best {
            None => true,
            Some(b) => coded.1 < b.1,
        };
        proof {
            let more = runs.push(ops@);
            let more_prices = prices.push(m);
            let more_counts = counts.push(counting);
            assert(counted_on(c0, ops@, counting));
            assert forall|k: int| 0 <= k < more.len() implies #[trigger] pass_ok(
                data@,
                *params,
                &finder,
                more,
                more_prices,
                more_counts,
                k,
            ) by {
                if k < runs.len() {
                    assert(pass_ok(data@, *params, &finder, runs, prices, counts, k));
                    assert(more[k] == runs[k]);
                    assert(more_prices[k] == prices[k]);
                    assert(more_counts[k] == counts[k]);
                    assert(more_counts[k + 1] == counts[k + 1]);
                } else {
                    assert(more[k] == ops@);
                    assert(more_prices[k] == m);
                    assert(more_counts[k] == c0);
                    assert(more_counts[k + 1] == counting);
                }
            }
            assert(more_counts[0] == counts[0]);
            if runs.len() > 0 {
                lemma_shortest_prefix(runs, more, runs.len() as int);
            }
            assert(is_stream(data@, ops@, coded.0@));
            assert(shortest_run(more, more.len() as int) == if better {
                runs.len() as int
            } else {
                shortest_run(runs, runs.len() as int)
            });
            runs = more;
            prices = more_prices;
            counts = more_counts;
        }
        if better {
            best = Some(coded);
        }
        left -= 1;
    }
    match best {
        Some(b) => b.0,
        None => {
            let ops: Vec<Op> = literal_tokens(data);
            let out: Vec<u8> = encode(&ops, data, &table).0;
            assert(is_stream(data@, ops@, out@));
            out
        },
    }
}

/// `out` is the stream of the stock preset, or empty for no input.
pub open spec fn shr_anchor(input: Seq<u8>, out: Seq<u8>) -> bool {
    if input.len() == 0 {
        out.len() == 0
    } else {
        packed_with(input, stock_params(), out)
    }
}

/// One parse with the stock preset. No bytes stand for no bytes.
pub fn compress_forward_anchor(input: &[u8]) -> (out: Vec<u8>)
    requires
        input@.len() <= MAX_INPUT,
    ensures
        shrstream::shr_decoded(out@) == Some(input@),
        out@.len() == 0 <==> input@.len() == 0,
        shr_anchor(input@, out@),
{
    if input.len() == 0 {
        assert(input@ =~= Seq::<u8>::empty());
        return Vec::new();
    }
    pack_data(input, &params_no_parity(), REFERENCES)
}

/// The settings to try for an input of this length besides the stock preset:
/// more passes, more matches with more patience, wider lengths, and both of the
/// first two.
pub open spec fn stronger_params(len: int) -> Seq<PackParams> {
    let patience: i32 = if len < 131072 {
        3000
    } else if len < 262144 {
        2000
    } else if len < 524288 {
        1200
    } else {
        900
    };
    let passes: i32 = if len < 262144 {
        16
    } else if len < 524288 {
        13
    } else {
        11
    };
    seq![
        PackParams { iterations: passes, ..stock_params() },
        PackParams { max_same_length: 500, match_patience: patience, ..stock_params() },
        PackParams { length_margin: 30, max_same_length: 300, ..stock_params() },
        PackParams {
            max_same_length: 500,
            match_patience: patience,
            iterations: passes,
            ..stock_params()
        },
    ]
}

fn best_of_candidates(len: usize) -> (list: Vec<PackParams>)
    ensures
        list@ == stronger_params(len as int),
{
    let patience: i32 = if len < 131072 {
        3000
    } else if len < 262144 {
        2000
    } else if len < 524288 {
        1200
    } else {
        900
    };
    let passes: i32 = if len < 262144 {
        16
    } else if len < 524288 {
        13
    } else {
        11
    };
    let mut list: Vec<PackParams> = Vec::new();
    list.push(PackParams { iterations: passes, ..params_no_parity() });
    list.push(
        PackParams { max_same_length: 500, match_patience: patience, ..params_no_parity() },
    );
    list.push(PackParams { length_margin: 30, max_same_length: 300, ..params_no_parity() });
    list.push(
        PackParams {
            max_same_length: 500,
            match_patience: patience,
            iterations: passes,
            ..params_no_parity()
        },
    );
    assert(list@ =~= stronger_params(len as int));
    list
}

/// The shorter of `first` and the first `k` of `outs`, the earlier where they are
/// equally long.
pub open spec fn first_shortest(first: Seq<u8>, outs: Seq<Seq<u8>>, k: int) -> Seq<u8>
    decreases k,
{
    if k <= 0 {
        first
    } else {
        let before = first_shortest(first, outs, k - 1);
        if outs[k - 1].len() < before.len() {
            outs[k - 1]
        } else {
            before
        }
    }
}

/// `outs` are streams of the stronger settings.
pub open spec fn stronger_outs(input: Seq<u8>, outs: Seq<Seq<u8>>) -> bool {
    let list = stronger_params(input.len() as int);
    &&& outs.len() == list.len()
    &&& forall|k: int|
        0 <= k < outs.len() ==> packed_with(input, list[k], #[trigger] outs[k])
}

/// The shortest of `anchor` and what stronger searches give, `anchor` where none
/// is shorter.
pub fn improve(input: &[u8], anchor: Vec<u8>) -> (out: Vec<u8>)
    requires
        0 < input@.len() <= MAX_INPUT,
        anchor@.len() > 0,
        shrstream::shr_decoded(anchor@) == Some(input@),
    ensures
        out@.len() > 0,
        shrstream::shr_decoded(out@) == Some(input@),
        out@.len() <= anchor@.len(),
        exists|outs: Seq<Seq<u8>>| #[trigger]
            stronger_outs(input@, outs) && out@ == first_shortest(
                anchor@,
                outs,
                outs.len() as int,
            ),
{
    let ghost bound = anchor@.len();
    let ghost first = anchor@;
    let list: Vec<PackParams> = best_of_candidates(input.len());
    let n: usize = list.len();
    let mut best: Vec<u8> = anchor;
    let ghost mut outs = Seq::<Seq<u8>>::empty();
    let mut k: usize = 0;
    while k < n
        invariant
            n == list@.len(),
            k <= n,
            0 < input@.len() <= MAX_INPUT,
            0 < best@.len() <= bound,
            shrstream::shr_decoded(best@) == Some(input@),
            outs.len() == k,
            forall|j: int| 0 <= j < k ==> packed_with(input@, list@[j], #[trigger] outs[j]),
            best@ == first_shortest(first, outs, k as int),
        decreases n - k,
    {
        let out: Vec<u8> = pack_data(input, &list[k], REFERENCES);
        proof {
            let more = outs.push(out@);
            lemma_shortest_of_prefix(first, outs, more, k as int);
            assert forall|j: int| 0 <= j < more.len() implies packed_with(
                input@,
                list@[j],
                #[trigger] more[j],
            ) by {
                if j < k {
                    assert(more[j] == outs[j]);
                }
            }
            outs = more;
        }
        if out.len() < best.len() {
            best = out;
        }
        k += 1;
    }
    assert(stronger_outs(input@, outs));
    best
}

proof fn lemma_shortest_of_prefix(first: Seq<u8>, a: Seq<Seq<u8>>, b: Seq<Seq<u8>>, k: int)
    requires
        k <= a.len() <= b.len(),
        forall|i: int| 0 <= i < a.len() ==> a[i] == b[i],
    ensures
        first_shortest(first, a, k) == first_shortest(first, b, k),
    decreases k,
{
    if k > 0 {
        lemma_shortest_of_prefix(first, a, b, k - 1);
    }
}

/// None of several strings is shorter than the shortest.
pub proof fn lemma_first_shortest(first: Seq<u8>, outs: Seq<Seq<u8>>, k: int)
    requires
        k <= outs.len(),
    ensures
        first_shortest(first, outs, k).len() <= first.len(),
        forall|j: int| 0 <= j < k ==> first_shortest(first, outs, k).len() <= (#[trigger] outs[j]).len(),
        first_shortest(first, outs, k).len() == first.len() ==> first_shortest(first, outs, k)
            == first,
    decreases k,
{
    if k > 0 {
        lemma_first_shortest(first, outs, k - 1);
    }
}

/// `out` is the shortest of the stream of the stock preset and those of stronger
/// settings, the first where it is no longer.
pub open spec fn shr_best(input: Seq<u8>, out: Seq<u8>) -> bool {
    if input.len() == 0 {
        out.len() == 0
    } else {
        exists|anchor: Seq<u8>, outs: Seq<Seq<u8>>|
            {
                &&& #[trigger] shr_anchor(input, anchor)
                &&& #[trigger] stronger_outs(input, outs)
                &&& out == first_shortest(anchor, outs, outs.len() as int)
            }
    }
}

/// The stream of a level: 1 and below is the stock preset, above the best of
/// several.
pub open spec fn shr_level(input: Seq<u8>, level: u8, out: Seq<u8>) -> bool {
    if level <= 1 {
        shr_anchor(input, out)
    } else {
        shr_best(input, out)
    }
}

/// Bytes in the order in which a stream of the direction holds them.
pub open spec fn shr_order(s: Seq<u8>, backward: bool) -> Seq<u8> {
    if backward {
        s.reverse()
    } else {
        s
    }
}

/// A stream of level 2 is no longer than one of level 1, and is that one where
/// nothing shorter was found.
pub proof fn lemma_level_two_no_longer(input: Seq<u8>, out: Seq<u8>)
    requires
        shr_level(input, 2, out),
    ensures
        exists|anchor: Seq<u8>| #[trigger]
            shr_level(input, 1, anchor) && out.len() <= anchor.len() && (out.len() == anchor.len()
                ==> out == anchor),
{
    if input.len() == 0 {
        assert(out =~= Seq::<u8>::empty());
        assert(shr_level(input, 1, out));
    } else {
        let (anchor, outs) = choose|anchor: Seq<u8>, outs: Seq<Seq<u8>>|
            {
                &&& #[trigger] shr_anchor(input, anchor)
                &&& #[trigger] stronger_outs(input, outs)
                &&& out == first_shortest(anchor, outs, outs.len() as int)
            };
        lemma_first_shortest(anchor, outs, outs.len() as int);
        assert(shr_level(input, 1, anchor));
    }
}

/// Levels beyond the range are those at its ends.
pub proof fn lemma_levels_clamp(input: Seq<u8>, level: u8, out: Seq<u8>)
    ensures
        shr_level(input, 0, out) == shr_level(input, 1, out),
        level >= MAX_LEVEL ==> shr_level(input, level, out) == shr_level(input, MAX_LEVEL, out),
{
}

fn compress_forward(input: &[u8]) -> (out: Vec<u8>)
    requires
        input@.len() <= MAX_INPUT,
    ensures
        shrstream::shr_decoded(out@) == Some(input@),
        out@.len() == 0 <==> input@.len() == 0,
        shr_best(input@, out@),
{
    let anchor: Vec<u8> = compress_forward_anchor(input);
    if input.len() == 0 {
        return anchor;
    }
    let ghost a = anchor@;
    let out: Vec<u8> = improve(input, anchor);
    assert(shr_anchor(input@, a));
    out
}

fn decompress_forward(input: &[u8]) -> (out: Vec<u8>)
    requires
        shrstream::shr_decoded(input@) is Some,
    ensures
        shrstream::shr_decoded(input@) == Some(out@),
{
    if input.len() == 0 {
        let out: Vec<u8> = Vec::new();
        assert(out@ =~= Seq::<u8>::empty());
        return out;
    }
    lz_decode(input)
}

/// What a stream stands for. A backward stream is a forward stream of the
/// reversed bytes, reversed.
pub open spec fn shr_unpacked(data: Seq<u8>, backward: bool) -> Option<Seq<u8>> {
    if backward {
        match shrstream::shr_decoded(data.reverse()) {
            None => None,
            Some(out) => Some(out.reverse()),
        }
    } else {
        shrstream::shr_decoded(data)
    }
}

/// Compresses at a level from 1 to [`MAX_LEVEL`].
pub fn compress(input: &[u8], level: u8, backward: bool) -> (out: Vec<u8>)
    requires
        input@.len() <= MAX_INPUT,
    ensures
        shr_unpacked(out@, backward) == Some(input@),
        out@.len() == 0 <==> input@.len() == 0,
        shr_level(shr_order(input@, backward), level, shr_order(out@, backward)),
{
    if backward {
        let data: Vec<u8> = reversed(input);
        let packed: Vec<u8> = if level <= 1 {
            compress_forward_anchor(&data)
        } else {
            compress_forward(&data)
        };
        proof {
            lz::lemma_reverse_twice(packed@);
            lz::lemma_reverse_twice(input@);
        }
        reversed(&packed)
    } else if level <= 1 {
        compress_forward_anchor(input)
    } else {
        compress_forward(input)
    }
}

/// Compresses with the caller's parameters, without contexts by parity.
pub fn compress_native(input: &[u8], params: &PackParams, backward: bool) -> (out: Vec<u8>)
    requires
        input@.len() <= MAX_INPUT,
    ensures
        shr_unpacked(out@, backward) == Some(input@),
        out@.len() == 0 <==> input@.len() == 0,
        input@.len() > 0 ==> packed_with(
            shr_order(input@, backward),
            *params,
            shr_order(out@, backward),
        ),
{
    if input.len() == 0 {
        let out: Vec<u8> = Vec::new();
        assert(input@ =~= Seq::<u8>::empty());
        assert(out@.reverse() =~= Seq::<u8>::empty());
        return out;
    }
    if backward {
        let data: Vec<u8> = reversed(input);
        let packed: Vec<u8> = pack_data(&data, params, REFERENCES);
        proof {
            lz::lemma_reverse_twice(packed@);
            lz::lemma_reverse_twice(input@);
        }
        reversed(&packed)
    } else {
        pack_data(input, params, REFERENCES)
    }
}

/// Decompresses a stream that comes to its end.
pub fn decompress(input: &[u8], backward: bool) -> (out: Vec<u8>)
    requires
        shr_unpacked(input@, backward) is Some,
    ensures
        shr_unpacked(input@, backward) == Some(out@),
{
    if backward {
        let data: Vec<u8> = reversed(input);
        let out: Vec<u8> = decompress_forward(&data);
        reversed(&out)
    } else {
        decompress_forward(input)
    }
}

/// Compresses forward at the highest level.
pub fn compress_shrinkler(input: &[u8]) -> (out: Vec<u8>)
    requires
        input@.len() <= MAX_INPUT,
    ensures
        shr_unpacked(out@, false) == Some(input@),
        out@.len() == 0 <==> input@.len() == 0,
        shr_level(input@, MAX_LEVEL, out@),
{
    compress_forward(input)
}

/// Compresses backward at the highest level.
pub fn compress_shrinkler_backward(input: &[u8]) -> (out: Vec<u8>)
    requires
        input@.len() <= MAX_INPUT,
    ensures
        shr_unpacked(out@, true) == Some(input@),
        out@.len() == 0 <==> input@.len() == 0,
        shr_level(input@.reverse(), MAX_LEVEL, out@.reverse()),
{
    compress(input, MAX_LEVEL, true)
}

} // verus!
