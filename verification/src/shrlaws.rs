//! What the Shrinkler levels promise, in numbers.
use crate::shrcost::{CountingCoder, SizeMeasurer};
use crate::shrenc;
use crate::shrinkler;
use crate::shrinkler::PackParams;
use crate::shrmatch::MatchFinder;
use crate::shrparse;
use crate::upkrenc::Op;
use vstd::prelude::*;

verus! {

/// Parses one after the other with a margin and a skip length, each at the prices that
/// the ones before gave.
pub open spec fn parses_made(
    data: Seq<u8>,
    finder: &MatchFinder,
    margin: int,
    skip: int,
    runs: Seq<Seq<Op>>,
    prices: Seq<SizeMeasurer>,
    counts: Seq<CountingCoder>,
) -> bool {
    forall|k: int|
        0 <= k < runs.len() ==> #[trigger] parse_made(
            data,
            finder,
            margin,
            skip,
            runs[k],
            &prices[k],
            counts[k],
            counts[k + 1],
        )
}

/// A parse at prices that come from the counts before it, which it is added to.
pub open spec fn parse_made(
    data: Seq<u8>,
    finder: &MatchFinder,
    margin: int,
    skip: int,
    ops: Seq<Op>,
    prices: &SizeMeasurer,
    before: CountingCoder,
    after: CountingCoder,
) -> bool {
    &&& shrinkler::prices_from(prices, &before)
    &&& shrparse::cheap_ops(prices, data, ops)
    &&& shrparse::searched(data, prices, finder, margin, skip, 100_000, ops)
    &&& shrinkler::counted_on(before, ops, after)
}

proof fn lemma_pass(
    data: Seq<u8>,
    params: PackParams,
    finder: &MatchFinder,
    runs: Seq<Seq<Op>>,
    prices: Seq<SizeMeasurer>,
    counts: Seq<CountingCoder>,
    k: int,
)
    requires
        shrinkler::pass_ok(data, params, finder, runs, prices, counts, k),
    ensures
        parse_made(
            data,
            finder,
            params.length_margin as int,
            params.skip_length as int,
            runs[k],
            &prices[k],
            counts[k],
            counts[k + 1],
        ),
{
}

/// No other of the parses has a stream that is measured shorter.
pub open spec fn measured_least(runs: Seq<Seq<Op>>, b: int) -> bool {
    &&& 0 <= b < runs.len()
    &&& forall|k: int|
        0 <= k < runs.len() ==> shrenc::coded_size(shrenc::stream_syms(runs[b]))
            <= shrenc::coded_size(shrenc::stream_syms(#[trigger] runs[k]))
}

/// `out` is the stream of the best of so many parses, over matches that are looked for
/// with so much patience, so many of one length.
pub open spec fn best_of_parses(
    data: Seq<u8>,
    passes: int,
    margin: int,
    skip: int,
    patience: int,
    same: int,
    out: Seq<u8>,
) -> bool {
    exists|
        finder: MatchFinder,
        runs: Seq<Seq<Op>>,
        prices: Seq<SizeMeasurer>,
        counts: Seq<CountingCoder>,
        b: int,
    |
        {
            &&& #[trigger] parses_made(data, &finder, margin, skip, runs, prices, counts)
            &&& finder.is_for(data, patience, same)
            &&& runs.len() == passes
            &&& #[trigger] measured_least(runs, b)
            &&& shrinkler::is_stream(data, runs[b], out)
        }
}

proof fn lemma_shortest_run(runs: Seq<Seq<Op>>, k: int)
    requires
        1 <= k <= runs.len(),
    ensures
        0 <= shrinkler::shortest_run(runs, k) < k,
        forall|j: int|
            0 <= j < k ==> shrenc::coded_size(
                shrenc::stream_syms(runs[shrinkler::shortest_run(runs, k)]),
            ) <= shrenc::coded_size(shrenc::stream_syms(#[trigger] runs[j])),
    decreases k,
{
    if k > 1 {
        lemma_shortest_run(runs, k - 1);
    }
}

proof fn lemma_packed(data: Seq<u8>, params: PackParams, out: Seq<u8>)
    requires
        shrinkler::packed_with(data, params, out),
        params.iterations > 0,
        params.match_patience >= 0,
        params.max_same_length >= 0,
    ensures
        best_of_parses(
            data,
            params.iterations as int,
            params.length_margin as int,
            params.skip_length as int,
            params.match_patience as int,
            params.max_same_length as int,
            out,
        ),
{
    let (finder, runs, prices, counts) = choose|
        finder: MatchFinder,
        runs: Seq<Seq<Op>>,
        prices: Seq<SizeMeasurer>,
        counts: Seq<CountingCoder>,
    |
        {
            &&& #[trigger] shrinkler::passes_ok(data, params, &finder, runs, prices, counts)
            &&& runs.len() == params.iterations
            &&& shrinkler::is_stream(
                data,
                runs[shrinkler::shortest_run(runs, runs.len() as int)],
                out,
            )
        };
    let b = shrinkler::shortest_run(runs, runs.len() as int);
    lemma_shortest_run(runs, runs.len() as int);
    assert forall|k: int| 0 <= k < runs.len() implies #[trigger] parse_made(
        data,
        &finder,
        params.length_margin as int,
        params.skip_length as int,
        runs[k],
        &prices[k],
        counts[k],
        counts[k + 1],
    ) by {
        assert(shrinkler::pass_ok(data, params, &finder, runs, prices, counts, k));
        lemma_pass(data, params, &finder, runs, prices, counts, k);
    }
    assert(parses_made(
        data,
        &finder,
        params.length_margin as int,
        params.skip_length as int,
        runs,
        prices,
        counts,
    ));
    assert(measured_least(runs, b));
}

/// A stream of level 1 is that of the best of nine parses, with a margin of 9 and a
/// skip length of 9000, over matches that are looked for with a patience of 900, 90 of
/// one length.
pub proof fn lemma_level_one_is_of_nine_parses(input: Seq<u8>, level: u8, out: Seq<u8>)
    requires
        input.len() > 0,
        level <= 1,
        shrinkler::shr_level(input, level, out),
    ensures
        best_of_parses(input, 9, 9, 9000, 900, 90, out),
{
    lemma_packed(input, shrinkler::stock_params(), out);
}

/// How much patience the stronger searches of higher levels have.
pub open spec fn more_patience(len: int) -> int {
    if len < 0x2_0000 {
        3000
    } else if len < 0x4_0000 {
        2000
    } else if len < 0x8_0000 {
        1200
    } else {
        900
    }
}

/// How many parses they make.
pub open spec fn more_parses(len: int) -> int {
    if len < 0x4_0000 {
        16
    } else if len < 0x8_0000 {
        13
    } else {
        11
    }
}

/// `out` is no longer than some stream of the settings.
pub open spec fn no_longer_than(
    data: Seq<u8>,
    passes: int,
    margin: int,
    patience: int,
    same: int,
    out: Seq<u8>,
) -> bool {
    exists|s: Seq<u8>| #[trigger]
        best_of_parses(data, passes, margin, 9000, patience, same, s) && out.len() <= s.len()
}

/// A stream of a higher level is no longer than one of level 1, nor than those with more
/// parses, with more patience and matches, with a wider margin, and with more of all.
pub proof fn lemma_higher_levels_try_more(input: Seq<u8>, level: u8, out: Seq<u8>)
    requires
        input.len() > 0,
        level >= 2,
        shrinkler::shr_level(input, level, out),
    ensures
        ({
            let n = input.len() as int;
            &&& no_longer_than(input, 9, 9, 900, 90, out)
            &&& no_longer_than(input, more_parses(n), 9, 900, 90, out)
            &&& no_longer_than(input, 9, 9, more_patience(n), 500, out)
            &&& no_longer_than(input, 9, 30, 900, 300, out)
            &&& no_longer_than(input, more_parses(n), 9, more_patience(n), 500, out)
        }),
{
    let (anchor, outs) = choose|anchor: Seq<u8>, outs: Seq<Seq<u8>>|
        {
            &&& #[trigger] shrinkler::shr_anchor(input, anchor)
            &&& #[trigger] shrinkler::stronger_outs(input, outs)
            &&& out == shrinkler::first_shortest(anchor, outs, outs.len() as int)
        };
    let list = shrinkler::stronger_params(input.len() as int);
    shrinkler::lemma_first_shortest(anchor, outs, outs.len() as int);
    lemma_packed(input, shrinkler::stock_params(), anchor);
    lemma_packed(input, list[0], outs[0]);
    lemma_packed(input, list[1], outs[1]);
    lemma_packed(input, list[2], outs[2]);
    lemma_packed(input, list[3], outs[3]);
}

} // verus!
