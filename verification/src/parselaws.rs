//! What the parse under a table of costs makes use of: every candidate.
use crate::lz;
use crate::matchfinder;
use crate::matchfinder::MatchSet;
use crate::parse;
use crate::parse::{Arrival, Command, CostModel, INF};
use crate::zx;
use vstd::prelude::*;

verus! {

/// What a row has no use for costs no less than its first place.
proof fn lemma_first_is_least(row: Seq<Arrival>, reps: Seq<u32>, cost: u32)
    requires
        row.len() == 16,
        parse::row_in_order(row),
        parse::covers(row, reps, cost),
        cost < INF,
    ensures
        row[0].cost <= cost,
{
    if row[15].cost > cost {
        let k = choose|k: int| 0 <= k < 16 && #[trigger] parse::stands_for(row[k], reps, cost);
        if k > 0 {
            assert(row[0].cost <= row[k].cost);
        }
    } else {
        assert(row[0].cost <= row[15].cost);
    }
}

/// The arrival by a match from the first place.
proof fn lemma_arrival(
    row: Seq<Arrival>,
    i: int,
    off: u32,
    l: int,
    model: &CostModel,
    use_rep: bool,
) -> (c: Arrival)
    requires
        row.len() == 16,
        0 <= i <= u32::MAX,
        2 <= l <= u32::MAX,
        off >= 1,
        row[0].cost + model.match_cost_of(off as int, l) < INF,
    ensures
        parse::comes_by(parse::match_step(row, i, 0, off, l, model, use_rep), c),
        c.cost <= row[0].cost + model.match_cost_of(off as int, l),
{
    let a = row[0].reps@;
    let st = parse::match_step(row, i, 0, off, l, model, use_rep);
    let hit = if use_rep {
        zx::reps_find(a, off, 4)
    } else {
        None
    };
    let reps: [u32; 4] = match hit {
        None => [off, a[0], a[1], a[2]],
        Some(idx) => if idx == 0 {
            [a[0], a[1], a[2], a[3]]
        } else if idx == 1 {
            [a[1], a[0], a[2], a[3]]
        } else if idx == 2 {
            [a[2], a[0], a[1], a[3]]
        } else {
            [a[3], a[0], a[1], a[2]]
        },
    };
    assert(reps@ =~= st.reps);
    assert(model.offset_cost_of(off as int) >= 0);
    Arrival {
        cost: st.cost as u32,
        reps,
        from_pos: i as u32,
        from_slot: 0,
        match_len: l as u32,
        match_off: off,
    }
}

/// What a candidate leads to is offered.
proof fn lemma_offered(
    input: Seq<u8>,
    ms: &MatchSet,
    model: &CostModel,
    use_rep: bool,
    row: Seq<Arrival>,
    i: int,
    k: int,
) -> (c: Arrival)
    requires
        ms.of(input),
        input.len() <= 0x3fff_ffff,
        0 <= i < input.len(),
        0 <= k < ms.list(i).len(),
        row.len() == 16,
        row[0].cost + model.match_cost_of(
            ms.list(i)[k].offset as int,
            ms.list(i)[k].length as int,
        ) < INF,
    ensures
        i + ms.list(i)[k].length <= input.len(),
        c.cost <= row[0].cost + model.match_cost_of(
            ms.list(i)[k].offset as int,
            ms.list(i)[k].length as int,
        ),
        parse::row_offers(input, ms, model, use_rep, row, i).contains(
            (i + ms.list(i)[k].length, c),
        ),
{
    let list = ms.list(i);
    let l = list[k].length as int;
    let off = list[k].offset;
    assert(matchfinder::candidates_ok(input, i, list, ms.max_offset()));
    assert(lz::is_match(input, i, off as int, l));
    assert(model.match_cost_of(off as int, l) >= 0) by {
        assert(model.offset_cost_of(off as int) >= 0);
    }
    let c = lemma_arrival(row, i, off, l, model, use_rep);
    if k > 0 {
        assert(list[k - 1].length < list[k].length);
    }
    let p = (i + l, c);
    assert(parse::front_len(list, k, p.0 - i));
    assert(parse::match_offers(row, i, off, p.0 - i, model, use_rep, 16).contains(p)) by {
        assert(parse::comes_by(parse::match_step(row, i, 0, off, p.0 - i, model, use_rep), c));
    }
    assert(parse::front_offers(row, i, list, model, use_rep, list.len() as int, 0).contains(p));
    reveal(parse::row_offers);
    c
}

/// To get behind a candidate costs no more than to get before it and the match.
pub proof fn lemma_candidates_are_taken(
    input: Seq<u8>,
    ms: &MatchSet,
    model: &CostModel,
    use_rep: bool,
    arr: Seq<Arrival>,
    i: int,
    k: int,
)
    requires
        parse::table_filled(input, ms, model, use_rep, arr, input.len() as int),
        ms.of(input),
        input.len() <= 0x3fff_ffff,
        0 <= i < input.len(),
        0 <= k < ms.list(i).len(),
        ({
            let c = ms.list(i)[k];
            parse::row_of(arr, i)[0].cost + model.match_cost_of(c.offset as int, c.length as int)
                < INF
        }),
    ensures
        ({
            let c = ms.list(i)[k];
            parse::row_of(arr, i + c.length)[0].cost <= parse::row_of(arr, i)[0].cost
                + model.match_cost_of(c.offset as int, c.length as int)
        }),
{
    let row = parse::row_of(arr, i);
    assert(row.len() == 16);
    let l = ms.list(i)[k].length as int;
    let c = lemma_offered(input, ms, model, use_rep, row, i, k);
    lemma_taken(input, ms, model, use_rep, arr, i, i + l, c);
}

proof fn lemma_taken(
    input: Seq<u8>,
    ms: &MatchSet,
    model: &CostModel,
    use_rep: bool,
    arr: Seq<Arrival>,
    i: int,
    pos: int,
    c: Arrival,
)
    requires
        arr.len() == (input.len() + 1) * 16,
        parse::rows_in_order(arr, input.len() as int),
        parse::row_taken(input, ms, model, use_rep, arr, i),
        0 <= pos <= input.len(),
        c.cost < INF,
        parse::row_offers(input, ms, model, use_rep, parse::row_of(arr, i), i).contains((pos, c)),
    ensures
        parse::row_of(arr, pos)[0].cost <= c.cost,
{
    assert(parse::row_of(arr, pos).len() == 16);
    assert(parse::row_in_order(parse::row_of(arr, pos)));
    lemma_first_is_least(parse::row_of(arr, pos), c.reps@, c.cost);
}

/// A parse costs no more than literals up to a candidate that reaches to the end, and
/// that match.
pub proof fn lemma_parse_takes_last_repeat(
    input: Seq<u8>,
    ms: &MatchSet,
    model: &CostModel,
    use_rep: bool,
    cmds: Seq<Command>,
    p: int,
    k: int,
)
    requires
        parse::parse_found(input, ms, model, use_rep, cmds),
        ms.of(input),
        input.len() <= 0x3fff_ffff,
        0 <= p < input.len(),
        0 <= k < ms.list(p).len(),
        ms.list(p)[k].length == input.len() - p,
        parse::lits_upto(model, input, p) + model.match_cost_of(
            ms.list(p)[k].offset as int,
            input.len() - p,
        ) < INF,
    ensures
        parse::total_price(model, input, cmds, use_rep) <= parse::lits_upto(model, input, p)
            + model.match_cost_of(ms.list(p)[k].offset as int, input.len() - p),
{
    let n = input.len() as int;
    let arr = choose|arr: Seq<Arrival>| #[trigger]
        parse::table_filled(input, ms, model, use_rep, arr, n) && (parse::row_of(arr, n)[0].cost
            < INF ==> parse::total_price(model, input, cmds, use_rep) <= parse::row_of(
            arr,
            n,
        )[0].cost);
    let off = ms.list(p)[k].offset as int;
    assert(model.match_cost_of(off, n - p) >= 0) by {
        assert(matchfinder::candidates_ok(input, p, ms.list(p), ms.max_offset()));
        assert(model.offset_cost_of(off) >= 0);
    }
    assert(parse::no_dearer_than_literals(model, input, arr, p));
    lemma_candidates_are_taken(input, ms, model, use_rep, arr, p, k);
}

} // verus!
