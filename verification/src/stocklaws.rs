//! What the stock parses of ZX0 and ZX02 make use of: every repeat of the input.
use crate::bitio;
use crate::lz;
use crate::zxblocks;
use vstd::prelude::*;

verus! {

proof fn lemma_run_is_long(
    input: Seq<u8>,
    limit: int,
    opt: Seq<int>,
    off: int,
    short: bool,
    p: int,
    j: int,
)
    requires
        1 <= off <= limit,
        0 <= j,
        lz::is_match(input, p, off, j),
    ensures
        zxblocks::lane_at(input, limit, opt, off, short, p + j).run >= j,
    decreases j,
{
    lemma_run_counts(input, limit, opt, off, short, p);
    if j > 0 {
        assert(lz::is_match(input, p, off, j - 1));
        lemma_run_is_long(input, limit, opt, off, short, p, j - 1);
        assert(input[p + (j - 1)] == input[p + (j - 1) - off]);
    }
}

proof fn lemma_run_counts(input: Seq<u8>, limit: int, opt: Seq<int>, off: int, short: bool, i: int)
    ensures
        zxblocks::lane_at(input, limit, opt, off, short, i).run >= 0,
    decreases i,
{
    if i > 0 {
        lemma_run_counts(input, limit, opt, off, short, i - 1);
    }
}

proof fn lemma_best_length_least(opt: Seq<int>, p: int, upto: int, len: int, short: bool)
    requires
        (if short {
            1int
        } else {
            2int
        }) <= len <= upto,
    ensures
        zxblocks::with_length(opt, p, zxblocks::best_length(opt, p, upto, short), short)
            <= zxblocks::with_length(opt, p, len, short),
    decreases upto,
{
    if len < upto {
        lemma_best_length_least(opt, p, upto - 1, len, short);
    }
}

pub proof fn lemma_cheapest_least(
    input: Seq<u8>,
    limit: int,
    opt: Seq<int>,
    short: bool,
    p: int,
    w: int,
    off: int,
)
    requires
        1 <= off < w,
        zxblocks::lane_offer(input, limit, opt, off, short, p) is Some,
    ensures
        zxblocks::cheapest(input, limit, opt, short, p, w) matches Some(c) && c.0
            <= zxblocks::lane_offer(input, limit, opt, off, short, p)->0,
    decreases w,
{
    if off < w - 1 {
        lemma_cheapest_least(input, limit, opt, short, p, w - 1, off);
    }
}

/// To get behind a repeat costs no more than to get before it and to write it: a
/// bit, the offset and the length. Without `short` this is ZX0, with it ZX02.
pub proof fn lemma_stock_takes_repeats(
    input: Seq<u8>,
    limit: int,
    short: bool,
    opt: Seq<int>,
    offs: Seq<usize>,
    p: int,
    off: int,
    len: int,
)
    requires
        zxblocks::blocks_right(input, limit, short, opt, offs, input.len() as int),
        input.len() <= 0x3fff_ffff,
        1 <= off <= limit,
        2 <= len,
        lz::is_match(input, p, off, len),
    ensures
        !short ==> opt[p + len] <= opt[p] + 8 + bitio::gamma_len(((off - 1) / 128 + 1) as nat)
            + bitio::gamma_len((len - 1) as nat),
        short && len <= 257 && off < 32768 ==> opt[p + len] <= opt[p] + 8 + bitio::gamma_len(
            (off / 128 + 1) as nat,
        ) + bitio::gamma_len((len - 1) as nat),
{
    let e = p + len - 1;
    let n = input.len() as int;
    assert(lz::is_match(input, p, off, len - 1));
    lemma_run_is_long(input, limit, opt, off, short, p, len - 1);
    let l = zxblocks::opened_at(input, limit, opt, off, short, e);
    assert(l.run >= len - 1);
    assert(input[p + (len - 1)] == input[p + (len - 1) - off]);
    lemma_best_length_least(opt, e + 1, l.run + 1, len, short);
    let w = zxblocks::lane_count(n, limit) + 1;
    assert(zxblocks::lane_offer(input, limit, opt, off, short, e + 1) is Some);
    lemma_cheapest_least(input, limit, opt, short, e + 1, w, off);
    assert(zxblocks::cheapest(input, limit, opt, short, e + 1, w) == Some(
        (opt[e + 1], offs[e + 1] as int),
    ));
}

} // verus!
