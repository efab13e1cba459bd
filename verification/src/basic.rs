//! Where a C64 program starts: the address behind the keyword of its first BASIC
//! lines, written in decimal.
use crate::pucrunch;
use crate::pustream::PuError;
use vstd::prelude::*;

verus! {

/// The decimal digits of a number.
pub open spec fn decimal(a: nat) -> Seq<u8>
    decreases a,
{
    if a < 10 {
        seq![(0x30 + a) as u8]
    } else {
        decimal(a / 10).push((0x30 + a % 10) as u8)
    }
}

/// From `i` on the line calls the address `a`: the keyword, `fill` spaces, shifted
/// spaces or brackets, the digits of `a`, and then no other digit.
pub open spec fn calls(p: Seq<u8>, i: int, end: int, fill: int, a: int) -> bool {
    let digits = decimal(a as nat);
    let from = i + 1 + fill;
    let behind = from + digits.len();
    &&& 1 <= a <= 65535
    &&& 0 <= i
    &&& 0 <= fill
    &&& behind <= end <= p.len()
    &&& p[i] == 0x9e
    &&& forall|k: int|
        i < k < from ==> (#[trigger] p[k]) == 0x20 || p[k] == 0xa0 || p[k] == 0x28
    &&& p.subrange(from, behind) == digits
    &&& behind < end ==> !(0x30 <= p[behind] <= 0x39)
}

/// There is no keyword from `i` to `end`.
pub open spec fn no_call(p: Seq<u8>, i: int, end: int) -> bool {
    forall|k: int| i <= k < end ==> (#[trigger] p[k]) != 0x9e
}

proof fn lemma_decimal_digits(a: nat, k: int)
    requires
        0 <= k < decimal(a).len(),
    ensures
        0x30 <= decimal(a)[k] <= 0x39,
        decimal(a).len() >= 1,
    decreases a,
{
    if a >= 10 {
        if k < decimal(a / 10).len() {
            lemma_decimal_digits(a / 10, k);
        }
    }
}

/// Reading the digits of `a` gives `a`.
proof fn lemma_number(p: Seq<u8>, i: int, end: int, a: nat)
    requires
        0 <= i,
        i + decimal(a).len() <= end <= p.len(),
        a <= 65535,
        p.subrange(i, i + decimal(a).len()) == decimal(a),
    ensures
        pucrunch::number_at(p, i, end, 0, false) == pucrunch::number_at(
            p,
            i + decimal(a).len(),
            end,
            a as int,
            true,
        ),
    decreases a,
{
    let digits = decimal(a);
    let n = digits.len() as int;
    assert(p.subrange(i, i + n)[n - 1] == p[i + n - 1]);
    if a < 10 {
        assert(p[i] == (0x30 + a) as u8);
    } else {
        let front = decimal(a / 10);
        assert(front.len() == n - 1);
        assert(p.subrange(i, i + n - 1) =~= front) by {
            assert forall|k: int| 0 <= k < n - 1 implies p.subrange(i, i + n - 1)[k] == front[k] by {
                assert(p.subrange(i, i + n)[k] == digits[k]);
            }
        }
        lemma_number(p, i, end, a / 10);
        let last = p[i + n - 1];
        assert(last == (0x30 + a % 10) as u8);
        assert((a / 10) * 10 + (last - 0x30) == a);
    }
}

proof fn lemma_fillers(p: Seq<u8>, i: int, end: int, from: int)
    requires
        0 <= i <= from < end <= p.len(),
        forall|k: int|
            i <= k < from ==> (#[trigger] p[k]) == 0x20 || p[k] == 0xa0 || p[k] == 0x28,
        0x30 <= p[from] <= 0x39,
    ensures
        pucrunch::after_filler(p, i, end) == from,
    decreases from - i,
{
    if i < from {
        lemma_fillers(p, i + 1, end, from);
    }
}

/// A line that calls an address, with no keyword before that, has this address.
pub proof fn lemma_line_has_address(p: Seq<u8>, start: int, i: int, end: int, fill: int, a: int)
    requires
        0 <= start <= i,
        no_call(p, start, i),
        calls(p, i, end, fill, a),
    ensures
        pucrunch::sys_in(p, start, end) == Some(a),
    decreases i - start,
{
    lemma_decimal_digits(a as nat, 0);
    let digits = decimal(a as nat);
    let from = i + 1 + fill;
    let behind = from + digits.len();
    if start < i {
        assert(p[start] != 0x9e);
        lemma_line_has_address(p, start + 1, i, end, fill, a);
    } else {
        assert(p.subrange(from, behind)[0] == p[from]);
        lemma_fillers(p, i + 1, end, from);
        lemma_number(p, from, end, a as nat);
    }
}

/// A line without the keyword has no address.
pub proof fn lemma_line_without(p: Seq<u8>, start: int, end: int)
    requires
        0 <= start,
        end <= p.len(),
        no_call(p, start, end),
    ensures
        pucrunch::sys_in(p, start, end) is None,
    decreases end - start,
{
    if start < end {
        assert(p[start] != 0x9e);
        lemma_line_without(p, start + 1, end);
    }
}

proof fn lemma_zero_from(p: Seq<u8>, i: int, end: int)
    requires
        0 <= i <= end < p.len(),
        p[end] == 0,
        forall|k: int| i <= k < end ==> (#[trigger] p[k]) != 0,
    ensures
        pucrunch::zero_from(p, i) == Some(end),
    decreases end - i,
{
    if i < end {
        lemma_zero_from(p, i + 1, end);
    }
}

/// At `at` stands a line of a program that loads at `load`: a link that is not
/// zero, a number, and a body that the first zero byte, at `end`, ends.
pub open spec fn is_line(p: Seq<u8>, at: int, end: int) -> bool {
    &&& 0 <= at
    &&& at + 4 <= end < p.len()
    &&& p[at] + 256 * p[at + 1] != 0
    &&& p[end] == 0
    &&& forall|k: int| at + 4 <= k < end ==> (#[trigger] p[k]) != 0
}

/// `at` and `end` are where lines of a program start and end, each linked to the
/// next, and none but the last has the keyword.
pub open spec fn lines_lead(load: int, p: Seq<u8>, at: Seq<int>, end: Seq<int>) -> bool {
    &&& at.len() == end.len()
    &&& at.len() > 0
    &&& forall|j: int| 0 <= j < at.len() ==> is_line(p, #[trigger] at[j], end[j])
    &&& forall|j: int|
        0 <= j < at.len() - 1 ==> no_call(p, #[trigger] at[j] + 4, end[j]) && at[j] < at[j + 1]
            && p[at[j]] + 256 * p[at[j] + 1] == load + at[j + 1]
}

proof fn lemma_lines(
    load: int,
    p: Seq<u8>,
    at: Seq<int>,
    end: Seq<int>,
    j: int,
    lines: nat,
    i: int,
    fill: int,
    a: int,
)
    requires
        lines_lead(load, p, at, end),
        0 <= j < at.len(),
        at.len() - j <= lines,
        0 <= load,
        at.last() + 4 <= i,
        no_call(p, at.last() + 4, i),
        calls(p, i, end.last(), fill, a),
    ensures
        pucrunch::sys_lines(load, p, at[j], lines) == Some(a),
    decreases at.len() - j,
{
    assert(is_line(p, at[j], end[j]));
    lemma_zero_from(p, at[j] + 4, end[j]);
    if j == at.len() - 1 {
        lemma_line_has_address(p, at[j] + 4, i, end[j], fill, a);
    } else {
        lemma_line_without(p, at[j] + 4, end[j]);
        assert(is_line(p, at[j + 1], end[j + 1]));
        lemma_lines(load, p, at, end, j + 1, (lines - 1) as nat, i, fill, a);
    }
}

/// A program of which one of the first eight lines calls an address, for every
/// address from 1 to 65535, has this address.
pub proof fn lemma_program_has_address(
    load: int,
    p: Seq<u8>,
    at: Seq<int>,
    end: Seq<int>,
    i: int,
    fill: int,
    a: int,
)
    requires
        lines_lead(load, p, at, end),
        at[0] == 0,
        at.len() <= 8,
        0 <= load,
        at.last() + 4 <= i,
        no_call(p, at.last() + 4, i),
        calls(p, i, end.last(), fill, a),
    ensures
        pucrunch::sys_lines(load, p, 0, 8) == Some(a),
{
    lemma_lines(load, p, at, end, 0, 8, i, fill, a);
}

/// A program without the keyword has no address.
pub proof fn lemma_program_without(load: int, p: Seq<u8>, at: int, lines: nat)
    requires
        0 <= at,
        no_call(p, at, p.len() as int),
    ensures
        pucrunch::sys_lines(load, p, at, lines) is None,
    decreases lines,
{
    if !(lines == 0 || at + 5 > p.len()) {
        let link = pucrunch::le16(p, at);
        if let Some(end) = pucrunch::zero_from(p, at + 4) {
            lemma_zero_within(p, at + 4);
            lemma_line_without(p, at + 4, end);
            if link > load + at {
                lemma_program_without(load, p, link - load, (lines - 1) as nat);
            }
        }
    }
}

proof fn lemma_zero_within(p: Seq<u8>, i: int)
    ensures
        pucrunch::zero_from(p, i) matches Some(e) ==> i <= e < p.len(),
    decreases p.len() - i,
{
    if !(i < 0 || i >= p.len()) && p[i] != 0 {
        lemma_zero_within(p, i + 1);
    }
}

/// A program that calls an address in one of its first eight lines is packed to a
/// file that starts it there; one without the keyword to a file that starts it where
/// it loads.
pub proof fn lemma_file_starts_program(
    prg: Seq<u8>,
    file: Seq<u8>,
    at: Seq<int>,
    end: Seq<int>,
    i: int,
    fill: int,
    a: int,
)
    requires
        prg.len() >= 2,
        pucrunch::prg_file(prg, file),
    ensures
        file.len() >= 15,
        ({
            let load = prg[0] + 256 * prg[1];
            let p = prg.skip(2);
            &&& lines_lead(load, p, at, end) && at[0] == 0 && at.len() <= 8 && at.last() + 4 <= i
                && no_call(p, at.last() + 4, i) && calls(p, i, end.last(), fill, a) ==> file[13]
                + 256 * file[14] == a
            &&& no_call(p, 0, p.len() as int) ==> file[13] + 256 * file[14] == load
        }),
        pucrunch::pu_decoded(file) == Ok::<Seq<u8>, PuError>(prg),
{
    let load = prg[0] + 256 * prg[1];
    let p = prg.skip(2);
    if lines_lead(load, p, at, end) && at[0] == 0 && at.len() <= 8 && at.last() + 4 <= i && no_call(
        p,
        at.last() + 4,
        i,
    ) && calls(p, i, end.last(), fill, a) {
        lemma_program_has_address(load, p, at, end, i, fill, a);
    }
    if no_call(p, 0, p.len() as int) {
        lemma_program_without(load, p, 0, 8);
    }
}

} // verus!
