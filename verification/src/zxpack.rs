//! Compressors for the ZX stream: match finding, a parse of the wanted effort,
//! and the stream. Effort 1 runs one pass of the dynamic program, 2 adds
//! seeding, further rounds and reduction, and 3 offers every offset at every
//! position as long as the input is small enough.
use crate::lz;
use crate::lz::reversed;
use crate::matchfinder;
use crate::matchfinder::{find_matches, find_matches_exact, MatchSet};
use crate::parse;
use crate::parse::{
    parse_zx, parse_zx3_complete_tuned, parse_zx3_inner, ZxTuning, MIN_MATCH,
};
use crate::zx;
use crate::zx0compat;
use crate::zx0opt;
use crate::zx0opt::optimize_zx0;
use crate::zx::{
    decode, encode_min_eof, encode_with, encode_with3, flip, predicted_payload_bits, ZxCommand,
    ZxMode, DEFAULT_EFFORT, EOF_MAX_OFFSET, MAX_OFFSET, ZX0OPT_MAX_INPUT, ZX0OPT_OFFSET_LIMIT,
};
use crate::zxdp;
use crate::zxwithin;
use vstd::prelude::*;

verus! {

/// Longest match that is looked for.
pub const MAX_MATCH: usize = 0x2_0000;

/// Offsets off the front that are offered at a position.
pub const COMPLETE_EXTRA_PER_POS: usize = 64;

/// Largest input for which every offset is tried.
pub const EXHAUSTIVE_MAX: usize = 33000;

/// The matches that the parse of an input is offered: for small inputs the exact
/// front, for larger ones those of a hash chain.
pub open spec fn zx_matches(input: Seq<u8>, window: int, ms: &MatchSet) -> bool {
    &&& ms.of(input)
    &&& ms.max_offset() <= window
    &&& if input.len() <= EXHAUSTIVE_MAX {
        ms.complete(input, MIN_MATCH as int, window, MAX_MATCH as int)
    } else if input.len() <= 65536 {
        ms.chained(input, MIN_MATCH as int, window, 65536, 8192)
    } else {
        ms.chained(input, MIN_MATCH as int, window, 1024, 4096)
    }
}

/// Matches for the parse. Small inputs get the exact front, larger ones a hash
/// chain with tighter limits.
fn build_zx_matches(input: &[u8], window: usize) -> (ms: MatchSet)
    requires
        input@.len() <= 0x7fff_ffff,
    ensures
        zx_matches(input@, window as int, &ms),
{
    let mm: usize = MIN_MATCH as usize;
    if input.len() <= EXHAUSTIVE_MAX {
        find_matches_exact(input, mm, window, MAX_MATCH)
    } else if input.len() <= 65536 {
        find_matches(input, mm, window, 65536, 8192)
    } else {
        find_matches(input, mm, window, 1024, 4096)
    }
}

/// Further candidates at every position, where the input is small enough.
fn build_complete_extra(input: &[u8], ms: &MatchSet, window: usize) -> (extra: Option<
    Vec<Vec<(u32, u32)>>,
>)
    requires
        input@.len() <= 0x7fff_ffff,
        ms.of(input@),
    ensures
        extra is None <==> input@.len() > EXHAUSTIVE_MAX,
        extra matches Some(e) ==> matchfinder::table_ok(input@, e@) && matchfinder::complete_extra(
            input@,
            ms,
            MIN_MATCH as int,
            window as int,
            MAX_MATCH as int,
            COMPLETE_EXTRA_PER_POS as int,
            e@,
        ),
{
    if input.len() > EXHAUSTIVE_MAX {
        return None;
    }
    Some(
        matchfinder::build_complete_extra(
            input,
            ms,
            MIN_MATCH as usize,
            window,
            MAX_MATCH,
            COMPLETE_EXTRA_PER_POS,
        ),
    )
}

/// The command that stands for the whole input as one literal run.
fn literal_commands(input: &[u8]) -> (cmds: Vec<ZxCommand>)
    requires
        input@.len() <= 0x3fff_ffff,
    ensures
        forall|m: ZxMode| #[trigger] zx::zx_legal(input@, cmds@, m),
        forall|k: int| 0 <= k < cmds@.len() ==> (#[trigger] cmds@[k]).match_off == 0,
        input@.len() == 0 ==> cmds@.len() == 0,
{
    let n: usize = input.len();
    let mut cmds: Vec<ZxCommand> = Vec::new();
    if n > 0 {
        cmds.push(
            ZxCommand {
                lit_len: n as u32,
                lit_start: 0,
                match_off: 0,
                match_len: 0,
                near_rep_ri: -1,
            },
        );
    }
    proof {
        reveal_with_fuel(zx::zx_pos, 2);
        reveal_with_fuel(zx::zx_bits, 2);
        assert forall|m: ZxMode| #[trigger] zx::zx_legal(input@, cmds@, m) by {
            assert forall|k: int| 0 <= k < cmds@.len() implies #[trigger] zx::zx_codable_at(
                cmds@,
                m,
                k,
            ) by {}
            assert forall|k: int| 0 <= k < cmds@.len() implies #[trigger] zx::zx_tiles_at(
                input@,
                cmds@,
                k,
            ) by {}
        }
    }
    cmds
}

/// The seeded rounds with one recent offset, over matches that reach no further
/// back than `window`. Neither do the commands.
pub open spec fn rounds_within(input: Seq<u8>, window: int, fast: bool, cmds: Seq<ZxCommand>) -> bool {
    &&& zx::zx_legal(input, cmds, zx0opt::rep0_mode())
    &&& zx0opt::cmds_within(cmds, window)
    &&& exists|ms: MatchSet| #[trigger]
        zx_matches(input, window, &ms) && parse::zx_parsed(
            input,
            cmds,
            &ms,
            1,
            false,
            false,
            fast,
            &parse::plain_tuning(),
        )
}

/// Commands of the seeded rounds that reach no further back than `window`.
fn commands_within(input: &[u8], window: usize, fast: bool) -> (cmds: Vec<ZxCommand>)
    requires
        zxdp::dp_fits(input@.len() as int),
        1 <= window <= MAX_OFFSET,
    ensures
        rounds_within(input@, window as int, fast, cmds@),
{
    let ms: MatchSet = build_zx_matches(input, window);
    let cmds: Vec<ZxCommand> = parse_zx3_inner(
        input,
        &ms,
        1,
        false,
        false,
        fast,
        &ZxTuning::default(),
    );
    proof {
        assert(zx::zx_mode(1, false, false) == zx0opt::rep0_mode());
        assert(zx_matches(input@, window as int, &ms));
        zxwithin::lemma_parse_within(
            input@,
            cmds@,
            &ms,
            1,
            fast,
            &parse::plain_tuning(),
            window as int,
        );
    }
    cmds
}

/// What the commands of an effort promise. Effort 1 is one pass of the dynamic
/// program, 2 the seeded rounds, and 3 the complete parse, where the input is
/// small enough, else the seeded rounds.
pub open spec fn zx_effort(
    input: Seq<u8>,
    cmds: Seq<ZxCommand>,
    rep_slots: usize,
    near_rep: bool,
    am_near_rep: bool,
    effort: u8,
    window: int,
    tuning: &ZxTuning,
) -> bool {
    exists|ms: MatchSet, extra: Seq<Vec<(u32, u32)>>| #[trigger]
        zx_effort_with(
            input,
            cmds,
            rep_slots,
            near_rep,
            am_near_rep,
            effort,
            window,
            tuning,
            &ms,
            extra,
        )
}

/// The same for a match set and a table of further candidates.
pub open spec fn zx_effort_with(
    input: Seq<u8>,
    cmds: Seq<ZxCommand>,
    rep_slots: usize,
    near_rep: bool,
    am_near_rep: bool,
    effort: u8,
    window: int,
    tuning: &ZxTuning,
    ms: &MatchSet,
    extra: Seq<Vec<(u32, u32)>>,
) -> bool {
    &&& zx_matches(input, window, ms)
    &&& if effort == 1 || effort == 2 || input.len() > EXHAUSTIVE_MAX {
        parse::zx_parsed(
            input,
            cmds,
            ms,
            rep_slots,
            near_rep,
            am_near_rep,
            effort == 1,
            tuning,
        )
    } else {
        &&& matchfinder::complete_extra(
            input,
            ms,
            MIN_MATCH as int,
            window,
            MAX_MATCH as int,
            COMPLETE_EXTRA_PER_POS as int,
            extra,
        )
        &&& parse::zx_complete(
            input,
            cmds,
            ms,
            extra,
            rep_slots,
            near_rep,
            am_near_rep,
            tuning,
        )
    }
}

/// Commands for the input under a mode and an effort.
fn zx_commands(
    input: &[u8],
    rep_slots: usize,
    near_rep: bool,
    am_near_rep: bool,
    effort: u8,
    window: usize,
    tuning: &ZxTuning,
) -> (cmds: Vec<ZxCommand>)
    requires
        zxdp::dp_fits(input@.len() as int),
        1 <= rep_slots <= 4,
        window >= 1,
    ensures
        zx::zx_legal(input@, cmds@, zx::zx_mode(rep_slots, near_rep, am_near_rep)),
        zx_effort(
            input@,
            cmds@,
            rep_slots,
            near_rep,
            am_near_rep,
            effort,
            window as int,
            tuning,
        ),
{
    let ms: MatchSet = build_zx_matches(input, window);
    if effort != 1 && effort != 2 {
        match build_complete_extra(input, &ms, window) {
            Some(extra) => {
                let cmds: Vec<ZxCommand> = parse_zx3_complete_tuned(
                    input,
                    &ms,
                    &extra,
                    rep_slots,
                    near_rep,
                    am_near_rep,
                    tuning,
                );
                assert(zx_effort_with(
                    input@,
                    cmds@,
                    rep_slots,
                    near_rep,
                    am_near_rep,
                    effort,
                    window as int,
                    tuning,
                    &ms,
                    extra@,
                ));
                return cmds;
            },
            None => {},
        }
    }
    let cmds: Vec<ZxCommand> = parse_zx3_inner(
        input,
        &ms,
        rep_slots,
        near_rep,
        am_near_rep,
        effort == 1,
        tuning,
    );
    assert(zx_effort_with(
        input@,
        cmds@,
        rep_slots,
        near_rep,
        am_near_rep,
        effort,
        window as int,
        tuning,
        &ms,
        Seq::empty(),
    ));
    cmds
}

/// `blob` is a stream of the mode from which the input comes back: some legal
/// commands, coded.
pub open spec fn zx_packed(
    input: Seq<u8>,
    rep_slots: usize,
    near_rep: bool,
    am_near_rep: bool,
    blob: Seq<u8>,
) -> bool {
    &&& blob.len() > 0
    &&& blob[0] == zx::mode_byte(
        rep_slots,
        near_rep && rep_slots == 4,
        am_near_rep && rep_slots == 4,
    )
    &&& zx::zx_decoded(blob, input.len() as int) == Some(input)
    &&& exists|cmds: Seq<ZxCommand>| #[trigger]
        zx::zx_encoded(input, cmds, rep_slots, near_rep, am_near_rep, blob)
}

/// How far back matches may reach.
pub open spec fn full_window(n: int) -> int {
    if n < MAX_OFFSET {
        n
    } else {
        MAX_OFFSET as int
    }
}

/// `blob` is the stream of the commands of an effort.
pub open spec fn zx_packed_by(
    input: Seq<u8>,
    rep_slots: usize,
    near_rep: bool,
    am_near_rep: bool,
    effort: u8,
    tuning: &ZxTuning,
    blob: Seq<u8>,
) -> bool {
    &&& zx_packed(input, rep_slots, near_rep, am_near_rep, blob)
    &&& exists|cmds: Seq<ZxCommand>|
        {
            &&& #[trigger] zx::zx_encoded(input, cmds, rep_slots, near_rep, am_near_rep, blob)
            &&& if input.len() == 0 {
                cmds.len() == 0
            } else {
                zx_effort(
                    input,
                    cmds,
                    rep_slots,
                    near_rep,
                    am_near_rep,
                    effort,
                    full_window(input.len() as int),
                    tuning,
                )
            }
        }
}

/// The stream of the highest effort for a small input is no longer than one of
/// the balanced effort.
pub proof fn lemma_highest_effort_no_longer(
    input: Seq<u8>,
    rep_slots: usize,
    near_rep: bool,
    am_near_rep: bool,
    effort: u8,
    tuning: &ZxTuning,
    blob: Seq<u8>,
)
    requires
        zx_packed_by(input, rep_slots, near_rep, am_near_rep, effort, tuning, blob),
        effort != 1,
        effort != 2,
        0 < input.len(),
    ensures
        exists|balanced: Seq<ZxCommand>|
            {
                &&& #[trigger] zx_effort(
                    input,
                    balanced,
                    rep_slots,
                    near_rep,
                    am_near_rep,
                    2,
                    full_window(input.len() as int),
                    tuning,
                )
                &&& blob.len() <= 1 + zx::bytes_for(
                    parse::bits_of(balanced, zx::zx_mode(rep_slots, near_rep, am_near_rep)),
                )
            },
{
    let w = full_window(input.len() as int);
    let m = zx::zx_mode(rep_slots, near_rep, am_near_rep);
    let cmds = choose|cmds: Seq<ZxCommand>| #[trigger]
        zx::zx_encoded(input, cmds, rep_slots, near_rep, am_near_rep, blob) && zx_effort(
            input,
            cmds,
            rep_slots,
            near_rep,
            am_near_rep,
            effort,
            w,
            tuning,
        );
    let (ms, extra) = choose|ms: MatchSet, extra: Seq<Vec<(u32, u32)>>| #[trigger]
        zx_effort_with(
            input,
            cmds,
            rep_slots,
            near_rep,
            am_near_rep,
            effort,
            w,
            tuning,
            &ms,
            extra,
        );
    let balanced = if input.len() > EXHAUSTIVE_MAX {
        cmds
    } else {
        choose|balanced: Seq<ZxCommand>|
            #[trigger] parse::zx_parsed(
                input,
                balanced,
                &ms,
                rep_slots,
                near_rep,
                am_near_rep,
                false,
                tuning,
            ) && parse::bits_of(cmds, m) <= parse::bits_of(balanced, m)
    };
    assert(zx_effort_with(
        input,
        balanced,
        rep_slots,
        near_rep,
        am_near_rep,
        2,
        w,
        tuning,
        &ms,
        extra,
    ));
    assert(zx_effort(input, balanced, rep_slots, near_rep, am_near_rep, 2, w, tuning));
}

/// With one recent offset and the highest effort a small input is parsed exactly:
/// no commands within the window give a shorter stream. Else the stream is that
/// of the effort.
pub open spec fn compressed_by(input: Seq<u8>, rep_slots: usize, effort: u8, blob: Seq<u8>) -> bool {
    if effort >= 3 && rep_slots == 1 && 0 < input.len() <= ZX0OPT_MAX_INPUT {
        exists|cmds: Seq<ZxCommand>|
            {
                &&& #[trigger] zx::zx_encoded(input, cmds, 1, false, false, blob)
                &&& zx::zx_legal(input, cmds, zx0opt::rep0_mode())
                &&& zx0opt::least_bits(
                    input,
                    exact_window(input.len() as int),
                    parse::bits_of(cmds, zx0opt::rep0_mode()),
                )
            }
    } else {
        zx_packed_by(input, rep_slots, false, false, effort, &parse::plain_tuning(), blob)
    }
}

/// How far back the exact parse reaches.
pub open spec fn exact_window(n: int) -> int {
    if n < ZX0OPT_OFFSET_LIMIT {
        n
    } else {
        ZX0OPT_OFFSET_LIMIT as int
    }
}

/// Compresses with `rep_slots` recent offsets at the default effort.
pub fn compress(input: &[u8], rep_slots: usize) -> (blob: Vec<u8>)
    requires
        zxdp::dp_fits(input@.len() as int),
        1 <= rep_slots <= 4,
    ensures
        zx_packed(input@, rep_slots, false, false, blob@),
        compressed_by(input@, rep_slots, DEFAULT_EFFORT, blob@),
{
    compress_e(input, rep_slots, DEFAULT_EFFORT)
}

/// The same at the given effort. With one recent offset and the highest effort
/// small inputs are parsed exactly.
pub fn compress_e(input: &[u8], rep_slots: usize, effort: u8) -> (blob: Vec<u8>)
    requires
        zxdp::dp_fits(input@.len() as int),
        1 <= rep_slots <= 4,
    ensures
        zx_packed(input@, rep_slots, false, false, blob@),
        compressed_by(input@, rep_slots, effort, blob@),
{
    let n: usize = input.len();
    if effort >= 3 && rep_slots == 1 && n > 0 && n <= ZX0OPT_MAX_INPUT {
        let window: usize = if n < ZX0OPT_OFFSET_LIMIT {
            n
        } else {
            ZX0OPT_OFFSET_LIMIT
        };
        let cmds: Vec<ZxCommand> = optimize_zx0(input, window);
        assert(zx::zx_mode(1, false, false) == zx0opt::rep0_mode());
        let blob: Vec<u8> = encode_with(input, cmds.as_slice(), 1);
        assert(zx::zx_encoded(input@, cmds@, 1, false, false, blob@));
        return blob;
    }
    compress3_e(input, rep_slots, false, false, effort)
}

/// Compresses with near offsets after a literal run.
pub fn compress2(input: &[u8], rep_slots: usize, near_rep: bool) -> (blob: Vec<u8>)
    requires
        zxdp::dp_fits(input@.len() as int),
        1 <= rep_slots <= 4,
    ensures
        zx_packed_by(
            input@,
            rep_slots,
            near_rep,
            false,
            DEFAULT_EFFORT,
            &parse::plain_tuning(),
            blob@,
        ),
{
    compress3_e(input, rep_slots, near_rep, false, DEFAULT_EFFORT)
}

/// Compresses with near offsets after a literal run and after a match.
pub fn compress3(input: &[u8], rep_slots: usize, near_rep: bool, am_near_rep: bool) -> (blob: Vec<
    u8,
>)
    requires
        zxdp::dp_fits(input@.len() as int),
        1 <= rep_slots <= 4,
    ensures
        zx_packed_by(
            input@,
            rep_slots,
            near_rep,
            am_near_rep,
            DEFAULT_EFFORT,
            &parse::plain_tuning(),
            blob@,
        ),
{
    compress3_e(input, rep_slots, near_rep, am_near_rep, DEFAULT_EFFORT)
}

/// The same at the given effort. Every mode goes through here.
pub fn compress3_e(
    input: &[u8],
    rep_slots: usize,
    near_rep: bool,
    am_near_rep: bool,
    effort: u8,
) -> (blob: Vec<u8>)
    requires
        zxdp::dp_fits(input@.len() as int),
        1 <= rep_slots <= 4,
    ensures
        zx_packed_by(
            input@,
            rep_slots,
            near_rep,
            am_near_rep,
            effort,
            &parse::plain_tuning(),
            blob@,
        ),
{
    compress3_tuned(input, rep_slots, near_rep, am_near_rep, effort, &ZxTuning::default())
}

/// The same with the seeded parse as `tuning` says.
pub fn compress3_tuned(
    input: &[u8],
    rep_slots: usize,
    near_rep: bool,
    am_near_rep: bool,
    effort: u8,
    tuning: &ZxTuning,
) -> (blob: Vec<u8>)
    requires
        zxdp::dp_fits(input@.len() as int),
        1 <= rep_slots <= 4,
    ensures
        zx_packed_by(input@, rep_slots, near_rep, am_near_rep, effort, tuning, blob@),
{
    let n: usize = input.len();
    let cmds: Vec<ZxCommand> = if n == 0 {
        literal_commands(input)
    } else {
        let window: usize = if n < MAX_OFFSET as usize {
            n
        } else {
            MAX_OFFSET as usize
        };
        zx_commands(input, rep_slots, near_rep, am_near_rep, effort, window, tuning)
    };
    assert(zx::zx_legal(input@, cmds@, zx::zx_mode(rep_slots, near_rep, am_near_rep)));
    let blob: Vec<u8> = encode_with3(input, cmds.as_slice(), rep_slots, near_rep, am_near_rep);
    assert(zx::zx_encoded(input@, cmds@, rep_slots, near_rep, am_near_rep, blob@));
    blob
}

/// The stream of the balanced parse and its commands.
pub fn compress3_with_cmds(
    input: &[u8],
    rep_slots: usize,
    near_rep: bool,
    am_near_rep: bool,
) -> (r: (Vec<u8>, Vec<ZxCommand>))
    requires
        zxdp::dp_fits(input@.len() as int),
        1 <= rep_slots <= 4,
    ensures
        zx::zx_legal(input@, r.1@, zx::zx_mode(rep_slots, near_rep, am_near_rep)),
        zx::zx_encoded(input@, r.1@, rep_slots, near_rep, am_near_rep, r.0@),
        input@.len() == 0 ==> r.1@.len() == 0,
        input@.len() > 0 ==> zx_effort(
            input@,
            r.1@,
            rep_slots,
            near_rep,
            am_near_rep,
            2,
            full_window(input@.len() as int),
            &parse::plain_tuning(),
        ),
        zx_packed(input@, rep_slots, near_rep, am_near_rep, r.0@),
{
    let n: usize = input.len();
    let cmds: Vec<ZxCommand> = if n == 0 {
        literal_commands(input)
    } else {
        let window: usize = if n < MAX_OFFSET as usize {
            n
        } else {
            MAX_OFFSET as usize
        };
        zx_commands(input, rep_slots, near_rep, am_near_rep, 2, window, &ZxTuning::default())
    };
    assert(zx::zx_legal(input@, cmds@, zx::zx_mode(rep_slots, near_rep, am_near_rep)));
    let blob: Vec<u8> = encode_with3(input, cmds.as_slice(), rep_slots, near_rep, am_near_rep);
    (blob, cmds)
}

/// The stream of the balanced parse without near offsets, and its commands.
pub fn compress_with_cmds(input: &[u8], rep_slots: usize) -> (r: (Vec<u8>, Vec<ZxCommand>))
    requires
        zxdp::dp_fits(input@.len() as int),
        1 <= rep_slots <= 4,
    ensures
        zx::zx_legal(input@, r.1@, zx::zx_mode(rep_slots, false, false)),
        zx::zx_encoded(input@, r.1@, rep_slots, false, false, r.0@),
        input@.len() == 0 ==> r.1@.len() == 0,
        input@.len() > 0 ==> zx_effort(
            input@,
            r.1@,
            rep_slots,
            false,
            false,
            2,
            full_window(input@.len() as int),
            &parse::plain_tuning(),
        ),
        zx_packed(input@, rep_slots, false, false, r.0@),
{
    compress3_with_cmds(input, rep_slots, false, false)
}

/// Compresses at the highest effort.
pub fn compress_complete(
    input: &[u8],
    rep_slots: usize,
    near_rep: bool,
    am_near_rep: bool,
) -> (blob: Vec<u8>)
    requires
        zxdp::dp_fits(input@.len() as int),
        1 <= rep_slots <= 4,
    ensures
        zx_packed_by(
            input@,
            rep_slots,
            near_rep,
            am_near_rep,
            3,
            &parse::plain_tuning(),
            blob@,
        ),
{
    compress3_e(input, rep_slots, near_rep, am_near_rep, 3)
}

/// Two byte strings are equal.
pub fn same_bytes(a: &[u8], b: &[u8]) -> (r: bool)
    ensures
        r == (a@ == b@),
{
    let n: usize = a.len();
    if n != b.len() {
        return false;
    }
    let mut i: usize = 0;
    while i < n
        invariant
            n == a@.len(),
            n == b@.len(),
            i <= n,
            forall|k: int| 0 <= k < i ==> a@[k] == b@[k],
        decreases n - i,
    {
        if a[i] != b[i] {
            return false;
        }
        i += 1;
    }
    assert(a@ =~= b@);
    true
}

/// Some legal commands with one recent offset take this many bits.
pub open spec fn rep0_bits(input: Seq<u8>, bits: int) -> bool {
    exists|cmds: Seq<ZxCommand>|
        #[trigger] zx::zx_legal(input, cmds, zx::zx_mode(1, false, false)) && bits == zx::zx_bits(
            cmds,
            zx::zx_mode(1, false, false),
            cmds.len() as int,
        )
}

/// Payload bits, stream length, and whether the stream decodes, for commands
/// with one recent offset.
fn rep0_report(input: &[u8], cmds: &Vec<ZxCommand>) -> (r: (u64, usize, bool))
    requires
        input@.len() <= 0x3fff_ffff,
        zx::zx_legal(input@, cmds@, zx::zx_mode(1, false, false)),
    ensures
        r.0 == zx::zx_bits(cmds@, zx::zx_mode(1, false, false), cmds@.len() as int),
        rep0_bits(input@, r.0 as int),
        r.1 == 1 + zx::bytes_for(r.0 as int),
        r.2,
{
    proof {
        zx::lemma_zx_bits_bound(
            input@,
            cmds@,
            zx::zx_mode(1, false, false),
            cmds@.len() as int,
        );
    }
    let bits: u64 = predicted_payload_bits(input, cmds.as_slice(), 1, false, false);
    let blob: Vec<u8> = encode_with(input, cmds.as_slice(), 1);
    let back: Vec<u8> = decode(blob.as_slice(), input.len());
    (bits, blob.len(), same_bytes(back.as_slice(), input))
}

/// The balanced parse with one recent offset, over the matches whose offsets go up
/// to `window`.
pub open spec fn balanced_rep0(input: Seq<u8>, window: int, cmds: Seq<ZxCommand>) -> bool {
    exists|ms: MatchSet| #[trigger]
        zx_matches(input, window, &ms) && parse::zx_parsed(
            input,
            cmds,
            &ms,
            1,
            false,
            false,
            false,
            &parse::plain_tuning(),
        )
}

/// Payload bits and stream length of the balanced parse with one recent offset
/// and matches with offsets up to `window`, and whether the stream decodes, which
/// it does.
pub fn rep0_cost_with_window(input: &[u8], window: usize) -> (r: (u64, usize, bool))
    requires
        zxdp::dp_fits(input@.len() as int),
    ensures
        rep0_bits(input@, r.0 as int),
        input@.len() > 0 ==> exists|cmds: Seq<ZxCommand>|
            #[trigger] balanced_rep0(
                input@,
                zx::min_of(window as int, input@.len() as int),
                cmds,
            ) && r.0 == parse::bits_of(cmds, zx0opt::rep0_mode()),
        input@.len() == 0 ==> r.0 == 0,
        r.1 == 1 + zx::bytes_for(r.0 as int),
        r.2,
{
    let n: usize = input.len();
    assert(zx::zx_mode(1, false, false) == zx0opt::rep0_mode());
    if n == 0 {
        let none: Vec<ZxCommand> = literal_commands(input);
        return rep0_report(input, &none);
    }
    let w: usize = if window < n {
        window
    } else {
        n
    };
    let ms: MatchSet = build_zx_matches(input, w);
    let cmds: Vec<ZxCommand> = parse_zx(input, &ms, 1);
    assert(zx_matches(input@, w as int, &ms));
    assert(w == zx::min_of(window as int, n as int));
    assert(balanced_rep0(input@, w as int, cmds@));
    rep0_report(input, &cmds)
}

/// The same for the exact parse.
pub fn rep0_zx0exact_cost(input: &[u8], offset_limit: usize) -> (r: (u64, usize, bool))
    requires
        zxdp::dp_fits(input@.len() as int),
    ensures
        rep0_bits(input@, r.0 as int),
        zx0opt::least_bits(input@, offset_limit as int, r.0 as int),
        r.1 == 1 + zx::bytes_for(r.0 as int),
        r.2,
{
    assert(zx::zx_mode(1, false, false) == zx0opt::rep0_mode());
    let most: usize = MAX_OFFSET as usize;
    let cmds: Vec<ZxCommand> = optimize_zx0(
        input,
        if offset_limit < most {
            offset_limit
        } else {
            most
        },
    );
    proof {
        let bits = zx::zx_bits(cmds@, zx0opt::rep0_mode(), cmds@.len() as int) as int;
        assert forall|c: Seq<ZxCommand>| #[trigger]
            zx::zx_legal(input@, c, zx0opt::rep0_mode()) && zx0opt::cmds_within(
                c,
                offset_limit as int,
            ) implies bits <= zx::zx_bits(c, zx0opt::rep0_mode(), c.len() as int) by {
            zx0opt::lemma_all_within(input@, c);
        }
    }
    rep0_report(input, &cmds)
}

/// `blob` is a minimal stream from which the input comes back.
pub open spec fn min_packed(input: Seq<u8>, blob: Seq<u8>) -> bool {
    &&& blob.len() > 0
    &&& blob[0] == zx::MODE_MIN_EOF
    &&& zx::zx_decoded(blob, input.len() as int) == Some(input)
    &&& zx::min_eof_decoded(blob.skip(1), input.len() as int) == Some(input)
    &&& input.len() > 0 ==> forall|n: int|
        n >= input.len() ==> #[trigger] zx::min_eof_decoded(blob.skip(1), n) == Some(input)
}

/// How far back a minimal stream reaches.
pub open spec fn min_window(n: int) -> int {
    if n < EOF_MAX_OFFSET {
        n
    } else {
        EOF_MAX_OFFSET as int
    }
}

/// The commands of a minimal stream at an effort: 1 is one pass of the dynamic
/// program, 2 the seeded rounds, and 3 the exact parse, where the input is small
/// enough, else the seeded rounds.
pub open spec fn min_effort(input: Seq<u8>, effort: u8, cmds: Seq<ZxCommand>) -> bool {
    if input.len() == 0 {
        cmds.len() == 0
    } else if effort != 1 && effort != 2 && input.len() <= ZX0OPT_MAX_INPUT {
        &&& zx::zx_legal(input, cmds, zx0opt::rep0_mode())
        &&& zx0opt::cmds_within(cmds, min_window(input.len() as int))
        &&& zx0opt::least_bits(
            input,
            min_window(input.len() as int),
            parse::bits_of(cmds, zx0opt::rep0_mode()),
        )
    } else {
        rounds_within(input, min_window(input.len() as int), effort == 1, cmds)
    }
}

/// `blob` is the minimal stream of the commands of an effort.
pub open spec fn min_packed_by(input: Seq<u8>, effort: u8, blob: Seq<u8>) -> bool {
    &&& min_packed(input, blob)
    &&& exists|cmds: Seq<ZxCommand>| #[trigger]
        zx::min_eof_encoded(input, cmds, blob) && min_effort(input, effort, cmds)
}

/// The minimal stream of the highest effort for a small input is no longer than one
/// of any effort.
pub proof fn lemma_min_highest_no_longer(input: Seq<u8>, high: u8, effort: u8, a: Seq<u8>, b: Seq<u8>)
    requires
        min_packed_by(input, high, a),
        min_packed_by(input, effort, b),
        high != 1,
        high != 2,
        input.len() <= ZX0OPT_MAX_INPUT,
    ensures
        a.len() <= b.len(),
{
    let m = zx0opt::rep0_mode();
    let x = choose|cmds: Seq<ZxCommand>| #[trigger]
        zx::min_eof_encoded(input, cmds, a) && min_effort(input, high, cmds);
    let y = choose|cmds: Seq<ZxCommand>| #[trigger]
        zx::min_eof_encoded(input, cmds, b) && min_effort(input, effort, cmds);
    if input.len() > 0 {
        assert(zx::zx_legal(input, y, m) && zx0opt::cmds_within(
            y,
            min_window(input.len() as int),
        ));
        zx::lemma_same_grammar(x, m, zx::min_mode(), x.len() as int);
        zx::lemma_same_grammar(y, m, zx::min_mode(), y.len() as int);
        assert(parse::bits_of(x, m) <= parse::bits_of(y, m));
    } else {
        assert(x =~= y);
    }
}

/// Minimal stream at the default effort.
pub fn compress_min_eof(input: &[u8]) -> (blob: Vec<u8>)
    requires
        zxdp::dp_fits(input@.len() as int),
    ensures
        min_packed_by(input@, DEFAULT_EFFORT, blob@),
{
    compress_min_eof_e(input, DEFAULT_EFFORT)
}

/// Minimal stream at the given effort.
pub fn compress_min_eof_e(input: &[u8], effort: u8) -> (blob: Vec<u8>)
    requires
        zxdp::dp_fits(input@.len() as int),
    ensures
        min_packed_by(input@, effort, blob@),
{
    let n: usize = input.len();
    let window: usize = if n < EOF_MAX_OFFSET as usize {
        n
    } else {
        EOF_MAX_OFFSET as usize
    };
    let ghost m = zx::zx_mode(1, false, false);
    let cmds: Vec<ZxCommand> = if n == 0 {
        literal_commands(input)
    } else if effort != 1 && effort != 2 && n <= ZX0OPT_MAX_INPUT {
        assert(zx::zx_mode(1, false, false) == zx0opt::rep0_mode());
        optimize_zx0(input, window)
    } else {
        commands_within(input, window, effort == 1)
    };
    proof {
        assert(m == zx0opt::rep0_mode());
        assert(zx::zx_legal(input@, cmds@, m));
        assert(zx0opt::cmds_within(cmds@, window as int));
        zx::lemma_legal_with_end(input@, cmds@, m, zx::min_mode());
        zx::lemma_same_grammar(cmds@, m, zx::min_mode(), cmds@.len() as int);
    }
    let blob: Vec<u8> = encode_min_eof(input, cmds.as_slice());
    proof {
        let body = blob@.skip(1);
        if n > 0 {
            assert forall|k: int| k >= n implies #[trigger] zx::min_eof_decoded(body, k) == Some(
                input@,
            ) by {
                lemma_ends_itself(body, input@, k);
            }
        }
        assert(zx::min_eof_encoded(input@, cmds@, blob@));
        assert(min_effort(input@, effort, cmds@));
    }
    blob
}

/// A minimal stream that decodes to its input where that many bytes are asked for
/// decodes to it where more are.
proof fn lemma_ends_itself(body: Seq<u8>, input: Seq<u8>, k: int)
    requires
        zx::zx_run(body, zx::min_mode(), input.len() as int, zx::zx_start()) matches Some((o, _)) && o
            == input,
        0 < input.len() <= k,
    ensures
        zx::min_eof_decoded(body, k) == Some(input),
{
    zx0compat::lemma_any_len(body, zx::min_mode(), input.len() as int, k, zx::zx_start());
}

/// `blob` is a backward minimal stream from which the input comes back.
pub open spec fn min_packed_backward(input: Seq<u8>, effort: u8, blob: Seq<u8>) -> bool {
    &&& min_packed_by(input.reverse(), effort, zx::zx_flipped(blob))
    &&& input.len() > 0 ==> forall|n: int|
        n >= input.len() ==> #[trigger] zx::min_eof_decoded(blob.skip(1).reverse(), n) == Some(
            input.reverse(),
        )
    &&& blob.len() > 0
    &&& blob[0] == zx::MODE_MIN_EOF
    &&& zx::min_eof_decoded(blob.skip(1).reverse(), input.len() as int) == Some(input.reverse())
}

/// Backward minimal stream at the default effort.
pub fn compress_min_eof_backward(input: &[u8]) -> (blob: Vec<u8>)
    requires
        zxdp::dp_fits(input@.len() as int),
    ensures
        min_packed_backward(input@, DEFAULT_EFFORT, blob@),
{
    compress_min_eof_backward_e(input, DEFAULT_EFFORT)
}

/// Backward minimal stream: that of the reversed input with its payload turned
/// round.
pub fn compress_min_eof_backward_e(input: &[u8], effort: u8) -> (blob: Vec<u8>)
    requires
        zxdp::dp_fits(input@.len() as int),
    ensures
        min_packed_backward(input@, effort, blob@),
{
    let turned: Vec<u8> = reversed(input);
    let fwd: Vec<u8> = compress_min_eof_e(turned.as_slice(), effort);
    let blob: Vec<u8> = flip(&fwd);
    proof {
        zx::lemma_flip_twice(fwd@);
        assert(blob@.skip(1) =~= fwd@.skip(1).reverse());
        lz::lemma_reverse_twice(fwd@.skip(1));
    }
    blob
}

/// `blob` is a backward stream of the mode from which the input comes back; it
/// is as long as the forward stream of the reversed input that it holds.
#[verifier::opaque]
pub open spec fn zx_packed_backward(
    input: Seq<u8>,
    rep_slots: usize,
    near_rep: bool,
    am_near_rep: bool,
    effort: u8,
    blob: Seq<u8>,
) -> bool {
    &&& zx_packed_by(
        input.reverse(),
        rep_slots,
        near_rep,
        am_near_rep,
        effort,
        &parse::plain_tuning(),
        zx::zx_flipped(blob),
    )
    &&& zx::zx_flipped(blob).len() == blob.len()
    &&& zx::zx_decoded_backward(blob, input.len() as int) == Some(input)
}

/// Backward stream: that of the reversed input with its payload turned round.
pub fn compress_backward(
    input: &[u8],
    rep_slots: usize,
    near_rep: bool,
    am_near_rep: bool,
    effort: u8,
) -> (blob: Vec<u8>)
    requires
        zxdp::dp_fits(input@.len() as int),
        1 <= rep_slots <= 4,
    ensures
        zx_packed_backward(input@, rep_slots, near_rep, am_near_rep, effort, blob@),
{
    let turned: Vec<u8> = reversed(input);
    let fwd: Vec<u8> = compress3_e(turned.as_slice(), rep_slots, near_rep, am_near_rep, effort);
    let blob: Vec<u8> = flip(&fwd);
    proof {
        reveal(zx_packed_backward);
        let n = input@.len() as int;
        zx::lemma_flip_twice(fwd@);
        zx::lemma_mode_byte(rep_slots, near_rep && rep_slots == 4, am_near_rep && rep_slots == 4);
        lz::lemma_reverse_twice(input@);
        if n > 0 {
            zx::lemma_flipped_decodes(fwd@, n);
        } else {
            assert(input@ =~= Seq::<u8>::empty());
        }
    }
    blob
}

/// The shorter of two strings, the first where they are equally long.
fn shorter(a: Vec<u8>, b: Vec<u8>) -> (r: Vec<u8>)
    ensures
        b@.len() < a@.len() ==> r@ == b@,
        b@.len() >= a@.len() ==> r@ == a@,
{
    if b.len() < a.len() {
        b
    } else {
        a
    }
}

/// The first of the shortest of five strings.
pub open spec fn first_shortest(v: Seq<Seq<u8>>, k: int) -> Seq<u8>
    decreases k,
{
    if k <= 1 {
        v[0]
    } else {
        let before = first_shortest(v, k - 1);
        if v[k - 1].len() < before.len() {
            v[k - 1]
        } else {
            before
        }
    }
}

/// Backward streams of the five modes: one recent offset, four, and four with
/// either or both kinds of near offsets.
pub open spec fn five_backward(input: Seq<u8>, effort: u8, v: Seq<Seq<u8>>) -> bool {
    &&& v.len() == 5
    &&& zx_packed_backward(input, 1, false, false, effort, v[0])
    &&& zx_packed_backward(input, 4, false, false, effort, v[1])
    &&& zx_packed_backward(input, 4, true, false, effort, v[2])
    &&& zx_packed_backward(input, 4, false, true, effort, v[3])
    &&& zx_packed_backward(input, 4, true, true, effort, v[4])
}

/// The first of the shortest strings is one of them, and none is shorter.
pub proof fn lemma_first_shortest(v: Seq<Seq<u8>>, k: int)
    requires
        1 <= k <= v.len(),
    ensures
        v.take(k).contains(first_shortest(v, k)),
        forall|j: int| 0 <= j < k ==> first_shortest(v, k).len() <= (#[trigger] v[j]).len(),
    decreases k,
{
    if k > 1 {
        lemma_first_shortest(v, k - 1);
        let before = first_shortest(v, k - 1);
        let t = v.take(k - 1);
        let j = choose|j: int| 0 <= j < t.len() && t[j] == before;
        assert(v.take(k)[j] == before);
        assert(v.take(k)[k - 1] == v[k - 1]);
    } else {
        assert(v.take(1)[0] == v[0]);
    }
}

/// The shortest backward stream over five modes: one recent offset, four, and
/// four with either or both kinds of near offsets; the first of them where
/// several are equally short.
pub fn compress_backward_best_of(input: &[u8], effort: u8) -> (blob: Vec<u8>)
    requires
        zxdp::dp_fits(input@.len() as int),
    ensures
        exists|v: Seq<Seq<u8>>| #[trigger]
            five_backward(input@, effort, v) && blob@ == first_shortest(v, 5),
        zx::zx_decoded_backward(blob@, input@.len() as int) == Some(input@),
{
    let v0: Vec<u8> = compress_backward(input, 1, false, false, effort);
    let v1: Vec<u8> = compress_backward(input, 4, false, false, effort);
    let v2: Vec<u8> = compress_backward(input, 4, true, false, effort);
    let v3: Vec<u8> = compress_backward(input, 4, false, true, effort);
    let v4: Vec<u8> = compress_backward(input, 4, true, true, effort);
    let ghost v = seq![v0@, v1@, v2@, v3@, v4@];
    assert(five_backward(input@, effort, v));
    let b1: Vec<u8> = shorter(v0, v1);
    assert(b1@ == first_shortest(v, 2)) by {
        reveal_with_fuel(first_shortest, 3);
    }
    let b2: Vec<u8> = shorter(b1, v2);
    assert(b2@ == first_shortest(v, 3));
    let b3: Vec<u8> = shorter(b2, v3);
    assert(b3@ == first_shortest(v, 4));
    let blob: Vec<u8> = shorter(b3, v4);
    proof {
        assert(blob@ == first_shortest(v, 5));
        lemma_first_shortest(v, 5);
        lemma_five_decode(input@, effort, v, blob@);
    }
    blob
}

proof fn lemma_five_decode(input: Seq<u8>, effort: u8, v: Seq<Seq<u8>>, blob: Seq<u8>)
    requires
        five_backward(input, effort, v),
        v.take(5).contains(blob),
    ensures
        zx::zx_decoded_backward(blob, input.len() as int) == Some(input),
{
    reveal(zx_packed_backward);
    let t = v.take(5);
    let j = choose|j: int| 0 <= j < t.len() && t[j] == blob;
    assert(t[j] == v[j]);
    assert(zx::zx_decoded_backward(v[0], input.len() as int) == Some(input));
    assert(zx::zx_decoded_backward(v[1], input.len() as int) == Some(input));
    assert(zx::zx_decoded_backward(v[2], input.len() as int) == Some(input));
    assert(zx::zx_decoded_backward(v[3], input.len() as int) == Some(input));
    assert(zx::zx_decoded_backward(v[4], input.len() as int) == Some(input));
    assert(j == 0 || j == 1 || j == 2 || j == 3 || j == 4);
}

/// A minimal stream of the reversed input, turned round, is a backward minimal
/// stream, and every backward one is such a stream.
pub proof fn lemma_min_backward_is_flipped(input: Seq<u8>, effort: u8, fwd: Seq<u8>)
    requires
        fwd.len() > 0,
    ensures
        min_packed_by(input.reverse(), effort, fwd) <==> min_packed_backward(
            input,
            effort,
            zx::zx_flipped(fwd),
        ),
{
    let blob = zx::zx_flipped(fwd);
    zx::lemma_flip_twice(fwd);
    assert(blob.skip(1) =~= fwd.skip(1).reverse());
    lz::lemma_reverse_twice(fwd.skip(1));
}

/// The same of backward streams: each is a stream of the reversed input, turned
/// round.
pub proof fn lemma_backward_is_flipped(
    input: Seq<u8>,
    rep_slots: usize,
    near_rep: bool,
    am_near_rep: bool,
    effort: u8,
    blob: Seq<u8>,
)
    requires
        zx_packed_backward(input, rep_slots, near_rep, am_near_rep, effort, blob),
    ensures
        zx_packed_by(
            input.reverse(),
            rep_slots,
            near_rep,
            am_near_rep,
            effort,
            &parse::plain_tuning(),
            zx::zx_flipped(blob),
        ),
        zx::zx_flipped(blob).len() == blob.len(),
{
    reveal(zx_packed_backward);
}

} // verus!
