//! Parses of an input as a table with one entry for every position: the length
//! and offset of the match that starts there, or zeros. Their size, their
//! commands, and rules that make them smaller.
use crate::bitio;
use crate::lz;
use crate::matchfinder;
use crate::zx;
use crate::zx::{
    codable, command_bits, lit_run_bits, newoff_len_bits, off_msb_bits, rep_len_bits, select, St,
    ZxCommand, ZxMode, ZxStyle,
};
use vstd::prelude::*;

verus! {

/// Every entry that is not zero is a match of the input at its position.
pub open spec fn best_ok(input: Seq<u8>, best: Seq<(u32, u32)>) -> bool {
    &&& best.len() == input.len()
    &&& forall|p: int|
        0 <= p < best.len() && (#[trigger] best[p]).0 > 0 ==> lz::is_match(
            input,
            p,
            best[p].1 as int,
            best[p].0 as int,
        )
}

/// The commands of a table from position `p` on, with `run` literals pending
/// and `cmds` before.
pub open spec fn best_cmds_from(
    best: Seq<(u32, u32)>,
    ri: Seq<i8>,
    p: int,
    run: nat,
    cmds: Seq<ZxCommand>,
) -> Seq<ZxCommand>
    decreases
        if p < best.len() {
            best.len() - p
        } else {
            0
        },
{
    if p < 0 || p >= best.len() {
        if run > 0 {
            cmds.push(
                ZxCommand {
                    lit_len: run as u32,
                    lit_start: (p - run) as usize,
                    match_off: 0,
                    match_len: 0,
                    near_rep_ri: -1i8,
                },
            )
        } else {
            cmds
        }
    } else if best[p].0 == 0 {
        best_cmds_from(best, ri, p + 1, run + 1, cmds)
    } else {
        best_cmds_from(
            best,
            ri,
            p + best[p].0,
            0,
            cmds.push(
                ZxCommand {
                    lit_len: run as u32,
                    lit_start: (p - run) as usize,
                    match_off: best[p].1,
                    match_len: best[p].0,
                    near_rep_ri: ri[p],
                },
            ),
        )
    }
}

/// The commands of a table.
pub open spec fn best_cmds(best: Seq<(u32, u32)>, ri: Seq<i8>) -> Seq<ZxCommand> {
    best_cmds_from(best, ri, 0, 0, Seq::empty())
}

proof fn lemma_from_prefix(
    best: Seq<(u32, u32)>,
    ri: Seq<i8>,
    p: int,
    run: nat,
    cmds: Seq<ZxCommand>,
)
    ensures
        cmds.len() <= best_cmds_from(best, ri, p, run, cmds).len(),
        forall|j: int|
            0 <= j < cmds.len() ==> #[trigger] best_cmds_from(best, ri, p, run, cmds)[j] == cmds[j],
    decreases
        if p < best.len() {
            best.len() - p
        } else {
            0
        },
{
    if p < 0 || p >= best.len() {
    } else if best[p].0 == 0 {
        lemma_from_prefix(best, ri, p + 1, run + 1, cmds);
    } else {
        let c = ZxCommand {
            lit_len: run as u32,
            lit_start: (p - run) as usize,
            match_off: best[p].1,
            match_len: best[p].0,
            near_rep_ri: ri[p],
        };
        lemma_from_prefix(best, ri, p + best[p].0, 0, cmds.push(c));
        assert forall|j: int| 0 <= j < cmds.len() implies #[trigger] best_cmds_from(
            best,
            ri,
            p,
            run,
            cmds,
        )[j] == cmds[j] by {
            assert(cmds.push(c)[j] == cmds[j]);
        }
    }
}

/// The commands of a table can all be written.
pub open spec fn best_codable(best: Seq<(u32, u32)>, ri: Seq<i8>, m: ZxMode) -> bool {
    zx::zx_all_codable(best_cmds(best, ri), m)
}

/// A command that can be written behind commands that can.
pub proof fn lemma_codable_push(cmds: Seq<ZxCommand>, c: ZxCommand, m: ZxMode)
    requires
        zx::zx_all_codable(cmds, m),
        forall|k: int| 0 <= k < cmds.len() ==> (#[trigger] cmds[k]).match_off != 0,
        ({
            let reps = zx::zx_reps(cmds, m, cmds.len() as int);
            &&& cmds.len() == 0 ==> c.lit_len > 0
            &&& c.match_off != 0 ==> zx::zx_codable(
                zx::zx_sel(c, reps, m),
                reps,
                c.match_off,
                c.match_len,
                m,
            )
        }),
    ensures
        zx::zx_all_codable(cmds.push(c), m),
{
    let d = cmds.push(c);
    assert forall|k: int| 0 <= k < d.len() implies #[trigger] zx::zx_codable_at(d, m, k) by {
        zx::lemma_zx_prefix(cmds, d, m, k);
        if k < cmds.len() {
            assert(zx::zx_codable_at(cmds, m, k));
            assert(d[k] == cmds[k]);
            assert(cmds[k].match_off != 0);
        }
    }
}

/// Commands that all have a match can be written without the last one.
proof fn lemma_codable_prefix(cmds: Seq<ZxCommand>, c: ZxCommand, m: ZxMode)
    requires
        zx::zx_all_codable(cmds.push(c), m),
    ensures
        zx::zx_all_codable(cmds, m),
{
    let d = cmds.push(c);
    assert forall|k: int| 0 <= k < cmds.len() implies #[trigger] zx::zx_codable_at(cmds, m, k) by {
        zx::lemma_zx_prefix(cmds, d, m, k);
        assert(zx::zx_codable_at(d, m, k));
        assert(d[k] == cmds[k]);
    }
}

/// What a command counts: its bits, or for a match that has no code `NO_CODE`.
pub open spec fn cmd_count(c: ZxCommand, first: bool, reps: Seq<u32>, m: ZxMode) -> int {
    let ph = zx::zx_sel(c, reps, m);
    zx::zx_lit_bits(c.lit_len, first) + if c.match_off == 0 {
        0int
    } else if zx::zx_codable(ph, reps, c.match_off, c.match_len, m) {
        (zx::zx_sel_bits(ph, c.lit_len > 0, m) + zx::zx_body_bits(
            ph,
            reps,
            c.match_off,
            c.match_len,
        )) as int
    } else {
        zx::NO_CODE as int
    }
}

/// What the first `k` commands count, as far as it can be counted.
pub open spec fn cmds_count(cmds: Seq<ZxCommand>, m: ZxMode, k: int) -> int
    decreases k,
{
    if k <= 0 {
        0
    } else {
        let sum = cmds_count(cmds, m, k - 1) + cmd_count(
            cmds[k - 1],
            k == 1,
            zx::zx_reps(cmds, m, k - 1),
            m,
        );
        if sum > u64::MAX {
            u64::MAX as int
        } else {
            sum
        }
    }
}

/// What the commands of a table count.
pub open spec fn table_count(best: Seq<(u32, u32)>, ri: Seq<i8>, m: ZxMode) -> int {
    cmds_count(best_cmds(best, ri), m, best_cmds(best, ri).len() as int)
}

proof fn lemma_count_prefix(a: Seq<ZxCommand>, b: Seq<ZxCommand>, m: ZxMode, k: int)
    requires
        0 <= k <= a.len(),
        k <= b.len(),
        forall|j: int| 0 <= j < k ==> a[j] == b[j],
    ensures
        cmds_count(a, m, k) == cmds_count(b, m, k),
    decreases k,
{
    if k > 0 {
        lemma_count_prefix(a, b, m, k - 1);
        zx::lemma_zx_prefix(a, b, m, k - 1);
    }
}

/// Size in bits of the commands of a table. A match that has no code counts
/// `NO_CODE`, so that such a parse is never the smaller one.
pub fn eval_best_cost(
    best: &Vec<(u32, u32)>,
    ri: &Vec<i8>,
    rep_slots: usize,
    near_rep: bool,
    am_near_rep: bool,
) -> (bits: u64)
    requires
        best@.len() == ri@.len(),
        best@.len() <= 0x3fff_ffff,
        forall|p: int|
            0 <= p < best@.len() ==> (#[trigger] best@[p]).0 <= best@.len() - p && (best@[p].0 > 0
                ==> best@[p].1 > 0),
    ensures
        bits == table_count(
            best@,
            ri@,
            (ZxMode { slots: rep_slots as int, near: near_rep, am: am_near_rep, eof: false, style: ZxStyle::Zx }),
        ),
        ({
            let m = ZxMode { slots: rep_slots as int, near: near_rep, am: am_near_rep, eof: false, style: ZxStyle::Zx };
            best_codable(best@, ri@, m) ==> bits == zx::zx_bits(
                best_cmds(best@, ri@),
                m,
                best_cmds(best@, ri@).len() as int,
            )
        }),
        ({
            let m = ZxMode { slots: rep_slots as int, near: near_rep, am: am_near_rep, eof: false, style: ZxStyle::Zx };
            &&& best_codable(best@, ri@, m) ==> bits <= 500 * best@.len() + 400
            &&& !best_codable(best@, ri@, m) && best@.len() > 0 && best@[0].0 == 0 ==> bits >= zx::NO_CODE
        }),
{
    let ghost m = ZxMode { slots: rep_slots as int, near: near_rep, am: am_near_rep, eof: false, style: ZxStyle::Zx };
    let n: usize = best.len();
    let mut reps: [u32; 4] = [1, 1, 1, 1];
    let mut bits: u64 = 0;
    let mut p: usize = 0;
    let mut run: u32 = 0;
    let mut first: bool = true;
    let ghost mut cmds = Seq::<ZxCommand>::empty();
    let ghost goal = best_cmds(best@, ri@);
    assert(reps@ =~= zx::reps_start());
    while p < n
        invariant
            m == (ZxMode { slots: rep_slots as int, near: near_rep, am: am_near_rep, eof: false, style: ZxStyle::Zx }),
            n == best@.len(),
            n == ri@.len(),
            n <= 0x3fff_ffff,
            p <= n,
            run <= p,
            goal == best_cmds(best@, ri@),
            goal == best_cmds_from(best@, ri@, p as int, run as nat, cmds),
            first == (cmds.len() == 0),
            reps@ == zx::zx_reps(cmds, m, cmds.len() as int),
            bits == cmds_count(cmds, m, cmds.len() as int),
            zx::zx_all_codable(cmds, m) ==> bits == zx::zx_bits(cmds, m, cmds.len() as int)
                && bits + 8 * run <= 500 * p,
            best@[0].0 == 0 ==> zx::zx_all_codable(cmds, m) || bits >= zx::NO_CODE,
            zx::zx_all_codable(goal, m) ==> zx::zx_all_codable(cmds, m),
            forall|k: int| 0 <= k < cmds.len() ==> (#[trigger] cmds[k]).match_off != 0,
            best@[0].0 == 0 && p > 0 && cmds.len() == 0 ==> run > 0,
            forall|q: int|
                0 <= q < n ==> (#[trigger] best@[q]).0 <= n - q && (best@[q].0 > 0 ==> best@[q].1
                    > 0),
        decreases n - p,
    {
        let (len, off) = best[p];
        if len == 0 {
            run += 1;
            p += 1;
        } else {
            let c: ZxCommand = ZxCommand {
                lit_len: run,
                lit_start: p - run as usize,
                match_off: off,
                match_len: len,
                near_rep_ri: ri[p],
            };
            let ghost cmds2 = cmds.push(c);
            let ghost k = cmds.len() as int;
            proof {
                lemma_from_prefix(best@, ri@, p + len, 0, cmds2);
                zx::lemma_zx_prefix(cmds, cmds2, m, k);
                lemma_count_prefix(cmds, cmds2, m, k);
                zx::lemma_zx_prefix(goal, cmds2, m, k);
                assert(goal[k] == cmds2[k]);
                if zx::zx_all_codable(goal, m) {
                    assert(zx::zx_codable_at(goal, m, k));
                    lemma_codable_push(cmds, c, m);
                } else if zx::zx_all_codable(cmds, m) && (k == 0 ==> run > 0) && zx::zx_codable(
                    zx::zx_sel(c, reps@, m),
                    reps@,
                    off,
                    len,
                    m,
                ) {
                    lemma_codable_push(cmds, c, m);
                }
                if zx::zx_all_codable(cmds2, m) {
                    lemma_codable_prefix(cmds, c, m);
                    assert(zx::zx_codable_at(cmds2, m, k));
                }
            }
            let b: u64 = command_bits(
                &c,
                first,
                &mut reps,
                rep_slots,
                near_rep,
                am_near_rep,
                Ghost(m),
            );
            bits = bits.saturating_add(b);
            first = false;
            run = 0;
            p += len as usize;
            proof {
                cmds = cmds2;
            }
        }
    }
    if run > 0 {
        let c: ZxCommand = ZxCommand {
            lit_len: run,
            lit_start: p - run as usize,
            match_off: 0,
            match_len: 0,
            near_rep_ri: -1,
        };
        let ghost cmds2 = cmds.push(c);
        proof {
            zx::lemma_zx_prefix(cmds, cmds2, m, cmds.len() as int);
            lemma_count_prefix(cmds, cmds2, m, cmds.len() as int);
            if zx::zx_all_codable(cmds, m) {
                lemma_codable_push(cmds, c, m);
            } else if zx::zx_all_codable(cmds2, m) {
                lemma_codable_prefix(cmds, c, m);
            }
        }
        let b: u64 = command_bits(
            &c,
            first,
            &mut reps,
            rep_slots,
            near_rep,
            am_near_rep,
            Ghost(m),
        );
        bits = bits.saturating_add(b);
    }
    bits
}

/// What holds while commands are collected: all have a match, all can be
/// written and stand for the input up to where the last one ends.
pub open spec fn cmds_so_far(input: Seq<u8>, cmds: Seq<ZxCommand>, m: ZxMode, max_off: int) -> bool {
    &&& zx::zx_all_codable(cmds, m)
    &&& forall|k: int| 0 <= k < cmds.len() ==> #[trigger] zx::zx_tiles_at(input, cmds, k)
    &&& forall|k: int|
        0 <= k < cmds.len() ==> (#[trigger] cmds[k]).match_off != 0 && cmds[k].match_off <= max_off
}

proof fn lemma_push_cmd(input: Seq<u8>, cmds: Seq<ZxCommand>, c: ZxCommand, m: ZxMode, max_off: int)
    requires
        cmds_so_far(input, cmds, m, max_off),
        ({
            let k = cmds.len() as int;
            let p = zx::zx_pos(cmds, k);
            let reps = zx::zx_reps(cmds, m, k);
            &&& k == 0 ==> c.lit_len > 0
            &&& c.lit_len > 0 ==> c.lit_start == p
            &&& p + c.lit_len <= input.len()
            &&& c.match_off != 0 ==> {
                &&& zx::zx_codable(zx::zx_sel(c, reps, m), reps, c.match_off, c.match_len, m)
                &&& lz::is_match(input, p + c.lit_len, c.match_off as int, c.match_len as int)
            }
            &&& c.match_off <= max_off
        }),
    ensures
        ({
            let d = cmds.push(c);
            &&& c.match_off != 0 ==> cmds_so_far(input, d, m, max_off)
            &&& zx::zx_all_codable(d, m)
            &&& forall|k: int| 0 <= k < d.len() ==> #[trigger] zx::zx_tiles_at(input, d, k)
            &&& zx::zx_pos(d, d.len() as int) == zx::zx_pos(cmds, cmds.len() as int)
                + zx::zx_cmd_len(c)
            &&& zx::zx_reps(d, m, d.len() as int) == if c.match_off == 0 {
                zx::zx_reps(cmds, m, cmds.len() as int)
            } else {
                zx::reps_next(
                    zx::zx_sel(c, zx::zx_reps(cmds, m, cmds.len() as int), m),
                    zx::zx_reps(cmds, m, cmds.len() as int),
                    c.match_off,
                )
            }
        }),
{
    let d = cmds.push(c);
    zx::lemma_zx_prefix(cmds, d, m, cmds.len() as int);
    assert forall|k: int| 0 <= k < d.len() implies #[trigger] zx::zx_codable_at(d, m, k) by {
        if k < cmds.len() {
            zx::lemma_zx_prefix(cmds, d, m, k);
            assert(zx::zx_codable_at(cmds, m, k));
            assert(d[k] == cmds[k]);
            assert(cmds[k].match_off != 0);
        }
    }
    assert forall|k: int| 0 <= k < d.len() implies #[trigger] zx::zx_tiles_at(input, d, k) by {
        if k < cmds.len() {
            zx::lemma_zx_prefix(cmds, d, m, k);
            assert(zx::zx_tiles_at(input, cmds, k));
            assert(d[k] == cmds[k]);
        }
    }
    assert forall|k: int| 0 <= k < d.len() && c.match_off != 0 implies (#[trigger] d[k]).match_off
        != 0 && d[k].match_off <= max_off by {
        if k < cmds.len() {
            assert(d[k] == cmds[k]);
        }
    }
}

/// Every command says where it starts, and one without a match holds nothing
/// else.
pub open spec fn is_plain(cmds: Seq<ZxCommand>) -> bool {
    forall|k: int|
        0 <= k < cmds.len() ==> {
            let c = #[trigger] cmds[k];
            &&& c.lit_start == zx::zx_pos(cmds, k)
            &&& c.match_off == 0 ==> c.lit_len > 0 && c.match_len == 0 && c.near_rep_ri == -1
        }
}

proof fn lemma_plain_push(cmds: Seq<ZxCommand>, c: ZxCommand, m: ZxMode)
    requires
        is_plain(cmds),
        c.lit_start == zx::zx_pos(cmds, cmds.len() as int),
        c.match_off == 0 ==> c.lit_len > 0 && c.match_len == 0 && c.near_rep_ri == -1,
    ensures
        is_plain(cmds.push(c)),
{
    let d = cmds.push(c);
    assert forall|k: int| 0 <= k < d.len() implies ({
        let c = #[trigger] d[k];
        &&& c.lit_start == zx::zx_pos(d, k)
        &&& c.match_off == 0 ==> c.lit_len > 0 && c.match_len == 0 && c.near_rep_ri == -1
    }) by {
        zx::lemma_zx_prefix(cmds, d, m, k);
        if k < cmds.len() {
            assert(d[k] == cmds[k]);
        }
    }
}

/// No match starts in the literal run of a command.
proof fn lemma_run_has_no_match(
    input: Seq<u8>,
    cmds: Seq<ZxCommand>,
    m: ZxMode,
    best: Seq<(u32, u32)>,
    ri: Seq<i8>,
    k: int,
)
    requires
        zx::zx_legal(input, cmds, m),
        best.len() == input.len(),
        table_of(cmds, best, ri, cmds.len() as int),
        0 <= k < cmds.len(),
    ensures
        forall|q: int|
            zx::zx_pos(cmds, k) <= q < zx::zx_pos(cmds, k) + cmds[k].lit_len ==> (#[trigger] best[q]).0
                == 0,
{
    let p = zx::zx_pos(cmds, k);
    let c = cmds[k];
    zx::lemma_zx_pos_monotone(cmds, 0, k);
    zx::lemma_zx_pos_monotone(cmds, k + 1, cmds.len() as int);
    assert forall|q: int| p <= q < p + c.lit_len implies (#[trigger] best[q]).0 == 0 by {
        if best[q].0 != 0 {
            assert(best[q] != (0u32, 0u32));
            let j = choose|j: int|
                0 <= j < cmds.len() && (#[trigger] cmds[j]).match_off != 0 && match_pos(cmds, j)
                    == q;
            if j < k {
                assert(zx::zx_codable_at(cmds, m, j));
                zx::lemma_zx_pos_monotone(cmds, j + 1, k);
                assert(zx::zx_pos(cmds, j + 1) == zx::zx_pos(cmds, j) + zx::zx_cmd_len(cmds[j]));
            } else if j > k {
                zx::lemma_zx_pos_monotone(cmds, k + 1, j);
                assert(zx::zx_pos(cmds, k + 1) == p + zx::zx_cmd_len(c));
            }
        }
    }
}

/// What a command says of the table at its place.
spec fn cmd_here(n: int, cmds: Seq<ZxCommand>, best: Seq<(u32, u32)>, ri: Seq<i8>, k: int) -> bool {
    let c = cmds[k];
    let p = zx::zx_pos(cmds, k);
    &&& 0 <= p
    &&& p + c.lit_len <= n
    &&& c.lit_start == p
    &&& forall|q: int| p <= q < p + c.lit_len ==> (#[trigger] best[q]).0 == 0
    &&& c.match_off != 0 ==> {
        &&& c.match_len >= 1
        &&& p + c.lit_len < n
        &&& best[p + c.lit_len] == (c.match_len, c.match_off)
        &&& ri[p + c.lit_len] == c.near_rep_ri
    }
    &&& c.match_off == 0 ==> {
        &&& k == cmds.len() - 1
        &&& p + c.lit_len == n
        &&& c.lit_len > 0 && c.match_len == 0 && c.near_rep_ri == -1
    }
}

proof fn lemma_cmd_here(
    input: Seq<u8>,
    cmds: Seq<ZxCommand>,
    m: ZxMode,
    best: Seq<(u32, u32)>,
    ri: Seq<i8>,
    k: int,
)
    requires
        zx::zx_legal(input, cmds, m),
        is_plain(cmds),
        best.len() == input.len(),
        table_of(cmds, best, ri, cmds.len() as int),
        0 <= k < cmds.len(),
    ensures
        cmd_here(input.len() as int, cmds, best, ri, k),
{
    let c = cmds[k];
    zx::lemma_zx_pos_monotone(cmds, 0, k);
    assert(zx::zx_tiles_at(input, cmds, k));
    assert(zx::zx_codable_at(cmds, m, k));
    zx::lemma_zx_pos_monotone(cmds, k + 1, cmds.len() as int);
    assert(zx::zx_pos(cmds, k + 1) == zx::zx_pos(cmds, k) + zx::zx_cmd_len(c));
    lemma_run_has_no_match(input, cmds, m, best, ri, k);
}

proof fn lemma_cmds_follow(
    n: int,
    cmds: Seq<ZxCommand>,
    best: Seq<(u32, u32)>,
    ri: Seq<i8>,
    k: int,
)
    requires
        best.len() == n,
        ri.len() == n,
        n <= 0x3fff_ffff,
        forall|j: int| 0 <= j < cmds.len() ==> #[trigger] cmd_here(n, cmds, best, ri, j),
        zx::zx_pos(cmds, cmds.len() as int) == n,
        0 <= k <= cmds.len(),
        k > 0 ==> cmds[k - 1].match_off != 0,
    ensures
        best_cmds_from(best, ri, zx::zx_pos(cmds, k), 0, cmds.take(k)) == cmds,
    decreases cmds.len() - k,
{
    let p = zx::zx_pos(cmds, k);
    if k == cmds.len() {
        assert(cmds.take(k) =~= cmds);
    } else {
        let c = cmds[k];
        assert(cmd_here(n, cmds, best, ri, k));
        lemma_from_zeros(best, ri, p, c.lit_len as nat, 0, cmds.take(k));
        if c.match_off == 0 {
            assert(cmds.take(k).push(c) =~= cmds);
        } else {
            lemma_cmds_follow(n, cmds, best, ri, k + 1);
            assert(cmds.take(k).push(c) =~= cmds.take(k + 1));
        }
    }
}

/// The table of commands stands for the same commands.
pub proof fn lemma_table_back(
    input: Seq<u8>,
    cmds: Seq<ZxCommand>,
    m: ZxMode,
    best: Seq<(u32, u32)>,
    ri: Seq<i8>,
)
    requires
        zx::zx_legal(input, cmds, m),
        is_plain(cmds),
        best.len() == input.len(),
        input.len() <= 0x3fff_ffff,
        ri.len() == best.len(),
        table_of(cmds, best, ri, cmds.len() as int),
    ensures
        best_cmds(best, ri) == cmds,
{
    let n = input.len() as int;
    assert forall|j: int| 0 <= j < cmds.len() implies #[trigger] cmd_here(n, cmds, best, ri, j) by {
        lemma_cmd_here(input, cmds, m, best, ri, j);
    }
    lemma_cmds_follow(n, cmds, best, ri, 0);
    assert(cmds.take(0) =~= Seq::<ZxCommand>::empty());
}

proof fn lemma_from_zeros(
    best: Seq<(u32, u32)>,
    ri: Seq<i8>,
    p: int,
    len: nat,
    run: nat,
    cmds: Seq<ZxCommand>,
)
    requires
        0 <= p,
        p + len <= best.len(),
        forall|q: int| p <= q < p + len ==> (#[trigger] best[q]).0 == 0,
    ensures
        best_cmds_from(best, ri, p, run, cmds) == best_cmds_from(
            best,
            ri,
            p + len,
            run + len,
            cmds,
        ),
    decreases len,
{
    if len > 0 {
        assert(best[p].0 == 0);
        lemma_from_zeros(best, ri, p + 1, (len - 1) as nat, run + 1, cmds);
    }
}

/// The match of a table at `p` as a command behind `run` literals: with its near
/// offset, or without where that has no code.
pub open spec fn match_cmd(
    best: Seq<(u32, u32)>,
    ri: Seq<i8>,
    m: ZxMode,
    p: int,
    run: nat,
    reps: Seq<u32>,
) -> ZxCommand {
    let c = ZxCommand {
        lit_len: run as u32,
        lit_start: (p - run) as usize,
        match_off: best[p].1,
        match_len: best[p].0,
        near_rep_ri: ri[p],
    };
    if !zx::zx_codable(zx::zx_sel(c, reps, m), reps, c.match_off, c.match_len, m) && ri[p] >= 0 {
        ZxCommand { near_rep_ri: -1i8, ..c }
    } else {
        c
    }
}

/// The commands of a table from position `p` on, with `run` literals pending and
/// `cmds` before. A match that has no code, or whose offset is above `max_off`, is
/// taken apart into literals.
pub open spec fn built_from(
    best: Seq<(u32, u32)>,
    ri: Seq<i8>,
    m: ZxMode,
    max_off: int,
    p: int,
    run: nat,
    cmds: Seq<ZxCommand>,
) -> Seq<ZxCommand>
    decreases
        if p < best.len() {
            best.len() - p
        } else {
            0
        },
{
    if p < 0 || p >= best.len() {
        if run > 0 {
            cmds.push(
                ZxCommand {
                    lit_len: run as u32,
                    lit_start: (p - run) as usize,
                    match_off: 0,
                    match_len: 0,
                    near_rep_ri: -1i8,
                },
            )
        } else {
            cmds
        }
    } else if best[p].0 == 0 {
        built_from(best, ri, m, max_off, p + 1, run + 1, cmds)
    } else {
        let reps = zx::zx_reps(cmds, m, cmds.len() as int);
        let c = match_cmd(best, ri, m, p, run, reps);
        if zx::zx_codable(zx::zx_sel(c, reps, m), reps, c.match_off, c.match_len, m) && c.match_off
            <= max_off {
            built_from(best, ri, m, max_off, p + best[p].0, 0, cmds.push(c))
        } else {
            built_from(best, ri, m, max_off, p + 1, run + 1, cmds)
        }
    }
}

/// The commands of a table, as far as they can be written.
pub open spec fn built(best: Seq<(u32, u32)>, ri: Seq<i8>, m: ZxMode, max_off: int) -> Seq<ZxCommand> {
    built_from(best, ri, m, max_off, 0, 0, Seq::empty())
}

/// The commands of a table. A match that the mode has no code for, or whose
/// offset is above `max_off`, is taken apart into literals.
#[verifier::rlimit(30)]
pub fn build_zx_commands_from_best(
    input: &[u8],
    best: &Vec<(u32, u32)>,
    best_ri: &Vec<i8>,
    rep_slots: usize,
    near_rep: bool,
    am_near_rep: bool,
    max_off: u32,
) -> (cmds: Vec<ZxCommand>)
    requires
        best_ok(input@, best@),
        best_ri@.len() == best@.len(),
        best@.len() <= 0x3fff_ffff,
        1 <= rep_slots <= 4,
    ensures
        ({
            let m = ZxMode { slots: rep_slots as int, near: near_rep, am: am_near_rep, eof: false, style: ZxStyle::Zx };
            &&& zx::zx_legal(input@, cmds@, m)
            &&& is_plain(cmds@)
            &&& cmds@ == built(best@, best_ri@, m, max_off as int)
            &&& forall|k: int| 0 <= k < cmds@.len() ==> (#[trigger] cmds@[k]).match_off <= max_off
            &&& best_codable(best@, best_ri@, m) && (forall|p: int|
                0 <= p < best@.len() ==> (#[trigger] best@[p]).1 <= max_off) ==> cmds@ == best_cmds(
                best@,
                best_ri@,
            )
        }),
{
    let ghost m = ZxMode { slots: rep_slots as int, near: near_rep, am: am_near_rep, eof: false, style: ZxStyle::Zx };
    let n: usize = input.len();
    let mut cmds: Vec<ZxCommand> = Vec::new();
    let mut reps: [u32; 4] = [1, 1, 1, 1];
    let mut p: usize = 0;
    let mut run: u32 = 0;
    let ghost goal = best_cmds(best@, best_ri@);
    let ghost plain = best_codable(best@, best_ri@, m) && (forall|p: int|
        0 <= p < best@.len() ==> (#[trigger] best@[p]).1 <= max_off);
    assert(reps@ =~= zx::reps_start());
    let ghost made = built(best@, best_ri@, m, max_off as int);
    assert(cmds@ =~= Seq::<ZxCommand>::empty());
    while p < n
        invariant
            m == (ZxMode { slots: rep_slots as int, near: near_rep, am: am_near_rep, eof: false, style: ZxStyle::Zx }),
            n == input@.len(),
            n == best@.len(),
            n == best_ri@.len(),
            n <= 0x3fff_ffff,
            best_ok(input@, best@),
            p <= n,
            run <= p,
            zx::zx_pos(cmds@, cmds@.len() as int) == p - run,
            reps@ == zx::zx_reps(cmds@, m, cmds@.len() as int),
            cmds_so_far(input@, cmds@, m, max_off as int),
            is_plain(cmds@),
            made == built_from(
                best@,
                best_ri@,
                m,
                max_off as int,
                p as int,
                run as nat,
                cmds@,
            ),
            goal == best_cmds(best@, best_ri@),
            plain ==> zx::zx_all_codable(goal, m) && (forall|q: int|
                0 <= q < best@.len() ==> (#[trigger] best@[q]).1 <= max_off),
            plain ==> goal == best_cmds_from(best@, best_ri@, p as int, run as nat, cmds@),
        decreases n - p,
    {
        let (len, off) = best[p];
        if len == 0 {
            run += 1;
            p += 1;
        } else {
            assert(lz::is_match(input@, p as int, off as int, len as int));
            let mut c: ZxCommand = ZxCommand {
                lit_len: run,
                lit_start: p - run as usize,
                match_off: off,
                match_len: len,
                near_rep_ri: best_ri[p],
            };
            let mut ph: St = select(&c, &reps, rep_slots, near_rep, am_near_rep, Ghost(m));
            let mut ok: bool = codable(&ph, &reps, off, len, false, Ghost(m));
            proof {
                if plain {
                    let k = cmds@.len() as int;
                    let d = cmds@.push(c);
                    lemma_from_prefix(best@, best_ri@, p + len, 0, d);
                    zx::lemma_zx_prefix(goal, cmds@, m, k);
                    assert(goal[k] == d[k]);
                    assert(zx::zx_codable_at(goal, m, k));
                }
            }
            if !ok && c.near_rep_ri >= 0 {
                c.near_rep_ri = -1;
                ph = select(&c, &reps, rep_slots, near_rep, am_near_rep, Ghost(m));
                ok = codable(&ph, &reps, off, len, false, Ghost(m));
            }
            if ok && off <= max_off {
                proof {
                    zx::lemma_zx_pos_monotone(cmds@, 0, cmds@.len() as int);
                    lemma_push_cmd(input@, cmds@, c, m, max_off as int);
                    lemma_plain_push(cmds@, c, m);
                }
                cmds.push(c);
                match ph {
                    St::Rep(ri) => zx::rep_mtf(&mut reps, ri),
                    _ => zx::rep_insert(&mut reps, off),
                }
                run = 0;
                p += len as usize;
            } else {
                run += 1;
                p += 1;
            }
        }
    }
    if run > 0 {
        let c: ZxCommand = ZxCommand {
            lit_len: run,
            lit_start: p - run as usize,
            match_off: 0,
            match_len: 0,
            near_rep_ri: -1,
        };
        proof {
            lemma_push_cmd(input@, cmds@, c, m, max_off as int);
            lemma_plain_push(cmds@, c, m);
        }
        cmds.push(c);
    }
    cmds
}

/// A table of zeros: every byte is a literal.
pub fn zero_table(n: usize) -> (best: Vec<(u32, u32)>)
    ensures
        best@.len() == n,
        forall|p: int| 0 <= p < n ==> #[trigger] best@[p] == (0u32, 0u32),
{
    let mut best: Vec<(u32, u32)> = Vec::with_capacity(n);
    let mut i: usize = 0;
    while i < n
        invariant
            i <= n,
            best@.len() == i,
            forall|p: int| 0 <= p < i ==> #[trigger] best@[p] == (0u32, 0u32),
        decreases n - i,
    {
        best.push((0, 0));
        i += 1;
    }
    best
}

/// Where the match of command `k` starts.
pub open spec fn match_pos(cmds: Seq<ZxCommand>, k: int) -> int {
    zx::zx_pos(cmds, k) + cmds[k].lit_len
}

/// The entries stand where the matches of the first `k` commands start, and
/// nowhere else.
pub open spec fn table_of(cmds: Seq<ZxCommand>, best: Seq<(u32, u32)>, ri: Seq<i8>, k: int) -> bool {
    &&& forall|j: int|
        0 <= j < k && (#[trigger] cmds[j]).match_off != 0 && match_pos(cmds, j) < best.len() ==> {
            &&& best[match_pos(cmds, j)] == (cmds[j].match_len, cmds[j].match_off)
            &&& ri[match_pos(cmds, j)] == cmds[j].near_rep_ri
        }
    &&& forall|p: int|
        0 <= p < best.len() && #[trigger] best[p] != (0u32, 0u32) ==> exists|j: int|
            0 <= j < k && (#[trigger] cmds[j]).match_off != 0 && match_pos(cmds, j) == p
}

/// Where no match starts, no near offset is named.
pub open spec fn rest_is_plain(best: Seq<(u32, u32)>, ri: Seq<i8>) -> bool {
    forall|p: int| 0 <= p < best.len() && best[p] == (0u32, 0u32) ==> #[trigger] ri[p] == -1
}

/// The table of a list of commands.
pub fn commands_to_best(input: &[u8], cmds: &Vec<ZxCommand>, Ghost(m): Ghost<ZxMode>) -> (res: (
    Vec<(u32, u32)>,
    Vec<i8>,
))
    requires
        zx::zx_legal(input@, cmds@, m),
        input@.len() <= 0x3fff_ffff,
    ensures
        best_ok(input@, res.0@),
        res.1@.len() == res.0@.len(),
        table_of(cmds@, res.0@, res.1@, cmds@.len() as int),
        rest_is_plain(res.0@, res.1@),
{
    let n: usize = input.len();
    let mut best: Vec<(u32, u32)> = zero_table(n);
    let mut ri: Vec<i8> = vec![-1i8; n];
    let mut p: usize = 0;
    let mut k: usize = 0;
    while k < cmds.len()
        invariant
            n == input@.len(),
            n <= 0x3fff_ffff,
            k <= cmds@.len(),
            zx::zx_legal(input@, cmds@, m),
            p == zx::zx_pos(cmds@, k as int),
            p <= n,
            best_ok(input@, best@),
            ri@.len() == n,
            table_of(cmds@, best@, ri@, k as int),
            rest_is_plain(best@, ri@),
        decreases cmds@.len() - k,
    {
        let c: ZxCommand = cmds[k];
        let ghost best0 = best@;
        proof {
            assert(zx::zx_tiles_at(input@, cmds@, k as int));
            assert(zx::zx_codable_at(cmds@, m, k as int));
            zx::lemma_zx_pos_monotone(cmds@, k + 1, cmds@.len() as int);
        }
        p += c.lit_len as usize;
        if c.match_off != 0 {
            if p < n {
                best.set(p, (c.match_len, c.match_off));
                ri.set(p, c.near_rep_ri);
            }
            p += c.match_len as usize;
        }
        proof {
            let at = match_pos(cmds@, k as int);
            assert forall|j: int|
                0 <= j <= k && (#[trigger] cmds@[j]).match_off != 0 && match_pos(cmds@, j)
                    < n implies best@[match_pos(cmds@, j)] == (
                cmds@[j].match_len,
                cmds@[j].match_off,
            ) && ri@[match_pos(cmds@, j)] == cmds@[j].near_rep_ri by {
                if j < k {
                    assert(zx::zx_codable_at(cmds@, m, j));
                    zx::lemma_zx_pos_monotone(cmds@, j + 1, k as int);
                    zx::lemma_zx_pos_monotone(cmds@, 0, j);
                    assert(zx::zx_pos(cmds@, j + 1) == zx::zx_pos(cmds@, j) + zx::zx_cmd_len(cmds@[j]));
                    assert(match_pos(cmds@, j) < zx::zx_pos(cmds@, k as int));
                }
            }
            assert forall|q: int| 0 <= q < n && #[trigger] best@[q] != (0u32, 0u32) implies exists|j: int|
                0 <= j <= k && (#[trigger] cmds@[j]).match_off != 0 && match_pos(cmds@, j) == q by {
                if q == at && c.match_off != 0 {
                    assert(cmds@[k as int].match_off != 0);
                } else {
                    assert(best@[q] == best0[q]);
                }
            }
        }
        k += 1;
    }
    (best, ri)
}

// ---------------------------------------------------------------------------
// Reduction
// ---------------------------------------------------------------------------
/// Bits of a literal run of `len` bytes with its symbol, without the bytes.
pub open spec fn lit_size(len: int) -> int {
    if len == 0 {
        0
    } else {
        bitio::gamma_len(len as nat) as int + 1
    }
}

/// Bits of the length of a match with a new offset; a single byte has none.
pub open spec fn norep_size(len: int) -> int {
    if len < 2 {
        0xffff_ffff
    } else {
        bitio::gamma_len((len - 1) as nat) as int
    }
}

/// Bits of the length of a match with a recent offset.
pub open spec fn rep_size(len: int) -> int {
    bitio::gamma_len(len as nat) as int
}

/// Bits of a new offset.
pub open spec fn off_size(off: int) -> int {
    bitio::gamma_len(((off - 1) / 128 + 1) as nat) as int + 7
}

fn lit_varlen_size(len: u32) -> (bits: i64)
    ensures
        bits == lit_size(len as int),
        0 <= bits <= 64,
{
    if len == 0 {
        0
    } else {
        (lit_run_bits(len) + 1) as i64
    }
}

fn match_varlen_norep(len: u32) -> (bits: i64)
    ensures
        bits == norep_size(len as int),
        0 <= bits <= 0xffff_ffff,
{
    if len < 2 {
        0xffff_ffff
    } else {
        newoff_len_bits(len - 1) as i64
    }
}

fn match_varlen_rep(len: u32) -> (bits: i64)
    requires
        len >= 1,
    ensures
        bits == rep_size(len as int),
        0 <= bits <= 64,
{
    rep_len_bits(len) as i64
}

fn off_hi_size(off: u32) -> (bits: i64)
    requires
        off >= 1,
    ensures
        bits == off_size(off as int) - 7,
        0 <= bits <= 64,
{
    off_msb_bits((off - 1) / 128 + 1) as i64
}

fn offset_cost(off: u32) -> (bits: i64)
    requires
        off >= 1,
    ensures
        bits == off_size(off as int),
        0 <= bits <= 71,
{
    off_hi_size(off) + 7
}

/// Entries before `k` that are not zero.
spec fn nz(best: Seq<(u32, u32)>, k: int) -> nat
    decreases k,
{
    if k <= 0 {
        0
    } else {
        nz(best, k - 1) + if best[k - 1].0 > 0 {
            1nat
        } else {
            0nat
        }
    }
}

proof fn lemma_nz_update(best: Seq<(u32, u32)>, i: int, v: (u32, u32), k: int)
    requires
        0 <= i < best.len(),
        k <= best.len(),
    ensures
        nz(best.update(i, v), k) == nz(best, k) + if i < k {
            (if v.0 > 0 {
                1int
            } else {
                0int
            }) - if best[i].0 > 0 {
                1int
            } else {
                0int
            }
        } else {
            0
        },
    decreases k,
{
    if k > 0 {
        lemma_nz_update(best, i, v, k - 1);
    }
}

/// Sets one entry.
fn put(best: &mut Vec<(u32, u32)>, i: usize, v: (u32, u32), Ghost(input): Ghost<Seq<u8>>)
    requires
        best_ok(input, old(best)@),
        i < old(best)@.len(),
        v.0 > 0 ==> lz::is_match(input, i as int, v.1 as int, v.0 as int),
    ensures
        best_ok(input, final(best)@),
        final(best)@ == old(best)@.update(i as int, v),
        nz(final(best)@, final(best)@.len() as int) == nz(old(best)@, old(best)@.len() as int) + (
        if v.0 > 0 {
            1int
        } else {
            0int
        }) - (if old(best)@[i as int].0 > 0 {
            1int
        } else {
            0int
        }),
{
    proof {
        lemma_nz_update(best@, i as int, v, best@.len() as int);
    }
    best.set(i, v);
}

/// Zeroes the entries from `a` to `b`.
fn wipe(best: &mut Vec<(u32, u32)>, a: usize, b: usize, Ghost(input): Ghost<Seq<u8>>)
    requires
        best_ok(input, old(best)@),
        a <= b <= old(best)@.len(),
    ensures
        best_ok(input, final(best)@),
        final(best)@.len() == old(best)@.len(),
        forall|p: int| 0 <= p < a ==> #[trigger] final(best)@[p] == old(best)@[p],
        forall|p: int| b <= p < old(best)@.len() ==> #[trigger] final(best)@[p] == old(best)@[p],
        forall|p: int| a <= p < b ==> #[trigger] final(best)@[p] == (0u32, 0u32),
        nz(final(best)@, final(best)@.len() as int) <= nz(old(best)@, old(best)@.len() as int),
        a < b && old(best)@[a as int].0 > 0 ==> nz(final(best)@, final(best)@.len() as int) < nz(
            old(best)@,
            old(best)@.len() as int,
        ),
{
    let ghost b0 = best@;
    let mut j: usize = a;
    while j < b
        invariant
            best_ok(input, best@),
            best@.len() == b0.len(),
            a <= j <= b <= best@.len(),
            forall|p: int| 0 <= p < a ==> #[trigger] best@[p] == b0[p],
            forall|p: int| j <= p < b0.len() ==> #[trigger] best@[p] == b0[p],
            forall|p: int| a <= p < j ==> #[trigger] best@[p] == (0u32, 0u32),
            nz(best@, best@.len() as int) <= nz(b0, b0.len() as int),
            a < j && b0[a as int].0 > 0 ==> nz(best@, best@.len() as int) < nz(b0, b0.len() as int),
        decreases b - j,
    {
        put(best, j, (0, 0), Ghost(input));
        j += 1;
    }
}

/// The first entry from `from` on that is not zero.
pub open spec fn next_used(best: Seq<(u32, u32)>, from: int) -> int
    decreases best.len() - from,
{
    if from >= best.len() || best[from].0 > 0 {
        from
    } else {
        next_used(best, from + 1)
    }
}

/// The next entry that is not zero, and how many are zero before it.
fn next_match(best: &Vec<(u32, u32)>, from: usize) -> (res: (usize, u32))
    requires
        from <= best@.len() <= 0x3fff_ffff,
    ensures
        from <= res.0 <= best@.len(),
        res.0 == next_used(best@, from as int),
        res.1 == res.0 - from,
        res.0 < best@.len() ==> best@[res.0 as int].0 > 0,
        forall|p: int| from <= p < res.0 ==> (#[trigger] best@[p]).0 == 0,
{
    let n: usize = best.len();
    let mut i: usize = from;
    while i < n && best[i].0 == 0
        invariant
            n == best@.len(),
            from <= i <= n,
            next_used(best@, from as int) == next_used(best@, i as int),
            forall|p: int| from <= p < i ==> (#[trigger] best@[p]).0 == 0,
        decreases n - i,
    {
        i += 1;
    }
    (i, (i - from) as u32)
}

/// The table after a literal at `i` was drawn into the match behind it, where
/// the rule applies.
pub open spec fn extended_back(
    input: Seq<u8>,
    best: Seq<(u32, u32)>,
    i: int,
    lits: int,
    rep: u32,
) -> Option<Seq<(u32, u32)>> {
    let (len, off) = best[i + 1];
    let cur = lit_size(lits + 1) + 8 + if off == rep {
        rep_size(len as int)
    } else {
        off_size(off as int) + norep_size(len as int)
    };
    let less = lit_size(lits) + if lits != 0 && off == rep && rep != 0 {
        rep_size(len + 1)
    } else {
        off_size(off as int) + norep_size(len + 1)
    };
    if best[i].0 == 0 && i + 1 < best.len() && 2 <= len < 0xffff && 1 <= off <= i && i + 1 + len
        <= best.len() && (lits != 0 || off != rep) && matchfinder::run_at(input, i, off as int)
        >= len + 1 && less <= cur {
        Some(best.update(i, ((len + 1) as u32, off)).update(i + 1, (0u32, 0u32)))
    } else {
        None
    }
}

/// The table after a rule, or as it was.
pub open spec fn after_rule(
    best: Seq<(u32, u32)>,
    rule: Option<Seq<(u32, u32)>>,
) -> Seq<(u32, u32)> {
    match rule {
        Some(b) => b,
        None => best,
    }
}

/// Draws a literal into the match behind it.
fn rule_extend_back(
    input: &[u8],
    best: &mut Vec<(u32, u32)>,
    i: usize,
    num_literals: u32,
    rep_off: u32,
) -> (did: bool)
    requires
        best_ok(input@, old(best)@),
        i < old(best)@.len() <= 0x3fff_ffff,
        num_literals <= i,
    ensures
        best_ok(input@, final(best)@),
        final(best)@.len() == old(best)@.len(),
        did == extended_back(
            input@,
            old(best)@,
            i as int,
            num_literals as int,
            rep_off,
        ) is Some,
        final(best)@ == after_rule(
            old(best)@,
            extended_back(input@, old(best)@, i as int, num_literals as int, rep_off),
        ),
        !did ==> final(best)@ == old(best)@,
        did ==> old(best)@[i as int].0 == 0 && final(best)@[i as int].0 > 0 && nz(
            final(best)@,
            final(best)@.len() as int,
        ) == nz(old(best)@, old(best)@.len() as int),
{
    let n: usize = best.len();
    if best[i].0 != 0 || i + 1 >= n {
        return false;
    }
    let (nxt_len, nxt_off) = best[i + 1];
    if nxt_len < 2 || nxt_len >= 0xffff || nxt_off == 0 || i < nxt_off as usize || i + 1 + nxt_len as usize
        > n || !(num_literals != 0 || nxt_off != rep_off) {
        return false;
    }
    let l: usize = lz::match_run(input, i - nxt_off as usize, i, nxt_len as usize + 1);
    proof {
        matchfinder::lemma_run_is(input@, i as int, nxt_off as int, l as int, nxt_len + 1);
    }
    if l < nxt_len as usize + 1 {
        return false;
    }
    let cur: i64 = if nxt_off == rep_off {
        lit_varlen_size(num_literals + 1) + 8 + match_varlen_rep(nxt_len)
    } else {
        lit_varlen_size(num_literals + 1) + 8 + off_hi_size(nxt_off) + 7 + match_varlen_norep(
            nxt_len,
        )
    };
    let reduced: i64 = if num_literals != 0 && nxt_off == rep_off && rep_off != 0 {
        lit_varlen_size(num_literals) + match_varlen_rep(nxt_len + 1)
    } else {
        lit_varlen_size(num_literals) + off_hi_size(nxt_off) + 7 + match_varlen_norep(nxt_len + 1)
    };
    if reduced > cur {
        return false;
    }
    put(best, i, (nxt_len + 1, nxt_off), Ghost(input@));
    put(best, i + 1, (0, 0), Ghost(input@));
    true
}

/// The table with a match of `len` bytes at `i` in place of one of `ml`, and
/// literals in place of the rest.
pub open spec fn swapped(best: Seq<(u32, u32)>, i: int, ml: int, len: u32, off: u32) -> Seq<(u32, u32)> {
    Seq::new(
        best.len(),
        |p: int|
            if p == i {
                (len, off)
            } else if i + len <= p < i + ml {
                (0u32, 0u32)
            } else {
                best[p]
            },
    )
}

/// Replaces a match by a shorter one of another offset, and the rest by
/// literals.
fn swap_offset(input: &[u8], best: &mut Vec<(u32, u32)>, i: usize, ml: u32, len: u32, off: u32)
    requires
        best_ok(input@, old(best)@),
        i + ml <= old(best)@.len(),
        1 <= len <= ml,
        lz::is_match(input@, i as int, off as int, len as int),
        old(best)@[i as int].0 > 0,
    ensures
        best_ok(input@, final(best)@),
        final(best)@.len() == old(best)@.len(),
        final(best)@[i as int] == (len, off),
        final(best)@ == swapped(old(best)@, i as int, ml as int, len, off),
        nz(final(best)@, final(best)@.len() as int) <= nz(old(best)@, old(best)@.len() as int),
{
    let n: usize = best.len();
    put(best, i, (len, off), Ghost(input@));
    wipe(best, i + len as usize, i + ml as usize, Ghost(input@));
    assert(best@ =~= swapped(old(best)@, i as int, ml as int, len, off));
}

/// Length of the run of `off` at `i`, at most `cap`.
pub open spec fn run_within(input: Seq<u8>, i: int, off: int, cap: int) -> int {
    if matchfinder::run_at(input, i, off) > cap {
        cap
    } else {
        matchfinder::run_at(input, i, off) as int
    }
}

/// The table after the match at `i` took the offset before, where that repeats
/// most of the match and makes it cheaper.
pub open spec fn back_rep(
    input: Seq<u8>,
    best: Seq<(u32, u32)>,
    i: int,
    lits: int,
    rep: u32,
    next_lits: int,
    nx_off: u32,
) -> Option<Seq<(u32, u32)>> {
    let (ml, mo) = best[i];
    let len = run_within(input, i, rep as int, ml as int);
    let cur = off_size(mo as int) + norep_size(ml as int) + lit_size(next_lits);
    let less = rep_size(len) + (ml - len) * 8 + lit_size(next_lits + (ml - len));
    if lits != 0 && 1 <= rep <= i && mo != rep && (nx_off != mo || off_size(mo as int) > off_size(
        nx_off as int,
    )) && len >= 1 && less < cur {
        Some(swapped(best, i, ml as int, len as u32, rep))
    } else {
        None
    }
}

/// The table after the match at `i` took the offset of the next, so that the
/// next can reuse it, where that repeats all of the match, or most of it and
/// makes it cheaper.
pub open spec fn forward_rep(
    input: Seq<u8>,
    best: Seq<(u32, u32)>,
    i: int,
    rep: u32,
    next_lits: int,
    nx_off: u32,
) -> Option<Seq<(u32, u32)>> {
    let (ml, mo) = best[i];
    let len = run_within(input, i, nx_off as int, ml as int);
    let cur = norep_size(ml as int) + off_size(mo as int) + lit_size(next_lits);
    let less = rep_size(len) + lit_size(next_lits + (ml - len)) + (ml - len) * 8;
    if 1 <= nx_off <= i && mo != nx_off && rep != nx_off && next_lits != 0 && mo != rep {
        if len >= ml {
            Some(best.update(i, (ml, nx_off)))
        } else if len >= 2 && less < cur {
            Some(swapped(best, i, ml as int, len as u32, nx_off))
        } else {
            None
        }
    } else {
        None
    }
}

/// Takes the offset before, where it repeats most of this match.
fn rule_back_rep(
    input: &[u8],
    best: &mut Vec<(u32, u32)>,
    i: usize,
    num_literals: u32,
    rep_off: u32,
    next_literals: u32,
    nx_off: u32,
) -> (did: bool)
    requires
        best_ok(input@, old(best)@),
        i < old(best)@.len() <= 0x3fff_ffff,
        old(best)@[i as int].0 >= 2,
        next_literals <= old(best)@.len(),
        nx_off >= 1,
    ensures
        ({
            let rule = back_rep(
                input@,
                old(best)@,
                i as int,
                num_literals as int,
                rep_off,
                next_literals as int,
                nx_off,
            );
            did == rule is Some && final(best)@ == after_rule(old(best)@, rule)
        }),
        best_ok(input@, final(best)@),
        final(best)@.len() == old(best)@.len(),
        final(best)@[i as int].0 >= 1,
        nz(final(best)@, final(best)@.len() as int) <= nz(old(best)@, old(best)@.len() as int),
{
    let (ml, mo) = best[i];
    if num_literals == 0 || rep_off == 0 || mo == rep_off || !(nx_off != mo || offset_cost(mo)
        > offset_cost(nx_off)) || i < rep_off as usize {
        return false;
    }
    assert(lz::is_match(input@, i as int, mo as int, ml as int));
    let max_len: u32 = lz::match_run(input, i - rep_off as usize, i, ml as usize) as u32;
    proof {
        matchfinder::lemma_run_is(input@, i as int, rep_off as int, max_len as int, ml as int);
    }
    if max_len < 1 {
        return false;
    }
    let cur: i64 = off_hi_size(mo) + 7 + match_varlen_norep(ml) + lit_varlen_size(next_literals);
    let reduced: i64 = match_varlen_rep(max_len) + ((ml - max_len) as i64) * 8 + lit_varlen_size(
        next_literals + (ml - max_len),
    );
    if reduced >= cur {
        return false;
    }
    swap_offset(input, best, i, ml, max_len, rep_off);
    true
}

/// Takes the offset of the next match, so that the next can reuse it.
fn rule_forward_rep(
    input: &[u8],
    best: &mut Vec<(u32, u32)>,
    i: usize,
    rep_off: u32,
    next_literals: u32,
    nx_off: u32,
) -> (did: bool)
    requires
        best_ok(input@, old(best)@),
        i < old(best)@.len() <= 0x3fff_ffff,
        old(best)@[i as int].0 >= 1,
        next_literals <= old(best)@.len(),
    ensures
        ({
            let rule = forward_rep(
                input@,
                old(best)@,
                i as int,
                rep_off,
                next_literals as int,
                nx_off,
            );
            did == rule is Some && final(best)@ == after_rule(old(best)@, rule)
        }),
        best_ok(input@, final(best)@),
        final(best)@.len() == old(best)@.len(),
        final(best)@[i as int].0 >= 1,
        nz(final(best)@, final(best)@.len() as int) <= nz(old(best)@, old(best)@.len() as int),
{
    let (ml, mo) = best[i];
    if nx_off == 0 || mo == nx_off || rep_off == nx_off || next_literals == 0 || i < nx_off as usize
        || mo == rep_off {
        return false;
    }
    assert(lz::is_match(input@, i as int, mo as int, ml as int));
    let max_len: u32 = lz::match_run(input, i - nx_off as usize, i, ml as usize) as u32;
    proof {
        matchfinder::lemma_run_is(input@, i as int, nx_off as int, max_len as int, ml as int);
    }
    if max_len >= ml {
        put(best, i, (ml, nx_off), Ghost(input@));
        return true;
    }
    if max_len >= 2 {
        let before: i64 = match_varlen_norep(ml) + offset_cost(mo) + lit_varlen_size(next_literals);
        let after: i64 = match_varlen_rep(max_len) + lit_varlen_size(next_literals + (ml - max_len))
            + ((ml - max_len) as i64) * 8;
        if after < before {
            swap_offset(input, best, i, ml, max_len, nx_off);
            return true;
        }
    }
    false
}

/// Bits of a literal run of `lits` bytes and a match behind it, when the offset
/// before it is `rep`.
pub open spec fn run_and_match(lits: int, rep: u32, len: int, off: u32) -> int {
    lit_size(lits) + if off == rep && lits != 0 && rep != 0 {
        rep_size(len)
    } else {
        off_size(off as int) + norep_size(len)
    }
}

/// The match at `i` is short and no cheaper than literals in its place.
pub open spec fn short_is_dear(
    best: Seq<(u32, u32)>,
    i: int,
    lits: int,
    rep: u32,
    next_lits: int,
    nx_len: u32,
    nx_off: u32,
) -> bool {
    let (ml, mo) = best[i];
    2 <= ml < 9 && run_and_match(lits, rep, ml as int, mo) + 1 + run_and_match(
        next_lits,
        mo,
        nx_len as int,
        nx_off,
    ) >= ml * 8 + run_and_match(lits + ml + next_lits, rep, nx_len as int, nx_off)
}

/// A short match is better as literals.
fn short_to_literals(
    best: &Vec<(u32, u32)>,
    i: usize,
    num_literals: u32,
    rep_off: u32,
    next_literals: u32,
    nx_len: u32,
    nx_off: u32,
) -> (dear: bool)
    requires
        i < best@.len() <= 0x3fff_ffff,
        best@[i as int].0 > 0 ==> best@[i as int].1 >= 1,
        num_literals <= best@.len(),
        next_literals <= best@.len(),
        nx_off >= 1,
        nx_len >= 2,
    ensures
        dear == short_is_dear(
            best@,
            i as int,
            num_literals as int,
            rep_off,
            next_literals as int,
            nx_len,
            nx_off,
        ),
{
    let (ml, mo) = best[i];
    if ml >= 9 || ml < 2 {
        return false;
    }
    let cur: i64 = if mo == rep_off && num_literals != 0 && rep_off != 0 {
        lit_varlen_size(num_literals) + match_varlen_rep(ml)
    } else {
        lit_varlen_size(num_literals) + off_hi_size(mo) + 7 + match_varlen_norep(ml)
    };
    let next: i64 = if mo != 0 && nx_off == mo && next_literals != 0 {
        lit_varlen_size(next_literals) + 1 + match_varlen_rep(nx_len)
    } else {
        lit_varlen_size(next_literals) + 1 + off_hi_size(nx_off) + 7 + match_varlen_norep(nx_len)
    };
    let all: u32 = num_literals + ml + next_literals;
    let reduced: i64 = (ml as i64) * 8 + lit_varlen_size(all) + if nx_off == rep_off && all != 0
        && rep_off != 0 {
        match_varlen_rep(nx_len)
    } else {
        off_hi_size(nx_off) + 7 + match_varlen_norep(nx_len)
    };
    cur + next >= reduced
}

proof fn lemma_join(s: Seq<u8>, p: int, off: int, l1: int, l2: int)
    requires
        lz::is_match(s, p, off, l1),
        lz::is_match(s, p + l1, off, l2),
    ensures
        lz::is_match(s, p, off, l1 + l2),
{
    assert forall|k: int| 0 <= k < l1 + l2 implies #[trigger] s[p + k] == s[p + k - off] by {
        if k >= l1 {
            assert(s[(p + l1) + (k - l1)] == s[(p + l1) + (k - l1) - off]);
        }
    }
}

/// Bits of a match, when the offset before it is `rep` and literals stand
/// between or not.
pub open spec fn match_size(same: bool, len: int, off: u32) -> int {
    if same {
        rep_size(len)
    } else {
        off_size(off as int) + norep_size(len)
    }
}

/// The table after the match at `i` was joined with one that touches it, where
/// its offset fits both and that is no dearer.
pub open spec fn joined(
    input: Seq<u8>,
    best: Seq<(u32, u32)>,
    i: int,
    lits: int,
    rep: u32,
) -> Option<Seq<(u32, u32)>> {
    let (ml, mo) = best[i];
    let j = i + ml;
    let (l2, o2) = best[j];
    let next = next_used(best, j + l2);
    let next_lits = next - (j + l2);
    let (nl, no) = best[next];
    let cur = match_size(mo == rep && lits != 0, ml as int, mo) + 1 + off_size(o2 as int)
        + norep_size(l2 as int) + if next < best.len() {
        match_size(no == o2 && next_lits != 0, nl as int, no)
    } else {
        0
    };
    let less = match_size(mo == rep && lits != 0 && rep != 0, ml + l2, mo) + if next < best.len() {
        match_size(no == mo && next_lits != 0, nl as int, no)
    } else {
        0
    };
    if ml >= 2 && mo != 0 && j < best.len() && o2 != 0 && l2 >= 2 && ml + l2 <= 0xffff
        && matchfinder::run_at(input, j, mo as int) >= l2 && (next < best.len() ==> nl >= 2 || (no
        == mo && next_lits != 0)) && less <= cur {
        Some(best.update(i, ((ml + l2) as u32, mo)).update(j, (0u32, 0u32)))
    } else {
        None
    }
}

/// Joins two matches that touch.
#[verifier::rlimit(40)]
fn rule_join(input: &[u8], best: &mut Vec<(u32, u32)>, i: usize, num_literals: u32, rep_off: u32) -> (did: bool)
    requires
        best_ok(input@, old(best)@),
        i < old(best)@.len() <= 0x3fff_ffff,
    ensures
        best_ok(input@, final(best)@),
        final(best)@.len() == old(best)@.len(),
        did == joined(input@, old(best)@, i as int, num_literals as int, rep_off) is Some,
        final(best)@ == after_rule(
            old(best)@,
            joined(input@, old(best)@, i as int, num_literals as int, rep_off),
        ),
        !did ==> final(best)@ == old(best)@,
        did ==> nz(final(best)@, final(best)@.len() as int) < nz(
            old(best)@,
            old(best)@.len() as int,
        ),
{
    let n: usize = best.len();
    let (ml, mo) = best[i];
    if ml < 2 || mo == 0 {
        return false;
    }
    assert(lz::is_match(input@, i as int, mo as int, ml as int));
    if i + ml as usize >= n {
        return false;
    }
    let j2: usize = i + ml as usize;
    let (j2_len, j2_off) = best[j2];
    if j2_off == 0 || j2_len < 2 {
        return false;
    }
    assert(lz::is_match(input@, j2 as int, j2_off as int, j2_len as int));
    if ml + j2_len > 0xffff {
        return false;
    }
    let l: usize = lz::match_run(input, j2 - mo as usize, j2, j2_len as usize);
    proof {
        matchfinder::lemma_run_is(input@, j2 as int, mo as int, l as int, j2_len as int);
    }
    if l < j2_len as usize {
        return false;
    }
    let (next_index, next_literals) = next_match(best, j2 + j2_len as usize);
    let mut cur: i64 = if mo == rep_off && num_literals != 0 {
        match_varlen_rep(ml)
    } else {
        off_hi_size(mo) + 7 + match_varlen_norep(ml)
    };
    cur = cur + 1 + off_hi_size(j2_off) + 7 + match_varlen_norep(j2_len);
    let mut reduced: i64 = if mo == rep_off && num_literals != 0 && rep_off != 0 {
        match_varlen_rep(ml + j2_len)
    } else {
        off_hi_size(mo) + 7 + match_varlen_norep(ml + j2_len)
    };
    let mut cannot: bool = false;
    if next_index < n {
        let (nn_len, nn_off) = best[next_index];
        assert(lz::is_match(input@, next_index as int, nn_off as int, nn_len as int));
        cur = cur + if nn_off == j2_off && next_literals != 0 {
            match_varlen_rep(nn_len)
        } else {
            off_hi_size(nn_off) + 7 + match_varlen_norep(nn_len)
        };
        if nn_off == mo && next_literals != 0 {
            reduced = reduced + match_varlen_rep(nn_len);
        } else if nn_len >= 2 {
            reduced = reduced + off_hi_size(nn_off) + 7 + match_varlen_norep(nn_len);
        } else {
            cannot = true;
        }
    }
    if cur < reduced || cannot {
        return false;
    }
    proof {
        lemma_join(input@, i as int, mo as int, ml as int, j2_len as int);
    }
    put(best, i, (ml + j2_len, mo), Ghost(input@));
    put(best, j2, (0, 0), Ghost(input@));
    true
}

/// The table after a match of two bytes at `i`, and the single byte behind it
/// that reuses its offset, became literals, where that is no dearer and nothing
/// else reuses the offset.
pub open spec fn dissolved(best: Seq<(u32, u32)>, i: int, lits: int, rep: u32) -> Option<Seq<(u32, u32)>> {
    let (ml, mo) = best[i];
    let next = next_used(best, i + 2);
    let next_lits = next - (i + 2);
    let after = next_used(best, next + 1);
    let cur = lit_size(lits) + 1 + off_size(mo as int) + norep_size(2) + lit_size(next_lits)
        + next_lits * 8 + 1 + rep_size(1);
    let less = lit_size(lits + 2 + next_lits + 1) + 16 + next_lits * 8 + 8;
    if lits != 0 && mo != rep && ml == 2 && rep != 0 && i + 2 < best.len() && next < best.len()
        && next_lits != 0 && best[next].0 == 1 && best[next].1 == mo && after < best.len() && after
        > next + 1 && best[after].0 >= 2 && best[after].1 != mo && less <= cur {
        Some(
            best.update(i, (0u32, 0u32)).update(i + 1, (0u32, 0u32)).update(next, (0u32, 0u32)),
        )
    } else {
        None
    }
}

/// A match of two bytes whose offset only serves one byte more is better as
/// literals.
fn rule_dissolve(input: &[u8], best: &mut Vec<(u32, u32)>, i: usize, num_literals: u32, rep_off: u32) -> (did: bool)
    requires
        best_ok(input@, old(best)@),
        i < old(best)@.len() <= 0x3fff_ffff,
        num_literals <= i,
    ensures
        best_ok(input@, final(best)@),
        final(best)@.len() == old(best)@.len(),
        did == dissolved(old(best)@, i as int, num_literals as int, rep_off) is Some,
        final(best)@ == after_rule(
            old(best)@,
            dissolved(old(best)@, i as int, num_literals as int, rep_off),
        ),
        !did ==> final(best)@ == old(best)@,
        did ==> final(best)@[i as int] == (0u32, 0u32) && nz(
            final(best)@,
            final(best)@.len() as int,
        ) < nz(old(best)@, old(best)@.len() as int),
{
    let n: usize = best.len();
    let (ml, mo) = best[i];
    if num_literals == 0 || mo == rep_off || ml != 2 || rep_off == 0 || i + 2 >= n {
        return false;
    }
    assert(lz::is_match(input@, i as int, mo as int, ml as int));
    let (next_index, next_literals) = next_match(best, i + 2);
    if next_index >= n || next_literals == 0 || best[next_index].0 != 1 || best[next_index].1 != mo {
        return false;
    }
    let (nn_index, nn_literals) = next_match(best, next_index + 1);
    if nn_index >= n || nn_literals == 0 || best[nn_index].0 < 2 || best[nn_index].1 == mo {
        return false;
    }
    let cur_cmd: i64 = lit_varlen_size(num_literals) + 1 + off_hi_size(mo) + 7 + match_varlen_norep(
        2,
    );
    let cur_rep: i64 = lit_varlen_size(next_literals) + (next_literals as i64) * 8 + 1
        + match_varlen_rep(1);
    let reduced: i64 = lit_varlen_size(num_literals + 2 + next_literals + 1) + 16 + (
    next_literals as i64) * 8 + 8;
    if cur_cmd + cur_rep < reduced {
        return false;
    }
    let ghost b0 = best@;
    wipe(best, i, i + 2, Ghost(input@));
    assert(best@ =~= b0.update(i as int, (0u32, 0u32)).update(i + 1, (0u32, 0u32)));
    put(best, next_index, (0, 0), Ghost(input@));
    true
}

/// The single byte at `i` does not reuse the offset before, or is no cheaper
/// than a literal.
pub open spec fn single_is_dear(best: Seq<(u32, u32)>, i: int, lits: int, rep: u32, did: bool) -> bool {
    let next = next_used(best, i + 1);
    let next_lits = next - (i + 1);
    lits != 0 && ((rep != best[i].1 && (next < best.len() || !did)) || (next_lits != 0 && lit_size(lits)
        + 2 + lit_size(next_lits) >= lit_size(lits + 1 + next_lits) + 8))
}

/// A single byte that does not reuse the offset before, or that is better as a
/// literal.
fn drop_single(
    best: &Vec<(u32, u32)>,
    i: usize,
    num_literals: u32,
    rep_off: u32,
    did_reduce: bool,
) -> (dear: bool)
    requires
        i < best@.len() <= 0x3fff_ffff,
        num_literals <= i,
    ensures
        dear == single_is_dear(best@, i as int, num_literals as int, rep_off, did_reduce),
{
    let n: usize = best.len();
    if num_literals == 0 {
        return false;
    }
    let (next_index, next_literals) = next_match(best, i + 1);
    if rep_off != best[i].1 && (next_index < n || !did_reduce) {
        return true;
    }
    if next_literals != 0 {
        let cur: i64 = lit_varlen_size(num_literals) + 1 + 1 + lit_varlen_size(next_literals);
        let reduced: i64 = lit_varlen_size(num_literals + 1 + next_literals) + 8;
        if cur >= reduced {
            return true;
        }
    }
    false
}

/// The table with zeros from `a` to `b`.
pub open spec fn wiped(best: Seq<(u32, u32)>, a: int, b: int) -> Seq<(u32, u32)> {
    Seq::new(
        best.len(),
        |p: int|
            if a <= p < b {
                (0u32, 0u32)
            } else {
                best[p]
            },
    )
}

/// A table after the rules that look at the next match, and whether they
/// changed it.
pub open spec fn towards_next(
    input: Seq<u8>,
    best: Seq<(u32, u32)>,
    i: int,
    lits: int,
    rep: u32,
) -> (Seq<(u32, u32)>, bool) {
    let end = i + best[i].0;
    let next = next_used(best, end);
    if end < best.len() && next < best.len() && best[next].0 >= 2 {
        let back = back_rep(input, best, i, lits, rep, next - end, best[next].1);
        let b1 = after_rule(best, back);
        let forward = forward_rep(input, b1, i, rep, next - end, best[next].1);
        (after_rule(b1, forward), back is Some || forward is Some)
    } else {
        (best, false)
    }
}

/// The match at `i`, short by then, is better as literals.
pub open spec fn better_as_literals(
    input: Seq<u8>,
    best: Seq<(u32, u32)>,
    i: int,
    lits: int,
    rep: u32,
) -> bool {
    let end = i + best[i].0;
    let next = next_used(best, end);
    end < best.len() && next < best.len() && best[next].0 >= 2 && short_is_dear(
        towards_next(input, best, i, lits, rep).0,
        i,
        lits,
        rep,
        next - end,
        best[next].0,
        best[next].1,
    )
}

/// The rules about a match, in order: the table after them, whether they
/// changed it, and whether the entry has to be looked at again.
pub open spec fn match_reduced(
    input: Seq<u8>,
    best: Seq<(u32, u32)>,
    i: int,
    lits: int,
    rep: u32,
) -> (Seq<(u32, u32)>, bool, bool) {
    let (b, did) = towards_next(input, best, i, lits, rep);
    if better_as_literals(input, best, i, lits, rep) {
        (wiped(b, i, i + b[i].0), true, true)
    } else {
        match joined(input, b, i, lits, rep) {
            Some(b2) => (b2, true, true),
            None => (
                after_rule(b, dissolved(b, i, lits, rep)),
                did || dissolved(b, i, lits, rep) is Some,
                false,
            ),
        }
    }
}

/// The rules about a match, in order. The second result tells that the entry
/// has to be looked at again.
fn reduce_match(input: &[u8], best: &mut Vec<(u32, u32)>, i: usize, num_literals: u32, rep_off: u32) -> (res: (bool, bool))
    requires
        best_ok(input@, old(best)@),
        i < old(best)@.len() <= 0x3fff_ffff,
        old(best)@[i as int].0 >= 2,
        num_literals <= i,
    ensures
        (final(best)@, res.0, res.1) == match_reduced(
            input@,
            old(best)@,
            i as int,
            num_literals as int,
            rep_off,
        ),
        best_ok(input@, final(best)@),
        final(best)@.len() == old(best)@.len(),
        res.1 || final(best)@[i as int].0 == 0 ==> nz(final(best)@, final(best)@.len() as int) < nz(
            old(best)@,
            old(best)@.len() as int,
        ),
{
    let n: usize = best.len();
    let ghost b0 = best@;
    let mut did: bool = false;
    let ml: u32 = best[i].0;
    assert(lz::is_match(input@, i as int, best@[i as int].1 as int, ml as int));
    if i + (ml as usize) < n {
        let (ni, next_literals) = next_match(best, i + ml as usize);
        if ni < n {
            let (nx_len, nx_off) = best[ni];
            assert(lz::is_match(input@, ni as int, nx_off as int, nx_len as int));
            if nx_len >= 2 {
                if rule_back_rep(input, best, i, num_literals, rep_off, next_literals, nx_off) {
                    did = true;
                }
                if rule_forward_rep(input, best, i, rep_off, next_literals, nx_off) {
                    did = true;
                }
                let ghost b1 = best@;
                assert((b1, did) == towards_next(
                    input@,
                    b0,
                    i as int,
                    num_literals as int,
                    rep_off,
                ));
                assert(lz::is_match(
                    input@,
                    i as int,
                    best@[i as int].1 as int,
                    best@[i as int].0 as int,
                ));
                if short_to_literals(best, i, num_literals, rep_off, next_literals, nx_len, nx_off) {
                    let m3: usize = best[i].0 as usize;
                    wipe(best, i, i + m3, Ghost(input@));
                    assert(best@ =~= wiped(b1, i as int, i + m3));
                    return (true, true);
                }
            }
        }
    }
    assert((best@, did) == towards_next(input@, b0, i as int, num_literals as int, rep_off));
    if rule_join(input, best, i, num_literals, rep_off) {
        return (true, true);
    }
    if rule_dissolve(input, best, i, num_literals, rep_off) {
        did = true;
    }
    (did, false)
}

/// Where a pass over the table stands: the table, the position, the literals
/// before it, the offset before it, and whether a rule has changed the table.
pub struct Pass {
    pub best: Seq<(u32, u32)>,
    pub i: int,
    pub lits: int,
    pub rep: u32,
    pub did: bool,
}

/// The next step of a pass. At the end of the table there is none.
pub open spec fn pass_step(input: Seq<u8>, s: Pass) -> Pass {
    if s.i >= s.best.len() {
        s
    } else {
        match extended_back(input, s.best, s.i, s.lits, s.rep) {
            Some(b) => Pass { best: b, did: true, ..s },
            None => if s.best[s.i].0 >= 2 {
                let (b, did, again) = match_reduced(input, s.best, s.i, s.lits, s.rep);
                if again {
                    Pass { best: b, did: s.did || did, ..s }
                } else {
                    Pass { best: b, i: s.i + b[s.i].0, lits: 0, rep: b[s.i].1, did: s.did || did }
                }
            } else if s.best[s.i].0 == 1 {
                if single_is_dear(s.best, s.i, s.lits, s.rep, s.did) {
                    Pass { best: s.best.update(s.i, (0u32, 0u32)), did: true, ..s }
                } else {
                    Pass { i: s.i + 1, lits: 0, ..s }
                }
            } else {
                Pass { i: s.i + 1, lits: s.lits + 1, ..s }
            },
        }
    }
}

/// A pass starts behind the first byte, which is a literal.
pub open spec fn pass_start(best: Seq<(u32, u32)>) -> Pass {
    let first = if best.len() > 0 {
        1int
    } else {
        0
    };
    Pass { best, i: first, lits: first, rep: 1, did: false }
}

pub open spec fn pass_after(input: Seq<u8>, s: Pass, steps: nat) -> Pass
    decreases steps,
{
    if steps == 0 {
        s
    } else {
        pass_step(input, pass_after(input, s, (steps - 1) as nat))
    }
}

/// The pass has come to the end of the table.
pub open spec fn pass_ends(input: Seq<u8>, s: Pass, steps: nat, end: Seq<(u32, u32)>, did: bool) -> bool {
    let e = pass_after(input, s, steps);
    e.i >= e.best.len() && e.best == end && e.did == did
}

/// A pass over the table `a` leaves the table `b`.
pub open spec fn pass_leads(input: Seq<u8>, a: Seq<(u32, u32)>, b: Seq<(u32, u32)>, did: bool) -> bool {
    exists|steps: nat| #[trigger] pass_ends(input, pass_start(a), steps, b, did)
}

/// One pass of the rules over the table.
fn reduce_pass(input: &[u8], best: &mut Vec<(u32, u32)>) -> (did_reduce: bool)
    requires
        best_ok(input@, old(best)@),
        old(best)@.len() <= 0x3fff_ffff,
    ensures
        pass_leads(input@, old(best)@, final(best)@, did_reduce),
        best_ok(input@, final(best)@),
{
    let n: usize = best.len();
    let mut did_reduce: bool = false;
    let mut num_literals: u32 = 0;
    let mut rep_off: u32 = 1;
    let mut i: usize = 0;
    let ghost start = pass_start(best@);
    let ghost mut steps: nat = 0;
    if n > 0 {
        num_literals = 1;
        i = 1;
    }
    while i < n
        invariant
            best_ok(input@, best@),
            n == best@.len(),
            n <= 0x3fff_ffff,
            i <= n,
            num_literals <= i,
            pass_after(input@, start, steps) == (Pass {
                best: best@,
                i: i as int,
                lits: num_literals as int,
                rep: rep_off,
                did: did_reduce,
            }),
        decreases
                n - i,
                nz(best@, best@.len() as int),
                if i < n && best@[i as int].0 == 0 {
                    1int
                } else {
                    0int
                },
    {
        proof {
            steps = steps + 1;
            assert(pass_after(input@, start, steps) == pass_step(
                input@,
                pass_after(input@, start, (steps - 1) as nat),
            ));
        }
        if rule_extend_back(input, best, i, num_literals, rep_off) {
            did_reduce = true;
        } else {
            let (ml, mo) = best[i];
            if ml >= 2 {
                let ghost b0 = best@;
                let (did, again) = reduce_match(input, best, i, num_literals, rep_off);
                if did {
                    did_reduce = true;
                }
                if !again {
                    let (ml2, mo2) = best[i];
                    proof {
                        if ml2 > 0 {
                            assert(lz::is_match(input@, i as int, mo2 as int, ml2 as int));
                        }
                    }
                    rep_off = mo2;
                    i += ml2 as usize;
                    num_literals = 0;
                }
            } else if ml == 1 {
                if drop_single(best, i, num_literals, rep_off, did_reduce) {
                    put(best, i, (0, 0), Ghost(input@));
                    did_reduce = true;
                } else {
                    num_literals = 0;
                    i += 1;
                }
            } else {
                num_literals += 1;
                i += 1;
            }
        }
    }
    assert(pass_ends(input@, start, steps, best@, did_reduce));
    did_reduce
}

/// At most `k` passes over the table `a`, until one changes nothing, leave the
/// table `b`.
pub open spec fn passes_lead(input: Seq<u8>, a: Seq<(u32, u32)>, b: Seq<(u32, u32)>, k: nat) -> bool
    decreases k,
{
    if k == 0 {
        a == b
    } else {
        exists|m: Seq<(u32, u32)>, did: bool| #[trigger]
            pass_leads(input, a, m, did) && if did {
                passes_lead(input, m, b, (k - 1) as nat)
            } else {
                m == b
            }
    }
}

/// What the local rules make of the table `a`.
pub open spec fn reduces_to(input: Seq<u8>, a: Seq<(u32, u32)>, b: Seq<(u32, u32)>) -> bool {
    passes_lead(input, a, b, 30)
}

/// Makes a parse smaller by local rules, for streams with one recent offset.
/// Every entry stays a match of the input.
pub fn reduce_commands_zx(input: &[u8], best: &mut Vec<(u32, u32)>)
    requires
        best_ok(input@, old(best)@),
        old(best)@.len() <= 0x3fff_ffff,
    ensures
        best_ok(input@, final(best)@),
        reduces_to(input@, old(best)@, final(best)@),
{
    reduce_passes(input, best, 30);
}

/// At most `left` passes.
fn reduce_passes(input: &[u8], best: &mut Vec<(u32, u32)>, left: u32)
    requires
        best_ok(input@, old(best)@),
        old(best)@.len() <= 0x3fff_ffff,
    ensures
        best_ok(input@, final(best)@),
        passes_lead(input@, old(best)@, final(best)@, left as nat),
    decreases left,
{
    if left > 0 {
        let ghost b0 = best@;
        let did: bool = reduce_pass(input, best);
        let ghost m = best@;
        assert(pass_leads(input@, b0, m, did));
        if did {
            reduce_passes(input, best, left - 1);
        }
    }
}

} // verus!
