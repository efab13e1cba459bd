//! Laws that relate several functions of the library: what a decoder gives back of
//! what a compressor wrote, and what two ways to the same stream have in common.
use crate::bitio;
use crate::lz;
use crate::subsizer;
use crate::substream::Tables;
use crate::tscrunch;
use crate::tsstream;
use crate::upkr;
use crate::upkrstream;
use crate::zx;
use crate::zx::{DState, DStep, St, ZxBody, ZxCommand, ZxMode, ZxStyle};
use crate::zxpack;
use crate::zxstats;
use crate::zxstats::{Tally, ZxStats};
use vstd::prelude::*;

verus! {

// ---------------------------------------------------------------------------
// Part of a ZX stream
// ---------------------------------------------------------------------------
proof fn lemma_lits_prefix(data: Seq<u8>, s: bitio::BitPos, out: Seq<u8>, a: nat, b: nat)
    requires
        a <= b,
    ensures
        zx::copy_lits(data, s, out, a).0.len() == out.len() + a,
        zx::copy_lits(data, s, out, b).0.len() == out.len() + b,
        zx::copy_lits(data, s, out, a).0 == zx::copy_lits(data, s, out, b).0.take(
            (out.len() + a) as int,
        ),
        zx::copy_lits(data, s, out, b).0.take(out.len() as int) == out,
    decreases b,
{
    let y = zx::copy_lits(data, s, out, b).0;
    if b == 0 {
        assert(out.take(out.len() as int) =~= out);
    } else if a == b {
        lemma_lits_prefix(data, s, out, (a - 1) as nat, (b - 1) as nat);
        assert(y =~= y.take((out.len() + a) as int));
        let before = zx::copy_lits(data, s, out, (b - 1) as nat).0;
        assert(y.take(out.len() as int) =~= before.take(out.len() as int));
    } else {
        lemma_lits_prefix(data, s, out, a, (b - 1) as nat);
        let before = zx::copy_lits(data, s, out, (b - 1) as nat).0;
        assert(y.take((out.len() + a) as int) =~= before.take((out.len() + a) as int));
        assert(y.take(out.len() as int) =~= before.take(out.len() as int));
    }
}

proof fn lemma_copy_prefix(out: Seq<u8>, off: int, a: nat, b: nat)
    requires
        a <= b,
    ensures
        lz::lz_copy(out, off, a).len() == out.len() + a,
        lz::lz_copy(out, off, b).len() == out.len() + b,
        lz::lz_copy(out, off, a) == lz::lz_copy(out, off, b).take((out.len() + a) as int),
        lz::lz_copy(out, off, b).take(out.len() as int) == out,
    decreases b,
{
    let y = lz::lz_copy(out, off, b);
    lz::lemma_lz_copy_len(out, off, a);
    lz::lemma_lz_copy_len(out, off, b);
    if b == 0 {
        assert(out.take(out.len() as int) =~= out);
    } else {
        let before = lz::lz_copy(out, off, (b - 1) as nat);
        if a == b {
            lemma_copy_prefix(out, off, (a - 1) as nat, (b - 1) as nat);
            assert(y =~= y.take((out.len() + a) as int));
        } else {
            lemma_copy_prefix(out, off, a, (b - 1) as nat);
            assert(y.take((out.len() + a) as int) =~= before.take((out.len() + a) as int));
        }
        assert(y.take(out.len() as int) =~= before.take(out.len() as int));
    }
}

/// The output of a run.
spec fn output(r: Option<(Seq<u8>, int)>) -> Seq<u8> {
    match r {
        Some((o, _)) => o,
        None => Seq::empty(),
    }
}

/// A run without an end marker fills the output, and begins with what it had.
proof fn lemma_run_extends(data: Seq<u8>, m: ZxMode, n: int, d: DState, f: nat)
    requires
        !m.eof,
        d.out.len() < n,
        zx::zx_run_for(data, m, n, d, f) is Some,
    ensures
        ({
            let o = output(zx::zx_run_for(data, m, n, d, f));
            o.len() == n && o.take(d.out.len() as int) == d.out
        }),
    decreases f,
{
    let r = output(zx::zx_run_for(data, m, n, d, f));
    match d.ph {
        St::Literals => {
            if let Some((len, s1)) = bitio::get_gamma_as(data, d.s, m.style.cont_of(), false) {
                let k = zx::clip(m, n, d.out, len);
                lemma_lits_prefix(data, s1, d.out, 0, k as nat);
            }
        },
        St::AfterLitMatch => {},
        St::AfterMatch => {},
        _ => {
            if let ZxBody::Copy(off, len, s) = zx::get_body(data, d.s, d.ph, d.reps, m) {
                let k = zx::clip(m, n, d.out, len);
                lemma_copy_prefix(d.out, off as int, 0, k as nat);
            }
        },
    }
    if let DStep::Next(e) = zx::zx_step(data, m, n, d) {
        lemma_run_extends(data, m, n, e, (f - 1) as nat);
        assert(r.take(d.out.len() as int) =~= r.take(e.out.len() as int).take(d.out.len() as int));
    }
}

/// A run that stops earlier gives the beginning of the output.
proof fn lemma_shorter_run(data: Seq<u8>, m: ZxMode, n: int, k: int, d: DState, f: nat)
    requires
        !m.eof,
        m.style == ZxStyle::Zx,
        k <= n,
        d.out.len() < k,
        zx::zx_run_for(data, m, n, d, f) is Some,
    ensures
        zx::zx_run_for(data, m, k, d, f) matches Some(r) && r.0 == output(
            zx::zx_run_for(data, m, n, d, f),
        ).take(k),
    decreases f,
{
    let o = output(zx::zx_run_for(data, m, n, d, f));
    lemma_run_extends(data, m, n, d, f);
    match d.ph {
        St::Literals => {
            if let Some((len, s1)) = bitio::get_gamma_as(data, d.s, m.style.cont_of(), false) {
                let a = zx::clip(m, k, d.out, len);
                let b = zx::clip(m, n, d.out, len);
                lemma_lits_prefix(data, s1, d.out, a as nat, b as nat);
                let x = zx::copy_lits(data, s1, d.out, b as nat).0;
                if let DStep::Next(e) = zx::zx_step(data, m, n, d) {
                    lemma_run_extends(data, m, n, e, (f - 1) as nat);
                    if e.out.len() < k {
                        lemma_shorter_run(data, m, n, k, e, (f - 1) as nat);
                    } else {
                        assert(o.take(k) =~= o.take(e.out.len() as int).take(k));
                    }
                } else {
                    assert(o == x);
                }
            }
        },
        St::AfterLitMatch => {
            if let DStep::Next(e) = zx::zx_step(data, m, n, d) {
                lemma_shorter_run(data, m, n, k, e, (f - 1) as nat);
            }
        },
        St::AfterMatch => {
            if let DStep::Next(e) = zx::zx_step(data, m, n, d) {
                lemma_shorter_run(data, m, n, k, e, (f - 1) as nat);
            }
        },
        _ => {
            if let ZxBody::Copy(off, len, s) = zx::get_body(data, d.s, d.ph, d.reps, m) {
                let a = zx::clip(m, k, d.out, len);
                let b = zx::clip(m, n, d.out, len);
                lemma_copy_prefix(d.out, off as int, a as nat, b as nat);
                let x = lz::lz_copy(d.out, off as int, b as nat);
                if let DStep::Next(e) = zx::zx_step(data, m, n, d) {
                    lemma_run_extends(data, m, n, e, (f - 1) as nat);
                    if e.out.len() < k {
                        lemma_shorter_run(data, m, n, k, e, (f - 1) as nat);
                    } else {
                        assert(o.take(k) =~= o.take(e.out.len() as int).take(k));
                    }
                } else {
                    assert(o == x);
                }
            }
        },
    }
}

/// Asked for fewer bytes than a stream holds, its decoder gives the first of them.
pub proof fn lemma_decode_prefix(blob: Seq<u8>, n: int, k: int)
    requires
        zx::zx_decoded(blob, n) is Some,
        blob.len() > 0,
        blob[0] != zx::MODE_MIN_EOF,
        0 <= k <= n,
    ensures
        zx::zx_decoded(blob, k) == Some(zx::zx_decoded(blob, n)->0.take(k)),
{
    let o = zx::zx_decoded(blob, n)->0;
    if k == 0 {
        assert(o.take(0) =~= Seq::<u8>::empty());
    } else {
        let data = blob.skip(1);
        let m = zx::zx_mode_of(blob[0]);
        let d = zx::zx_start();
        let f = choose|f: nat| zx::zx_run_for(data, m, n, d, f) is Some;
        zx::lemma_zx_run(data, m, n, d, f);
        lemma_shorter_run(data, m, n, k, d, f);
        zx::lemma_zx_run(data, m, k, d, f);
    }
}

/// A stream has its mode byte and as many bytes as the predicted bits fill.
pub proof fn lemma_predicted_size(
    input: Seq<u8>,
    cmds: Seq<ZxCommand>,
    rep_slots: usize,
    near_rep: bool,
    am_near_rep: bool,
    blob: Seq<u8>,
    bits: int,
)
    requires
        zx::zx_encoded(input, cmds, rep_slots, near_rep, am_near_rep, blob),
        bits == zx::zx_bits(
            cmds,
            zx::zx_mode(rep_slots, near_rep, am_near_rep),
            cmds.len() as int,
        ),
    ensures
        blob.len() == 1 + (bits + 7) / 8,
{
}

/// A minimal stream gives its input back whatever length is asked for, as long as
/// that is no less, in either direction and at any effort.
pub proof fn lemma_min_any_length(input: Seq<u8>, effort: u8, blob: Seq<u8>, back: Seq<u8>, n: int)
    requires
        zxpack::min_packed_by(input, effort, blob),
        zxpack::min_packed_backward(input, effort, back),
        0 < input.len() <= n,
    ensures
        zx::min_eof_decoded(blob.skip(1), n) == Some(input),
        zx::min_eof_decoded(back.skip(1).reverse(), n) == Some(input.reverse()),
{
}

/// A backward stream of any mode gives its input back.
pub proof fn lemma_backward_round_trip(
    input: Seq<u8>,
    rep_slots: usize,
    near_rep: bool,
    am_near_rep: bool,
    effort: u8,
    blob: Seq<u8>,
)
    requires
        zxpack::zx_packed_backward(input, rep_slots, near_rep, am_near_rep, effort, blob),
    ensures
        zx::zx_decoded_backward(blob, input.len() as int) == Some(input),
{
    reveal(zxpack::zx_packed_backward);
}

// ---------------------------------------------------------------------------
// Statistics
// ---------------------------------------------------------------------------
/// Literal bytes of the first `k` commands.
pub open spec fn literals_in(cmds: Seq<ZxCommand>, k: int) -> nat
    decreases k,
{
    if k <= 0 {
        0
    } else {
        literals_in(cmds, k - 1) + cmds[k - 1].lit_len as nat
    }
}

/// Literal runs among the first `k` commands.
pub open spec fn runs_in(cmds: Seq<ZxCommand>, k: int) -> nat
    decreases k,
{
    if k <= 0 {
        0
    } else {
        runs_in(cmds, k - 1) + if cmds[k - 1].lit_len > 0 {
            1nat
        } else {
            0
        }
    }
}

/// Matches among the first `k` commands.
pub open spec fn matches_in(cmds: Seq<ZxCommand>, k: int) -> nat
    decreases k,
{
    if k <= 0 {
        0
    } else {
        matches_in(cmds, k - 1) + if cmds[k - 1].match_off != 0 {
            1nat
        } else {
            0
        }
    }
}

proof fn lemma_counts(cmds: Seq<ZxCommand>, m: ZxMode, k: int)
    requires
        !m.near,
        !m.am,
        1 <= m.slots <= 4,
    ensures
        zxstats::tally(Tally::LitBytes, cmds, m, k) == literals_in(cmds, k),
        zxstats::tally(Tally::LitRuns, cmds, m, k) == runs_in(cmds, k),
        zxstats::tally(Tally::NewOff, cmds, m, k) + zxstats::tally(Tally::Reps(0), cmds, m, k)
            + zxstats::tally(Tally::Reps(1), cmds, m, k) + zxstats::tally(
            Tally::Reps(2),
            cmds,
            m,
            k,
        ) + zxstats::tally(Tally::Reps(3), cmds, m, k) == matches_in(cmds, k),
    decreases k,
{
    if k > 0 {
        lemma_counts(cmds, m, k - 1);
        let c = cmds[k - 1];
        let ph = zx::zx_sel(c, zx::zx_reps(cmds, m, k - 1), m);
        assert(ph is Rep ==> ph->Rep_0 < 4);
        assert(ph is Rep || ph is NewOffset);
    }
}

/// The statistics count every literal byte, every run and every match once, and
/// their total is the predicted size.
pub proof fn lemma_stats_count_all(st: ZxStats, cmds: Seq<ZxCommand>, rep_slots: usize)
    requires
        1 <= rep_slots <= 4,
        zxstats::stats_ok(st, cmds, zx::zx_mode(rep_slots, false, false), cmds.len() as int),
    ensures
        st.lit_bytes == literals_in(cmds, cmds.len() as int),
        st.n_lit_runs == runs_in(cmds, cmds.len() as int),
        st.n_newoff + st.rep_counts@[0] + st.rep_counts@[1] + st.rep_counts@[2] + st.rep_counts@[3]
            == matches_in(cmds, cmds.len() as int),
        8 * st.lit_bytes + st.lit_frame_bits + st.newoff_off_bits + st.newoff_len_bits
            + st.rep_index_bits + st.rep_len_bits + st.flag_bits == zx::zx_bits(
            cmds,
            zx::zx_mode(rep_slots, false, false),
            cmds.len() as int,
        ),
{
    let m = zx::zx_mode(rep_slots, false, false);
    lemma_counts(cmds, m, cmds.len() as int);
    zxstats::lemma_tallies_add_up(cmds, m, cmds.len() as int);
}

// ---------------------------------------------------------------------------
// TSCrunch
// ---------------------------------------------------------------------------
/// A forward stream, by either search or the best of both, gives its input back.
pub proof fn lemma_ts_round_trip(input: Seq<u8>, rich: bool, one: Seq<u8>, best: Seq<u8>)
    requires
        tscrunch::ts_packed(input, rich, one),
        tscrunch::ts_best(input, best),
    ensures
        tsstream::ts_decoded(one) == Some(input),
        tsstream::ts_decoded(best) == Some(input),
{
}

/// So does an in-place stream, for any address.
pub proof fn lemma_ts_inplace_round_trip(
    input: Seq<u8>,
    addr: Seq<u8>,
    rich: bool,
    one: Seq<u8>,
    best: Seq<u8>,
)
    requires
        tscrunch::ts_packed_inplace(input, addr, rich, one),
        tscrunch::ts_best_inplace(input, addr, best),
    ensures
        tsstream::ts_inplace(one) == Some(input),
        tsstream::ts_inplace(best) == Some(input),
{
}

// ---------------------------------------------------------------------------
// upkr
// ---------------------------------------------------------------------------
/// The plain compressor, the highest level of the search and the highest level
/// give one stream.
pub proof fn lemma_upkr_is_highest(input: Seq<u8>, a: Seq<u8>, b: Seq<u8>, c: Seq<u8>)
    requires
        upkr::upkr_stream(input, upkr::MAX_NATIVE_LEVEL, upkrstream::default_config(), a),
        upkr::upkr_stream(
            input,
            upkr::top_level(upkr::MAX_NATIVE_LEVEL),
            upkrstream::default_config(),
            b,
        ),
        upkr::upkr_stream(input, upkr::native_of(3), upkrstream::default_config(), c),
    ensures
        a == b,
        a == c,
{
    let d = upkrstream::default_config();
    upkr::lemma_one_stream(input, upkr::MAX_NATIVE_LEVEL, d, a, b);
    upkr::lemma_one_stream(input, upkr::MAX_NATIVE_LEVEL, d, a, c);
}

/// A backward stream for 8-bit machines gives its input back where there is room
/// for it.
pub proof fn lemma_upkr_6502_backward(input: Seq<u8>, level: u8, out: Seq<u8>, max: int)
    requires
        upkr::upkr_stream(input.reverse(), level, upkr::small_config(), out.reverse()),
        input.len() <= max,
    ensures
        upkrstream::unpacked(out.reverse(), upkr::small_config(), max) matches Some(o) && o.reverse()
            == input,
{
    lz::lemma_reverse_twice(input);
    assert(input.reverse().len() == input.len());
}

// ---------------------------------------------------------------------------
// Subsizer
// ---------------------------------------------------------------------------
/// Another end address changes its two bytes in a container and nothing else.
pub proof fn lemma_address_is_two_bytes(input: Seq<u8>, x: u16, y: u16, a: Seq<u8>, b: Seq<u8>)
    requires
        subsizer::marker_at(input, x, a),
        subsizer::marker_at(input, y, b),
    ensures
        a.len() == b.len(),
        forall|k: int|
            0 <= k < a.len() && k != a.len() - 3 && k != a.len() - 2 ==> #[trigger] a[k] == b[k],
        x == y ==> a == b,
{
    let rev = input.reverse();
    let (s, t) = choose|s: Seq<u8>, t: Tables|
        #[trigger] subsizer::first_stream(rev, t, s, true) && a.len() == s.len() + 2
            && subsizer::marker_inner(a) == s;
    let (r, u) = choose|s: Seq<u8>, t: Tables|
        #[trigger] subsizer::first_stream(rev, t, s, true) && b.len() == s.len() + 2
            && subsizer::marker_inner(b) == s;
    subsizer::lemma_one_first_stream(rev, t, s, u, r, true);
    subsizer::lemma_marker_address(a, b);
    if x == y {
        let n = a.len() as int;
        lemma_same_word(a[n - 3], a[n - 2], b[n - 3], b[n - 2]);
        lemma_same_bytes(a, b);
    }
}

proof fn lemma_same_word(a: u8, b: u8, c: u8, d: u8)
    requires
        a + 256 * b == c + 256 * d,
    ensures
        a == c,
        b == d,
{
}

proof fn lemma_same_bytes(a: Seq<u8>, b: Seq<u8>)
    requires
        a.len() == b.len(),
        a.len() >= 4,
        a[a.len() - 3] == b[a.len() - 3],
        a[a.len() - 2] == b[a.len() - 2],
        forall|k: int|
            0 <= k < a.len() && k != a.len() - 3 && k != a.len() - 2 ==> #[trigger] a[k] == b[k],
    ensures
        a == b,
{
    assert forall|k: int| 0 <= k < a.len() implies a[k] == b[k] by {}
    assert(a =~= b);
}

} // verus!
