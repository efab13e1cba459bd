//! What the in-place gap of a stream is: the least distance at which the stream
//! may end above the end of its output so that no decoder writes over a byte that
//! it has still to read.
//!
//! A stream of `n` bytes that ends `gap` bytes above an output of `m` bytes
//! begins at `m + gap - n`, where the output begins at 0. A decoder that has written
//! `w` bytes and taken `r` is safe as long as `w <= m + gap - n + r`.
use crate::bitio;
use crate::pucrunch;
use crate::pustream;
use crate::pustream::{PuError, PuMode, PuState, PuStep};
use crate::substream;
use crate::substream::{SubState, SubStep, Tables};
use crate::upkr;
use crate::upkrstream;
use crate::upkrstream::{Config, UState, UStep};
use crate::urans;
use crate::urans::RansSt;
use crate::zx;
use crate::zx::{DState, DStep, St, ZxMode};
use crate::zx02;
use crate::zx02::{ZPhase, ZState, ZStep};
use crate::zx0compat;
use vstd::prelude::*;

verus! {

/// A decoder that has written `w` bytes of an output of `m`, and taken `r` bytes
/// of a stream of `n`, is safe with the gap.
pub open spec fn is_safe(w: int, r: int, m: int, n: int, gap: int) -> bool {
    w <= m + gap - n + r
}

// ---------------------------------------------------------------------------
// ZX02
// ---------------------------------------------------------------------------
/// The decoder `k` steps behind `d`.
pub open spec fn z_from(data: Seq<u8>, d: ZState, k: nat) -> Option<ZState>
    decreases k,
{
    if k == 0 {
        Some(d)
    } else {
        match zx02::z_step(data, d) {
            ZStep::Stop(_, _) => None,
            ZStep::Next(e) => z_from(data, e, (k - 1) as nat),
        }
    }
}

/// The decoder is before a run or a match, or where the stream breaks off.
pub open spec fn z_boundary(data: Seq<u8>, d: ZState) -> bool {
    ||| d.ph == ZPhase::Lit
    ||| d.ph == ZPhase::Rep
    ||| d.ph == ZPhase::New
    ||| zx02::z_step(data, d) is Stop
}

/// In `k` steps the decoder comes to a boundary, with `w` bytes written and `r`
/// taken.
pub open spec fn z_point(data: Seq<u8>, d: ZState, k: nat, w: int, r: int) -> bool {
    z_from(data, d, k) matches Some(e) && z_boundary(data, e) && w == e.out.len() && r == e.s.pos
}

/// At no boundary has the decoder of a ZX02 stream written over what it has still
/// to read.
pub open spec fn z_safe(data: Seq<u8>, gap: int) -> bool {
    forall|k: nat, w: int, r: int|
        k <= 8 * data.len() && #[trigger] z_point(data, zx02::z_start(), k, w, r) ==> is_safe(
            w,
            r,
            zx02::zx02_decoded(data).len() as int,
            data.len() as int,
            gap,
        )
}

proof fn lemma_z_peak(data: Seq<u8>, d: ZState, fuel: nat)
    ensures
        zx02::z_run(data, d, fuel).1 >= d.gap,
        forall|k: nat, w: int, r: int|
            k < fuel && #[trigger] z_point(data, d, k, w, r) ==> w - r <= zx02::z_run(
                data,
                d,
                fuel,
            ).1,
        zx02::z_run(data, d, fuel).1 == d.gap || exists|k: nat, w: int, r: int|
            k < fuel && #[trigger] z_point(data, d, k, w, r) && w - r == zx02::z_run(
                data,
                d,
                fuel,
            ).1,
    decreases fuel,
{
    if fuel > 0 {
        let g = zx02::z_run(data, d, fuel).1;
        let (w0, r0) = (d.out.len() as int, d.s.pos as int);
        assert(z_boundary(data, d) ==> z_point(data, d, 0, w0, r0));
        match zx02::z_step(data, d) {
            ZStep::Stop(_, _) => {
                assert forall|k: nat, w: int, r: int|
                    k < fuel && #[trigger] z_point(data, d, k, w, r) implies w - r <= g by {
                    assert(k == 0);
                }
            },
            ZStep::Next(e) => {
                let f = (fuel - 1) as nat;
                lemma_z_peak(data, e, f);
                assert forall|k: nat, w: int, r: int|
                    k < fuel && #[trigger] z_point(data, d, k, w, r) implies w - r <= g by {
                    if k > 0 {
                        assert(z_point(data, e, (k - 1) as nat, w, r));
                    }
                }
                if g != e.gap {
                    let (k, w, r) = choose|k: nat, w: int, r: int|
                        k < f && #[trigger] z_point(data, e, k, w, r) && w - r == g;
                    assert(z_point(data, d, (k + 1) as nat, w, r));
                }
            },
        }
    }
}

/// The gap of a ZX02 stream keeps a decoder safe, and no smaller one does.
pub proof fn lemma_zx02_gap_is_least(data: Seq<u8>)
    requires
        data.len() > 0,
    ensures
        zx02::zx02_gap(data) >= 0,
        z_safe(data, zx02::zx02_gap(data)),
        forall|g: int| 0 <= g < zx02::zx02_gap(data) ==> !#[trigger] z_safe(data, g),
{
    let start = zx02::z_start();
    let fuel = zx02::z_fuel(data);
    let (m, n) = (zx02::zx02_decoded(data).len() as int, data.len() as int);
    let peak = zx02::z_run(data, start, fuel).1;
    let gap = zx02::zx02_gap(data);
    lemma_z_peak(data, start, fuel);
    assert(z_point(data, start, 0, 0, 0));
    assert forall|g: int| 0 <= g < gap implies !#[trigger] z_safe(data, g) by {
        let (k, w, r) = if peak == 0 {
            (0nat, 0int, 0int)
        } else {
            choose|k: nat, w: int, r: int|
                k < fuel && #[trigger] z_point(data, start, k, w, r) && w - r == peak
        };
        assert(z_point(data, start, k, w, r));
        assert(!is_safe(w, r, m, n, g));
    }
}

// ---------------------------------------------------------------------------
// ZX0 and minimal LZAN
// ---------------------------------------------------------------------------
/// The decoder `k` steps behind `d`.
pub open spec fn zx_from(data: Seq<u8>, m: ZxMode, n: int, d: DState, k: nat) -> Option<DState>
    decreases k,
{
    if k == 0 {
        Some(d)
    } else {
        match zx::zx_step(data, m, n, d) {
            DStep::Next(e) => zx_from(data, m, n, e, (k - 1) as nat),
            _ => None,
        }
    }
}

/// In `k` steps the decoder comes to the end of a run or a match, with `w` bytes
/// written and `r` taken.
pub open spec fn zx_point(data: Seq<u8>, m: ZxMode, n: int, d: DState, k: nat, w: int, r: int) -> bool {
    zx_from(data, m, n, d, k) matches Some(e) && (e.ph == St::AfterLitMatch || e.ph
        == St::AfterMatch) && w == e.out.len() && r == e.s.pos
}

/// At the start, and behind no run and no match, has the decoder written over what
/// it has still to read.
pub open spec fn zx_safe(data: Seq<u8>, m: ZxMode, n: int, len: int, gap: int) -> bool {
    &&& is_safe(0, 0, len, data.len() as int, gap)
    &&& forall|k: nat, w: int, r: int| #[trigger]
        zx_point(data, m, n, zx::zx_start(), k, w, r) ==> is_safe(
            w,
            r,
            len,
            data.len() as int,
            gap,
        )
}

proof fn lemma_zx_peak(data: Seq<u8>, m: ZxMode, n: int, d: DState, fuel: nat)
    requires
        m.eof,
        zx::zx_run_for(data, m, n, d, fuel) is Some,
        d.ph == St::AfterLitMatch || d.ph == St::AfterMatch ==> d.out.len() - d.s.pos <= d.gap,
    ensures
        ({
            let g = peak_of(zx::zx_run_for(data, m, n, d, fuel));
            &&& g >= d.gap
            &&& forall|k: nat, w: int, r: int| #[trigger]
                zx_point(data, m, n, d, k, w, r) ==> w - r <= g
            &&& g == d.gap || exists|k: nat, w: int, r: int| #[trigger]
                zx_point(data, m, n, d, k, w, r) && w - r == g
        }),
    decreases fuel,
{
    let g = peak_of(zx::zx_run_for(data, m, n, d, fuel));
    match zx::zx_step(data, m, n, d) {
        DStep::Next(e) => {
            lemma_zx_peak(data, m, n, e, (fuel - 1) as nat);
            assert forall|k: nat, w: int, r: int| #[trigger]
                zx_point(data, m, n, d, k, w, r) implies w - r <= g by {
                if k > 0 {
                    assert(zx_point(data, m, n, e, (k - 1) as nat, w, r));
                }
            }
            if g != d.gap {
                if g == e.gap {
                    let (w, r) = (e.out.len() as int, e.s.pos as int);
                    assert(zx_point(data, m, n, e, 0, w, r));
                    assert(zx_from(data, m, n, d, 1) == zx_from(data, m, n, e, 0));
                    assert(zx_point(data, m, n, d, 1, w, r));
                } else {
                    let (k, w, r) = choose|k: nat, w: int, r: int| #[trigger]
                        zx_point(data, m, n, e, k, w, r) && w - r == g;
                    assert(zx_point(data, m, n, d, (k + 1) as nat, w, r));
                }
            }
        },
        _ => {
            assert forall|k: nat, w: int, r: int| #[trigger]
                zx_point(data, m, n, d, k, w, r) implies w - r <= g by {
                assert(k == 0);
            }
        },
    }
}

spec fn peak_of(r: Option<(Seq<u8>, int)>) -> int {
    match r {
        Some((_, g)) => g,
        None => 0,
    }
}

/// The gap that a peak makes is the least that is safe.
proof fn lemma_zx_least(data: Seq<u8>, m: ZxMode, n: int, len: int, gap: int)
    requires
        m.eof,
        zx::zx_run(data, m, n, zx::zx_start()) is Some,
        gap == zx::max_of(
            peak_of(zx::zx_run(data, m, n, zx::zx_start())) - (len - data.len()),
            0,
        ),
    ensures
        zx_safe(data, m, n, len, gap),
        forall|g: int| 0 <= g < gap ==> !#[trigger] zx_safe(data, m, n, len, g),
{
    let start = zx::zx_start();
    let f = choose|f: nat| zx::zx_run_for(data, m, n, start, f) is Some;
    zx::lemma_zx_run(data, m, n, start, f);
    lemma_zx_peak(data, m, n, start, f);
    let peak = peak_of(zx::zx_run_for(data, m, n, start, f));
    assert forall|g: int| 0 <= g < gap implies !#[trigger] zx_safe(data, m, n, len, g) by {
        if peak != 0 {
            let (k, w, r) = choose|k: nat, w: int, r: int| #[trigger]
                zx_point(data, m, n, start, k, w, r) && w - r == peak;
            assert(zx_point(data, m, n, start, k, w, r));
            assert(!is_safe(w, r, len, data.len() as int, g));
        } else {
            assert(!is_safe(0, 0, len, data.len() as int, g));
        }
    }
}

/// The gap of a minimal stream keeps a decoder safe, and no smaller one does.
pub proof fn lemma_min_gap_is_least(body: Seq<u8>, n: int)
    requires
        n > 0,
        zx::min_eof_decoded(body, n) is Some,
    ensures
        ({
            let len = zx::min_eof_decoded(body, n)->0.len() as int;
            let gap = zx::min_eof_gap(body, n);
            &&& gap >= 0
            &&& zx_safe(body, zx::min_mode(), n, len, gap)
            &&& forall|g: int| 0 <= g < gap ==> !#[trigger] zx_safe(body, zx::min_mode(), n, len, g)
        }),
{
    let len = zx::min_eof_decoded(body, n)->0.len() as int;
    lemma_zx_least(body, zx::min_mode(), n, len, zx::min_eof_gap(body, n));
}

/// The gap of a ZX0 stream keeps a decoder safe, and no smaller one does.
pub proof fn lemma_zx0_gap_is_least(stream: Seq<u8>, backward: bool)
    requires
        stream.len() > 0,
        zx0compat::zx0_decoded(stream, backward) is Some,
    ensures
        ({
            let len = zx0compat::zx0_decoded(stream, backward)->0.len() as int;
            let gap = zx0compat::zx0_gap(stream, backward);
            let data = zx0compat::turned(stream, backward);
            let m = zx0compat::zx0_mode(backward);
            &&& gap >= 0
            &&& zx_safe(data, m, 0, len, gap)
            &&& forall|g: int| 0 <= g < gap ==> !#[trigger] zx_safe(data, m, 0, len, g)
        }),
{
    let len = zx0compat::zx0_decoded(stream, backward)->0.len() as int;
    let data = zx0compat::turned(stream, backward);
    lemma_zx_least(
        data,
        zx0compat::zx0_mode(backward),
        0,
        len,
        zx0compat::zx0_gap(stream, backward),
    );
}

// ---------------------------------------------------------------------------
// Subsizer
// ---------------------------------------------------------------------------
/// The decoder `k` tokens behind `d`.
pub open spec fn sub_from(data: Seq<u8>, t: Tables, d: SubState, k: nat) -> Option<SubState>
    decreases k,
{
    if k == 0 {
        Some(d)
    } else {
        match substream::sub_step(data, t, d) {
            SubStep::Next(e) => sub_from(data, t, e, (k - 1) as nat),
            _ => None,
        }
    }
}

/// Behind `k` tokens the decoder has written `w` bytes and taken `r`.
pub open spec fn sub_point(data: Seq<u8>, t: Tables, d: SubState, k: nat, w: int, r: int) -> bool {
    sub_from(data, t, d, k) matches Some(e) && w == e.out.len() && r == e.s.pos
}

/// Before no token of the stream that starts at `s` has the decoder written over
/// what it has still to read, nor at the start.
pub open spec fn sub_safe(data: Seq<u8>, s: bitio::BitPos, len: int, gap: int) -> bool {
    let (t, s1) = substream::get_tables(data, s);
    &&& is_safe(0, 0, len, data.len() as int, gap)
    &&& forall|k: nat, w: int, r: int| #[trigger]
        sub_point(data, t, SubState { s: s1, out: Seq::empty(), gap: 0 }, k, w, r) ==> is_safe(
            w,
            r,
            len,
            data.len() as int,
            gap,
        )
}

proof fn lemma_sub_peak(data: Seq<u8>, t: Tables, d: SubState, fuel: nat)
    requires
        substream::sub_run(data, t, d, fuel) is Some,
    ensures
        ({
            let g = peak_of(substream::sub_run(data, t, d, fuel));
            &&& g >= d.gap
            &&& forall|k: nat, w: int, r: int| #[trigger]
                sub_point(data, t, d, k, w, r) ==> w - r <= g
            &&& g == d.gap || exists|k: nat, w: int, r: int| #[trigger]
                sub_point(data, t, d, k, w, r) && w - r == g
        }),
    decreases fuel,
{
    let g = peak_of(substream::sub_run(data, t, d, fuel));
    let (w0, r0) = (d.out.len() as int, d.s.pos as int);
    assert(sub_point(data, t, d, 0, w0, r0));
    match substream::sub_step(data, t, d) {
        SubStep::Next(e) => {
            lemma_sub_peak(data, t, e, (fuel - 1) as nat);
            assert forall|k: nat, w: int, r: int| #[trigger]
                sub_point(data, t, d, k, w, r) implies w - r <= g by {
                if k > 0 {
                    assert(sub_point(data, t, e, (k - 1) as nat, w, r));
                }
            }
            if g != e.gap {
                let (k, w, r) = choose|k: nat, w: int, r: int| #[trigger]
                    sub_point(data, t, e, k, w, r) && w - r == g;
                assert(sub_point(data, t, d, (k + 1) as nat, w, r));
            }
        },
        _ => {
            assert forall|k: nat, w: int, r: int| #[trigger]
                sub_point(data, t, d, k, w, r) implies w - r <= g by {
                assert(k == 0);
            }
        },
    }
}

/// The gap of a Subsizer stream keeps a decoder safe, and no smaller one does.
pub proof fn lemma_sub_gap_is_least(data: Seq<u8>, s: bitio::BitPos)
    requires
        substream::sub_decoded(data, s) is Some,
    ensures
        ({
            let r = substream::sub_decoded(data, s)->0;
            let gap = substream::sub_gap(r, data.len() as int);
            &&& gap >= 0
            &&& sub_safe(data, s, r.0.len() as int, gap)
            &&& forall|g: int| 0 <= g < gap ==> !#[trigger] sub_safe(data, s, r.0.len() as int, g)
        }),
{
    let res = substream::sub_decoded(data, s)->0;
    let (t, s1) = substream::get_tables(data, s);
    let start = SubState { s: s1, out: Seq::empty(), gap: 0 };
    let len = res.0.len() as int;
    let gap = substream::sub_gap(res, data.len() as int);
    lemma_sub_peak(data, t, start, substream::sub_fuel(data));
    let peak = res.1;
    assert forall|g: int| 0 <= g < gap implies !#[trigger] sub_safe(data, s, len, g) by {
        if peak != 0 {
            let (k, w, r) = choose|k: nat, w: int, r: int| #[trigger]
                sub_point(data, t, start, k, w, r) && w - r == peak;
            assert(sub_point(data, t, start, k, w, r));
            assert(!is_safe(w, r, len, data.len() as int, g));
        } else {
            assert(!is_safe(0, 0, len, data.len() as int, g));
        }
    }
}

// ---------------------------------------------------------------------------
// upkr
// ---------------------------------------------------------------------------
/// The decoder `k` tokens behind `d`.
pub open spec fn u_from(data: Seq<u8>, c: Config, max: int, d: UState, k: nat) -> Option<UState>
    decreases k,
{
    if k == 0 {
        Some(d)
    } else {
        match upkrstream::u_step(data, c, max, d) {
            UStep::Next(e) => u_from(data, c, max, e, (k - 1) as nat),
            _ => None,
        }
    }
}

/// Behind `k` tokens the decoder has written `w` bytes and taken `r`, the last
/// maybe in part: a variant that reads bits has taken a byte with its first bit.
pub open spec fn u_point(data: Seq<u8>, c: Config, max: int, d: UState, k: nat, w: int, r: int) -> bool {
    u_from(data, c, max, d, k) matches Some(e) && w == e.out.len() && if c.use_bitstream {
        8 * (r - 1) < e.r.st.pos <= 8 * r
    } else {
        r == e.r.st.pos
    }
}

/// Before no token has the decoder, which starts with the state `s`, written over
/// what it has still to read, nor at the start.
pub open spec fn u_safe(data: Seq<u8>, c: Config, s: RansSt, max: int, len: int, gap: int) -> bool {
    &&& is_safe(0, 0, len, data.len() as int, gap)
    &&& forall|k: nat, w: int, r: int| #[trigger]
        u_point(data, c, max, upkrstream::u_init(c, s), k, w, r) ==> is_safe(
            w,
            r,
            len,
            data.len() as int,
            gap,
        )
}

proof fn lemma_u_peak(data: Seq<u8>, c: Config, max: int, d: UState, fuel: nat)
    requires
        upkrstream::u_run(data, c, max, d, fuel) is Some,
    ensures
        ({
            let g = upkrstream::u_peak(data, c, max, d, fuel);
            &&& g >= 0
            &&& forall|k: nat, w: int, r: int| #[trigger]
                u_point(data, c, max, d, k, w, r) ==> w - r <= g
            &&& g == 0 || exists|k: nat, w: int, r: int| #[trigger]
                u_point(data, c, max, d, k, w, r) && w - r == g
        }),
    decreases fuel,
{
    let g = upkrstream::u_peak(data, c, max, d, fuel);
    let (w0, r0) = (d.out.len() as int, upkrstream::bytes_taken(c, d.r.st));
    assert(u_point(data, c, max, d, 0, w0, r0));
    match upkrstream::u_step(data, c, max, d) {
        UStep::Next(e) => {
            let h = upkrstream::u_peak(data, c, max, e, (fuel - 1) as nat);
            lemma_u_peak(data, c, max, e, (fuel - 1) as nat);
            assert forall|k: nat, w: int, r: int| #[trigger]
                u_point(data, c, max, d, k, w, r) implies w - r <= g by {
                if k > 0 {
                    assert(u_point(data, c, max, e, (k - 1) as nat, w, r));
                }
            }
            if g != 0 && g == h {
                let (k, w, r) = choose|k: nat, w: int, r: int| #[trigger]
                    u_point(data, c, max, e, k, w, r) && w - r == g;
                assert(u_point(data, c, max, d, (k + 1) as nat, w, r));
            }
        },
        _ => {
            assert forall|k: nat, w: int, r: int| #[trigger]
                u_point(data, c, max, d, k, w, r) implies w - r <= g by {
                assert(k == 0);
            }
        },
    }
}

/// The gap of an upkr stream keeps a decoder safe, and no smaller one does.
pub proof fn lemma_upkr_gap_is_least(data: Seq<u8>, c: Config, max: int)
    requires
        upkrstream::unpacked(data, c, max) is Some,
    ensures
        ({
            let s = urans::refill(data, upkrstream::rans_mode(c), RansSt { x: 0, pos: 0 })->0;
            let len = upkrstream::unpacked(data, c, max)->0.len() as int;
            let gap = upkrstream::unpack_gap(data, c, max);
            &&& gap >= 0
            &&& u_safe(data, c, s, max, len, gap)
            &&& forall|g: int| 0 <= g < gap ==> !#[trigger] u_safe(data, c, s, max, len, g)
        }),
{
    let s = urans::refill(data, upkrstream::rans_mode(c), RansSt { x: 0, pos: 0 })->0;
    let start = upkrstream::u_init(c, s);
    let fuel = upkrstream::u_fuel(data, c);
    let len = upkrstream::unpacked(data, c, max)->0.len() as int;
    let gap = upkrstream::unpack_gap(data, c, max);
    let peak = upkrstream::u_peak(data, c, max, start, fuel);
    lemma_u_peak(data, c, max, start, fuel);
    assert forall|g: int| 0 <= g < gap implies !#[trigger] u_safe(data, c, s, max, len, g) by {
        if peak != 0 {
            let (k, w, r) = choose|k: nat, w: int, r: int| #[trigger]
                u_point(data, c, max, start, k, w, r) && w - r == peak;
            assert(u_point(data, c, max, start, k, w, r));
            assert(!is_safe(w, r, len, data.len() as int, g));
        } else {
            assert(!is_safe(0, 0, len, data.len() as int, g));
        }
    }
}

// ---------------------------------------------------------------------------
// PuCrunch
// ---------------------------------------------------------------------------
/// The decoder `k` tokens behind `d`.
pub open spec fn pu_from(data: Seq<u8>, m: PuMode, d: PuState, k: nat) -> Option<PuState>
    decreases k,
{
    if k == 0 {
        Some(d)
    } else {
        match pustream::pu_step(data, m, d) {
            PuStep::Next(e) => pu_from(data, m, e, (k - 1) as nat),
            _ => None,
        }
    }
}

/// Token `k` starts in byte `r` of the stream, and its last byte is byte `w` of the
/// output.
pub open spec fn pu_token(data: Seq<u8>, m: PuMode, d: PuState, k: nat, w: int, r: int) -> bool {
    pu_from(data, m, d, k) matches Some(a) && (pustream::pu_step(data, m, a) matches PuStep::Next(
        b,
    ) && w == b.out.len() - 1 && 8 * r <= pustream::bit_offset(a.s) < 8 * (r + 1))
}

/// A stream that starts `gap` bytes above its output is not written over: no token
/// puts its last byte above the byte of the stream that it starts in.
pub open spec fn pu_safe(data: Seq<u8>, m: PuMode, d: PuState, gap: int) -> bool {
    forall|k: nat, w: int, r: int| #[trigger] pu_token(data, m, d, k, w, r) ==> w <= gap + r
}

spec fn pu_peak_of(r: Result<(Seq<u8>, int), PuError>) -> int {
    match r {
        Ok((_, g)) => g,
        Err(_) => 0,
    }
}

proof fn lemma_pu_peak(data: Seq<u8>, m: PuMode, d: PuState, fuel: nat)
    requires
        pustream::pu_run(data, m, d, fuel) is Ok,
    ensures
        ({
            let g = pu_peak_of(pustream::pu_run(data, m, d, fuel));
            &&& g >= d.gap
            &&& pu_safe(data, m, d, g)
            &&& g == d.gap || exists|k: nat, w: int, r: int| #[trigger]
                pu_token(data, m, d, k, w, r) && w - r == g
        }),
    decreases fuel,
{
    let g = pu_peak_of(pustream::pu_run(data, m, d, fuel));
    match pustream::pu_step(data, m, d) {
        PuStep::Next(e) => {
            lemma_pu_peak(data, m, e, (fuel - 1) as nat);
            lemma_pu_next(data, m, d, e);
            let (w0, r0) = (e.out.len() - 1, pustream::bit_offset(d.s) / 8);
            assert(pu_token(data, m, d, 0, w0, r0));
            assert forall|k: nat, w: int, r: int| #[trigger]
                pu_token(data, m, d, k, w, r) implies w <= g + r by {
                if k > 0 {
                    assert(pu_token(data, m, e, (k - 1) as nat, w, r));
                }
            }
            if g != e.gap {
                let (k, w, r) = choose|k: nat, w: int, r: int| #[trigger]
                    pu_token(data, m, e, k, w, r) && w - r == g;
                assert(pu_token(data, m, d, (k + 1) as nat, w, r));
            }
        },
        _ => {
            assert forall|k: nat, w: int, r: int| #[trigger]
                pu_token(data, m, d, k, w, r) implies w <= g + r by {
                assert(k == 0);
            }
        },
    }
}

proof fn lemma_pu_next(data: Seq<u8>, m: PuMode, d: PuState, e: PuState)
    requires
        pustream::pu_step(data, m, d) == PuStep::Next(e),
    ensures
        e.gap == zx::max_of(d.gap, e.out.len() - 1 - pustream::bit_offset(d.s) / 8),
{
}

/// The gap of a PuCrunch stream that holds anything keeps it from being written
/// over, and no smaller one does.
pub proof fn lemma_pu_gap_is_least(data: Seq<u8>, m: PuMode, esc: nat)
    requires
        pustream::pu_stream(data, m, esc) matches Ok((o, _)) && o.len() > 0,
    ensures
        ({
            let gap = pu_peak(data, m, esc);
            let start = pustream::pu_start(esc);
            &&& pu_safe(data, m, start, gap)
            &&& forall|g: int| g < gap ==> !#[trigger] pu_safe(data, m, start, g)
        }),
{
    let start = pustream::pu_start(esc);
    let fuel = zx02::z_fuel(data);
    let gap = pu_peak(data, m, esc);
    lemma_pu_peak(data, m, start, fuel);
    assert(pustream::pu_step(data, m, start) is Next);
    if let PuStep::Next(e) = pustream::pu_step(data, m, start) {
        lemma_pu_next(data, m, start, e);
        lemma_pu_peak(data, m, e, (fuel - 1) as nat);
        let w0 = e.out.len() - 1;
        assert(pu_token(data, m, start, 0, w0, 0));
    }
    let (k, w, r) = choose|k: nat, w: int, r: int| #[trigger]
        pu_token(data, m, start, k, w, r) && w - r == gap;
    assert forall|g: int| g < gap implies !#[trigger] pu_safe(data, m, start, g) by {
        assert(pu_token(data, m, start, k, w, r));
    }
}

/// The gap that a decoder measures.
pub open spec fn pu_peak(data: Seq<u8>, m: PuMode, esc: nat) -> int {
    match pustream::pu_stream(data, m, esc) {
        Ok((_, g)) => g,
        Err(_) => 0,
    }
}

/// The gap of a forward container is that of its stream: with it the stream is not
/// written over, and with no smaller one.
pub proof fn lemma_container_gap_is_least(c: Seq<u8>)
    requires
        pucrunch::pu6502_run(c) matches Ok((o, _)) && o.len() > 0,
    ensures
        pucrunch::pu6502_run(c) matches Ok((_, gap)) && (pucrunch::pu6502_header(c) matches Ok(
            (m, esc, bits),
        ) && {
            let start = pustream::pu_start(esc);
            &&& pu_safe(bits, m, start, gap)
            &&& forall|g: int| g < gap ==> !#[trigger] pu_safe(bits, m, start, g)
        }),
{
    if let Ok((m, esc, bits)) = pucrunch::pu6502_header(c) {
        lemma_pu_gap_is_least(bits, m, esc);
    }
}

/// The file loads high enough: no token puts its last byte at or above the byte of the
/// stream that it starts in, with the output at `out_pos`.
pub open spec fn file_clear(file: Seq<u8>, out_pos: int) -> bool {
    let load = file[0] + 256 * file[1];
    pucrunch::pu_header(file) matches Ok((m, esc, bits)) && forall|k: nat, w: int, r: int| #[trigger]
        pu_token(bits, m, pustream::pu_start(esc), k, w, r) ==> out_pos + w < load + (file.len() - 2
            - bits.len()) + r
}

/// A file is not written over while it unpacks, unless it had to load so that it ends at
/// the end of memory, or is longer than that.
pub proof fn lemma_file_is_clear(file: Seq<u8>, data: Seq<u8>, out_pos: u16, exec_at: u16)
    requires
        pucrunch::pu_file(file, data, out_pos, exec_at),
        data.len() > 0,
    ensures
        file_clear(file, out_pos as int) || file[0] + 256 * file[1] + file.len() - 2 >= 0x1_0000,
{
    if let Ok((m, esc, bits)) = pucrunch::pu_header(file) {
        if let Ok((o, gap)) = pustream::pu_stream(bits, m, esc) {
            assert(o.len() > 0) by {
                let all = file.subrange(7, 9) + o;
                assert(all.len() == 2 + o.len());
                assert(all.len() == 2 + data.len());
            }
            lemma_pu_gap_is_least(bits, m, esc);
        }
    }
}

} // verus!
