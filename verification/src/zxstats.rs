//! Where the bits of a ZX stream go, and how often each coded value occurs.
use crate::bitio;
use crate::zx;
use crate::zx::{
    lit_run_bits, newoff_len_bits, offset_cost_bits_hc, rep_index_bits, rep_insert, rep_len_bits,
    rep_mtf, select, St, ZxCommand, ZxMode,
};
use vstd::prelude::*;

verus! {

/// Bits of a stream by what they are spent on.
#[derive(Clone, Copy, Debug)]
pub struct ZxStats {
    pub n_lit_runs: u64,
    pub lit_bytes: u64,
    /// Bits of the run lengths alone.
    pub lit_frame_bits: u64,
    pub n_newoff: u64,
    pub newoff_off_bits: u64,
    pub newoff_len_bits: u64,
    pub rep_counts: [u64; 4],
    pub rep_index_bits: u64,
    pub rep_len_bits: u64,
    pub flag_bits: u64,
    pub total_bits: u64,
}

/// What is tallied.
pub enum Tally {
    LitRuns,
    LitBytes,
    LitFrame,
    NewOff,
    NewOffBits,
    NewOffLen,
    Reps(int),
    RepIndex,
    RepLen,
    Flags,
}

/// What a command, coded as `ph`, adds to a tally.
pub open spec fn tally_of(t: Tally, c: ZxCommand, ph: St, first: bool, slots: int) -> nat {
    let matched = c.match_off != 0;
    let rep = matched && ph is Rep;
    let fresh = matched && !(ph is Rep);
    match t {
        Tally::LitRuns => if c.lit_len > 0 {
            1
        } else {
            0
        },
        Tally::LitBytes => c.lit_len as nat,
        Tally::LitFrame => if c.lit_len > 0 {
            bitio::gamma_len(c.lit_len as nat)
        } else {
            0
        },
        Tally::NewOff => if fresh {
            1
        } else {
            0
        },
        Tally::NewOffBits => if fresh {
            zx::off_len(c.match_off as int)
        } else {
            0
        },
        Tally::NewOffLen => if fresh {
            bitio::gamma_len((c.match_len - 1) as nat)
        } else {
            0
        },
        Tally::Reps(i) => if matched && ph == St::Rep(i as usize) && 0 <= i < 4 {
            1
        } else {
            0
        },
        Tally::RepIndex => if matched && slots > 1 {
            match ph {
                St::Rep(r) => zx::rep_index_len(r as int),
                _ => 0,
            }
        } else {
            0
        },
        Tally::RepLen => if rep {
            bitio::gamma_len(c.match_len as nat)
        } else {
            0
        },
        Tally::Flags => (if c.lit_len > 0 && !first {
            1nat
        } else {
            0
        }) + (if matched {
            1nat
        } else {
            0
        }),
    }
}

/// A tally over the first `k` commands.
pub open spec fn tally(t: Tally, cmds: Seq<ZxCommand>, m: ZxMode, k: int) -> nat
    decreases k,
{
    if k <= 0 {
        0
    } else {
        let c = cmds[k - 1];
        tally(t, cmds, m, k - 1) + tally_of(
            t,
            c,
            zx::zx_sel(c, zx::zx_reps(cmds, m, k - 1), m),
            k == 1,
            m.slots,
        )
    }
}

/// The tallies of bits add up to the size of the stream.
pub proof fn lemma_tallies_add_up(cmds: Seq<ZxCommand>, m: ZxMode, k: int)
    requires
        !m.near,
        !m.am,
        1 <= m.slots <= 4,
    ensures
        zx::zx_bits(cmds, m, k) == 8 * tally(Tally::LitBytes, cmds, m, k) + tally(
            Tally::LitFrame,
            cmds,
            m,
            k,
        ) + tally(Tally::NewOffBits, cmds, m, k) + tally(Tally::NewOffLen, cmds, m, k) + tally(
            Tally::RepIndex,
            cmds,
            m,
            k,
        ) + tally(Tally::RepLen, cmds, m, k) + tally(Tally::Flags, cmds, m, k),
        tally(Tally::LitRuns, cmds, m, k) <= tally(Tally::LitBytes, cmds, m, k),
        tally(Tally::NewOff, cmds, m, k) <= tally(Tally::Flags, cmds, m, k),
        forall|i: int| #[trigger] tally(Tally::Reps(i), cmds, m, k) <= tally(Tally::Flags, cmds, m, k),
    decreases k,
{
    if k > 0 {
        lemma_tallies_add_up(cmds, m, k - 1);
        let c = cmds[k - 1];
        let reps = zx::zx_reps(cmds, m, k - 1);
        let ph = zx::zx_sel(c, reps, m);
        assert(ph is Rep || ph is NewOffset);
        assert forall|i: int| #[trigger] tally(Tally::Reps(i), cmds, m, k) <= tally(
            Tally::Flags,
            cmds,
            m,
            k,
        ) by {
            assert(tally(Tally::Reps(i), cmds, m, k - 1) <= tally(Tally::Flags, cmds, m, k - 1));
        }
    } else {
        assert forall|i: int| #[trigger] tally(Tally::Reps(i), cmds, m, k) <= tally(
            Tally::Flags,
            cmds,
            m,
            k,
        ) by {}
    }
}

/// The tallies so far.
pub open spec fn stats_ok(st: ZxStats, cmds: Seq<ZxCommand>, m: ZxMode, k: int) -> bool {
    &&& st.n_lit_runs == tally(Tally::LitRuns, cmds, m, k)
    &&& st.lit_bytes == tally(Tally::LitBytes, cmds, m, k)
    &&& st.lit_frame_bits == tally(Tally::LitFrame, cmds, m, k)
    &&& st.n_newoff == tally(Tally::NewOff, cmds, m, k)
    &&& st.newoff_off_bits == tally(Tally::NewOffBits, cmds, m, k)
    &&& st.newoff_len_bits == tally(Tally::NewOffLen, cmds, m, k)
    &&& forall|i: int| 0 <= i < 4 ==> #[trigger] st.rep_counts@[i] == tally(Tally::Reps(i), cmds, m, k)
    &&& st.rep_index_bits == tally(Tally::RepIndex, cmds, m, k)
    &&& st.rep_len_bits == tally(Tally::RepLen, cmds, m, k)
    &&& st.flag_bits == tally(Tally::Flags, cmds, m, k)
}

impl Default for ZxStats {
    fn default() -> (st: ZxStats)
        ensures
            st.total_bits == 0,
            forall|cmds: Seq<ZxCommand>, m: ZxMode| #[trigger] stats_ok(st, cmds, m, 0),
    {
        ZxStats {
            n_lit_runs: 0,
            lit_bytes: 0,
            lit_frame_bits: 0,
            n_newoff: 0,
            newoff_off_bits: 0,
            newoff_len_bits: 0,
            rep_counts: [0; 4],
            rep_index_bits: 0,
            rep_len_bits: 0,
            flag_bits: 0,
            total_bits: 0,
        }
    }
}

/// Tallies of a stream without near offsets. Their sum is the payload size.
#[verifier::rlimit(40)]
pub fn stats(input: &[u8], cmds: &[ZxCommand], rep_slots: usize) -> (st: ZxStats)
    requires
        1 <= rep_slots <= 4,
        zx::zx_all_codable(cmds@, zx::zx_mode(rep_slots, false, false)),
        zx::zx_bits(cmds@, zx::zx_mode(rep_slots, false, false), cmds@.len() as int) <= u64::MAX,
    ensures
        stats_ok(st, cmds@, zx::zx_mode(rep_slots, false, false), cmds@.len() as int),
        st.total_bits == zx::zx_bits(
            cmds@,
            zx::zx_mode(rep_slots, false, false),
            cmds@.len() as int,
        ),
{
    let ghost m = zx::zx_mode(rep_slots, false, false);
    let mut st: ZxStats = ZxStats::default();
    let mut reps: [u32; 4] = [1, 1, 1, 1];
    let ncmds: usize = cmds.len();
    let mut k: usize = 0;
    assert(reps@ =~= zx::reps_start());
    while k < ncmds
        invariant
            m == zx::zx_mode(rep_slots, false, false),
            1 <= rep_slots <= 4,
            ncmds == cmds@.len(),
            k <= ncmds,
            zx::zx_all_codable(cmds@, m),
            zx::zx_bits(cmds@, m, ncmds as int) <= u64::MAX,
            reps@ == zx::zx_reps(cmds@, m, k as int),
            stats_ok(st, cmds@, m, k as int),
        decreases ncmds - k,
    {
        let c: ZxCommand = cmds[k];
        let ghost st0 = st;
        proof {
            assert(zx::zx_codable_at(cmds@, m, k as int));
            zx::lemma_zx_bits_monotone(cmds@, m, k + 1, ncmds as int);
            lemma_tallies_add_up(cmds@, m, k + 1);
            assert forall|i: int| 0 <= i < 4 implies #[trigger] st.rep_counts@[i] <= tally(
                Tally::Flags,
                cmds@,
                m,
                k as int,
            ) by {
                lemma_tallies_add_up(cmds@, m, k as int);
                assert(tally(Tally::Reps(i), cmds@, m, k as int) <= tally(
                    Tally::Flags,
                    cmds@,
                    m,
                    k as int,
                ));
            }
        }
        if c.lit_len > 0 {
            if k > 0 {
                st.flag_bits = st.flag_bits + 1;
            }
            st.n_lit_runs = st.n_lit_runs + 1;
            st.lit_bytes = st.lit_bytes + c.lit_len as u64;
            st.lit_frame_bits = st.lit_frame_bits + lit_run_bits(c.lit_len) as u64;
        }
        if c.match_off != 0 {
            st.flag_bits = st.flag_bits + 1;
            match select(&c, &reps, rep_slots, false, false, Ghost(m)) {
                St::Rep(ri) => {
                    if rep_slots > 1 {
                        st.rep_index_bits = st.rep_index_bits + rep_index_bits(ri) as u64;
                    }
                    st.rep_len_bits = st.rep_len_bits + rep_len_bits(c.match_len) as u64;
                    let count: u64 = st.rep_counts[ri];
                    st.rep_counts[ri] = count + 1;
                    rep_mtf(&mut reps, ri);
                },
                _ => {
                    st.n_newoff = st.n_newoff + 1;
                    st.newoff_off_bits = st.newoff_off_bits + offset_cost_bits_hc(c.match_off) as u64;
                    st.newoff_len_bits = st.newoff_len_bits + newoff_len_bits(
                        c.match_len - 1,
                    ) as u64;
                    rep_insert(&mut reps, c.match_off);
                },
            }
        }
        proof {
            assert forall|i: int| 0 <= i < 4 implies #[trigger] st.rep_counts@[i] == tally(
                Tally::Reps(i),
                cmds@,
                m,
                k + 1,
            ) by {
                assert(st0.rep_counts@[i] == tally(Tally::Reps(i), cmds@, m, k as int));
            }
        }
        k += 1;
    }
    proof {
        lemma_tallies_add_up(cmds@, m, ncmds as int);
    }
    st.total_bits = st.lit_bytes * 8 + st.lit_frame_bits + st.newoff_off_bits + st.newoff_len_bits
        + st.rep_index_bits + st.rep_len_bits + st.flag_bits;
    st
}

/// How often each coded value occurs. A value beyond a table counts in its last
/// place.
#[derive(Clone)]
pub struct ZxHist {
    /// Lengths of literal runs.
    pub lit_run: Vec<u64>,
    /// Lengths of matches with a new offset, less one.
    pub newoff_len: Vec<u64>,
    /// Lengths of matches with a recent offset.
    pub rep_len: Vec<u64>,
    /// High parts of new offsets.
    pub off_msb: Vec<u64>,
    /// Slots of recent offsets.
    pub rep_idx: [u64; 4],
    /// Low seven bits of new offsets less one.
    pub off_lsb: [u64; 128],
    /// New offsets up to 128.
    pub near_off: [u64; 129],
    /// New offsets.
    pub off_full: Vec<u64>,
}

/// What is counted.
pub enum Field {
    LitRun,
    NewOffLen,
    RepLen,
    OffMsb,
    RepIdx,
    OffLsb,
    NearOff,
    OffFull,
}

pub open spec fn field_len(f: Field) -> nat {
    match f {
        Field::OffMsb => 1024,
        Field::RepIdx => 4,
        Field::OffLsb => 128,
        Field::NearOff => 129,
        _ => 65536,
    }
}

/// The value, put into the table of the field.
pub open spec fn capped(f: Field, v: int) -> int {
    if v >= field_len(f) {
        field_len(f) - 1
    } else {
        v
    }
}

/// The value of a field in a command, where it has one.
pub open spec fn field_of(f: Field, c: ZxCommand, ph: St) -> Option<int> {
    let matched = c.match_off != 0;
    let fresh = matched && !(ph is Rep);
    match f {
        Field::LitRun => if c.lit_len > 0 {
            Some(capped(f, c.lit_len as int))
        } else {
            None
        },
        Field::NewOffLen => if fresh {
            Some(capped(f, c.match_len - 1))
        } else {
            None
        },
        Field::RepLen => if matched && ph is Rep {
            Some(capped(f, c.match_len as int))
        } else {
            None
        },
        Field::OffMsb => if fresh {
            Some(capped(f, zx::off_msb(c.match_off as int)))
        } else {
            None
        },
        Field::RepIdx => match ph {
            St::Rep(r) => if matched {
                Some(r as int)
            } else {
                None
            },
            _ => None,
        },
        Field::OffLsb => if fresh {
            Some((c.match_off - 1) % 128)
        } else {
            None
        },
        Field::NearOff => if fresh && c.match_off <= 128 {
            Some(c.match_off as int)
        } else {
            None
        },
        Field::OffFull => if fresh {
            Some(capped(f, c.match_off as int))
        } else {
            None
        },
    }
}

/// How often the field has the value `v` in the first `k` commands.
pub open spec fn count_of(f: Field, v: int, cmds: Seq<ZxCommand>, m: ZxMode, k: int) -> nat
    decreases k,
{
    if k <= 0 {
        0
    } else {
        let c = cmds[k - 1];
        let ph = zx::zx_sel(c, zx::zx_reps(cmds, m, k - 1), m);
        count_of(f, v, cmds, m, k - 1) + if field_of(f, c, ph) == Some(v) {
            1nat
        } else {
            0
        }
    }
}

proof fn lemma_count_bound(f: Field, v: int, cmds: Seq<ZxCommand>, m: ZxMode, k: int)
    requires
        k >= 0,
    ensures
        count_of(f, v, cmds, m, k) <= k,
    decreases k,
{
    if k > 0 {
        lemma_count_bound(f, v, cmds, m, k - 1);
    }
}

/// The table holds the counts of the field.
pub open spec fn counts_ok(s: Seq<u64>, f: Field, cmds: Seq<ZxCommand>, m: ZxMode, k: int) -> bool {
    &&& s.len() == field_len(f)
    &&& forall|v: int| 0 <= v < s.len() ==> #[trigger] s[v] == count_of(f, v, cmds, m, k)
}

impl ZxHist {
    /// All tables hold the counts over the first `k` commands.
    pub open spec fn counts(&self, cmds: Seq<ZxCommand>, m: ZxMode, k: int) -> bool {
        &&& counts_ok(self.lit_run@, Field::LitRun, cmds, m, k)
        &&& counts_ok(self.newoff_len@, Field::NewOffLen, cmds, m, k)
        &&& counts_ok(self.rep_len@, Field::RepLen, cmds, m, k)
        &&& counts_ok(self.off_msb@, Field::OffMsb, cmds, m, k)
        &&& counts_ok(self.rep_idx@, Field::RepIdx, cmds, m, k)
        &&& counts_ok(self.off_lsb@, Field::OffLsb, cmds, m, k)
        &&& counts_ok(self.near_off@, Field::NearOff, cmds, m, k)
        &&& counts_ok(self.off_full@, Field::OffFull, cmds, m, k)
    }

    /// Adds the counts of `o`.
    pub fn merge(&mut self, o: &ZxHist)
        requires
            can_add(old(self).lit_run@, o.lit_run@),
            can_add(old(self).newoff_len@, o.newoff_len@),
            can_add(old(self).rep_len@, o.rep_len@),
            can_add(old(self).off_msb@, o.off_msb@),
            can_add(old(self).rep_idx@, o.rep_idx@),
            can_add(old(self).off_lsb@, o.off_lsb@),
            can_add(old(self).near_off@, o.near_off@),
            can_add(old(self).off_full@, o.off_full@),
        ensures
            added(old(self).lit_run@, o.lit_run@, final(self).lit_run@),
            added(old(self).newoff_len@, o.newoff_len@, final(self).newoff_len@),
            added(old(self).rep_len@, o.rep_len@, final(self).rep_len@),
            added(old(self).off_msb@, o.off_msb@, final(self).off_msb@),
            added(old(self).rep_idx@, o.rep_idx@, final(self).rep_idx@),
            added(old(self).off_lsb@, o.off_lsb@, final(self).off_lsb@),
            added(old(self).near_off@, o.near_off@, final(self).near_off@),
            added(old(self).off_full@, o.off_full@, final(self).off_full@),
    {
        add_counts(&mut self.lit_run, &o.lit_run);
        add_counts(&mut self.newoff_len, &o.newoff_len);
        add_counts(&mut self.rep_len, &o.rep_len);
        add_counts(&mut self.off_msb, &o.off_msb);
        add_counts(&mut self.off_full, &o.off_full);
        add_fixed(&mut self.rep_idx, &o.rep_idx);
        add_fixed(&mut self.off_lsb, &o.off_lsb);
        add_fixed(&mut self.near_off, &o.near_off);
    }
}

/// The sums fit.
pub open spec fn can_add(a: Seq<u64>, b: Seq<u64>) -> bool {
    &&& a.len() <= b.len()
    &&& forall|i: int| 0 <= i < a.len() ==> #[trigger] a[i] + b[i] <= u64::MAX
}

/// `c` is the sum of `a` and `b`, place by place.
pub open spec fn added(a: Seq<u64>, b: Seq<u64>, c: Seq<u64>) -> bool {
    &&& c.len() == a.len()
    &&& forall|i: int| 0 <= i < a.len() ==> #[trigger] c[i] == a[i] + b[i]
}

fn add_counts(a: &mut Vec<u64>, b: &Vec<u64>)
    requires
        can_add(old(a)@, b@),
    ensures
        added(old(a)@, b@, final(a)@),
{
    let ghost a0 = a@;
    let mut i: usize = 0;
    while i < a.len()
        invariant
            i <= a@.len(),
            a@.len() == a0.len(),
            can_add(a0, b@),
            forall|j: int| 0 <= j < i ==> #[trigger] a@[j] == a0[j] + b@[j],
            forall|j: int| i <= j < a@.len() ==> #[trigger] a@[j] == a0[j],
        decreases a@.len() - i,
    {
        assert(a0[i as int] + b@[i as int] <= u64::MAX);
        let v: u64 = a[i] + b[i];
        a.set(i, v);
        i += 1;
    }
}

fn add_fixed<const N: usize>(a: &mut [u64; N], b: &[u64; N])
    requires
        can_add(old(a)@, b@),
    ensures
        added(old(a)@, b@, final(a)@),
{
    let ghost a0 = a@;
    let mut i: usize = 0;
    while i < N
        invariant
            i <= N,
            a@.len() == N,
            b@.len() == N,
            a0.len() == N,
            can_add(a0, b@),
            forall|j: int| 0 <= j < i ==> #[trigger] a@[j] == a0[j] + b@[j],
            forall|j: int| i <= j < a@.len() ==> #[trigger] a@[j] == a0[j],
        decreases N - i,
    {
        assert(a0[i as int] + b@[i as int] <= u64::MAX);
        let v: u64 = a[i] + b[i];
        a[i] = v;
        i += 1;
    }
}

impl Default for ZxHist {
    fn default() -> (h: ZxHist)
        ensures
            forall|cmds: Seq<ZxCommand>, m: ZxMode| #[trigger] h.counts(cmds, m, 0),
    {
        ZxHist {
            lit_run: vec![0; 65536],
            newoff_len: vec![0; 65536],
            rep_len: vec![0; 65536],
            off_msb: vec![0; 1024],
            rep_idx: [0; 4],
            off_lsb: [0; 128],
            near_off: [0; 129],
            off_full: vec![0; 65536],
        }
    }
}

/// One more in the place of `v`, or in the last place.
fn bump_count(s: &mut Vec<u64>, v: usize)
    requires
        old(s)@.len() > 0,
        ({
            let i = if v >= old(s)@.len() {
                old(s)@.len() - 1
            } else {
                v as int
            };
            old(s)@[i] < u64::MAX
        }),
    ensures
        ({
            let i = if v >= old(s)@.len() {
                old(s)@.len() - 1
            } else {
                v as int
            };
            final(s)@ == old(s)@.update(i, (old(s)@[i] + 1) as u64)
        }),
{
    let n: usize = s.len();
    let i: usize = if v >= n {
        n - 1
    } else {
        v
    };
    let x: u64 = s[i];
    s.set(i, x + 1);
}

/// A table stays right when the place of the value, if there is one, goes up
/// by one.
proof fn lemma_count_step(
    s0: Seq<u64>,
    s1: Seq<u64>,
    f: Field,
    cmds: Seq<ZxCommand>,
    m: ZxMode,
    k: int,
)
    requires
        counts_ok(s0, f, cmds, m, k),
        0 <= k,
        s1 == (match field_of(f, cmds[k], zx::zx_sel(cmds[k], zx::zx_reps(cmds, m, k), m)) {
            Some(v) => s0.update(v, (s0[v] + 1) as u64),
            None => s0,
        }),
        field_of(f, cmds[k], zx::zx_sel(cmds[k], zx::zx_reps(cmds, m, k), m)) matches Some(v) ==> 0
            <= v < field_len(f),
        k < u64::MAX,
    ensures
        counts_ok(s1, f, cmds, m, k + 1),
{
    assert forall|v: int| 0 <= v < s1.len() implies #[trigger] s1[v] == count_of(
        f,
        v,
        cmds,
        m,
        k + 1,
    ) by {
        assert(s0[v] == count_of(f, v, cmds, m, k));
        lemma_count_bound(f, v, cmds, m, k);
    }
}

proof fn lemma_counts_small(s: Seq<u64>, f: Field, cmds: Seq<ZxCommand>, m: ZxMode, k: int)
    requires
        counts_ok(s, f, cmds, m, k),
        0 <= k < u64::MAX,
    ensures
        forall|v: int| 0 <= v < s.len() ==> #[trigger] s[v] < u64::MAX,
{
    assert forall|v: int| 0 <= v < s.len() implies #[trigger] s[v] < u64::MAX by {
        lemma_count_bound(f, v, cmds, m, k);
    }
}

/// Counts the values of a stream without near offsets.
#[verifier::rlimit(60)]
pub fn hist(input: &[u8], cmds: &[ZxCommand], rep_slots: usize) -> (h: ZxHist)
    requires
        1 <= rep_slots <= 4,
        zx::zx_all_codable(cmds@, zx::zx_mode(rep_slots, false, false)),
        cmds@.len() < u64::MAX,
    ensures
        h.counts(cmds@, zx::zx_mode(rep_slots, false, false), cmds@.len() as int),
{
    let ghost m = zx::zx_mode(rep_slots, false, false);
    let mut h: ZxHist = ZxHist::default();
    let mut reps: [u32; 4] = [1, 1, 1, 1];
    let ncmds: usize = cmds.len();
    let mut k: usize = 0;
    assert(reps@ =~= zx::reps_start());
    while k < ncmds
        invariant
            m == zx::zx_mode(rep_slots, false, false),
            1 <= rep_slots <= 4,
            ncmds == cmds@.len(),
            ncmds < u64::MAX,
            k <= ncmds,
            zx::zx_all_codable(cmds@, m),
            reps@ == zx::zx_reps(cmds@, m, k as int),
            h.counts(cmds@, m, k as int),
        decreases ncmds - k,
    {
        let c: ZxCommand = cmds[k];
        let ghost h0 = h;
        proof {
            assert(zx::zx_codable_at(cmds@, m, k as int));
            lemma_counts_small(h.lit_run@, Field::LitRun, cmds@, m, k as int);
            lemma_counts_small(h.newoff_len@, Field::NewOffLen, cmds@, m, k as int);
            lemma_counts_small(h.rep_len@, Field::RepLen, cmds@, m, k as int);
            lemma_counts_small(h.off_msb@, Field::OffMsb, cmds@, m, k as int);
            lemma_counts_small(h.rep_idx@, Field::RepIdx, cmds@, m, k as int);
            lemma_counts_small(h.off_lsb@, Field::OffLsb, cmds@, m, k as int);
            lemma_counts_small(h.near_off@, Field::NearOff, cmds@, m, k as int);
            lemma_counts_small(h.off_full@, Field::OffFull, cmds@, m, k as int);
        }
        if c.lit_len > 0 {
            bump_count(&mut h.lit_run, c.lit_len as usize);
        }
        if c.match_off != 0 {
            match select(&c, &reps, rep_slots, false, false, Ghost(m)) {
                St::Rep(ri) => {
                    let x: u64 = h.rep_idx[ri];
                    h.rep_idx[ri] = x + 1;
                    bump_count(&mut h.rep_len, c.match_len as usize);
                    rep_mtf(&mut reps, ri);
                },
                _ => {
                    let x: u32 = c.match_off - 1;
                    bump_count(&mut h.off_msb, (x / 128 + 1) as usize);
                    let low: usize = (x % 128) as usize;
                    let l: u64 = h.off_lsb[low];
                    h.off_lsb[low] = l + 1;
                    if c.match_off <= 128 {
                        let near: usize = c.match_off as usize;
                        let v: u64 = h.near_off[near];
                        h.near_off[near] = v + 1;
                    }
                    bump_count(&mut h.off_full, c.match_off as usize);
                    bump_count(&mut h.newoff_len, (c.match_len - 1) as usize);
                    rep_insert(&mut reps, c.match_off);
                },
            }
        }
        proof {
            let kk = k as int;
            lemma_count_step(h0.lit_run@, h.lit_run@, Field::LitRun, cmds@, m, kk);
            lemma_count_step(h0.newoff_len@, h.newoff_len@, Field::NewOffLen, cmds@, m, kk);
            lemma_count_step(h0.rep_len@, h.rep_len@, Field::RepLen, cmds@, m, kk);
            lemma_count_step(h0.off_msb@, h.off_msb@, Field::OffMsb, cmds@, m, kk);
            lemma_count_step(h0.rep_idx@, h.rep_idx@, Field::RepIdx, cmds@, m, kk);
            lemma_count_step(h0.off_lsb@, h.off_lsb@, Field::OffLsb, cmds@, m, kk);
            lemma_count_step(h0.near_off@, h.near_off@, Field::NearOff, cmds@, m, kk);
            lemma_count_step(h0.off_full@, h.off_full@, Field::OffFull, cmds@, m, kk);
        }
        k += 1;
    }
    h
}

} // verus!
