//! Optimal parses for streams with one recent offset: no other parse takes
//! fewer bits.
use crate::zx;
use crate::zx::{predicted_payload_bits, ZxCommand};
use crate::zxbest;
use crate::zxbest::build_zx_commands_from_best;
use crate::zxreach;
pub use crate::zxreach::{cheapest_table, cmds_within, least_bits, offsets_within, rep0_mode};
use vstd::prelude::*;

verus! {

/// Largest offset of a stream with an end marker.
pub const ZX0_MAX_OFFSET: usize = 32640;

proof fn lemma_first_slot(cmds: Seq<ZxCommand>, k: int)
    requires
        zx::zx_all_codable(cmds, rep0_mode()),
        0 <= k <= cmds.len(),
    ensures
        zx::zx_reps(cmds, rep0_mode(), k).len() == 4,
        zx::zx_reps(cmds, rep0_mode(), k)[0] <= zx::MAX_OFFSET,
        forall|j: int| 0 <= j < k ==> (#[trigger] cmds[j]).match_off <= zx::MAX_OFFSET,
    decreases k,
{
    if k > 0 {
        lemma_first_slot(cmds, k - 1);
        assert(zx::zx_codable_at(cmds, rep0_mode(), k - 1));
    }
}

/// No offset that can be written is above the largest.
pub proof fn lemma_all_within(input: Seq<u8>, cmds: Seq<ZxCommand>)
    requires
        zx::zx_legal(input, cmds, rep0_mode()),
    ensures
        cmds_within(cmds, zx::MAX_OFFSET as int),
{
    lemma_first_slot(cmds, cmds.len() as int);
}

/// The cheapest parse with one recent offset, as a table.
pub fn optimize_table(input: &[u8], offset_limit: usize) -> (best: Vec<(u32, u32)>)
    requires
        input@.len() <= 0x3fff_ffff,
        offset_limit <= zx::MAX_OFFSET,
    ensures
        zxbest::best_ok(input@, best@),
        offsets_within(best@, offset_limit as int),
        forall|ri: Seq<i8>|
            ri.len() == input@.len() ==> {
                let cmds = #[trigger] zxbest::best_cmds(best@, ri);
                &&& zx::zx_all_codable(cmds, rep0_mode())
                &&& least_bits(
                    input@,
                    offset_limit as int,
                    zx::zx_bits(cmds, rep0_mode(), cmds.len() as int) as int,
                )
            },
{
    cheapest_table(input, offset_limit)
}

/// The cheapest parse with one recent offset, as commands.
pub fn optimize_zx0(input: &[u8], offset_limit: usize) -> (cmds: Vec<ZxCommand>)
    requires
        input@.len() <= 0x3fff_ffff,
        offset_limit <= zx::MAX_OFFSET,
    ensures
        zx::zx_legal(input@, cmds@, rep0_mode()),
        cmds_within(cmds@, offset_limit as int),
        least_bits(
            input@,
            offset_limit as int,
            zx::zx_bits(cmds@, rep0_mode(), cmds@.len() as int) as int,
        ),
{
    let best: Vec<(u32, u32)> = optimize_table(input, offset_limit);
    let n: usize = input.len();
    let ri: Vec<i8> = vec![-1; n];
    let cmds: Vec<ZxCommand> = build_zx_commands_from_best(
        input,
        &best,
        &ri,
        1,
        false,
        false,
        offset_limit as u32,
    );
    assert(zxbest::best_cmds(best@, ri@) == cmds@);
    cmds
}

/// The same with its size in bits.
pub fn optimize_zx0_with_bits(input: &[u8], offset_limit: usize) -> (r: (Vec<ZxCommand>, u64))
    requires
        input@.len() <= 0x3fff_ffff,
        offset_limit <= zx::MAX_OFFSET,
    ensures
        zx::zx_legal(input@, r.0@, rep0_mode()),
        cmds_within(r.0@, offset_limit as int),
        r.1 == zx::zx_bits(r.0@, rep0_mode(), r.0@.len() as int),
        least_bits(input@, offset_limit as int, r.1 as int),
{
    let cmds: Vec<ZxCommand> = optimize_zx0(input, offset_limit);
    proof {
        assert(zx::zx_mode(1, false, false) == rep0_mode());
        zx::lemma_zx_bits_bound(input@, cmds@, rep0_mode(), cmds@.len() as int);
    }
    let bits: u64 = predicted_payload_bits(input, cmds.as_slice(), 1, false, false);
    (cmds, bits)
}

} // verus!
