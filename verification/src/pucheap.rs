//! What the PuCrunch parse makes use of: every repeat and every run of small data.
use crate::pucrunch;
use crate::puparse;
use crate::puparse::{Scene, Solution};
use crate::putoken;
use crate::putoken::Tok;
use vstd::prelude::*;

verus! {

/// The runs have at most 320 bytes, and the repeats lie at most 65535 back.
pub open spec fn within_reach(q: Seq<Tok>) -> bool {
    forall|k: int|
        0 <= k < q.len() ==> match #[trigger] q[k] {
            Tok::Lit => true,
            Tok::Lz { len, dist } => dist <= 65535,
            Tok::Rle { len } => len <= 320,
        }
}

/// Tokens on offer of the same lengths that cost no more.
proof fn lemma_offered_instead(sc: &Scene, q: Seq<Tok>, k: int) -> (r: Seq<Tok>)
    requires
        sc.wf(),
        pucrunch::matches_of(sc.data@, sc.ms),
        sc.data@.len() <= 16384,
        putoken::toks_ok(sc.data@, q, sc.extra as nat),
        within_reach(q),
        0 <= k <= q.len(),
    ensures
        r.len() == k,
        putoken::tok_pos(r, k) == putoken::tok_pos(q, k),
        forall|j: int|
            0 <= j < k ==> #[trigger] putoken::tok_fits(sc.data@, r, sc.extra as nat, j),
        sc.offers_all(r),
        puparse::flat_total(
            sc.data@,
            r,
            sc.esc_bits as nat,
            sc.extra as nat,
            sc.rank_of@,
            k,
        ) <= puparse::flat_total(
            sc.data@,
            q,
            sc.esc_bits as nat,
            sc.extra as nat,
            sc.rank_of@,
            k,
        ),
    decreases k,
{
    let (e, x) = (sc.esc_bits as nat, sc.extra as nat);
    if k == 0 {
        Seq::empty()
    } else {
        let before = lemma_offered_instead(sc, q, k - 1);
        let i = putoken::tok_pos(q, k - 1);
        assert(putoken::tok_fits(sc.data@, q, x, k - 1));
        let t = match q[k - 1] {
            Tok::Lz { len, dist } => {
                puparse::lemma_best_match_on_offer(sc, i, len, dist);
                let near = choose|near: u32|
                    near <= dist && #[trigger] sc.offers(i, Tok::Lz { len, dist: near })
                        && putoken::tok_ok(sc.data@, i, Tok::Lz { len, dist: near }, x)
                        && putoken::lz_bits(e, x, len as int, near as int) <= putoken::lz_bits(
                        e,
                        x,
                        len as int,
                        dist as int,
                    );
                Tok::Lz { len, dist: near }
            },
            Tok::Rle { len } => {
                assert(sc.rle@[i] >= len) by {
                    if sc.rle@[i] < len {
                        assert(sc.data@[i + sc.rle@[i]] == sc.data@[i]);
                    }
                }
                q[k - 1]
            },
            Tok::Lit => Tok::Lit,
        };
        let r = before.push(t);
        puparse::lemma_flat_prefix(sc.data@, before, r, e, x, sc.rank_of@, k - 1);
        assert forall|j: int| 0 <= j < k implies #[trigger] putoken::tok_fits(
            sc.data@,
            r,
            x,
            j,
        ) && sc.offers(putoken::tok_pos(r, j), r[j]) by {
            puparse::lemma_flat_prefix(sc.data@, before, r, e, x, sc.rank_of@, if j < k - 1 {
                j
            } else {
                k - 1
            });
            if j < k - 1 {
                assert(putoken::tok_fits(sc.data@, before, x, j));
                assert(before[j] == r[j]);
            }
        }
        assert forall|j: int| 0 <= j < r.len() implies sc.offers(
            putoken::tok_pos(r, j),
            #[trigger] r[j],
        ) by {
            assert(putoken::tok_fits(sc.data@, r, x, j));
        }
        r
    }
}

/// No tokens for the data are cheaper, with literals of eight bits, than those that
/// separate passes find, whatever repeats and runs they are made of.
pub proof fn lemma_no_cheaper_tokens(sc: &Scene, s: Solution, q: Seq<Tok>)
    requires
        sc.wf(),
        pucrunch::matches_of(sc.data@, sc.ms),
        sc.data@.len() <= 16384,
        puparse::solved(sc, false, s),
        putoken::toks_ok(sc.data@, q, sc.extra as nat),
        within_reach(q),
    ensures
        puparse::flat_total(
            sc.data@,
            s.plan.tokens@,
            sc.esc_bits as nat,
            sc.extra as nat,
            sc.rank_of@,
            s.plan.tokens@.len() as int,
        ) <= puparse::flat_total(
            sc.data@,
            q,
            sc.esc_bits as nat,
            sc.extra as nat,
            sc.rank_of@,
            q.len() as int,
        ),
{
    let r = lemma_offered_instead(sc, q, q.len() as int);
    assert(putoken::toks_ok(sc.data@, r, sc.extra as nat));
    reveal(puparse::solved);
}

} // verus!
