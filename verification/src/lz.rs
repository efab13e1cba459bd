//! The vocabulary that every format shares: byte strings, back-references and
//! reversal.
use vstd::prelude::*;

verus! {

/// `s[p .. p + len]` repeats what stands `off` bytes before it. The two ranges
/// may overlap.
pub open spec fn is_match(s: Seq<u8>, p: int, off: int, len: int) -> bool {
    &&& 1 <= off <= p
    &&& 0 <= len
    &&& p + len <= s.len()
    &&& forall|k: int| 0 <= k < len ==> #[trigger] s[p + k] == s[p + k - off]
}

/// `out` extended by `len` bytes, each copied from `off` bytes before its own
/// place.
pub open spec fn lz_copy(out: Seq<u8>, off: int, len: nat) -> Seq<u8>
    decreases len,
{
    if len == 0 {
        out
    } else {
        let prefix = lz_copy(out, off, (len - 1) as nat);
        prefix.push(prefix[prefix.len() - off])
    }
}

pub proof fn lemma_lz_copy_len(out: Seq<u8>, off: int, len: nat)
    ensures
        lz_copy(out, off, len).len() == out.len() + len,
    decreases len,
{
    if len > 0 {
        lemma_lz_copy_len(out, off, (len - 1) as nat);
    }
}

/// Copying a back-reference of `s` onto the prefix before it gives the longer
/// prefix.
pub proof fn lemma_lz_copy_match(s: Seq<u8>, p: int, off: int, len: int)
    requires
        is_match(s, p, off, len),
    ensures
        lz_copy(s.take(p), off, len as nat) == s.take(p + len),
    decreases len,
{
    if len > 0 {
        lemma_lz_copy_match(s, p, off, len - 1);
        let prefix = s.take(p + len - 1);
        assert(s[p + (len - 1)] == s[p + (len - 1) - off]);
        assert(prefix.push(prefix[prefix.len() - off]) =~= s.take(p + len));
    } else {
        assert(s.take(p) =~= s.take(p + len));
    }
}

/// The bytes of `input` in reverse order.
pub fn reversed(input: &[u8]) -> (out: Vec<u8>)
    ensures
        out@ == input@.reverse(),
{
    let n: usize = input.len();
    let mut out: Vec<u8> = Vec::with_capacity(n);
    let mut i: usize = 0;
    while i < n
        invariant
            n == input@.len(),
            i <= n,
            out@.len() == i,
            forall|k: int| 0 <= k < i ==> out@[k] == input@[n - 1 - k],
        decreases n - i,
    {
        out.push(input[n - 1 - i]);
        i += 1;
    }
    assert(out@ =~= input@.reverse());
    out
}

/// Reversing twice gives the string back.
pub proof fn lemma_reverse_twice(s: Seq<u8>)
    ensures
        s.reverse().reverse() == s,
{
    assert(s.reverse().reverse() =~= s);
}

/// Length of the common run of `input` at `a` and `b`, at most `cap`.
pub fn match_run(input: &[u8], a: usize, b: usize, cap: usize) -> (len: usize)
    requires
        a < b,
        b + cap <= input@.len(),
    ensures
        len <= cap,
        len == 0 || is_match(input@, b as int, b - a, len as int),
        forall|k: int| 0 <= k < len ==> #[trigger] input@[b + k] == input@[a + k],
        len < cap ==> input@[b + len] != input@[a + len],
{
    let n: usize = input.len();
    let mut l: usize = 0;
    while l < cap && input[a + l] == input[b + l]
        invariant
            a < b,
            n == input@.len(),
            b + cap <= n,
            l <= cap,
            forall|k: int| 0 <= k < l ==> #[trigger] input@[b + k] == input@[a + k],
        decreases cap - l,
    {
        l += 1;
    }
    assert forall|k: int| 0 <= k < l implies #[trigger] input@[b + k] == input@[b + k - (b - a)] by {
        assert(input@[b + k] == input@[a + k]);
    }
    l
}

/// Append `len` bytes to `out`, each copied from `off` bytes before its place.
pub fn copy_match(out: &mut Vec<u8>, off: usize, len: usize)
    requires
        1 <= off <= old(out)@.len(),
        old(out)@.len() + len <= usize::MAX,
    ensures
        final(out)@ == lz_copy(old(out)@, off as int, len as nat),
        final(out)@.len() == old(out)@.len() + len,
{
    let ghost start = out@;
    let mut k: usize = 0;
    while k < len
        invariant
            1 <= off <= start.len(),
            start.len() + len <= usize::MAX,
            k <= len,
            out@.len() == start.len() + k,
            out@ == lz_copy(start, off as int, k as nat),
        decreases len - k,
    {
        let b: u8 = out[out.len() - off];
        out.push(b);
        k += 1;
    }
}

} // verus!
