//! Byte-substring occurrence, and how occurrences behave across
//! concatenation.  Used to pin down where the encoded commit does and does
//! not contain the bytes `"parent "`.

use vstd::prelude::*;

verus! {

/// `pat` stands at position `i` of `s`.
pub open spec fn occurs_at(s: Seq<u8>, pat: Seq<u8>, i: int) -> bool {
    0 <= i && i + pat.len() <= s.len() && s.subrange(i, i + pat.len()) == pat
}

/// `pat` occurs somewhere in `s`.
pub open spec fn occurs(s: Seq<u8>, pat: Seq<u8>) -> bool {
    exists|i: int| occurs_at(s, pat, i)
}

/// A string none of whose bytes is `pat`'s first byte holds no occurrence.
pub proof fn lemma_no_occ_first_byte(s: Seq<u8>, pat: Seq<u8>)
    requires
        pat.len() > 0,
        forall|j: int| 0 <= j < s.len() ==> s[j] != pat[0],
    ensures
        forall|i: int| !occurs_at(s, pat, i),
{
    assert forall|i: int| !occurs_at(s, pat, i) by {
        if occurs_at(s, pat, i) {
            assert(s.subrange(i, i + pat.len() as int)[0] == s[i]);
        }
    }
}

/// An occurrence within the left part of a concatenation is an occurrence
/// of the whole; same on the right, shifted.
pub proof fn lemma_occ_shift(a: Seq<u8>, b: Seq<u8>, pat: Seq<u8>, i: int)
    requires
        0 <= i,
    ensures
        i + pat.len() <= a.len() && occurs_at(a, pat, i) ==> occurs_at(a + b, pat, i),
        i < b.len() && occurs_at(b, pat, i) ==> occurs_at(a + b, pat, a.len() + i),
{
    if i + pat.len() <= a.len() && occurs_at(a, pat, i) {
        assert((a + b).subrange(i, i + pat.len() as int) =~= a.subrange(i, i + pat.len() as int));
    }
    if i < b.len() && occurs_at(b, pat, i) {
        assert((a + b).subrange(a.len() + i, a.len() + i + pat.len() as int) =~= b.subrange(
            i,
            i + pat.len() as int,
        ));
    }
}

/// In a concatenation whose left part ends with a byte that `pat` does not
/// contain, every occurrence lies wholly in one part.
pub proof fn lemma_occ_split(a: Seq<u8>, b: Seq<u8>, pat: Seq<u8>, i: int)
    requires
        pat.len() > 0,
        a.len() > 0 ==> a.last() == 10,
        forall|k: int| 0 <= k < pat.len() ==> pat[k] != 10,
        occurs_at(a + b, pat, i),
    ensures
        (i + pat.len() <= a.len() && occurs_at(a, pat, i)) || (i >= a.len() && occurs_at(
            b,
            pat,
            i - a.len(),
        )),
{
    let n = pat.len() as int;
    if i + n <= a.len() {
        assert(a.subrange(i, i + n) =~= (a + b).subrange(i, i + n));
    } else if i >= a.len() {
        assert(b.subrange(i - a.len(), i - a.len() + n) =~= (a + b).subrange(i, i + n));
    } else {
        // The occurrence would cover the left part's final byte.
        let j = a.len() - 1 - i;
        assert(0 <= j < n);
        assert((a + b).subrange(i, i + n)[j] == (a + b)[a.len() - 1]);
        assert((a + b)[a.len() - 1] == a.last());
        assert(pat[j] != 10);
    }
}

/// No occurrence in either part, and no crossing: none in the whole.
pub proof fn lemma_no_occ_concat(a: Seq<u8>, b: Seq<u8>, pat: Seq<u8>)
    requires
        pat.len() > 0,
        a.len() > 0 ==> a.last() == 10,
        forall|k: int| 0 <= k < pat.len() ==> pat[k] != 10,
        forall|i: int| !occurs_at(a, pat, i),
        forall|i: int| !occurs_at(b, pat, i),
    ensures
        forall|i: int| !occurs_at(a + b, pat, i),
{
    assert forall|i: int| !occurs_at(a + b, pat, i) by {
        if occurs_at(a + b, pat, i) {
            lemma_occ_split(a, b, pat, i);
        }
    }
}

/// A prefix free of `pat`'s first byte adds no occurrence.
pub proof fn lemma_no_occ_prefix(prefix: Seq<u8>, tail: Seq<u8>, pat: Seq<u8>)
    requires
        pat.len() > 0,
        forall|k: int| 0 <= k < prefix.len() ==> prefix[k] != pat[0],
        forall|i: int| !occurs_at(tail, pat, i),
    ensures
        forall|i: int| !occurs_at(prefix + tail, pat, i),
{
    assert forall|i: int| !occurs_at(prefix + tail, pat, i) by {
        if occurs_at(prefix + tail, pat, i) {
            let n = pat.len() as int;
            let s = prefix + tail;
            if i < prefix.len() {
                assert(s.subrange(i, i + n) == pat);
                assert(s.subrange(i, i + n)[0] == s[i]);
                assert(s[i] == prefix[i]);
                assert(prefix[i] != pat[0]);
                assert(pat[0] == s[i]);
            } else {
                assert(tail.subrange(i - prefix.len(), i - prefix.len() + n) =~= s.subrange(
                    i,
                    i + n,
                ));
                assert(occurs_at(tail, pat, i - prefix.len()));
            }
        }
    }
}

/// The single occurrence in the left part stays the single occurrence of
/// the whole when the right part holds none.
pub proof fn lemma_unique_occ_left(a: Seq<u8>, b: Seq<u8>, pat: Seq<u8>, k: int)
    requires
        pat.len() > 0,
        a.len() > 0 ==> a.last() == 10,
        forall|j: int| 0 <= j < pat.len() ==> pat[j] != 10,
        occurs_at(a, pat, k),
        forall|i: int| occurs_at(a, pat, i) ==> i == k,
        forall|i: int| !occurs_at(b, pat, i),
    ensures
        occurs_at(a + b, pat, k),
        forall|i: int| occurs_at(a + b, pat, i) ==> i == k,
{
    lemma_occ_shift(a, b, pat, k);
    assert forall|i: int| occurs_at(a + b, pat, i) implies i == k by {
        lemma_occ_split(a, b, pat, i);
    }
}

/// The single occurrence in the right part, shifted, is the single
/// occurrence of the whole when the left part holds none.
pub proof fn lemma_unique_occ_right(a: Seq<u8>, b: Seq<u8>, pat: Seq<u8>, k: int)
    requires
        pat.len() > 0,
        a.len() > 0 ==> a.last() == 10,
        forall|j: int| 0 <= j < pat.len() ==> pat[j] != 10,
        occurs_at(b, pat, k),
        forall|i: int| occurs_at(b, pat, i) ==> i == k,
        forall|i: int| !occurs_at(a, pat, i),
    ensures
        occurs_at(a + b, pat, a.len() + k),
        forall|i: int| occurs_at(a + b, pat, i) ==> i == a.len() + k,
{
    lemma_occ_shift(a, b, pat, k);
    assert forall|i: int| occurs_at(a + b, pat, i) implies i == a.len() + k by {
        lemma_occ_split(a, b, pat, i);
    }
}

} // verus!
