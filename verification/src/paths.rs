//! Path rules: finding delimiters, taking a path's final segment, and the
//! exclusion rule for reserved or hidden names.
//!
//! Only a path's final segment is ever inspected: a hidden file nested under
//! a non-hidden parent is still visited, and only a hidden or reserved leaf
//! excludes the subtree rooted there.

use vstd::prelude::*;
use vstd::slice::slice_subrange;

verus! {

/// The first position of `b` in `s`, or the length if `b` does not occur.
pub open spec fn find_byte(s: Seq<u8>, b: u8) -> int
    decreases s.len(),
{
    if s.len() == 0 {
        0
    } else if s[0] == b {
        0
    } else {
        1 + find_byte(s.drop_first(), b)
    }
}

/// `find_byte` is the first occurrence, or the length.
pub proof fn lemma_find_byte(s: Seq<u8>, b: u8)
    ensures
        0 <= find_byte(s, b) <= s.len(),
        find_byte(s, b) < s.len() ==> s[find_byte(s, b)] == b,
        forall|i: int| 0 <= i < find_byte(s, b) ==> s[i] != b,
    decreases s.len(),
{
    if s.len() > 0 && s[0] != b {
        lemma_find_byte(s.drop_first(), b);
        assert forall|i: int| 0 <= i < find_byte(s, b) implies s[i] != b by {
            if i > 0 {
                assert(s.drop_first()[i - 1] == s[i]);
            }
        }
    }
}

/// A position that is the first occurrence (or the length, if there is no
/// occurrence) is what `find_byte` returns.
pub proof fn lemma_find_byte_is(s: Seq<u8>, b: u8, i: int)
    requires
        0 <= i <= s.len(),
        forall|j: int| 0 <= j < i ==> s[j] != b,
        i < s.len() ==> s[i] == b,
    ensures
        find_byte(s, b) == i,
{
    lemma_find_byte(s, b);
    let f = find_byte(s, b);
    if f < i {
        assert(s[f] != b);
        assert(s[f] == b);
    }
    if f > i {
        assert(i < s.len());
        assert(s[i] != b);
    }
}

/// Scan for the first occurrence of `b`.
pub fn scan_byte(s: &[u8], b: u8) -> (r: usize)
    ensures
        r == find_byte(s@, b),
        r <= s@.len(),
{
    let mut i: usize = 0;
    while i < s.len()
        invariant
            i <= s@.len(),
            forall|j: int| 0 <= j < i ==> s@[j] != b,
        decreases s@.len() - i,
    {
        if s[i] == b {
            proof {
                lemma_find_byte_is(s@, b, i as int);
            }
            return i;
        }
        i = i + 1;
    }
    proof {
        lemma_find_byte_is(s@, b, s@.len() as int);
    }
    i
}

/// The position of the last slash in `p`, or `-1` if there is none.
pub open spec fn last_slash(p: Seq<u8>) -> int
    decreases p.len(),
{
    if p.len() == 0 {
        -1
    } else if p[p.len() - 1] == 47 {
        p.len() - 1
    } else {
        last_slash(p.drop_last())
    }
}

/// `last_slash` is the last occurrence, or `-1`.
pub proof fn lemma_last_slash(p: Seq<u8>)
    ensures
        -1 <= last_slash(p) < p.len(),
        last_slash(p) >= 0 ==> p[last_slash(p)] == 47,
        forall|j: int| last_slash(p) < j < p.len() ==> p[j] != 47,
    decreases p.len(),
{
    if p.len() > 0 && p[p.len() - 1] != 47 {
        lemma_last_slash(p.drop_last());
        assert forall|j: int| last_slash(p) < j < p.len() implies p[j] != 47 by {
            if j < p.len() - 1 {
                assert(p.drop_last()[j] == p[j]);
            }
        }
    }
}

/// The final segment of a path: everything after the last slash.
pub open spec fn leaf_spec(p: Seq<u8>) -> Seq<u8> {
    p.skip(last_slash(p) + 1)
}

/// Where the final segment starts.
pub fn leaf_start(p: &[u8]) -> (r: usize)
    ensures
        r == last_slash(p@) + 1,
        r <= p@.len(),
{
    let mut i: usize = p.len();
    while i > 0
        invariant
            i <= p@.len(),
            forall|j: int| i <= j < p@.len() ==> p@[j] != 47,
        decreases i,
    {
        if p[i - 1] == 47 {
            proof {
                lemma_last_slash(p@);
                let l = last_slash(p@);
                assert(p@[i - 1] == 47);
                if l < i - 1 {
                    assert(p@[i - 1] != 47);
                }
                if l > i - 1 {
                    assert(p@[l] == 47);
                    assert(p@[l] != 47);
                }
            }
            return i;
        }
        i = i - 1;
    }
    proof {
        lemma_last_slash(p@);
        let l = last_slash(p@);
        if l >= 0 {
            assert(p@[l] == 47);
            assert(p@[l] != 47);
        }
    }
    0
}

/// The final segment of a path.
pub fn leaf_of<'a>(p: &'a [u8]) -> (r: &'a [u8])
    ensures
        r@ == leaf_spec(p@),
{
    let start = leaf_start(p);
    let r = slice_subrange(p, start, p.len());
    proof {
        assert(r@ =~= leaf_spec(p@));
    }
    r
}

/// The reserved control-directory name, as bytes: `"rit"`.
pub open spec fn reserved_name() -> Seq<u8> {
    seq![114u8, 105u8, 116u8]
}

/// The exclusion rule on a final path segment: the reserved name, or a name
/// that starts with the hidden-file marker `.`.
pub open spec fn rejected_leaf(name: Seq<u8>) -> bool {
    name == reserved_name() || (name.len() > 0 && name[0] == 46)
}

/// Apply the exclusion rule to a final segment.
pub fn leaf_rejected(name: &[u8]) -> (r: bool)
    ensures
        r == rejected_leaf(name@),
{
    if name.len() > 0 && name[0] == 46 {
        return true;
    }
    if name.len() == 3 && name[0] == 114 && name[1] == 105 && name[2] == 116 {
        proof {
            assert(name@ =~= reserved_name());
        }
        return true;
    }
    proof {
        if name@ == reserved_name() {
            assert(name@.len() == 3);
            assert(name@[0] == 114 && name@[1] == 105 && name@[2] == 116);
        }
    }
    false
}

/// The exclusion rule applied to a whole path: only its final segment is
/// inspected.
pub open spec fn path_rejected(p: Seq<u8>) -> bool {
    rejected_leaf(leaf_spec(p))
}

/// Whether a path's final segment is excluded.
pub fn path_is_rejected(p: &[u8]) -> (r: bool)
    ensures
        r == path_rejected(p@),
{
    leaf_rejected(leaf_of(p))
}

} // verus!
