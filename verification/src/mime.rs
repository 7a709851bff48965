//! Type identifiers: the fallback types, the types that are tested first,
//! and the top-level segment of an identifier.

use vstd::prelude::*;
use vstd::string::*;

verus! {

/// Whether two strings hold the same characters.
pub fn same_text(a: &str, b: &str) -> (r: bool)
    ensures
        r == (a@ == b@),
{
    let n = a.unicode_len();
    if n != b.unicode_len() {
        return false;
    }
    let mut i: usize = 0;
    while i < n
        invariant
            n == a@.len(),
            n == b@.len(),
            i <= n,
            a@.take(i as int) == b@.take(i as int),
        decreases n - i,
    {
        if a.get_char(i) != b.get_char(i) {
            proof {
                assert(a@[i as int] != b@[i as int]);
            }
            return false;
        }
        proof {
            assert(a@.take(i + 1) == a@.take(i as int).push(a@[i as int]));
            assert(b@.take(i + 1) == b@.take(i as int).push(b@[i as int]));
        }
        i += 1;
    }
    proof {
        assert(a@.take(n as int) == a@);
        assert(b@.take(n as int) == b@);
    }
    true
}

/// Whether `t` is one of the four fallback types, which every hierarchy
/// holds.
pub open spec fn is_fallback(t: Seq<char>) -> bool {
    t == "all/all"@ || t == "all/allfiles"@ || t == "text/plain"@ || t
        == "application/octet-stream"@
}

/// Whether `segment` is the top-level segment of `t`: what stands before
/// the first `/`, or all of `t` where it holds none.
pub open spec fn is_top_level_of(segment: Seq<char>, t: Seq<char>) -> bool {
    &&& !segment.contains('/')
    &&& segment.len() <= t.len()
    &&& t.take(segment.len() as int) == segment
    &&& (t.len() == segment.len() || t[segment.len() as int] == '/')
}

/// The fallback type under which a type without a declared parent is put:
/// `text/plain` for the top-level segment `text`, `all/all` for `inode`,
/// and `application/octet-stream` for every other.
pub open spec fn fallback_parent(t: Seq<char>) -> Seq<char> {
    if is_top_level_of("text"@, t) {
        "text/plain"@
    } else if is_top_level_of("inode"@, t) {
        "all/all"@
    } else {
        "application/octet-stream"@
    }
}

/// The place of `t` among the types that are tested first, or 6 for a type
/// that is not one of them.
pub open spec fn rank_of(t: Seq<char>) -> nat {
    if t == "image/png"@ {
        0
    } else if t == "image/jpeg"@ {
        1
    } else if t == "image/gif"@ {
        2
    } else if t == "application/zip"@ {
        3
    } else if t == "application/x-msdos-executable"@ {
        4
    } else if t == "application/pdf"@ {
        5
    } else {
        6
    }
}

/// Computes `rank_of`.
pub fn rank(t: &str) -> (r: usize)
    ensures
        r == rank_of(t@),
{
    if same_text(t, "image/png") {
        0
    } else if same_text(t, "image/jpeg") {
        1
    } else if same_text(t, "image/gif") {
        2
    } else if same_text(t, "application/zip") {
        3
    } else if same_text(t, "application/x-msdos-executable") {
        4
    } else if same_text(t, "application/pdf") {
        5
    } else {
        6
    }
}

/// Decides `is_fallback`.
pub fn fallback(t: &str) -> (r: bool)
    ensures
        r == is_fallback(t@),
{
    same_text(t, "all/all") || same_text(t, "all/allfiles") || same_text(t, "text/plain")
        || same_text(t, "application/octet-stream")
}

/// Decides `is_top_level_of`.
pub fn has_top_level(t: &str, segment: &str) -> (r: bool)
    ensures
        r == is_top_level_of(segment@, t@),
{
    let n = t.unicode_len();
    let m = segment.unicode_len();
    if n < m {
        return false;
    }
    let mut i: usize = 0;
    while i < m
        invariant
            n == t@.len(),
            m == segment@.len(),
            m <= n,
            i <= m,
            t@.take(i as int) == segment@.take(i as int),
            forall|k: int| 0 <= k < i ==> segment@[k] != '/',
        decreases m - i,
    {
        let c = segment.get_char(i);
        if c == '/' {
            proof {
                assert(segment@.contains('/'));
            }
            return false;
        }
        if t.get_char(i) != c {
            proof {
                assert(t@.take(m as int)[i as int] == t@[i as int]);
            }
            return false;
        }
        proof {
            assert(t@.take(i + 1) == t@.take(i as int).push(t@[i as int]));
            assert(segment@.take(i + 1) == segment@.take(i as int).push(segment@[i as int]));
        }
        i += 1;
    }
    proof {
        assert(segment@.take(m as int) == segment@);
    }
    n == m || t.get_char(m) == '/'
}

/// Whether the top-level segment of `t` is `text`.
pub fn is_text(t: &str) -> (r: bool)
    ensures
        r == is_top_level_of("text"@, t@),
{
    has_top_level(t, "text")
}

/// Whether the top-level segment of `t` is `inode`.
pub fn is_inode(t: &str) -> (r: bool)
    ensures
        r == is_top_level_of("inode"@, t@),
{
    has_top_level(t, "inode")
}

} // verus!
