//! The positions in a path that the name trimmers work from: where the
//! block of trailing slashes starts, and where the last path component
//! begins.

use vstd::prelude::*;

verus! {

/// Where the block of slashes that ends the path starts: the position
/// after the last character that is not a slash (the length itself when
/// the path does not end in a slash; zero on an all-slash or empty path).
pub open spec fn trail_end(s: Seq<char>) -> int
    decreases s.len(),
{
    if s.len() == 0 {
        0
    } else if s.last() == '/' {
        trail_end(s.drop_last())
    } else {
        s.len() as int
    }
}

/// The position right after the last slash strictly before `e`, or zero
/// when no slash stands before `e`.
pub open spec fn last_slash_before(s: Seq<char>, e: int) -> int
    decreases e,
    when 0 <= e <= s.len()
{
    if e == 0 {
        0
    } else if s[e - 1] == '/' {
        e
    } else {
        last_slash_before(s, e - 1)
    }
}

/// A position after which only slashes stand, and which no slash directly
/// precedes, is where the trailing block starts.
pub(crate) proof fn lemma_trail_end_char(s: Seq<char>, e: int)
    requires
        0 <= e <= s.len(),
        forall|m: int| e <= m < s.len() ==> s[m] == '/',
        e == 0 || s[e - 1] != '/',
    ensures
        trail_end(s) == e,
    decreases s.len(),
{
    if s.len() == 0 {
    } else if s.last() == '/' {
        assert(e < s.len());
        lemma_trail_end_char(s.drop_last(), e);
    } else {
        assert(e == s.len());
    }
}

/// A position that a slash directly precedes (or the start of the path),
/// with no slash between it and `e`, is where the last component before
/// `e` begins.
pub(crate) proof fn lemma_last_slash_char(s: Seq<char>, e: int, start: int)
    requires
        0 <= start <= e <= s.len(),
        start == 0 || s[start - 1] == '/',
        forall|m: int| start <= m < e ==> s[m] != '/',
    ensures
        last_slash_before(s, e) == start,
    decreases e,
{
    if e == 0 {
    } else if s[e - 1] == '/' {
        assert(start == e);
    } else {
        assert(start < e);
        lemma_last_slash_char(s, e - 1, start);
    }
}

} // verus!
