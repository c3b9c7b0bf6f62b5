//! Trimming a path to its last component, with an optional suffix
//! removed.

use vstd::prelude::*;
use vstd::string::*;
use crate::paths::{last_slash_before, lemma_last_slash_char, lemma_trail_end_char, trail_end};

verus! {

/// The position right after the last slash of the path, or zero when the
/// path holds no slash: where the name after the last slash starts.
pub fn get_slash_index(s: &String) -> (r: usize)
    ensures
        r == last_slash_before(s@, s@.len() as int),
{
    let len = s.as_str().unicode_len();
    let mut k = len;
    while k > 0
        invariant
            0 <= k <= len,
            len == s@.len(),
            forall|m: int| k <= m < s@.len() ==> s@[m] != '/',
        decreases k,
    {
        if s.as_str().get_char(k - 1) == '/' {
            proof {
                lemma_last_slash_char(s@, s@.len() as int, k as int);
            }
            return k;
        }
        k = k - 1;
    }
    proof {
        lemma_last_slash_char(s@, s@.len() as int, 0);
    }
    0
}

/// The bounds of the last path component: where it starts (right after
/// the last slash that still has a name after it) and where it ends (at
/// the block of trailing slashes). An all-slash path yields the empty
/// range at position zero.
pub fn get_slash_indexes(s: &String) -> (r: (usize, usize))
    ensures
        r.1 == trail_end(s@),
        r.0 == last_slash_before(s@, trail_end(s@)),
        r.0 <= r.1 <= s@.len(),
{
    let len = s.as_str().unicode_len();
    let mut trailing_slashes: usize = 0;
    let mut is_last = true;
    let mut k = len;
    while k > 0
        invariant
            0 <= k <= len,
            len == s@.len(),
            trailing_slashes <= len - k,
            forall|m: int| len - trailing_slashes <= m < len ==> s@[m] == '/',
            is_last <==> trailing_slashes == len - k,
            !is_last ==> len - trailing_slashes - 1 >= k && s@[len - trailing_slashes - 1] != '/',
            !is_last ==> forall|m: int| k <= m < len - trailing_slashes ==> s@[m] != '/',
        decreases k,
    {
        let c = s.as_str().get_char(k - 1);
        if c == '/' {
            if is_last {
                trailing_slashes = trailing_slashes + 1;
            } else {
                proof {
                    lemma_trail_end_char(s@, (len - trailing_slashes) as int);
                    lemma_last_slash_char(s@, (len - trailing_slashes) as int, k as int);
                }
                return (k, len - trailing_slashes);
            }
        } else {
            is_last = false;
        }
        k = k - 1;
    }
    proof {
        lemma_trail_end_char(s@, (len - trailing_slashes) as int);
        lemma_last_slash_char(s@, (len - trailing_slashes) as int, 0);
    }
    return (0, len - trailing_slashes);
}

/// The last component of a path, with the given suffix stripped when the
/// component is at least as long as the suffix and ends in it.
pub open spec fn basename_spec(w: Seq<char>, suffix: Seq<char>) -> Seq<char> {
    let sl = w.subrange(last_slash_before(w, trail_end(w)), trail_end(w));
    if suffix.len() <= sl.len() && sl.skip(sl.len() - suffix.len()) == suffix {
        sl.take(sl.len() - suffix.len())
    } else {
        sl
    }
}

/// Trims a path to its last component and strips the suffix from it when
/// the component ends in the suffix.
pub fn basename_of(word: &String, suffix: &String) -> (r: String)
    ensures
        r@ == basename_spec(word@, suffix@),
{
    let (index1, index2) = get_slash_indexes(word);
    let sliced = word.as_str().substring_char(index1, index2);
    let sliced_len = sliced.unicode_len();
    let suffix_len = suffix.as_str().unicode_len();
    if suffix_len <= sliced_len {
        let match_index = sliced_len - suffix_len;
        let match_str = sliced.substring_char(match_index, sliced_len).to_owned();
        if match_str == *suffix {
            proof {
                assert(sliced@.subrange(match_index as int, sliced_len as int) =~= sliced@.skip(
                    sliced@.len() - suffix@.len(),
                ));
                assert(sliced@.subrange(0, match_index as int) =~= sliced@.take(
                    sliced@.len() - suffix@.len(),
                ));
            }
            return sliced.substring_char(0, match_index).to_owned();
        }
        proof {
            assert(sliced@.subrange(match_index as int, sliced_len as int) =~= sliced@.skip(
                sliced@.len() - suffix@.len(),
            ));
        }
        sliced.to_owned()
    } else {
        sliced.to_owned()
    }
}

} // verus!
