//! Trimming a path to its directory part: everything before the last
//! component and the slashes that follow it.

use vstd::prelude::*;
use vstd::string::*;
use crate::paths::{last_slash_before, lemma_last_slash_char, lemma_trail_end_char, trail_end};

verus! {

/// The position right after the last slash that still has a name after
/// it, or zero when the path holds no such slash: where the last path
/// component starts, trailing slashes not withstanding.
pub fn get_slash_index(s: &String) -> (r: usize)
    ensures
        r == last_slash_before(s@, trail_end(s@)),
        r <= trail_end(s@) <= s@.len(),
{
    let len = s.as_str().unicode_len();
    let mut trailing_slashes: usize = 0;
    let mut is_last = true;
    let mut k = len;
    while k > 0
        invariant
            0 <= k <= len,
            len == s@.len(),
            trailing_slashes <= len - k,
            forall|m: int| len - trailing_slashes <= m < len ==> s@[m] == '/',
            is_last <==> trailing_slashes == len - k,
            !is_last ==> len - trailing_slashes - 1 >= k && s@[len - trailing_slashes - 1] != '/',
            !is_last ==> forall|m: int| k <= m < len - trailing_slashes ==> s@[m] != '/',
        decreases k,
    {
        let c = s.as_str().get_char(k - 1);
        if c == '/' {
            if is_last {
                trailing_slashes = trailing_slashes + 1;
            } else {
                proof {
                    lemma_trail_end_char(s@, (len - trailing_slashes) as int);
                    lemma_last_slash_char(s@, (len - trailing_slashes) as int, k as int);
                }
                return k;
            }
        } else {
            is_last = false;
        }
        k = k - 1;
    }
    proof {
        lemma_trail_end_char(s@, (len - trailing_slashes) as int);
        lemma_last_slash_char(s@, (len - trailing_slashes) as int, 0);
    }
    0
}

/// The directory part of a path: what stands before the last component,
/// without the slash that separates the two; a single dot when the path
/// names no directory.
pub open spec fn dirname_spec(s: Seq<char>) -> Seq<char> {
    let i = last_slash_before(s, trail_end(s));
    if i == 0 {
        seq!['.']
    } else {
        s.subrange(0, i - 1)
    }
}

/// Trims a path to its directory part.
pub fn do_dirname(s: &String) -> (r: String)
    ensures
        r@ == dirname_spec(s@),
{
    let index = get_slash_index(s);
    if index == 0 {
        let r = String::from_str(".");
        proof {
            reveal_strlit(".");
            assert(r@ =~= seq!['.']);
        }
        r
    } else {
        s.as_str().substring_char(0, index - 1).to_owned()
    }
}

} // verus!
