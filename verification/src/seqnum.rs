//! Generating an arithmetic sequence of numbers, each written in decimal,
//! optionally padded with leading zeroes to a common width, and each
//! followed by a separator.

use vstd::prelude::*;
use vstd::string::*;
use crate::text::{i64_to_string, int_digits, push_char};

verus! {

/// `n` zero characters (none when `n` is not positive).
pub open spec fn pad_zeros(n: int) -> Seq<char> {
    Seq::new(
        (if n < 0 {
            0
        } else {
            n
        }) as nat,
        |x: int| '0',
    )
}

/// One record of the sequence: the number in decimal, padded with leading
/// zeroes to `width` places when `equal_width` asks for it (a number
/// already that wide gets no padding), and the separator after it.
pub open spec fn seq_entry(i: int, width: int, equal_width: bool, sep: Seq<char>) -> Seq<char> {
    (if equal_width {
        pad_zeros(width - int_digits(i).len()) + int_digits(i)
    } else {
        int_digits(i)
    }) + sep
}

/// The records for the numbers `first`, `first + inc`, ... up to `last`.
pub open spec fn seq_entries(
    first: int,
    inc: int,
    last: int,
    width: int,
    equal_width: bool,
    sep: Seq<char>,
) -> Seq<Seq<char>>
    decreases last + 1 - first,
    when inc >= 1 || first > last
{
    if first > last {
        Seq::<Seq<char>>::empty()
    } else if first + inc > last {
        seq![seq_entry(first, width, equal_width, sep)]
    } else {
        seq![seq_entry(first, width, equal_width, sep)] + seq_entries(
            first + inc,
            inc,
            last,
            width,
            equal_width,
            sep,
        )
    }
}

/// The common width the records are padded to: the wider of the two
/// endpoints' decimal forms.
pub open spec fn seq_width(first: int, last: int) -> int {
    if int_digits(first).len() >= int_digits(last).len() {
        int_digits(first).len() as int
    } else {
        int_digits(last).len() as int
    }
}

/// The records of one run: none when the increment points away from
/// `last`, else one per number from `first` up to `last`.
pub open spec fn print_seq_spec(
    first: int,
    inc: int,
    last: int,
    sep: Seq<char>,
    equal_width: bool,
) -> Seq<Seq<char>> {
    if ((last >= first) != (inc >= 0)) {
        Seq::<Seq<char>>::empty()
    } else {
        seq_entries(first, inc, last, seq_width(first, last), equal_width, sep)
    }
}

/// The number written in decimal, with the given width and padding rule,
/// and the separator after it.
fn render_entry(i: i64, width: usize, equal_width: bool, separator: &String) -> (r: String)
    requires
        i > i64::MIN,
    ensures
        r@ == seq_entry(i as int, width as int, equal_width, separator@),
{
    let digits = i64_to_string(i);
    let mut s = String::new();
    if equal_width {
        let digits_len = digits.as_str().unicode_len();
        let pad_n: usize = if width >= digits_len {
            width - digits_len
        } else {
            0
        };
        let mut p: usize = 0;
        while p < pad_n
            invariant
                0 <= p <= pad_n,
                s@ =~= pad_zeros(pad_n as int).take(p as int),
            decreases pad_n - p,
        {
            push_char(&mut s, '0');
            p = p + 1;
        }
        proof {
            assert(s@ =~= pad_zeros(width - int_digits(i as int).len()));
        }
    }
    s.append(digits.as_str());
    s.append(separator.as_str());
    proof {
        if !equal_width {
            assert(Seq::<char>::empty() + int_digits(i as int) =~= int_digits(i as int));
        }
    }
    s
}

/// Generates the sequence from `first` to `last` in steps of `inc`: one
/// record per number, in order, each ended by the separator. An increment
/// that leads away from `last` yields no records at all.
pub fn print_seq(first: i64, inc: i64, last: i64, separator: &String, equal_width: bool) -> (r: Vec<
    String,
>)
    requires
        inc != 0,
        -0x3fff_ffff_ffff_ffff <= first <= 0x3fff_ffff_ffff_ffff,
        -0x3fff_ffff_ffff_ffff <= inc <= 0x3fff_ffff_ffff_ffff,
        -0x3fff_ffff_ffff_ffff <= last <= 0x3fff_ffff_ffff_ffff,
    ensures
        r@.map_values(|t: String| t@) == print_seq_spec(
            first as int,
            inc as int,
            last as int,
            separator@,
            equal_width,
        ),
{
    let mut out: Vec<String> = Vec::new();
    if (last >= first) != (inc >= 0) {
        proof {
            assert(out@.map_values(|t: String| t@) =~= Seq::<Seq<char>>::empty());
        }
        return out;
    }
    let first_len = i64_to_string(first).as_str().unicode_len();
    let last_len = i64_to_string(last).as_str().unicode_len();
    let max_width: usize = if first_len >= last_len {
        first_len
    } else {
        last_len
    };
    if first > last {
        // An ascending sequence that is already past its end.
        proof {
            assert(out@.map_values(|t: String| t@) =~= Seq::<Seq<char>>::empty());
        }
        return out;
    }
    // Here first <= last and inc >= 1.
    let mut i: i64 = first;
    loop
        invariant
            first <= i,
            1 <= inc <= 0x3fff_ffff_ffff_ffff,
            -0x3fff_ffff_ffff_ffff <= first,
            first <= last <= 0x3fff_ffff_ffff_ffff,
            i <= last + inc,
            max_width as int == seq_width(first as int, last as int),
            seq_entries(first as int, inc as int, last as int, max_width as int, equal_width, separator@)
                == out@.map_values(|t: String| t@) + seq_entries(
                i as int,
                inc as int,
                last as int,
                max_width as int,
                equal_width,
                separator@,
            ),
        decreases last + inc - i,
    {
        if i > last {
            proof {
                assert(out@.map_values(|t: String| t@) + Seq::<Seq<char>>::empty() =~= out@.map_values(
                    |t: String| t@,
                ));
            }
            return out;
        }
        let entry = render_entry(i, max_width, equal_width, separator);
        proof {
            let done = out@.map_values(|t: String| t@);
            let here = seq_entries(
                i as int,
                inc as int,
                last as int,
                max_width as int,
                equal_width,
                separator@,
            );
            let next = seq_entries(
                i + inc,
                inc as int,
                last as int,
                max_width as int,
                equal_width,
                separator@,
            );
            if i + inc > last {
                assert(next =~= Seq::<Seq<char>>::empty());
                assert(here == seq![seq_entry(i as int, max_width as int, equal_width, separator@)]
                    + next) by {
                    assert(seq![seq_entry(i as int, max_width as int, equal_width, separator@)]
                        + Seq::<Seq<char>>::empty() =~= seq![
                        seq_entry(i as int, max_width as int, equal_width, separator@),
                    ]);
                }
            }
            assert(out@.push(entry).map_values(|t: String| t@) =~= done.push(entry@));
            assert(done + (seq![entry@] + next) =~= done.push(entry@) + next);
        }
        out.push(entry);
        i = i + inc;
    }
}

} // verus!
