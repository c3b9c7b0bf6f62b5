//! Parsing a sleep interval: a number of days, hours, minutes or seconds
//! (seconds when no unit letter ends it), turned into milliseconds.

use vstd::prelude::*;
use vstd::string::*;

verus! {

/// Whether a character is a decimal digit.
pub open spec fn is_digit(c: char) -> bool {
    48 <= (c as u32) <= 57
}

/// The value of one decimal digit character.
pub open spec fn digit_val(c: char) -> nat {
    ((c as u32) - 48) as nat
}

/// The value of a string of decimal digits, most significant first.
pub open spec fn digits_val(s: Seq<char>) -> nat
    decreases s.len(),
{
    if s.len() == 0 {
        0
    } else {
        digits_val(s.drop_last()) * 10 + digit_val(s.last())
    }
}

/// Whether a string is one or more decimal digits and nothing else.
pub open spec fn all_digits(s: Seq<char>) -> bool {
    s.len() > 0 && forall|m: int| 0 <= m < s.len() ==> is_digit(#[trigger] s[m])
}

/// The milliseconds that the unit letter ending an interval stands for:
/// days, hours, minutes or seconds; a missing letter means seconds, and
/// the whole string is then the number.
pub open spec fn unit_of(s: Seq<char>) -> (Seq<char>, nat) {
    let last = s.last();
    if last == 'd' {
        (s.drop_last(), 24 * 60 * 60 * 1000nat)
    } else if last == 'h' {
        (s.drop_last(), 60 * 60 * 1000nat)
    } else if last == 'm' {
        (s.drop_last(), 60 * 1000nat)
    } else if last == 's' {
        (s.drop_last(), 1000nat)
    } else {
        (s, 1000nat)
    }
}

/// The milliseconds an interval string stands for: its number times its
/// unit; nothing when the number part is not all digits or the result
/// does not fit.
pub open spec fn sleep_spec(s: Seq<char>) -> Option<u64> {
    let (num, mult) = unit_of(s);
    if all_digits(num) && digits_val(num) * mult <= u64::MAX {
        Some((digits_val(num) * mult) as u64)
    } else {
        None
    }
}

/// A longer digit string never stands for a smaller number.
proof fn lemma_digits_val_prefix(s: Seq<char>, k: int)
    requires
        0 <= k <= s.len(),
    ensures
        digits_val(s) >= digits_val(s.take(k)),
    decreases s.len() - k,
{
    if k < s.len() {
        lemma_digits_val_prefix(s, k + 1);
        assert(s.take(k + 1).drop_last() =~= s.take(k));
        assert(digits_val(s.take(k + 1)) >= digits_val(s.take(k)));
    } else {
        assert(s.take(k) =~= s);
    }
}

/// Parses an interval into milliseconds: the digits, times the unit its
/// final letter names (seconds when there is none). Anything that is not
/// digits before the unit, and any value beyond the range of the result,
/// is rejected.
pub fn parse_duration(time_str: &str) -> (r: Option<u64>)
    requires
        time_str@.len() >= 1,
    ensures
        r == sleep_spec(time_str@),
{
    let len = time_str.unicode_len();
    let last_char = time_str.get_char(len - 1);
    let (hi, multiplier): (usize, u64) = match last_char {
        'd' => (len - 1, 24 * 60 * 60 * 1000),
        'h' => (len - 1, 60 * 60 * 1000),
        'm' => (len - 1, 60 * 1000),
        's' => (len - 1, 1000),
        _ => (len, 1000),
    };
    let ghost num = unit_of(time_str@).0;
    proof {
        assert(time_str@.drop_last() =~= time_str@.take(len - 1));
        assert(time_str@.take(len as int) =~= time_str@);
        assert(num == time_str@.take(hi as int));
        assert(multiplier as nat == unit_of(time_str@).1);
    }
    if hi == 0 {
        return None;
    }
    let mut acc: u64 = 0;
    let mut k: usize = 0;
    while k < hi
        invariant
            0 <= k <= hi <= time_str@.len(),
            num == unit_of(time_str@).0,
            num == time_str@.take(hi as int),
            forall|m: int| 0 <= m < k ==> is_digit(#[trigger] time_str@[m]),
            acc as nat == digits_val(time_str@.take(k as int)),
            multiplier >= 1,
            multiplier as nat == unit_of(time_str@).1,
        decreases hi - k,
    {
        let c = time_str.get_char(k);
        let cv = c as u32;
        if cv < 48 || cv > 57 {
            proof {
                assert(num[k as int] == time_str@[k as int]);
                assert(!is_digit(num[k as int]));
            }
            return None;
        }
        let d = (cv - 48) as u64;
        if acc > (u64::MAX - d) / 10 {
            proof {
                assert(time_str@.take(k as int + 1).drop_last() =~= time_str@.take(k as int));
                assert(time_str@.take(k as int + 1).last() == time_str@[k as int]);
                assert(digits_val(time_str@.take(k as int + 1)) == acc as nat * 10 + d);
                assert(acc as nat * 10 + d > u64::MAX) by (nonlinear_arith)
                    requires
                        acc > (u64::MAX - d) / 10,
                        d <= 9,
                ;
                lemma_digits_val_prefix(num, k as int + 1);
                assert(num.take(k as int + 1) =~= time_str@.take(k as int + 1));
                assert(digits_val(num) * multiplier as nat >= digits_val(num) * 1)
                    by (nonlinear_arith)
                    requires
                        multiplier >= 1,
                ;
            }
            return None;
        }
        proof {
            assert(time_str@.take(k as int + 1).drop_last() =~= time_str@.take(k as int));
            assert(time_str@.take(k as int + 1).last() == time_str@[k as int]);
            assert(acc * 10 + d <= u64::MAX) by (nonlinear_arith)
                requires
                    acc <= (u64::MAX - d) / 10,
                    d <= 9,
            ;
        }
        acc = acc * 10 + d;
        k = k + 1;
    }
    proof {
        assert(num =~= time_str@.take(hi as int));
        assert(all_digits(num));
        assert(acc as nat == digits_val(num));
    }
    if acc > u64::MAX / multiplier {
        proof {
            assert(acc as nat * multiplier as nat > u64::MAX) by (nonlinear_arith)
                requires
                    acc > u64::MAX / multiplier,
                    multiplier >= 1,
            ;
        }
        return None;
    }
    proof {
        assert(acc as nat * multiplier as nat <= u64::MAX) by (nonlinear_arith)
            requires
                acc <= u64::MAX / multiplier,
                multiplier >= 1,
        ;
    }
    Some(acc * multiplier)
}

} // verus!
