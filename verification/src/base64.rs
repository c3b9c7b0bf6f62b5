//! Base64 coding: six-bit groups written with the 64-character alphabet
//! `A`..`Z`, `a`..`z`, `0`..`9`, `+`, `/`, padded with `=` to a multiple
//! of four characters.

use vstd::prelude::*;
use vstd::arithmetic::power2::{lemma2_to64, lemma_pow2_unfold, pow2};

verus! {

/// A byte of the input that is not part of the alphabet.
#[derive(Clone, Copy, PartialEq, Eq, Structural, Debug)]
pub enum InputErr {
    InvalidCharacter,
}

/// The alphabet character (as a byte) for one six-bit value: letters for
/// 0 to 51, digits for 52 to 61, then `+` and `/`. Values above 63 are
/// written like 63.
pub open spec fn encode_byte_spec(b: u8) -> u8 {
    if b <= 25 {
        (b + 65) as u8
    } else if b <= 51 {
        (b + 71) as u8
    } else if b <= 61 {
        (b - 4) as u8
    } else if b == 62 {
        43
    } else {
        47
    }
}

/// Whether a byte is an alphabet character.
pub open spec fn decode_ok(b: u8) -> bool {
    (65 <= b <= 90) || (97 <= b <= 122) || (48 <= b <= 57) || b == 43 || b == 47
}

/// The six-bit value of an alphabet character.
pub open spec fn decode_val(b: u8) -> u8 {
    if 65 <= b <= 90 {
        (b - 65) as u8
    } else if 97 <= b <= 122 {
        (b - 71) as u8
    } else if 48 <= b <= 57 {
        (b + 4) as u8
    } else if b == 43 {
        62
    } else {
        63
    }
}

/// Maps a six-bit value to its alphabet character.
pub fn encode_byte(b: u8) -> (r: u8)
    ensures
        r == encode_byte_spec(b),
{
    if b <= 25 {
        b + 65
    } else if b <= 51 {
        b + (97 - 26)
    } else if b <= 61 {
        b - 4
    } else if b == 62 {
        43
    } else {
        47
    }
}

/// Maps an alphabet character back to its six-bit value; any byte outside
/// the alphabet is an error.
pub fn decode_byte(b: u8) -> (r: Result<u8, InputErr>)
    ensures
        match r {
            Ok(v) => decode_ok(b) && v == decode_val(b) && v < 64,
            Err(e) => !decode_ok(b) && e == InputErr::InvalidCharacter,
        },
{
    if b >= 65 && b <= 90 {
        Ok(b - 65)
    } else if b >= 97 && b <= 122 {
        Ok((b - 97) + 26)
    } else if b >= 48 && b <= 57 {
        Ok((b - 48) + 52)
    } else if b == 43 {
        Ok(62)
    } else if b == 47 {
        Ok(63)
    } else {
        Err(InputErr::InvalidCharacter)
    }
}

/// The binary digits of `v`, most significant first, written on `len`
/// places: the digit characters of `v` modulo two to the `len`.
pub open spec fn bin_seq(v: nat, len: nat) -> Seq<char>
    decreases len,
{
    if len == 0 {
        Seq::<char>::empty()
    } else {
        bin_seq(v / 2, (len - 1) as nat).push(
            if v % 2 == 1 {
                '1'
            } else {
                '0'
            },
        )
    }
}

/// Writes a byte as a binary string of the given width, most significant
/// bit first, truncating bits beyond the width.
pub fn to_binary_string(b: u8, len: usize) -> (r: String)
    ensures
        r@ == bin_seq(b as nat, len as nat),
{
    let mut digits: Vec<char> = Vec::new();
    let mut i = b;
    let mut t: usize = 0;
    proof {
        assert(bin_seq(b as nat, len as nat) == bin_seq(i as nat, (len - t) as nat)
            + digits@.reverse()) by {
            assert(digits@.reverse() =~= Seq::<char>::empty());
            assert(bin_seq(b as nat, len as nat) + Seq::<char>::empty() =~= bin_seq(
                b as nat,
                len as nat,
            ));
        }
    }
    while t < len
        invariant
            0 <= t <= len,
            digits@.len() == t,
            bin_seq(b as nat, len as nat) == bin_seq(i as nat, (len - t) as nat)
                + digits@.reverse(),
        decreases len - t,
    {
        let cur = i % 2;
        let c: char = if cur == 1 {
            '1'
        } else {
            '0'
        };
        proof {
            assert(digits@.push(c).reverse() =~= seq![c] + digits@.reverse());
            assert(bin_seq(i as nat, (len - t) as nat) == bin_seq(
                (i / 2) as nat,
                (len - t - 1) as nat,
            ).push(c));
            assert(bin_seq((i / 2) as nat, (len - t - 1) as nat).push(c) + digits@.reverse()
                =~= bin_seq((i / 2) as nat, (len - t - 1) as nat) + (seq![c] + digits@.reverse()));
        }
        digits.push(c);
        i = i / 2;
        t = t + 1;
    }
    proof {
        assert(bin_seq(i as nat, 0) =~= Seq::<char>::empty());
        assert(Seq::<char>::empty() + digits@.reverse() =~= digits@.reverse());
    }
    let mut r = String::new();
    let mut m: usize = 0;
    while m < len
        invariant
            0 <= m <= len,
            digits@.len() == len,
            r@.len() == m,
            forall|x: int| 0 <= x < m ==> r@[x] == digits@[len - 1 - x],
        decreases len - m,
    {
        crate::text::push_char(&mut r, digits[len - 1 - m]);
        m = m + 1;
    }
    proof {
        assert(r@ =~= digits@.reverse());
    }
    r
}

/// The value of the binary digits (the bytes `0` and `1`) between the two
/// positions, most significant first.
pub open spec fn group_val(bc: Seq<u8>, lo: int, hi: int) -> nat
    decreases hi - lo,
    when 0 <= lo <= hi <= bc.len()
{
    if lo == hi {
        0
    } else {
        group_val(bc, lo, (hi - 1)) * 2 + (if bc[hi - 1] == 49 {
            1nat
        } else {
            0nat
        })
    }
}

/// The value of the group of digits that ends `g` groups of width `len`
/// before the end of the digit string.
pub open spec fn group_of(bc: Seq<u8>, len: int, g: int) -> nat {
    let rem = bc.len() as int % len;
    group_val(bc, rem + g * len, rem + (g + 1) * len)
}

/// The character `c` is some result of `f` on the value of the `g`-th
/// digit group of `bc`.
pub open spec fn maps_group<F: Fn(u8) -> u8>(f: F, bc: Seq<u8>, len: int, g: int, c: char) -> bool {
    exists|v: u8|
        #[trigger] call_ensures(f, ((group_of(bc, len, g) as u8),), v) && c == (v as char)
}

/// Reads a string of binary digit bytes in groups of `len` bits, from the
/// right (a leading remainder of fewer than `len` digits is dropped),
/// maps each group's value through `f`, and writes each result as one
/// character.
pub fn binary_to_chars<F: Fn(u8) -> u8>(binary_chars: Vec<u8>, len: usize, f: F) -> (r: String)
    requires
        1 <= len <= 8,
        forall|m: int|
            0 <= m < binary_chars@.len() ==> binary_chars@[m] == 48 || binary_chars@[m] == 49,
        forall|u: u8| #[trigger] call_requires(f, (u,)),
    ensures
        r@.len() == binary_chars@.len() as int / len as int,
        forall|g: int|
            0 <= g < r@.len() ==> maps_group(f, binary_chars@, len as int, g, #[trigger] r@[g]),
{
    let rem = binary_chars.len() % len;
    let n_groups = binary_chars.len() / len;
    proof {
        vstd::arithmetic::div_mod::lemma_fundamental_div_mod(
            binary_chars@.len() as int,
            len as int,
        );
        assert(len as int * (n_groups as int) == (n_groups as int) * (len as int))
            by (nonlinear_arith);
    }
    let mut r = String::new();
    let mut g: usize = 0;
    let mut start: usize = rem;
    while g < n_groups
        invariant
            0 <= g <= n_groups,
            1 <= len <= 8,
            rem == binary_chars@.len() as int % len as int,
            n_groups == binary_chars@.len() as int / len as int,
            rem + n_groups * len == binary_chars@.len(),
            binary_chars@.len() <= usize::MAX,
            start as int == rem + g * len,
            forall|m: int|
                0 <= m < binary_chars@.len() ==> binary_chars@[m] == 48 || binary_chars@[m] == 49,
            forall|u: u8| #[trigger] call_requires(f, (u,)),
            r@.len() == g,
            forall|x: int|
                0 <= x < g ==> maps_group(f, binary_chars@, len as int, x, #[trigger] r@[x]),
        decreases n_groups - g,
    {
        proof {
            assert((g + 1) * len <= n_groups * len) by (nonlinear_arith)
                requires
                    0 <= g < n_groups,
                    1 <= len,
            ;
            assert((g + 1) * len == g * len + len) by (nonlinear_arith);
            assert(start + len <= binary_chars@.len());
        }
        let mut buf: u8 = 0;
        let mut j: usize = 0;
        proof {
            lemma2_to64();
        }
        while j < len
            invariant
                0 <= j <= len <= 8,
                start + len <= binary_chars@.len(),
                binary_chars@.len() <= usize::MAX,
                forall|m: int|
                    0 <= m < binary_chars@.len() ==> binary_chars@[m] == 48 || binary_chars@[m]
                        == 49,
                buf as nat == group_val(binary_chars@, start as int, start + j),
                buf < pow2(j as nat),
            decreases len - j,
        {
            proof {
                lemma_pow2_unfold((j + 1) as nat);
                if j + 1 < 8 {
                    vstd::arithmetic::power2::lemma_pow2_strictly_increases((j + 1) as nat, 8);
                }
                lemma2_to64();
            }
            let d = binary_chars[start + j];
            buf = buf * 2 + (d - 48);
            j = j + 1;
        }
        let v = f(buf);
        proof {
            assert(buf as nat == group_of(binary_chars@, len as int, g as int));
            assert(call_ensures(f, ((group_of(binary_chars@, len as int, g as int) as u8),), v));
            assert(maps_group(f, binary_chars@, len as int, g as int, v as char));
        }
        crate::text::push_char(&mut r, v as char);
        g = g + 1;
        start = start + len;
    }
    r
}

/// The alphabet character for a six-bit value.
pub open spec fn echar(v: nat) -> char {
    encode_byte_spec(v as u8) as char
}

/// The base64 text of a byte string: each three bytes become four
/// characters; a final group of one or two bytes is written on two or
/// three characters, the missing low bits read as zero, and padded with
/// `=` to four characters.
pub open spec fn encode64_spec(bytes: Seq<u8>) -> Seq<char>
    decreases bytes.len(),
{
    if bytes.len() == 0 {
        Seq::<char>::empty()
    } else if bytes.len() == 1 {
        let x = bytes[0] as nat;
        seq![echar(x / 4), echar((x % 4) * 16), '=', '=']
    } else if bytes.len() == 2 {
        let x = bytes[0] as nat;
        let y = bytes[1] as nat;
        seq![echar(x / 4), echar((x % 4) * 16 + y / 16), echar((y % 16) * 4), '=']
    } else {
        let x = bytes[0] as nat;
        let y = bytes[1] as nat;
        let z = bytes[2] as nat;
        seq![
            echar(x / 4),
            echar((x % 4) * 16 + y / 16),
            echar((y % 16) * 4 + z / 64),
            echar(z % 64),
        ] + encode64_spec(bytes.skip(3))
    }
}

/// Encodes a text as base64, over the bytes of its encoded form.
pub fn encode_base64(original_str: String) -> (r: String)
    ensures
        r@ == encode64_spec(vstd::utf8::encode_utf8(original_str@)),
{
    let bytes = original_str.as_str().as_bytes_vec();
    let mut r = String::new();
    let mut i: usize = 0;
    proof {
        assert(bytes@.skip(0) =~= bytes@);
        assert(Seq::<char>::empty() + encode64_spec(bytes@) =~= encode64_spec(bytes@));
    }
    while bytes.len() - i >= 3
        invariant
            i <= bytes.len(),
            encode64_spec(bytes@) == r@ + encode64_spec(bytes@.skip(i as int)),
        decreases bytes.len() - i,
    {
        let x = bytes[i];
        let y = bytes[i + 1];
        let z = bytes[i + 2];
        let c1 = encode_byte(x / 4);
        let c2 = encode_byte((x % 4) * 16 + y / 16);
        let c3 = encode_byte((y % 16) * 4 + z / 64);
        let c4 = encode_byte(z % 64);
        proof {
            let rest = bytes@.skip(i as int);
            let chunk = seq![c1 as char, c2 as char, c3 as char, c4 as char];
            assert(rest[0] == bytes@[i as int]);
            assert(rest[1] == bytes@[i as int + 1]);
            assert(rest[2] == bytes@[i as int + 2]);
            assert(encode64_spec(rest) == chunk + encode64_spec(rest.skip(3)));
            assert(rest.skip(3) =~= bytes@.skip(i as int + 3));
            assert(r@ + (chunk + encode64_spec(bytes@.skip(i as int + 3))) =~= (r@ + chunk)
                + encode64_spec(bytes@.skip(i as int + 3)));
            assert(r@.push(c1 as char).push(c2 as char).push(c3 as char).push(c4 as char) =~= r@
                + chunk);
        }
        crate::text::push_char(&mut r, c1 as char);
        crate::text::push_char(&mut r, c2 as char);
        crate::text::push_char(&mut r, c3 as char);
        crate::text::push_char(&mut r, c4 as char);
        i = i + 3;
    }
    let remaining = bytes.len() - i;
    if remaining == 1 {
        let x = bytes[i];
        let c1 = encode_byte(x / 4);
        let c2 = encode_byte((x % 4) * 16);
        proof {
            let rest = bytes@.skip(i as int);
            let chunk = seq![c1 as char, c2 as char, '=', '='];
            assert(rest[0] == bytes@[i as int]);
            assert(encode64_spec(rest) == chunk);
            assert(r@.push(c1 as char).push(c2 as char).push('=').push('=') =~= r@ + chunk);
        }
        crate::text::push_char(&mut r, c1 as char);
        crate::text::push_char(&mut r, c2 as char);
        crate::text::push_char(&mut r, '=');
        crate::text::push_char(&mut r, '=');
    } else if remaining == 2 {
        let x = bytes[i];
        let y = bytes[i + 1];
        let c1 = encode_byte(x / 4);
        let c2 = encode_byte((x % 4) * 16 + y / 16);
        let c3 = encode_byte((y % 16) * 4);
        proof {
            let rest = bytes@.skip(i as int);
            let chunk = seq![c1 as char, c2 as char, c3 as char, '='];
            assert(rest[0] == bytes@[i as int]);
            assert(rest[1] == bytes@[i as int + 1]);
            assert(encode64_spec(rest) == chunk);
            assert(r@.push(c1 as char).push(c2 as char).push(c3 as char).push('=') =~= r@ + chunk);
        }
        crate::text::push_char(&mut r, c1 as char);
        crate::text::push_char(&mut r, c2 as char);
        crate::text::push_char(&mut r, c3 as char);
        crate::text::push_char(&mut r, '=');
    } else {
        proof {
            assert(bytes@.skip(i as int) =~= Seq::<u8>::empty());
            assert(encode64_spec(Seq::<u8>::empty()) =~= Seq::<char>::empty());
            assert(r@ + Seq::<char>::empty() =~= r@);
        }
    }
    r
}

/// Whether a character can stand in a base64 text: a character of the
/// 64-character alphabet.
pub open spec fn b64_char_ok(c: char) -> bool {
    (c as u32) < 128 && decode_ok((c as u32) as u8)
}

/// The six-bit value of a base64 character.
pub open spec fn b64_char_val(c: char) -> u8 {
    decode_val((c as u32) as u8)
}

/// The six-bit values of a base64 text, character by character.
pub open spec fn char_vals(s: Seq<char>) -> Seq<u8> {
    s.map_values(|c: char| b64_char_val(c))
}

/// The bytes of a decoded base64 text: each four six-bit values become
/// three bytes; a final group of one, two or three values becomes as many
/// bytes, their missing low bits read as zero.
pub open spec fn decode64_vals(vals: Seq<u8>) -> Seq<u8>
    decreases vals.len(),
{
    if vals.len() == 0 {
        Seq::<u8>::empty()
    } else if vals.len() == 1 {
        seq![((vals[0] as nat) * 4) as u8]
    } else if vals.len() == 2 {
        seq![
            ((vals[0] as nat) * 4 + (vals[1] as nat) / 16) as u8,
            ((vals[1] as nat % 16) * 16) as u8,
        ]
    } else if vals.len() == 3 {
        seq![
            ((vals[0] as nat) * 4 + (vals[1] as nat) / 16) as u8,
            ((vals[1] as nat % 16) * 16 + (vals[2] as nat) / 4) as u8,
            ((vals[2] as nat % 4) * 64) as u8,
        ]
    } else {
        seq![
            ((vals[0] as nat) * 4 + (vals[1] as nat) / 16) as u8,
            ((vals[1] as nat % 16) * 16 + (vals[2] as nat) / 4) as u8,
            ((vals[2] as nat % 4) * 64 + (vals[3] as nat)) as u8,
        ] + decode64_vals(vals.skip(4))
    }
}

/// A string whose characters are the given byte values.
pub open spec fn bytes_as_chars(bytes: Seq<u8>) -> Seq<char> {
    bytes.map_values(|b: u8| b as char)
}

/// Decodes a base64 text. Succeeds exactly when every character is from
/// the 64-character alphabet (the padding character `=` included is an
/// error); the decoded bytes come back as a string of one character per
/// byte value.
pub fn decode_base64(original_str: String) -> (r: Result<String, InputErr>)
    ensures
        match r {
            Ok(t) => (forall|m: int|
                0 <= m < original_str@.len() ==> b64_char_ok(#[trigger] original_str@[m])) && t@
                == bytes_as_chars(decode64_vals(char_vals(original_str@))),
            Err(e) => (exists|m: int|
                0 <= m < original_str@.len() && !b64_char_ok(#[trigger] original_str@[m])) && e
                == InputErr::InvalidCharacter,
        },
{
    let len = original_str.as_str().unicode_len();
    let mut vals: Vec<u8> = Vec::new();
    let mut k: usize = 0;
    while k < len
        invariant
            0 <= k <= len,
            len == original_str@.len(),
            vals@.len() == k,
            forall|m: int| 0 <= m < k ==> b64_char_ok(#[trigger] original_str@[m]),
            forall|m: int| 0 <= m < k ==> vals@[m] == b64_char_val(original_str@[m]),
            forall|m: int| 0 <= m < k ==> vals@[m] < 64,
        decreases len - k,
    {
        let c = original_str.as_str().get_char(k);
        let cv = c as u32;
        if cv >= 128 {
            proof {
                assert(!b64_char_ok(original_str@[k as int]));
            }
            return Err(InputErr::InvalidCharacter);
        }
        match decode_byte(cv as u8) {
            Ok(v) => {
                vals.push(v);
            },
            Err(e) => {
                proof {
                    assert(!b64_char_ok(original_str@[k as int]));
                }
                return Err(e);
            },
        }
        k = k + 1;
    }
    proof {
        assert(vals@ =~= char_vals(original_str@));
    }
    let mut out = String::new();
    let mut i: usize = 0;
    proof {
        assert(vals@.skip(0) =~= vals@);
        assert(Seq::<char>::empty() + bytes_as_chars(decode64_vals(vals@)) =~= bytes_as_chars(
            decode64_vals(vals@),
        ));
    }
    while vals.len() - i >= 4
        invariant
            i <= vals.len(),
            forall|m: int| 0 <= m < vals@.len() ==> #[trigger] vals@[m] < 64,
            bytes_as_chars(decode64_vals(vals@)) == out@ + bytes_as_chars(
                decode64_vals(vals@.skip(i as int)),
            ),
        decreases vals.len() - i,
    {
        let v0 = vals[i];
        let v1 = vals[i + 1];
        let v2 = vals[i + 2];
        let v3 = vals[i + 3];
        let b1 = v0 * 4 + v1 / 16;
        let b2 = (v1 % 16) * 16 + v2 / 4;
        let b3 = (v2 % 4) * 64 + v3;
        proof {
            let rest = vals@.skip(i as int);
            let chunk = seq![b1, b2, b3];
            assert(rest[0] == vals@[i as int]);
            assert(rest[1] == vals@[i as int + 1]);
            assert(rest[2] == vals@[i as int + 2]);
            assert(rest[3] == vals@[i as int + 3]);
            assert(decode64_vals(rest) == chunk + decode64_vals(rest.skip(4)));
            assert(rest.skip(4) =~= vals@.skip(i as int + 4));
            assert(bytes_as_chars(chunk + decode64_vals(vals@.skip(i as int + 4)))
                =~= bytes_as_chars(chunk) + bytes_as_chars(decode64_vals(vals@.skip(i as int + 4))));
            assert(out@ + (bytes_as_chars(chunk) + bytes_as_chars(
                decode64_vals(vals@.skip(i as int + 4)),
            )) =~= (out@ + bytes_as_chars(chunk)) + bytes_as_chars(
                decode64_vals(vals@.skip(i as int + 4)),
            ));
            assert(out@.push(b1 as char).push(b2 as char).push(b3 as char) =~= out@
                + bytes_as_chars(chunk));
        }
        crate::text::push_char(&mut out, b1 as char);
        crate::text::push_char(&mut out, b2 as char);
        crate::text::push_char(&mut out, b3 as char);
        i = i + 4;
    }
    let remaining = vals.len() - i;
    if remaining == 1 {
        let v0 = vals[i];
        let b1 = v0 * 4;
        proof {
            let rest = vals@.skip(i as int);
            assert(rest[0] == vals@[i as int]);
            assert(decode64_vals(rest) == seq![b1]);
            assert(out@.push(b1 as char) =~= out@ + bytes_as_chars(seq![b1]));
        }
        crate::text::push_char(&mut out, b1 as char);
    } else if remaining == 2 {
        let v0 = vals[i];
        let v1 = vals[i + 1];
        let b1 = v0 * 4 + v1 / 16;
        let b2 = (v1 % 16) * 16;
        proof {
            let rest = vals@.skip(i as int);
            assert(rest[0] == vals@[i as int]);
            assert(rest[1] == vals@[i as int + 1]);
            assert(decode64_vals(rest) == seq![b1, b2]);
            assert(out@.push(b1 as char).push(b2 as char) =~= out@ + bytes_as_chars(seq![b1, b2]));
        }
        crate::text::push_char(&mut out, b1 as char);
        crate::text::push_char(&mut out, b2 as char);
    } else if remaining == 3 {
        let v0 = vals[i];
        let v1 = vals[i + 1];
        let v2 = vals[i + 2];
        let b1 = v0 * 4 + v1 / 16;
        let b2 = (v1 % 16) * 16 + v2 / 4;
        let b3 = (v2 % 4) * 64;
        proof {
            let rest = vals@.skip(i as int);
            assert(rest[0] == vals@[i as int]);
            assert(rest[1] == vals@[i as int + 1]);
            assert(rest[2] == vals@[i as int + 2]);
            assert(decode64_vals(rest) == seq![b1, b2, b3]);
            assert(out@.push(b1 as char).push(b2 as char).push(b3 as char) =~= out@
                + bytes_as_chars(seq![b1, b2, b3]));
        }
        crate::text::push_char(&mut out, b1 as char);
        crate::text::push_char(&mut out, b2 as char);
        crate::text::push_char(&mut out, b3 as char);
    } else {
        proof {
            assert(vals@.skip(i as int) =~= Seq::<u8>::empty());
            assert(decode64_vals(Seq::<u8>::empty()) =~= Seq::<u8>::empty());
            assert(bytes_as_chars(Seq::<u8>::empty()) =~= Seq::<char>::empty());
            assert(out@ + Seq::<char>::empty() =~= out@);
        }
    }
    Ok(out)
}

} // verus!
