use miniutils::base64::{
    binary_to_chars, decode_base64, decode_byte, encode_base64, encode_byte, to_binary_string,
    InputErr,
};

#[test]
fn encodes_the_alphabet_values() {
    assert_eq!(encode_byte(0), 65); // 'A'
    assert_eq!(encode_byte(25), 90); // 'Z'
    assert_eq!(encode_byte(26), 97); // 'a'
    assert_eq!(encode_byte(51), 122); // 'z'
    assert_eq!(encode_byte(52), 48); // '0'
    assert_eq!(encode_byte(61), 57); // '9'
    assert_eq!(encode_byte(62), 43); // '+'
    assert_eq!(encode_byte(63), 47); // '/'
}

#[test]
fn decodes_the_alphabet_values() {
    assert_eq!(decode_byte(65), Ok(0));
    assert_eq!(decode_byte(90), Ok(25));
    assert_eq!(decode_byte(97), Ok(26));
    assert_eq!(decode_byte(122), Ok(51));
    assert_eq!(decode_byte(48), Ok(52));
    assert_eq!(decode_byte(57), Ok(61));
    assert_eq!(decode_byte(43), Ok(62));
    assert_eq!(decode_byte(47), Ok(63));
    assert_eq!(decode_byte(61), Err(InputErr::InvalidCharacter)); // '='
    assert_eq!(decode_byte(32), Err(InputErr::InvalidCharacter));
}

#[test]
fn binary_strings_are_fixed_width_and_truncating() {
    assert_eq!(to_binary_string(5, 8), "00000101");
    assert_eq!(to_binary_string(255, 8), "11111111");
    assert_eq!(to_binary_string(0, 6), "000000");
    // Bits beyond the width are dropped.
    assert_eq!(to_binary_string(5, 2), "01");
    assert_eq!(to_binary_string(7, 0), "");
}

#[test]
fn groups_binary_digits_through_the_mapping() {
    // "01000001" read as one eight-bit group through the identity is 'A'.
    let digits: Vec<u8> = "01000001".bytes().collect();
    assert_eq!(binary_to_chars(digits, 8, |u| u), "A");
    // "011010" read as one six-bit group through the alphabet is 'a'.
    let digits: Vec<u8> = "011010".bytes().collect();
    assert_eq!(binary_to_chars(digits, 6, encode_byte), "a");
    // A leading remainder short of one group is dropped.
    let digits: Vec<u8> = "0101000001".bytes().collect();
    assert_eq!(binary_to_chars(digits, 8, |u| u), "A");
}

#[test]
fn encodes_with_padding() {
    assert_eq!(encode_base64("".to_string()), "");
    assert_eq!(encode_base64("abc".to_string()), "YWJj");
    assert_eq!(encode_base64("ab".to_string()), "YWI=");
    assert_eq!(encode_base64("a".to_string()), "YQ==");
    assert_eq!(encode_base64("hello".to_string()), "aGVsbG8=");
}

#[test]
fn decodes_unpadded_text() {
    assert_eq!(decode_base64("YWJj".to_string()), Ok("abc".to_string()));
    assert_eq!(decode_base64("".to_string()), Ok("".to_string()));
    // A final short group decodes into one zero-filled extra byte.
    assert_eq!(decode_base64("aGVsbG8".to_string()), Ok("hello\u{0}".to_string()));
}

#[test]
fn decoding_rejects_characters_outside_the_alphabet() {
    assert_eq!(decode_base64("YWJj=".to_string()), Err(InputErr::InvalidCharacter));
    assert_eq!(decode_base64("YW Jj".to_string()), Err(InputErr::InvalidCharacter));
    assert_eq!(decode_base64("\u{e9}".to_string()), Err(InputErr::InvalidCharacter));
}

#[test]
fn round_trip_without_padding() {
    let encoded = encode_base64("abc".to_string());
    assert_eq!(decode_base64(encoded), Ok("abc".to_string()));
}
