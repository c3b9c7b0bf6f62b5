use miniutils::seqnum::print_seq;
use miniutils::sleep::parse_duration;
use miniutils::text::{i64_to_string, usize_to_string};

fn records(v: &[&str]) -> Vec<String> {
    v.iter().map(|s| s.to_string()).collect()
}

#[test]
fn numbers_print_in_decimal() {
    assert_eq!(usize_to_string(0), "0");
    assert_eq!(usize_to_string(42), "42");
    assert_eq!(usize_to_string(1000), "1000");
    assert_eq!(i64_to_string(-42), "-42");
    assert_eq!(i64_to_string(7), "7");
}

#[test]
fn sequences_step_from_first_to_last() {
    let sep = "\n".to_string();
    assert_eq!(print_seq(1, 1, 5, &sep, false), records(&["1\n", "2\n", "3\n", "4\n", "5\n"]));
    assert_eq!(print_seq(1, 2, 5, &sep, false), records(&["1\n", "3\n", "5\n"]));
    assert_eq!(print_seq(1, 2, 6, &sep, false), records(&["1\n", "3\n", "5\n"]));
    assert_eq!(print_seq(3, 1, 3, &sep, false), records(&["3\n"]));
}

#[test]
fn an_increment_that_points_away_yields_nothing() {
    let sep = "\n".to_string();
    assert_eq!(print_seq(5, -1, 10, &sep, false), records(&[]));
    assert_eq!(print_seq(5, -1, 1, &sep, false), records(&[]));
    assert_eq!(print_seq(5, 1, 1, &sep, false), records(&[]));
}

#[test]
fn equal_width_pads_with_leading_zeroes() {
    let sep = "\n".to_string();
    assert_eq!(print_seq(8, 1, 10, &sep, true), records(&["08\n", "09\n", "10\n"]));
    assert_eq!(print_seq(-1, 1, 1, &sep, true), records(&["-1\n", "00\n", "01\n"]));
}

#[test]
fn separators_follow_every_record() {
    let sep = ", ".to_string();
    assert_eq!(print_seq(1, 1, 3, &sep, false), records(&["1, ", "2, ", "3, "]));
}

#[test]
fn durations_parse_with_their_unit() {
    assert_eq!(parse_duration("5"), Some(5000));
    assert_eq!(parse_duration("5s"), Some(5000));
    assert_eq!(parse_duration("2m"), Some(120000));
    assert_eq!(parse_duration("1h"), Some(3600000));
    assert_eq!(parse_duration("1d"), Some(86400000));
    assert_eq!(parse_duration("0"), Some(0));
}

#[test]
fn bad_durations_are_rejected() {
    assert_eq!(parse_duration("abc"), None);
    assert_eq!(parse_duration("5x"), None);
    assert_eq!(parse_duration("s"), None);
    assert_eq!(parse_duration("1.5"), None);
    assert_eq!(parse_duration("99999999999999999999"), None);
    assert_eq!(parse_duration("18446744073709551615d"), None);
}
