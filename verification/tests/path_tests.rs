use miniutils::basename::{basename_of, get_slash_index, get_slash_indexes};
use miniutils::dirname;

#[test]
fn index_after_last_slash() {
    assert_eq!(get_slash_index(&"a/b/c".to_string()), 4);
    assert_eq!(get_slash_index(&"abc".to_string()), 0);
    assert_eq!(get_slash_index(&"a/".to_string()), 2);
    assert_eq!(get_slash_index(&"/".to_string()), 1);
    assert_eq!(get_slash_index(&"".to_string()), 0);
}

#[test]
fn bounds_of_the_last_component() {
    assert_eq!(get_slash_indexes(&"a//b//".to_string()), (3, 4));
    assert_eq!(get_slash_indexes(&"abc".to_string()), (0, 3));
    assert_eq!(get_slash_indexes(&"a/b".to_string()), (2, 3));
    assert_eq!(get_slash_indexes(&"abc//".to_string()), (0, 3));
    assert_eq!(get_slash_indexes(&"////".to_string()), (0, 0));
    assert_eq!(get_slash_indexes(&"".to_string()), (0, 0));
}

#[test]
fn basenames_trim_directories_and_suffixes() {
    assert_eq!(basename_of(&"dir/file.txt".to_string(), &".txt".to_string()), "file");
    assert_eq!(basename_of(&"dir/file.txt".to_string(), &".md".to_string()), "file.txt");
    assert_eq!(basename_of(&"dir/file.txt".to_string(), &"".to_string()), "file.txt");
    assert_eq!(basename_of(&"a//b//".to_string(), &"".to_string()), "b");
    // A suffix that is the whole component strips it entirely.
    assert_eq!(basename_of(&"a/b".to_string(), &"b".to_string()), "");
    // A suffix longer than the component is left alone.
    assert_eq!(basename_of(&"x".to_string(), &"longer".to_string()), "x");
}

#[test]
fn dirname_slash_index_skips_trailing_slashes() {
    assert_eq!(dirname::get_slash_index(&"a/b/".to_string()), 2);
    assert_eq!(dirname::get_slash_index(&"a/b/c".to_string()), 4);
    assert_eq!(dirname::get_slash_index(&"abc//".to_string()), 0);
    assert_eq!(dirname::get_slash_index(&"abc".to_string()), 0);
}

#[test]
fn dirnames_drop_the_last_component() {
    assert_eq!(dirname::do_dirname(&"a/b/c".to_string()), "a/b");
    assert_eq!(dirname::do_dirname(&"a/b/".to_string()), "a");
    assert_eq!(dirname::do_dirname(&"abc".to_string()), ".");
    assert_eq!(dirname::do_dirname(&"abc//".to_string()), ".");
    assert_eq!(dirname::do_dirname(&"/abc".to_string()), "");
    assert_eq!(dirname::do_dirname(&"a//b".to_string()), "a/");
}
