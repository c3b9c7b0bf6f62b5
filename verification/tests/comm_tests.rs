use miniutils::comm::{
    check_order, comm_text, do_comm, print_col, print_file_error, split_lines, Classification,
    CommConf, CommStatus, OrderPolicy, Side,
};

fn conf_default() -> CommConf {
    CommConf {
        show1: true,
        show2: true,
        show3: true,
        delimiter: "\t".to_string(),
        order_policy: OrderPolicy::Enforce,
    }
}

fn lines(v: &[&str]) -> Vec<String> {
    v.iter().map(|s| s.to_string()).collect()
}

#[test]
fn end_to_end_default_config() {
    let a = lines(&["apple", "banana", "cherry"]);
    let b = lines(&["banana", "cherry", "date"]);
    let (out, status) = do_comm(&a, &b, &conf_default());
    assert_eq!(out, lines(&["apple", "\t\tbanana", "\t\tcherry", "\tdate"]));
    assert!(matches!(status, CommStatus::Completed));
}

#[test]
fn empty_first_input() {
    let a = lines(&[]);
    let b = lines(&["only"]);
    let (out, status) = do_comm(&a, &b, &conf_default());
    assert_eq!(out, lines(&["\tonly"]));
    assert!(matches!(status, CommStatus::Completed));
}

#[test]
fn suppressed_column_still_counts_for_delimiters() {
    let conf = CommConf {
        show1: false,
        show2: true,
        show3: true,
        delimiter: ",".to_string(),
        order_policy: OrderPolicy::Enforce,
    };
    let a = lines(&["x"]);
    let b = lines(&["x"]);
    let (out, status) = do_comm(&a, &b, &conf);
    assert_eq!(out, lines(&[",x"]));
    assert!(matches!(status, CommStatus::Completed));
}

#[test]
fn order_violation_halts_under_enforce() {
    let a = lines(&["b", "a"]);
    let b = lines(&[]);
    let (out, status) = do_comm(&a, &b, &conf_default());
    assert_eq!(out, lines(&["b"]));
    match status {
        CommStatus::OrderViolation(side, line) => {
            assert!(matches!(side, Side::First));
            assert_eq!(line, "a");
        },
        _ => panic!("expected an order violation"),
    }
}

#[test]
fn order_violation_ignored_under_ignore() {
    let conf = CommConf { order_policy: OrderPolicy::Ignore, ..conf_default() };
    let a = lines(&["b", "a"]);
    let b = lines(&[]);
    let (out, status) = do_comm(&a, &b, &conf);
    assert_eq!(out, lines(&["b", "a"]));
    assert!(matches!(status, CommStatus::Completed));
}

#[test]
fn disjoint_inputs_have_no_common_column() {
    let a = lines(&["a", "c"]);
    let b = lines(&["b", "d"]);
    let (out, status) = do_comm(&a, &b, &conf_default());
    assert_eq!(out, lines(&["a", "\tb", "c", "\td"]));
    assert!(matches!(status, CommStatus::Completed));
}

#[test]
fn identical_inputs_are_all_common() {
    let a = lines(&["x", "y"]);
    let b = lines(&["x", "y"]);
    let (out, status) = do_comm(&a, &b, &conf_default());
    assert_eq!(out, lines(&["\t\tx", "\t\ty"]));
    assert!(matches!(status, CommStatus::Completed));
}

#[test]
fn rerun_produces_identical_output() {
    let conf = conf_default();
    let (out1, _) = comm_text("apple\nbanana\n", "banana\ndate\n", &conf);
    let (out2, _) = comm_text("apple\nbanana\n", "banana\ndate\n", &conf);
    assert_eq!(out1, out2);
}

#[test]
fn duplicate_adjacent_lines_keep_their_multiplicity() {
    let a = lines(&["a", "a"]);
    let b = lines(&["a"]);
    let (out, status) = do_comm(&a, &b, &conf_default());
    assert_eq!(out, lines(&["\t\ta", "a"]));
    assert!(matches!(status, CommStatus::Completed));
}

#[test]
fn empty_line_sorts_before_everything() {
    let a = lines(&["", "b"]);
    let b = lines(&["a"]);
    let (out, status) = do_comm(&a, &b, &conf_default());
    assert_eq!(out, lines(&["", "\ta", "b"]));
    assert!(matches!(status, CommStatus::Completed));
}

#[test]
fn split_lines_drops_one_trailing_empty_segment() {
    assert_eq!(split_lines("a\nb\n"), lines(&["a", "b"]));
    assert_eq!(split_lines("a\nb"), lines(&["a", "b"]));
    assert_eq!(split_lines(""), lines(&[]));
    assert_eq!(split_lines("\n"), lines(&[""]));
    assert_eq!(split_lines("a\n\n"), lines(&["a", ""]));
}

#[test]
fn comm_text_splits_then_merges() {
    let (out, status) = comm_text("apple\nbanana\n", "banana\n", &conf_default());
    assert_eq!(out, lines(&["apple", "\t\tbanana"]));
    assert!(matches!(status, CommStatus::Completed));
}

#[test]
fn check_order_follows_the_policy() {
    let enforce = conf_default();
    let ignore = CommConf { order_policy: OrderPolicy::Ignore, ..conf_default() };
    assert!(!check_order("a", "b", &enforce));
    assert!(check_order("b", "a", &enforce));
    assert!(check_order("b", "b", &enforce));
    assert!(check_order("a", "", &enforce));
    assert!(check_order("a", "b", &ignore));
}

#[test]
fn print_col_renders_each_column() {
    let conf = conf_default();
    assert_eq!(print_col("x", Classification::OnlyFirst, &conf), Some("x".to_string()));
    assert_eq!(print_col("x", Classification::OnlySecond, &conf), Some("\tx".to_string()));
    assert_eq!(print_col("x", Classification::Common, &conf), Some("\t\tx".to_string()));
    let hidden = CommConf { show2: false, ..conf_default() };
    assert_eq!(print_col("x", Classification::OnlySecond, &hidden), None);
    assert_eq!(print_col("x", Classification::Common, &hidden), Some("\tx".to_string()));
}

#[test]
fn file_error_message_names_the_file() {
    let msg = print_file_error(&"notes.txt".to_string());
    assert_eq!(msg, "notes.txt: No such file or directory");
}
