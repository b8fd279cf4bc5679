use it::numeric::{i64_to_string, parse_i64_str, sum_lines};
use it::text::{chomp_str, eq_str, join_nl_str, split_keep_nl_str, split_lines_str};

#[test]
fn parse_i64_accepts_valid_literals() {
    assert_eq!(parse_i64_str("0"), Some(0));
    assert_eq!(parse_i64_str("42"), Some(42));
    assert_eq!(parse_i64_str("+5"), Some(5));
    assert_eq!(parse_i64_str("-0"), Some(0));
    assert_eq!(parse_i64_str("-17"), Some(-17));
    assert_eq!(parse_i64_str("9223372036854775807"), Some(i64::MAX));
    assert_eq!(parse_i64_str("-9223372036854775808"), Some(i64::MIN));
    assert_eq!(parse_i64_str("0000123"), Some(123));
}

#[test]
fn parse_i64_rejects_bad_literals() {
    assert_eq!(parse_i64_str(""), None);
    assert_eq!(parse_i64_str("+"), None);
    assert_eq!(parse_i64_str("-"), None);
    assert_eq!(parse_i64_str(" 5"), None);
    assert_eq!(parse_i64_str("5 "), None);
    assert_eq!(parse_i64_str("1.5"), None);
    assert_eq!(parse_i64_str("abc"), None);
    assert_eq!(parse_i64_str("9223372036854775808"), None);
    assert_eq!(parse_i64_str("-9223372036854775809"), None);
    assert_eq!(parse_i64_str("99999999999999999999999"), None);
}

#[test]
fn render_i64_values() {
    assert_eq!(i64_to_string(0), "0");
    assert_eq!(i64_to_string(6), "6");
    assert_eq!(i64_to_string(-7), "-7");
    assert_eq!(i64_to_string(1000), "1000");
    assert_eq!(i64_to_string(i64::MAX), "9223372036854775807");
    assert_eq!(i64_to_string(i64::MIN), "-9223372036854775808");
}

#[test]
fn sum_lines_reports_first_bad_index() {
    let lines = vec!["1".to_string(), "x".to_string(), "y".to_string()];
    assert_eq!(sum_lines(&lines), Err(1));
    let lines = vec!["1".to_string(), "2".to_string()];
    assert_eq!(sum_lines(&lines), Ok(3));
}

#[test]
fn split_keeps_terminators() {
    let pieces = split_keep_nl_str("a\nbc\nd");
    assert_eq!(pieces, vec!["a\n".to_string(), "bc\n".to_string(), "d".to_string()]);
    assert_eq!(split_keep_nl_str(""), Vec::<String>::new());
    assert_eq!(split_keep_nl_str("\n"), vec!["\n".to_string()]);
}

#[test]
fn split_lines_drops_terminators() {
    assert_eq!(split_lines_str("a\r\nb\nc"), vec!["a", "b", "c"]);
    assert_eq!(split_lines_str("a\r"), vec!["a\r"]);
    assert_eq!(split_lines_str("a\n"), vec!["a"]);
}

#[test]
fn chomp_strips_one_terminator() {
    assert_eq!(chomp_str("a\n"), "a");
    assert_eq!(chomp_str("a\r\n"), "a");
    assert_eq!(chomp_str("a\r"), "a\r");
    assert_eq!(chomp_str("a"), "a");
}

#[test]
fn join_inserts_single_newlines() {
    let v = vec!["b".to_string(), "a".to_string(), "c".to_string()];
    assert_eq!(join_nl_str(&v), "b\na\nc");
    assert_eq!(join_nl_str(&vec![]), "");
    assert_eq!(join_nl_str(&vec!["x".to_string()]), "x");
}

#[test]
fn eq_str_compares_characters() {
    assert!(eq_str("", ""));
    assert!(eq_str("grüß", "grüß"));
    assert!(!eq_str("a", "b"));
    assert!(!eq_str("a", "ab"));
}
