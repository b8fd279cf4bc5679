use it::tool::IterTool;

fn apply(t: IterTool, s: &str) -> String {
    t.apply_to(s).expect("transformation should succeed")
}

#[test]
fn trim_removes_both_ends() {
    assert_eq!(apply(IterTool::Trim, "  hello  \n"), "hello");
    assert_eq!(apply(IterTool::Trim, "\t x \r\n"), "x");
    assert_eq!(apply(IterTool::Trim, ""), "");
    assert_eq!(apply(IterTool::Trim, " \t\r\n"), "");
}

#[test]
fn trim_start_removes_front_only() {
    assert_eq!(apply(IterTool::TrimStart, "  hello  "), "hello  ");
    assert_eq!(apply(IterTool::TrimStart, "abc\n"), "abc\n");
}

#[test]
fn trim_end_removes_back_only() {
    assert_eq!(apply(IterTool::TrimEnd, "  hello  \n"), "  hello");
    assert_eq!(apply(IterTool::TrimEnd, "x"), "x");
}

#[test]
fn trim_is_idempotent_on_values() {
    for s in ["  hello  ", "\t a b \r\n", "", "   ", "x"] {
        let once = apply(IterTool::Trim, s);
        let twice = apply(IterTool::Trim, &once);
        assert_eq!(twice, once);
        let once = apply(IterTool::TrimStart, s);
        let twice = apply(IterTool::TrimStart, &once);
        assert_eq!(twice, once);
        let once = apply(IterTool::TrimEnd, s);
        let twice = apply(IterTool::TrimEnd, &once);
        assert_eq!(twice, once);
    }
}

#[test]
fn case_mapping_values() {
    assert_eq!(apply(IterTool::ToUppercase, "abc"), "ABC");
    assert_eq!(apply(IterTool::ToUppercase, "Grüße"), "GRÜSSE");
    assert_eq!(apply(IterTool::ToLowercase, "ABC"), "abc");
    assert_eq!(apply(IterTool::ToLowercase, "ÄÖÜ"), "äöü");
}

#[test]
fn case_mapping_is_idempotent_on_values() {
    for s in ["abc", "MiXeD", "Grüße", ""] {
        let once = apply(IterTool::ToUppercase, s);
        assert_eq!(apply(IterTool::ToUppercase, &once), once);
        let once = apply(IterTool::ToLowercase, s);
        assert_eq!(apply(IterTool::ToLowercase, &once), once);
    }
}

#[test]
fn unique_keeps_first_occurrences_in_order() {
    assert_eq!(apply(IterTool::Unique, "b\na\nb\nc\na"), "b\na\nc");
    assert_eq!(apply(IterTool::Unique, "b\na\nb\nc\na\n"), "b\na\nc");
    assert_eq!(apply(IterTool::Unique, "x"), "x");
    assert_eq!(apply(IterTool::Unique, ""), "");
}

#[test]
fn unique_is_idempotent_on_values() {
    for s in ["b\na\nb\nc\na\n", "x\nx\nx", "", "one\ntwo"] {
        let once = apply(IterTool::Unique, s);
        assert_eq!(apply(IterTool::Unique, &once), once);
    }
}

#[test]
fn unique_handles_crlf_lines() {
    assert_eq!(apply(IterTool::Unique, "a\r\nb\r\na\r\n"), "a\nb");
}

#[test]
fn unique_rejoining_can_lose_line_shape() {
    // A trailing empty line, and a carriage return that stood directly
    // before a newline, do not survive the newline rejoin.
    assert_eq!(apply(IterTool::Unique, "a\n\n"), "a\n");
    assert_eq!(apply(IterTool::Unique, "b\n\nb"), "b\n");
    assert_eq!(apply(IterTool::Unique, "a\r\r\nb"), "a\r\nb");
}

#[test]
fn sum_of_valid_lines() {
    assert_eq!(apply(IterTool::Sum, "3\n5\n-2\n"), "6");
    assert_eq!(apply(IterTool::Sum, "3\n5\n-2"), "6");
    assert_eq!(apply(IterTool::Sum, ""), "0");
    assert_eq!(apply(IterTool::Sum, "-7"), "-7");
}

#[test]
fn sum_fails_on_non_integer_line() {
    match IterTool::Sum.apply_to("1\nfoo\n3\n") {
        Ok(_) => panic!("sum should fail on a non-integer line"),
        Err(e) => assert_eq!(e.line, "foo"),
    }
    match IterTool::Sum.apply_to("1\n\n3") {
        Ok(_) => panic!("sum should fail on a blank line"),
        Err(e) => assert_eq!(e.line, ""),
    }
}

#[test]
fn sum_wraps_on_overflow() {
    assert_eq!(
        apply(IterTool::Sum, "9223372036854775807\n1"),
        "-9223372036854775808"
    );
}

#[test]
fn mode_flags() {
    assert!(IterTool::Trim.is_by_lines());
    assert!(IterTool::TrimStart.is_by_lines());
    assert!(IterTool::TrimEnd.is_by_lines());
    assert!(IterTool::ToUppercase.is_by_lines());
    assert!(IterTool::ToLowercase.is_by_lines());
    assert!(!IterTool::Unique.is_by_lines());
    assert!(!IterTool::Sum.is_by_lines());

    assert!(IterTool::Trim.removes_newline());
    assert!(IterTool::TrimEnd.removes_newline());
    assert!(!IterTool::TrimStart.removes_newline());
    assert!(!IterTool::ToUppercase.removes_newline());
    assert!(!IterTool::ToLowercase.removes_newline());
    assert!(!IterTool::Unique.removes_newline());
    assert!(!IterTool::Sum.removes_newline());
}

#[test]
fn name_resolution_canonical_and_aliases() {
    assert_eq!(IterTool::from_name("trim").unwrap(), IterTool::Trim);
    assert_eq!(IterTool::from_name("trim_start").unwrap(), IterTool::TrimStart);
    assert_eq!(IterTool::from_name("trim_left").unwrap(), IterTool::TrimStart);
    assert_eq!(IterTool::from_name("triml").unwrap(), IterTool::TrimStart);
    assert_eq!(IterTool::from_name("trim_end").unwrap(), IterTool::TrimEnd);
    assert_eq!(IterTool::from_name("trim_right").unwrap(), IterTool::TrimEnd);
    assert_eq!(IterTool::from_name("trimr").unwrap(), IterTool::TrimEnd);
    assert_eq!(IterTool::from_name("to_uppercase").unwrap(), IterTool::ToUppercase);
    assert_eq!(IterTool::from_name("upper").unwrap(), IterTool::ToUppercase);
    assert_eq!(IterTool::from_name("uppercase").unwrap(), IterTool::ToUppercase);
    assert_eq!(IterTool::from_name("to_lowercase").unwrap(), IterTool::ToLowercase);
    assert_eq!(IterTool::from_name("lower").unwrap(), IterTool::ToLowercase);
    assert_eq!(IterTool::from_name("lowercase").unwrap(), IterTool::ToLowercase);
    assert_eq!(IterTool::from_name("unique").unwrap(), IterTool::Unique);
    assert_eq!(IterTool::from_name("uniq").unwrap(), IterTool::Unique);
    assert_eq!(IterTool::from_name("sum").unwrap(), IterTool::Sum);
}

#[test]
fn name_resolution_rejects_unknown_names() {
    for bad in ["", "TRIM", "trim ", "summ", "upper_case"] {
        match IterTool::from_name(bad) {
            Ok(_) => panic!("name should not resolve"),
            Err(e) => assert_eq!(e.attempted, bad),
        }
    }
}
