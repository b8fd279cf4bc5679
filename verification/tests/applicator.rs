use it::engine::{apply_source, run_sources};
use it::tool::{Config, IterTool};

fn source(t: IterTool, content: &str) -> String {
    apply_source(&t, content).expect("source should succeed")
}

#[test]
fn newline_policy_trim_readds_newline() {
    assert_eq!(source(IterTool::Trim, "  hello  \n"), "hello\n");
    assert_eq!(source(IterTool::TrimEnd, "  hello  \n"), "  hello\n");
}

#[test]
fn newline_policy_case_keeps_terminator() {
    assert_eq!(source(IterTool::ToUppercase, "abc\n"), "ABC\n");
    assert_eq!(source(IterTool::ToUppercase, "abc"), "ABC");
    assert_eq!(source(IterTool::ToLowercase, "A\nB\n"), "a\nb\n");
}

#[test]
fn per_line_source_handles_missing_final_newline() {
    assert_eq!(source(IterTool::Trim, " a \n b "), "a\nb\n");
    assert_eq!(source(IterTool::TrimStart, " a \n b "), "a \nb ");
}

#[test]
fn scenario_sum_of_one_file() {
    let (out, err) = run_sources(&IterTool::Sum, &vec!["3\n5\n-2\n".to_string()]);
    assert!(err.is_none());
    assert_eq!(out, "6\n");
}

#[test]
fn scenario_unique_of_one_file() {
    let (out, err) = run_sources(&IterTool::Unique, &vec!["b\na\nb\nc\na\n".to_string()]);
    assert!(err.is_none());
    assert_eq!(out, "b\na\nc\n");
}

#[test]
fn scenario_trim_of_remaining_source() {
    // An unopenable source never reaches the applicator: the caller skips
    // it with a warning, and only the readable content is handed over.
    let (out, err) = run_sources(&IterTool::Trim, &vec!["  hi  \n".to_string()]);
    assert!(err.is_none());
    assert_eq!(out, "hi\n");
}

#[test]
fn scenario_sum_aborts_on_bad_line() {
    let (out, err) = run_sources(&IterTool::Sum, &vec!["1\nfoo\n3\n".to_string()]);
    assert_eq!(out, "");
    assert_eq!(err.expect("sum should fail").line, "foo");
}

#[test]
fn failing_source_keeps_earlier_output() {
    let sources = vec!["1\n2\n".to_string(), "x\n".to_string(), "5\n".to_string()];
    let (out, err) = run_sources(&IterTool::Sum, &sources);
    assert_eq!(out, "3\n");
    assert_eq!(err.expect("second source should fail").line, "x");
}

#[test]
fn concatenation_law_on_values() {
    for t in [
        IterTool::Trim,
        IterTool::TrimStart,
        IterTool::TrimEnd,
        IterTool::ToUppercase,
        IterTool::ToLowercase,
        IterTool::Unique,
        IterTool::Sum,
    ] {
        let a = "1\n1\n".to_string();
        let b = "2\n3\n".to_string();
        let (both, err) = run_sources(&t, &vec![a.clone(), b.clone()]);
        assert!(err.is_none());
        let (first, _) = run_sources(&t, &vec![a]);
        let (second, _) = run_sources(&t, &vec![b]);
        assert_eq!(both, format!("{first}{second}"));
    }
}

#[test]
fn batch_state_resets_per_source() {
    let sources = vec!["a\nb\na\n".to_string(), "a\nc\n".to_string()];
    let (out, err) = run_sources(&IterTool::Unique, &sources);
    assert!(err.is_none());
    assert_eq!(out, "a\nb\na\nc\n");

    let sources = vec!["1\n2\n".to_string(), "10\n".to_string()];
    let (out, err) = run_sources(&IterTool::Sum, &sources);
    assert!(err.is_none());
    assert_eq!(out, "3\n10\n");
}

#[test]
fn empty_source_list_writes_nothing() {
    let (out, err) = run_sources(&IterTool::Trim, &vec![]);
    assert!(err.is_none());
    assert_eq!(out, "");
}

#[test]
fn config_carries_sources_and_command() {
    let config = Config { files: vec!["-".to_string()], command: IterTool::Sum };
    assert_eq!(config.files, vec!["-".to_string()]);
    assert_eq!(config.command, IterTool::Sum);
}
