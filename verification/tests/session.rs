use cs375_autograder::changes::Difference;
use cs375_autograder::lex::{grade, GradeError, Run};
use cs375_autograder::p1::TokenPolicy;
use cs375_autograder::project::Project;
use cs375_autograder::report::{classify, visible, Outcome, Report};
use cs375_autograder::text::{same_text, split_lines, trim};

fn run(name: &str, expected: &str, actual: &str) -> Run {
    Run { name: name.to_string(), expected: expected.to_string(), actual: actual.to_string() }
}

#[test]
fn a_result_without_differences_is_a_pass() {
    assert_eq!(classify(Ok(vec![])), Outcome::Pass);
    let entries = vec![Difference::Same("a".to_string())];
    assert_eq!(classify(Ok(entries.clone())), Outcome::Fail(entries));
    assert_eq!(classify(Err(GradeError::NoTree)), Outcome::Error(GradeError::NoTree));
}

#[test]
fn a_report_counts_and_lists() {
    let mut report = Report::new();
    assert_eq!((report.passed, report.total, report.entries.len()), (0, 0, 0));
    report.record("a".to_string(), Outcome::Pass, false);
    report.record("b".to_string(), Outcome::Pass, true);
    report.record("c".to_string(), Outcome::Fail(vec![]), false);
    report.record("d".to_string(), Outcome::Error(GradeError::TooLarge), false);
    assert_eq!((report.passed, report.total), (2, 4));
    let names: Vec<&str> = report.entries.iter().map(|entry| entry.name.as_str()).collect();
    assert_eq!(names, vec!["b", "c", "d"]);
}

#[test]
fn entries_that_both_sides_hold_are_not_shown() {
    let entries = vec![
        Difference::Same("a".to_string()),
        Difference::Removed("b".to_string()),
        Difference::Same("c".to_string()),
        Difference::Added("d".to_string()),
    ];
    assert_eq!(
        visible(&entries),
        vec![Difference::Removed("b".to_string()), Difference::Added("d".to_string())]
    );
    assert_eq!(visible(&vec![]), vec![]);
}

#[test]
fn a_broken_fixture_does_not_end_the_session() {
    let runs = vec![
        run("first", "garbage\n", "t: 0 which: 1\n"),
        run("second", "t: 0 which: 1\n", "t: 0 which: 1\n"),
    ];
    let report = grade::<TokenPolicy>(true, &runs);
    assert_eq!((report.passed, report.total), (1, 2));
    assert_eq!(
        report.entries[0].outcome,
        Outcome::Error(GradeError::MalformedExpected("garbage".to_string()))
    );
    assert_eq!(report.entries[1].outcome, Outcome::Pass);
}

#[test]
fn an_overflow_does_not_reach_the_next_test() {
    let runs = vec![
        run("first", "Float overflow\n", "Float overflow\n"),
        run("second", "t: 5 type: 1 1.0e0\n", "t: 5 type: 1 2.0e0\n"),
    ];
    let report = grade::<TokenPolicy>(false, &runs);
    assert_eq!((report.passed, report.total), (1, 2));
    assert_eq!(report.entries[0].name, "second");
}

#[test]
fn an_empty_session_has_an_empty_report() {
    let report = grade::<TokenPolicy>(true, &vec![]);
    assert_eq!((report.passed, report.total, report.entries.len()), (0, 0, 0));
}

#[test]
fn projects_are_named_by_number() {
    assert_eq!(Project::from_str("1"), Some(Project::P1));
    assert_eq!(Project::from_str("p1"), Some(Project::P1));
    assert_eq!(Project::from_str("P2"), Some(Project::P2));
    assert_eq!(Project::from_str("3"), Some(Project::P3));
    assert_eq!(Project::from_str("p4"), Some(Project::P4));
    assert_eq!(Project::from_str("5"), None);
    assert_eq!(Project::from_str("p"), None);
    assert_eq!(Project::from_str("P1 "), None);
    assert_eq!(Project::from_str(""), None);
}

#[test]
fn texts_are_cut_at_line_feeds() {
    assert_eq!(split_lines("a\nb\n"), vec!["a", "b"]);
    assert_eq!(split_lines("a\n\nb\n\n\n"), vec!["a", "", "b"]);
    assert_eq!(split_lines(""), vec![""]);
    assert_eq!(split_lines("\n\n"), vec![""]);
    assert_eq!(split_lines("\na"), vec!["", "a"]);
    assert_eq!(split_lines("a\r\nb"), vec!["a\r", "b"]);
}

#[test]
fn white_space_is_trimmed_at_both_ends() {
    assert_eq!(trim("  a b \n"), "a b");
    assert_eq!(trim("\u{2003}x\u{a0}"), "x");
    assert_eq!(trim(" \t\n"), "");
    assert_eq!(trim(""), "");
    assert_eq!(trim("x"), "x");
    assert!(same_text("a\u{e9}", "a\u{e9}"));
    assert!(!same_text("a", "ab"));
    assert!(!same_text("ab", "ac"));
}
