use cs375_autograder::changes::Difference;
use cs375_autograder::lex::{grade_test, GradeError, Run};
use cs375_autograder::p1::{self, TokenPolicy};
use cs375_autograder::p2::{self, ExactPolicy};
use cs375_autograder::record::{parse, Number, Overflow, Record};
use cs375_autograder::report::Outcome;

fn token() -> TokenPolicy {
    TokenPolicy { pending: None }
}

#[test]
fn banner_is_start_whatever_its_case() {
    assert!(matches!(parse("Started scanner test."), Record::Start));
    assert!(matches!(parse("STARTED SCANNER TEST."), Record::Start));
    assert!(matches!(parse("Started scanner test"), Record::Unparseable));
}

#[test]
fn labelled_token_lines() {
    assert!(matches!(
        parse("yylex() =  273   tokentype:  2  which:   19      program"),
        Record::Reserved(19)
    ));
    assert!(matches!(parse("tokentype:  0  which:    5"), Record::Operator(5)));
    assert!(matches!(parse("tokentype:  1  which:    2"), Record::Delimiter(2)));
    match parse("tokentype:  3  value:  graph1") {
        Record::Identifier(text) => assert_eq!(text, " value:  graph1"),
        other => panic!("{:?}", other),
    }
    match parse("tokentype:  4  value:  hello") {
        Record::String(text) => assert_eq!(text, " value:  hello"),
        other => panic!("{:?}", other),
    }
    assert!(matches!(
        parse("tokentype:  5  type:     0         1776"),
        Record::Number(Number::Integer(1776))
    ));
}

#[test]
fn float_token_keeps_mantissa_and_exponent() {
    match parse("tokentype:  5  type:     1 1.500000e+02") {
        Record::Number(Number::Float { mantissa, exponent }) => {
            assert_eq!(exponent, 2);
            assert!(!mantissa.is_negative());
            assert_eq!(mantissa.digits(), &vec![1u8, 5, 0, 0, 0, 0, 0]);
            assert_eq!(mantissa.scale(), 6);
        }
        other => panic!("{:?}", other),
    }
}

#[test]
fn overflow_lines_come_before_tokens() {
    assert!(matches!(
        parse("Floating number out of range"),
        Record::Overflow(Overflow::Float)
    ));
    assert!(matches!(
        parse("Integer number out of range"),
        Record::Overflow(Overflow::Integer)
    ));
    assert!(matches!(
        parse("tokentype: 3 value: float overflow"),
        Record::Overflow(Overflow::Float)
    ));
}

#[test]
fn unknown_category_is_unparseable() {
    assert!(matches!(parse("tokentype: 9 which: 1"), Record::Unparseable));
    assert!(matches!(parse("0: 9 1"), Record::Unparseable));
}

#[test]
fn scenario_spacing_between_fields_is_ignored() {
    let expected = "Started scanner test.\n0:  1 1\n";
    let same = grade_test(expected, "Started scanner test.\n0: 1 1\n", token());
    assert_eq!(same, Ok(vec![]));
    let alone = grade_test(expected, "0: 1 2", token());
    assert_eq!(
        alone,
        Ok(vec![
            Difference::Removed("Started scanner test.".to_string()),
            Difference::Added("0: 1 2".to_string()),
            Difference::Removed("0:  1 1".to_string()),
        ])
    );
    let other = grade_test(expected, "Started scanner test.\n0: 1 2\n", token());
    assert_eq!(
        other,
        Ok(vec![
            Difference::Removed("0:  1 1".to_string()),
            Difference::Added("0: 1 2".to_string()),
        ])
    );
}

#[test]
fn scenario_float_tolerance() {
    let line = |m: &str| format!("tokentype:  5  type:     1 {}e+02\n", m);
    let expected = line("1.500000");
    assert_eq!(grade_test(&expected, &line("1.5000001"), token()), Ok(vec![]));
    assert!(!grade_test(&expected, &line("1.6"), token()).unwrap().is_empty());
    assert!(!grade_test(&expected, &line("1.500001"), token()).unwrap().is_empty());
    assert_eq!(grade_test(&expected, &line("1.4999999"), token()), Ok(vec![]));
}

#[test]
fn malformed_expected_line_is_an_error() {
    let result = grade_test("tokentype: 9 which: 1\n", "tokentype: 0 which: 1\n", token());
    assert_eq!(
        result,
        Err(GradeError::MalformedExpected("tokentype: 9 which: 1".to_string()))
    );
}

#[test]
fn exact_policy_compares_text() {
    let result = grade_test("a\nb\n", "a\nc\n", ExactPolicy {});
    assert_eq!(
        result,
        Ok(vec![
            Difference::Removed("b".to_string()),
            Difference::Added("c".to_string()),
        ])
    );
}

#[test]
fn session_counts_passes() {
    let runs = vec![
        Run {
            name: "one".to_string(),
            expected: "tokentype: 0 which: 1\n".to_string(),
            actual: "tokentype:  0  which:  1\n".to_string(),
        },
        Run {
            name: "two".to_string(),
            expected: "tokentype: 0 which: 1\n".to_string(),
            actual: "tokentype: 0 which: 2\n".to_string(),
        },
    ];
    let report = p1::grade(false, &runs);
    assert_eq!(report.passed, 1);
    assert_eq!(report.total, 2);
    assert_eq!(report.entries.len(), 1);
    assert_eq!(report.entries[0].name, "two");
    assert!(matches!(report.entries[0].outcome, Outcome::Fail(_)));
    let verbose = p1::grade(true, &runs);
    assert_eq!(verbose.entries.len(), 2);
    assert_eq!(verbose.entries[0].outcome, Outcome::Pass);
    let exact = p2::grade(true, &runs);
    assert_eq!(exact.passed, 0);
}
