use cs375_autograder::changes::Difference;
use cs375_autograder::lex::{grade_test, pairing, GradeError};
use cs375_autograder::p1::TokenPolicy;
use cs375_autograder::p2::ExactPolicy;

fn tokens(expected: &str, actual: &str) -> Result<Vec<Difference>, GradeError> {
    grade_test(expected, actual, TokenPolicy { pending: None })
}

fn removed(line: &str) -> Difference {
    Difference::Removed(line.to_string())
}

fn added(line: &str) -> Difference {
    Difference::Added(line.to_string())
}

const FLOAT_COMPLAINT: &str = "Floating number out of range";
const INTEGER_COMPLAINT: &str = "Integer number out of range";

#[test]
fn an_overflow_is_read_once() {
    let expected = format!(
        "{}\nt: 5 type: 1 3.402823e+38\nt: 5 type: 1 1.500000e+00\n",
        FLOAT_COMPLAINT
    );
    let garbled = format!(
        "{}\nt: 5 type: 1 9.999999e+99\nt: 5 type: 1 1.500000e+00\n",
        FLOAT_COMPLAINT
    );
    assert_eq!(tokens(&expected, &garbled), Ok(vec![]));
    let twice = format!(
        "{}\nt: 5 type: 1 9.999999e+99\nt: 5 type: 1 2.500000e+00\n",
        FLOAT_COMPLAINT
    );
    assert_eq!(
        tokens(&expected, &twice),
        Ok(vec![
            removed("t: 5 type: 1 1.500000e+00"),
            added("t: 5 type: 1 2.500000e+00"),
        ])
    );
}

#[test]
fn an_overflow_excuses_its_own_kind_only() {
    let expected = format!("{}\nt: 5 type: 0 2147483647\n", FLOAT_COMPLAINT);
    let actual = format!("{}\nt: 5 type: 0 1\n", FLOAT_COMPLAINT);
    assert_eq!(
        tokens(&expected, &actual),
        Ok(vec![removed("t: 5 type: 0 2147483647"), added("t: 5 type: 0 1")])
    );
    let expected = format!("{}\nt: 5 type: 0 2147483647\n", INTEGER_COMPLAINT);
    let actual = format!("{}\nt: 5 type: 0 1\n", INTEGER_COMPLAINT);
    assert_eq!(tokens(&expected, &actual), Ok(vec![]));
}

#[test]
fn a_complaint_missing_from_the_actual_output_is_one_difference() {
    let expected = format!("t: 0 which: 1\n{}\nt: 0 which: 2\n", INTEGER_COMPLAINT);
    let actual = "t: 0 which: 1\nt: 0 which: 2\n";
    assert_eq!(tokens(&expected, actual), Ok(vec![removed(INTEGER_COMPLAINT)]));
}

#[test]
fn a_complaint_missing_from_the_expected_output_is_one_difference() {
    let expected = "t: 0 which: 1\nt: 0 which: 2\n";
    let actual = format!("t: 0 which: 1\n{}\nt: 0 which: 2\n", FLOAT_COMPLAINT);
    assert_eq!(tokens(expected, &actual), Ok(vec![added(FLOAT_COMPLAINT)]));
}

#[test]
fn complaints_of_different_kinds_drop_the_expected_one() {
    let expected = format!("{}\n{}\nt: 0 which: 2\n", FLOAT_COMPLAINT, INTEGER_COMPLAINT);
    let actual = format!("{}\nt: 0 which: 2\n", INTEGER_COMPLAINT);
    assert_eq!(tokens(&expected, &actual), Ok(vec![removed(FLOAT_COMPLAINT)]));
}

#[test]
fn lines_left_over_are_removed_or_added() {
    assert_eq!(
        tokens("t: 0 which: 1\nt: 0 which: 2\nt: 9 broken\n", "t: 0 which: 1\n"),
        Ok(vec![removed("t: 0 which: 2"), removed("t: 9 broken")])
    );
    assert_eq!(
        tokens("t: 0 which: 1\n", "t: 0 which: 1\n\nextra\n"),
        Ok(vec![added(""), added("extra")])
    );
}

#[test]
fn an_unparseable_actual_line_is_a_difference() {
    assert_eq!(
        tokens("t: 0 which: 1\n", "t: 9 which: 1\n"),
        Ok(vec![removed("t: 0 which: 1"), added("t: 9 which: 1")])
    );
    assert_eq!(
        tokens("t: 0 which: 1\n", "\n"),
        Ok(vec![removed("t: 0 which: 1")])
    );
}

#[test]
fn a_malformed_expected_line_stops_the_test() {
    assert_eq!(
        tokens("t: 0 which: 1\ngarbage\n", "t: 0 which: 1\ngarbage\n"),
        Err(GradeError::MalformedExpected("garbage".to_string()))
    );
    assert_eq!(
        tokens("t: 0 which: 1\nt: 9 x\n", "t: 0 which: 2\nt: 0 which: 1\n"),
        Err(GradeError::MalformedExpected("t: 9 x".to_string()))
    );
}

#[test]
fn line_feeds_at_the_end_do_not_count() {
    assert_eq!(tokens("t: 0 which: 1", "t: 0 which: 1\n\n\n"), Ok(vec![]));
    assert_eq!(grade_test("a\nb", "a\nb\n", ExactPolicy {}), Ok(vec![]));
    assert_eq!(grade_test("", "", ExactPolicy {}), Ok(vec![]));
    assert_eq!(grade_test("", "a", ExactPolicy {}), Ok(vec![added("a")]));
    assert_eq!(grade_test("a", "", ExactPolicy {}), Ok(vec![removed("a")]));
}

#[test]
fn the_exact_policy_knows_no_tolerance() {
    assert_eq!(
        grade_test("t: 0 which: 1\n", "t: 0  which: 1\n", ExactPolicy {}),
        Ok(vec![removed("t: 0 which: 1"), added("t: 0  which: 1")])
    );
    assert_eq!(
        grade_test("a\n\nb\n", "a\nx\nb\n", ExactPolicy {}),
        Ok(vec![added("x")])
    );
}

#[test]
fn inputs_and_fixtures_are_paired_in_order() {
    assert_eq!(pairing(3, 3), (3, false));
    assert_eq!(pairing(3, 5), (3, true));
    assert_eq!(pairing(5, 3), (3, true));
    assert_eq!(pairing(0, 0), (0, false));
}
