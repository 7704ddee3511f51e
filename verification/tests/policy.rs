use cs375_autograder::numeric::Decimal;
use cs375_autograder::p1::judge;
use cs375_autograder::lex::Verdict;
use cs375_autograder::policy::{equals, number_equals, same_number};
use cs375_autograder::record::{parse, Number, Overflow, Record};
use cs375_autograder::tolerance::is_close;

fn decimal(text: &str) -> Decimal {
    let negative = text.starts_with('-');
    let body = text.trim_start_matches('-');
    let (whole, fraction) = body.split_once('.').unwrap_or((body, ""));
    let digits: Vec<u8> = whole.bytes().chain(fraction.bytes()).map(|b| b - b'0').collect();
    Decimal::new(negative, digits, fraction.len()).unwrap()
}

fn float(mantissa: &str, exponent: i32) -> Number {
    Number::Float { mantissa: decimal(mantissa), exponent }
}

#[test]
fn decimals_are_checked() {
    assert!(Decimal::new(false, vec![1, 5], 1).is_some());
    assert!(Decimal::new(false, vec![1, 10], 1).is_none());
    assert!(Decimal::new(false, vec![1, 5], 3).is_none());
    assert!(Decimal::new(true, vec![], 0).is_some());
}

#[test]
fn closeness_is_less_than_one_millionth() {
    assert!(is_close(&decimal("1.5"), &decimal("1.5000001")));
    assert!(is_close(&decimal("1.500000"), &decimal("1.5000009")));
    assert!(!is_close(&decimal("1.500000"), &decimal("1.500001")));
    assert!(!is_close(&decimal("1.5"), &decimal("1.6")));
    assert!(is_close(&decimal("0.9999999"), &decimal("1.0000000")));
    assert!(is_close(&decimal("1"), &decimal("0.9999991")));
    assert!(!is_close(&decimal("1"), &decimal("0.999999")));
    assert!(is_close(&decimal("99.9999995"), &decimal("100")));
    assert!(!is_close(&decimal("99"), &decimal("100")));
    assert!(!is_close(&decimal("2"), &decimal("12")));
}

#[test]
fn closeness_across_zero() {
    assert!(is_close(&decimal("-0.0"), &decimal("0")));
    assert!(is_close(&decimal("-0.0000005"), &decimal("0.0000004")));
    assert!(!is_close(&decimal("-0.0000005"), &decimal("0.0000005")));
    assert!(!is_close(&decimal("-1.5"), &decimal("1.5")));
    assert!(is_close(&decimal("-1.5"), &decimal("-1.5000001")));
}

#[test]
fn closeness_of_long_fractions() {
    let long = "3.14159265358979323846264338327950288419716939937510";
    assert!(is_close(&decimal(long), &decimal(long)));
    assert!(is_close(&decimal(long), &decimal("3.1415926")));
    assert!(!is_close(&decimal(long), &decimal("3.14159")));
    let big = "123456789012345678901234567890123456789012345678901234567890";
    assert!(is_close(&decimal(big), &decimal(&format!("{}.0000001", big))));
    assert!(!is_close(&decimal(big), &decimal(&format!("{}1", &big[..big.len() - 1]))));
}

#[test]
fn closeness_is_reflexive_and_symmetric() {
    let values = ["0", "1.5", "-1.5", "1.5000004", "1.4999996", "0.000001", "123.456"];
    for a in values {
        assert!(is_close(&decimal(a), &decimal(a)), "{}", a);
        for b in values {
            assert_eq!(
                is_close(&decimal(a), &decimal(b)),
                is_close(&decimal(b), &decimal(a)),
                "{} {}",
                a,
                b
            );
        }
    }
}

#[test]
fn closeness_is_not_transitive() {
    assert!(is_close(&decimal("0"), &decimal("0.0000006")));
    assert!(is_close(&decimal("0.0000006"), &decimal("0.0000012")));
    assert!(!is_close(&decimal("0"), &decimal("0.0000012")));
}

#[test]
fn floats_need_equal_exponents() {
    assert!(same_number(&float("1.5", 2), &float("1.5000001", 2)));
    assert!(!same_number(&float("1.5", 2), &float("1.5", 3)));
    assert!(!same_number(&float("15", 1), &float("1.5", 2)));
}

#[test]
fn integers_are_compared_exactly() {
    assert!(same_number(&Number::Integer(7), &Number::Integer(7)));
    assert!(!same_number(&Number::Integer(7), &Number::Integer(8)));
    assert!(!same_number(&Number::Integer(1), &float("1", 0)));
}

#[test]
fn a_pending_overflow_excuses_numbers_of_its_kind() {
    assert!(number_equals(&float("1.5", 2), &float("9.9", 7), Some(Overflow::Float)));
    assert!(!number_equals(&float("1.5", 2), &float("9.9", 7), Some(Overflow::Integer)));
    assert!(!number_equals(&float("1.5", 2), &float("9.9", 7), None));
    assert!(number_equals(&Number::Integer(1), &Number::Integer(2), Some(Overflow::Integer)));
    assert!(!number_equals(&Number::Integer(1), &Number::Integer(2), Some(Overflow::Float)));
    assert!(!number_equals(&Number::Integer(1), &float("2", 0), Some(Overflow::Float)));
}

#[test]
fn every_record_but_an_unparseable_one_equals_itself() {
    let records = vec![
        Record::Start,
        Record::Overflow(Overflow::Float),
        Record::Overflow(Overflow::Integer),
        Record::Operator(3),
        Record::Delimiter(0),
        Record::Reserved(65535),
        Record::Identifier("x".to_string()),
        Record::String(String::new()),
        Record::Number(Number::Integer(-5)),
        Record::Number(float("-1.25", -3)),
    ];
    for record in &records {
        let mut pending = None;
        assert!(equals(record, record, &mut pending), "{:?}", record);
    }
    let mut pending = None;
    assert!(!equals(&Record::Unparseable, &Record::Unparseable, &mut pending));
}

#[test]
fn records_of_different_kinds_differ() {
    let mut pending = None;
    assert!(!equals(&Record::Operator(1), &Record::Delimiter(1), &mut pending));
    assert!(!equals(&Record::Delimiter(1), &Record::Reserved(1), &mut pending));
    assert!(!equals(
        &Record::Identifier("a".to_string()),
        &Record::String("a".to_string()),
        &mut pending
    ));
    assert!(!equals(&Record::Start, &Record::Unparseable, &mut pending));
    assert!(!equals(
        &Record::Identifier("a".to_string()),
        &Record::Identifier("b".to_string()),
        &mut pending
    ));
    assert!(!equals(
        &Record::Overflow(Overflow::Float),
        &Record::Overflow(Overflow::Integer),
        &mut pending
    ));
}

#[test]
fn equals_reads_the_pending_overflow_once() {
    let mut pending = Some(Overflow::Float);
    let expected = Record::Number(float("1.5", 2));
    let actual = Record::Number(float("7.25", 9));
    assert!(equals(&expected, &actual, &mut pending));
    assert_eq!(pending, None);
    assert!(!equals(&expected, &actual, &mut pending));
    let mut pending = Some(Overflow::Integer);
    assert!(equals(&Record::Start, &Record::Start, &mut pending));
    assert_eq!(pending, None);
}

#[test]
fn judge_follows_the_overflow_rules() {
    let float_complaint = parse("Float number out of range");
    let integer_complaint = parse("Integer number out of range");
    let token = parse("t: 0 which: 1");
    let other = parse("t: 0 which: 2");
    let mut pending = None;
    assert_eq!(judge(&float_complaint, &float_complaint, &mut pending), Some(Verdict::Same));
    assert_eq!(pending, Some(Overflow::Float));
    assert_eq!(
        judge(&float_complaint, &integer_complaint, &mut pending),
        Some(Verdict::DropExpected)
    );
    assert_eq!(pending, Some(Overflow::Float));
    assert_eq!(judge(&float_complaint, &token, &mut pending), Some(Verdict::DropExpected));
    assert_eq!(judge(&token, &integer_complaint, &mut pending), Some(Verdict::DropActual));
    assert_eq!(judge(&token, &Record::Unparseable, &mut pending), Some(Verdict::Different));
    assert_eq!(pending, Some(Overflow::Float));
    assert_eq!(judge(&token, &token, &mut pending), Some(Verdict::Same));
    assert_eq!(pending, None);
    assert_eq!(judge(&token, &other, &mut pending), Some(Verdict::Different));
    assert_eq!(judge(&Record::Unparseable, &token, &mut pending), None);
}
