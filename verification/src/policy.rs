//! When an expected record and an actual one count as the same.

use vstd::prelude::*;
use crate::numeric::DecimalView;
use crate::record::{Number, NumberView, Overflow, Record, RecordView};
use crate::tolerance::{close, is_close, places, pow10};

verus! {

/// Whether two numbers are the same: integers where they are equal, floats
/// where their exponents are equal and their mantissas differ by less than
/// one millionth. An integer is never the same as a float.
pub open spec fn numbers_equal(expected: NumberView, actual: NumberView) -> bool {
    match (expected, actual) {
        (
            NumberView::Float { mantissa: m1, exponent: e1 },
            NumberView::Float { mantissa: m2, exponent: e2 },
        ) => e1 == e2 && close(m1, m2),
        (NumberView::Integer(v1), NumberView::Integer(v2)) => v1 == v2,
        _ => false,
    }
}

/// Whether a pending overflow of kind `pending` excuses any difference
/// between two numbers: it does where both are of that kind.
pub open spec fn excused(
    expected: NumberView,
    actual: NumberView,
    pending: Option<Overflow>,
) -> bool {
    match (expected, actual, pending) {
        (NumberView::Float { .. }, NumberView::Float { .. }, Some(Overflow::Float)) => true,
        (NumberView::Integer(_), NumberView::Integer(_), Some(Overflow::Integer)) => true,
        _ => false,
    }
}

/// Whether an expected record and an actual one count as the same, given
/// the overflow that the expected side announced just before. Records of
/// different kinds never do, and an unparseable line is the same as nothing,
/// not even as another unparseable line.
pub open spec fn records_equal(
    expected: RecordView,
    actual: RecordView,
    pending: Option<Overflow>,
) -> bool {
    match (expected, actual) {
        (RecordView::Start, RecordView::Start) => true,
        (RecordView::Overflow(k1), RecordView::Overflow(k2)) => k1 == k2,
        (RecordView::Operator(c1), RecordView::Operator(c2)) => c1 == c2,
        (RecordView::Delimiter(c1), RecordView::Delimiter(c2)) => c1 == c2,
        (RecordView::Reserved(c1), RecordView::Reserved(c2)) => c1 == c2,
        (RecordView::Identifier(t1), RecordView::Identifier(t2)) => t1 == t2,
        (RecordView::String(t1), RecordView::String(t2)) => t1 == t2,
        (RecordView::Number(n1), RecordView::Number(n2)) => excused(n1, n2, pending)
            || numbers_equal(n1, n2),
        _ => false,
    }
}

/// Compares two numbers without regard to any overflow.
pub fn same_number(expected: &Number, actual: &Number) -> (r: bool)
    ensures
        r == numbers_equal(expected@, actual@),
{
    match (expected, actual) {
        (
            Number::Float { mantissa: m1, exponent: e1 },
            Number::Float { mantissa: m2, exponent: e2 },
        ) => *e1 == *e2 && is_close(m1, m2),
        (Number::Integer(v1), Number::Integer(v2)) => *v1 == *v2,
        _ => false,
    }
}

/// Compares two numbers under a pending overflow.
pub fn number_equals(expected: &Number, actual: &Number, pending: Option<Overflow>) -> (r: bool)
    ensures
        r == (excused(expected@, actual@, pending) || numbers_equal(expected@, actual@)),
{
    match (expected, actual, pending) {
        (Number::Float { .. }, Number::Float { .. }, Some(Overflow::Float)) => true,
        (Number::Integer(_), Number::Integer(_), Some(Overflow::Integer)) => true,
        _ => same_number(expected, actual),
    }
}

/// Compares an expected record with an actual one. The pending overflow is
/// read once: whatever the records are, none is pending afterwards.
pub fn equals(expected: &Record, actual: &Record, pending: &mut Option<Overflow>) -> (r: bool)
    ensures
        r == records_equal(expected@, actual@, *old(pending)),
        *final(pending) == None::<Overflow>,
{
    let held: Option<Overflow> = *pending;
    *pending = None;
    match (expected, actual) {
        (Record::Start, Record::Start) => true,
        (Record::Overflow(k1), Record::Overflow(k2)) => *k1 == *k2,
        (Record::Operator(c1), Record::Operator(c2)) => *c1 == *c2,
        (Record::Delimiter(c1), Record::Delimiter(c2)) => *c1 == *c2,
        (Record::Reserved(c1), Record::Reserved(c2)) => *c1 == *c2,
        (Record::Identifier(t1), Record::Identifier(t2)) => *t1 == *t2,
        (Record::String(t1), Record::String(t2)) => *t1 == *t2,
        (Record::Number(n1), Record::Number(n2)) => number_equals(n1, n2, held),
        _ => false,
    }
}

/// Ten to any power is positive.
pub proof fn lemma_pow10_positive(n: nat)
    ensures
        pow10(n) > 0,
    decreases n,
{
    if n > 0 {
        lemma_pow10_positive((n - 1) as nat);
    }
}

/// Every fraction is close to itself.
pub proof fn lemma_close_reflexive(a: DecimalView)
    ensures
        close(a, a),
{
    lemma_pow10_positive((places(a, a) - 6) as nat);
}

/// Closeness does not depend on which fraction is named first.
pub proof fn lemma_close_symmetric(a: DecimalView, b: DecimalView)
    ensures
        close(a, b) == close(b, a),
{
    assert(places(a, b) == places(b, a));
}

/// Every record but an unparseable one is the same as itself, whatever
/// overflow is pending, and so with none pending.
pub proof fn lemma_equals_reflexive(record: RecordView, pending: Option<Overflow>)
    requires
        record != RecordView::Unparseable,
    ensures
        records_equal(record, record, pending),
        records_equal(record, record, None),
{
    match record {
        RecordView::Number(NumberView::Float { mantissa, exponent }) => {
            lemma_close_reflexive(mantissa);
        },
        _ => {},
    }
}

/// Equality of numbers does not depend on which is named first.
pub proof fn lemma_numbers_equal_symmetric(a: NumberView, b: NumberView)
    ensures
        numbers_equal(a, b) == numbers_equal(b, a),
{
    match (a, b) {
        (
            NumberView::Float { mantissa: m1, exponent: e1 },
            NumberView::Float { mantissa: m2, exponent: e2 },
        ) => {
            lemma_close_symmetric(m1, m2);
        },
        _ => {},
    }
}

} // verus!
