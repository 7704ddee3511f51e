//! Grading of the hand-written scanner: its output is read token by token
//! and compared under the tolerance rules for numbers.

use vstd::prelude::*;
use crate::changes::{line_diff, DifferenceView};
use crate::lex::{added_all, align, emitted, prepend, removed_all, session, Policy, Run, Verdict};
use crate::policy::{equals, lemma_equals_reflexive, numbers_equal, records_equal};
use crate::record::{parse, parse_line, NumberView, Overflow, Record, RecordView};
use crate::report::Report;

verus! {

/// The verdict on an expected record and an actual one, with `pending` the
/// overflow that the expected side announced last. A malformed expected
/// line gives none. Two complaints of the same kind agree; any other
/// complaint has no partner and is dropped from its own side, the expected
/// one first. An unparseable actual line differs from whatever is expected.
pub open spec fn token_verdict(
    pending: Option<Overflow>,
    expected: RecordView,
    actual: RecordView,
) -> Option<Verdict> {
    match (expected, actual) {
        (RecordView::Unparseable, _) => None,
        (RecordView::Overflow(k1), RecordView::Overflow(k2)) => Some(
            if k1 == k2 {
                Verdict::Same
            } else {
                Verdict::DropExpected
            },
        ),
        (RecordView::Overflow(_), _) => Some(Verdict::DropExpected),
        (_, RecordView::Overflow(_)) => Some(Verdict::DropActual),
        (_, RecordView::Unparseable) => Some(Verdict::Different),
        _ => Some(
            if records_equal(expected, actual, pending) {
                Verdict::Same
            } else {
                Verdict::Different
            },
        ),
    }
}

/// The pending overflow after a pair of records. Two complaints of the same
/// kind leave that kind pending; a comparison of two tokens uses up what was
/// pending; any other pair leaves it as it was.
pub open spec fn token_after(
    pending: Option<Overflow>,
    expected: RecordView,
    actual: RecordView,
) -> Option<Overflow> {
    match (expected, actual) {
        (RecordView::Unparseable, _) => pending,
        (RecordView::Overflow(k1), RecordView::Overflow(k2)) => if k1 == k2 {
            Some(k1)
        } else {
            pending
        },
        (RecordView::Overflow(_), _) => pending,
        (_, RecordView::Overflow(_)) => pending,
        (_, RecordView::Unparseable) => pending,
        _ => None,
    }
}

/// Decides on a pair of records and updates the pending overflow.
pub fn judge(expected: &Record, actual: &Record, pending: &mut Option<Overflow>) -> (r: Option<
    Verdict,
>)
    ensures
        r == token_verdict(*old(pending), expected@, actual@),
        *final(pending) == token_after(*old(pending), expected@, actual@),
{
    match (expected, actual) {
        (Record::Unparseable, _) => None,
        (Record::Overflow(k1), Record::Overflow(k2)) => {
            if *k1 == *k2 {
                *pending = Some(*k1);
                Some(Verdict::Same)
            } else {
                Some(Verdict::DropExpected)
            }
        },
        (Record::Overflow(_), _) => Some(Verdict::DropExpected),
        (_, Record::Overflow(_)) => Some(Verdict::DropActual),
        (_, Record::Unparseable) => Some(Verdict::Different),
        _ => {
            if equals(expected, actual, pending) {
                Some(Verdict::Same)
            } else {
                Some(Verdict::Different)
            }
        },
    }
}

/// The policy for token streams. It remembers the overflow that the
/// expected side announced last, until a comparison of two tokens uses it
/// up.
#[derive(Clone, Copy, Debug, PartialEq, Eq, Structural)]
pub struct TokenPolicy {
    pub pending: Option<Overflow>,
}

impl Policy for TokenPolicy {
    open spec fn initial() -> Self {
        TokenPolicy { pending: None }
    }

    open spec fn verdict(&self, expected: Seq<char>, actual: Seq<char>) -> Option<Verdict> {
        token_verdict(self.pending, parse_line(expected), parse_line(actual))
    }

    open spec fn after(&self, expected: Seq<char>, actual: Seq<char>) -> Self {
        TokenPolicy {
            pending: token_after(self.pending, parse_line(expected), parse_line(actual)),
        }
    }

    fn start() -> (policy: Self) {
        TokenPolicy { pending: None }
    }

    fn decide(&mut self, expected: &str, actual: &str) -> (r: Option<Verdict>) {
        let expected_record = parse(expected);
        let actual_record = parse(actual);
        judge(&expected_record, &actual_record, &mut self.pending)
    }
}

/// Grades the tests of the hand-written scanner.
pub fn grade(verbose: bool, runs: &Vec<Run>) -> (report: Report)
    ensures
        report@ == session::<TokenPolicy>(runs@, verbose, runs@.len() as int),
{
    crate::lex::grade::<TokenPolicy>(verbose, runs)
}

/// The kind of overflow that a number can suffer.
pub open spec fn kind_of(number: NumberView) -> Overflow {
    match number {
        NumberView::Float { .. } => Overflow::Float,
        NumberView::Integer(_) => Overflow::Integer,
    }
}

/// An overflow is read once. Where both sides complain of the same kind and
/// a number of that kind follows on each side, the two numbers count as the
/// same whatever their values; the pair of numbers after them is compared by
/// value again.
pub proof fn lemma_overflow_read_once(
    kind: Overflow,
    complaints: (Seq<char>, Seq<char>),
    excused: (Seq<char>, Seq<char>),
    later: (Seq<char>, Seq<char>),
)
    requires
        parse_line(complaints.0) == RecordView::Overflow(kind),
        parse_line(complaints.1) == RecordView::Overflow(kind),
        parse_line(excused.0) is Number,
        parse_line(excused.1) is Number,
        kind_of(parse_line(excused.0)->Number_0) == kind,
        kind_of(parse_line(excused.1)->Number_0) == kind,
        parse_line(later.0) is Number,
        parse_line(later.1) is Number,
    ensures
        align(
            TokenPolicy::initial(),
            seq![complaints.0, excused.0, later.0],
            seq![complaints.1, excused.1, later.1],
            0,
            0,
        ) == Ok::<Seq<DifferenceView>, Seq<char>>(
            if numbers_equal(parse_line(later.0)->Number_0, parse_line(later.1)->Number_0) {
                seq![]
            } else {
                line_diff(later.0, later.1)
            },
        ),
{
    let expected = seq![complaints.0, excused.0, later.0];
    let actual = seq![complaints.1, excused.1, later.1];
    let fresh = TokenPolicy { pending: None };
    let armed = TokenPolicy { pending: Some(kind) };
    let last = emitted(fresh.verdict(later.0, later.1)->0, later.0, later.1);
    assert(align(fresh, expected, actual, 3, 3) == Ok::<Seq<DifferenceView>, Seq<char>>(seq![]));
    assert(last + seq![] =~= last);
    assert(align(fresh, expected, actual, 2, 2) == Ok::<Seq<DifferenceView>, Seq<char>>(last));
    assert(armed.verdict(excused.0, excused.1) == Some(Verdict::Same));
    assert(armed.after(excused.0, excused.1) == fresh);
    assert(seq![] + last =~= last);
    assert(align(armed, expected, actual, 1, 1) == Ok::<Seq<DifferenceView>, Seq<char>>(last));
    assert(fresh.verdict(complaints.0, complaints.1) == Some(Verdict::Same));
    assert(fresh.after(complaints.0, complaints.1) == armed);
    assert(align(fresh, expected, actual, 0, 0) == Ok::<Seq<DifferenceView>, Seq<char>>(last));
}

/// A complaint that only the expected side holds is dropped, and the lines
/// around it still meet their partners: of the expected lines `first`,
/// `complaint`, `second` against the actual lines `first`, `second`, the one
/// difference is the complaint, removed.
pub proof fn lemma_desync_recovery(first: Seq<char>, complaint: Seq<char>, second: Seq<char>)
    requires
        parse_line(complaint) is Overflow,
        !(parse_line(first) is Overflow) && !(parse_line(first) is Unparseable),
        !(parse_line(second) is Overflow) && !(parse_line(second) is Unparseable),
    ensures
        align(
            TokenPolicy::initial(),
            seq![first, complaint, second],
            seq![first, second],
            0,
            0,
        ) == Ok::<Seq<DifferenceView>, Seq<char>>(seq![DifferenceView::Removed(complaint)]),
{
    let expected = seq![first, complaint, second];
    let actual = seq![first, second];
    let fresh = TokenPolicy { pending: None };
    let dropped = seq![DifferenceView::Removed(complaint)];
    lemma_equals_reflexive(parse_line(first), None);
    lemma_equals_reflexive(parse_line(second), None);
    assert(align(fresh, expected, actual, 3, 2) == Ok::<Seq<DifferenceView>, Seq<char>>(seq![]));
    assert(fresh.verdict(second, second) == Some(Verdict::Same));
    assert(fresh.after(second, second) == fresh);
    assert(Seq::<DifferenceView>::empty() + seq![] =~= seq![]);
    assert(align(fresh, expected, actual, 2, 1) == Ok::<Seq<DifferenceView>, Seq<char>>(seq![]));
    assert(fresh.verdict(complaint, second) == Some(Verdict::DropExpected));
    assert(fresh.after(complaint, second) == fresh);
    assert(dropped + seq![] =~= dropped);
    assert(align(fresh, expected, actual, 1, 1) == Ok::<Seq<DifferenceView>, Seq<char>>(dropped));
    assert(fresh.verdict(first, first) == Some(Verdict::Same));
    assert(fresh.after(first, first) == fresh);
    assert(seq![] + dropped =~= dropped);
}

/// No line is passed over in silence: where the token streams from the
/// indices `i` and `j` on show no difference, as many lines are left on
/// either side, and each of them has a known shape.
pub proof fn lemma_pass_parses_all(
    policy: TokenPolicy,
    expected: Seq<Seq<char>>,
    actual: Seq<Seq<char>>,
    i: int,
    j: int,
)
    requires
        0 <= i <= expected.len(),
        0 <= j <= actual.len(),
        align(policy, expected, actual, i, j) == Ok::<Seq<DifferenceView>, Seq<char>>(seq![]),
    ensures
        expected.len() - i == actual.len() - j,
        forall|k: int| i <= k < expected.len() ==> !(parse_line(#[trigger] expected[k]) is Unparseable),
        forall|k: int| j <= k < actual.len() ==> !(parse_line(#[trigger] actual[k]) is Unparseable),
    decreases expected.len() - i + actual.len() - j,
{
    if i < expected.len() && j < actual.len() {
        let e = expected[i];
        let a = actual[j];
        let verdict = policy.verdict(e, a)->0;
        let next = policy.after(e, a);
        let out = emitted(verdict, e, a);
        assert(policy.verdict(e, a) is Some);
        let rest = align(
            next,
            expected,
            actual,
            if verdict == Verdict::DropActual {
                i
            } else {
                i + 1
            },
            if verdict == Verdict::DropExpected {
                j
            } else {
                j + 1
            },
        );
        assert(prepend(out, rest) == Ok::<Seq<DifferenceView>, Seq<char>>(seq![]));
        assert(rest is Ok);
        assert((out + rest->Ok_0).len() == 0);
        assert(out.len() == 0 && rest->Ok_0.len() == 0);
        assert(rest->Ok_0 =~= seq![]);
        if verdict == Verdict::Different {
            if e == a {
                lemma_equals_reflexive(parse_line(e), policy.pending);
                assert(false);
            }
            if e.len() == 0 && a.len() == 0 {
                assert(e =~= a);
            }
            assert(line_diff(e, a).len() > 0);
        }
        assert(verdict == Verdict::Same);
        lemma_pass_parses_all(next, expected, actual, i + 1, j + 1);
    } else if i < expected.len() {
        assert(removed_all(expected.skip(i)).len() > 0);
    } else if j < actual.len() {
        assert(added_all(actual.skip(j)).len() > 0);
    }
}

} // verus!
