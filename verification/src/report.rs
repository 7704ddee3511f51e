//! The report of a grading session: one entry for each test, and the count
//! of those that passed.

use vstd::prelude::*;
use crate::changes::{difference_views, Difference, DifferenceView};
use crate::lex::GradeError;

verus! {

/// The mathematical content of a `GradeError`.
pub ghost enum GradeErrorView {
    MalformedExpected(Seq<char>),
    NoSymbolTable,
    NoTree,
    TooLarge,
}

/// The content of an error.
pub open spec fn error_view(error: GradeError) -> GradeErrorView {
    match error {
        GradeError::MalformedExpected(line) => GradeErrorView::MalformedExpected(line@),
        GradeError::NoSymbolTable => GradeErrorView::NoSymbolTable,
        GradeError::NoTree => GradeErrorView::NoTree,
        GradeError::TooLarge => GradeErrorView::TooLarge,
    }
}

/// How one test ended.
#[derive(Clone, Debug, PartialEq, Eq)]
pub enum Outcome {
    /// The outputs agree.
    Pass,
    /// The outputs differ in these entries.
    Fail(Vec<Difference>),
    /// The test could not be graded.
    Error(GradeError),
}

/// The mathematical content of an `Outcome`.
pub ghost enum OutcomeView {
    Pass,
    Fail(Seq<DifferenceView>),
    Error(GradeErrorView),
}

impl View for Outcome {
    type V = OutcomeView;

    open spec fn view(&self) -> OutcomeView {
        match self {
            Outcome::Pass => OutcomeView::Pass,
            Outcome::Fail(differences) => OutcomeView::Fail(difference_views(differences@)),
            Outcome::Error(error) => OutcomeView::Error(error_view(*error)),
        }
    }
}

/// The outcome of a comparison: a pass where it found no difference at all.
pub open spec fn outcome_of(result: Result<Seq<DifferenceView>, GradeErrorView>) -> OutcomeView {
    match result {
        Ok(differences) => if differences.len() == 0 {
            OutcomeView::Pass
        } else {
            OutcomeView::Fail(differences)
        },
        Err(error) => OutcomeView::Error(error),
    }
}

/// One test with its outcome.
#[derive(Clone, Debug, PartialEq, Eq)]
pub struct Graded {
    pub name: String,
    pub outcome: Outcome,
}

/// The mathematical content of a `Graded`.
pub ghost struct GradedView {
    pub name: Seq<char>,
    pub outcome: OutcomeView,
}

impl View for Graded {
    type V = GradedView;

    open spec fn view(&self) -> GradedView {
        GradedView { name: self.name@, outcome: self.outcome@ }
    }
}

/// The report of a session.
#[derive(Clone, Debug, PartialEq, Eq)]
pub struct Report {
    /// The tests to report, in the order in which they were graded.
    pub entries: Vec<Graded>,
    /// How many tests passed.
    pub passed: usize,
    /// How many tests were graded.
    pub total: usize,
}

/// The mathematical content of a `Report`.
pub ghost struct ReportView {
    pub entries: Seq<GradedView>,
    pub passed: nat,
    pub total: nat,
}

impl View for Report {
    type V = ReportView;

    open spec fn view(&self) -> ReportView {
        ReportView {
            entries: Seq::new(self.entries@.len(), |k: int| self.entries@[k]@),
            passed: self.passed as nat,
            total: self.total as nat,
        }
    }
}

/// The report of a session in which no test was graded yet.
pub open spec fn empty_report() -> ReportView {
    ReportView { entries: seq![], passed: 0, total: 0 }
}

/// The report after one more test. A test that passed is counted, and is
/// listed only in a verbose report; any other test is listed.
pub open spec fn recorded(
    report: ReportView,
    name: Seq<char>,
    outcome: OutcomeView,
    verbose: bool,
) -> ReportView {
    ReportView {
        entries: if outcome is Pass && !verbose {
            report.entries
        } else {
            report.entries.push(GradedView { name, outcome })
        },
        passed: if outcome is Pass {
            report.passed + 1
        } else {
            report.passed
        },
        total: report.total + 1,
    }
}

/// The entries of `differences` that a report shows: all but those that
/// both sides hold.
pub open spec fn shown(differences: Seq<DifferenceView>) -> Seq<DifferenceView> {
    differences.filter(|d: DifferenceView| !(d is Same))
}

/// Turns the result of a comparison into an outcome.
pub fn classify(result: Result<Vec<Difference>, GradeError>) -> (outcome: Outcome)
    ensures
        outcome@ == outcome_of(
            match result {
                Ok(differences) => Ok(difference_views(differences@)),
                Err(error) => Err(error_view(error)),
            },
        ),
{
    match result {
        Ok(differences) => {
            if differences.len() == 0 {
                Outcome::Pass
            } else {
                Outcome::Fail(differences)
            }
        },
        Err(error) => Outcome::Error(error),
    }
}

impl Report {
    /// A report without entries.
    pub fn new() -> (report: Report)
        ensures
            report@ == empty_report(),
    {
        let report = Report { entries: Vec::new(), passed: 0, total: 0 };
        assert(report@.entries =~= seq![]);
        report
    }

    /// Adds one test to the report.
    pub fn record(&mut self, name: String, outcome: Outcome, verbose: bool)
        requires
            old(self).passed <= old(self).total < usize::MAX,
        ensures
            final(self)@ == recorded(old(self)@, name@, outcome@, verbose),
            final(self).passed <= final(self).total,
    {
        let ghost before = self@;
        let passed: bool = match outcome {
            Outcome::Pass => true,
            _ => false,
        };
        if passed {
            self.passed = self.passed + 1;
        }
        self.total = self.total + 1;
        if !passed || verbose {
            self.entries.push(Graded { name, outcome });
            assert(self@.entries =~= before.entries.push(
                GradedView { name: name@, outcome: outcome@ },
            ));
        } else {
            assert(self@.entries =~= before.entries);
        }
    }
}

/// The entries of `differences` that a report shows.
pub fn visible(differences: &Vec<Difference>) -> (r: Vec<Difference>)
    ensures
        difference_views(r@) == shown(difference_views(differences@)),
{
    let mut r: Vec<Difference> = Vec::new();
    let mut k: usize = 0;
    let ghost all = difference_views(differences@);
    assert(all.take(0) =~= seq![]);
    assert(difference_views(r@) =~= seq![]);
    while k < differences.len()
        invariant
            k <= differences.len(),
            all == difference_views(differences@),
            difference_views(r@) == shown(all.take(k as int)),
        decreases differences.len() - k,
    {
        let ghost before = difference_views(r@);
        proof {
            lemma_shown_step(all, k as int);
        }
        match &differences[k] {
            Difference::Same(_) => {},
            Difference::Added(text) => {
                r.push(Difference::Added(text.clone()));
                assert(difference_views(r@) =~= before.push(all[k as int]));
            },
            Difference::Removed(text) => {
                r.push(Difference::Removed(text.clone()));
                assert(difference_views(r@) =~= before.push(all[k as int]));
            },
        }
        k = k + 1;
    }
    assert(all.take(k as int) =~= all);
    r
}

/// What is shown of one more entry.
pub proof fn lemma_shown_step(all: Seq<DifferenceView>, k: int)
    requires
        0 <= k < all.len(),
    ensures
        shown(all.take(k + 1)) == (if all[k] is Same {
            shown(all.take(k))
        } else {
            shown(all.take(k)).push(all[k])
        }),
        shown(Seq::<DifferenceView>::empty()) == Seq::<DifferenceView>::empty(),
{
    reveal(Seq::filter);
    assert(all.take(k + 1).drop_last() =~= all.take(k));
    assert(all.take(k + 1).last() == all[k]);
}

} // verus!
