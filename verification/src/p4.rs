//! Grading of the parser on the graphing sample program.

use vstd::prelude::*;
use vstd::string::*;
use crate::parse::{compared, grade_test};
use crate::report::{classify, empty_report, outcome_of, recorded, Report};

verus! {

/// The name of the one test of this exercise.
pub open spec fn test_name() -> Seq<char> {
    "graph1i.pas"@
}

/// Grades the output `actual` of a parser on the one test of this
/// exercise, whose fixtures are `table` and `tree`.
pub fn grade(verbose: bool, table: &str, tree: &str, actual: &str) -> (report: Report)
    ensures
        report@ == recorded(
            empty_report(),
            test_name(),
            outcome_of(compared(table@, tree@, actual@)),
            verbose,
        ),
{
    let mut report = Report::new();
    let outcome = classify(grade_test(table, tree, actual));
    report.record(String::from_str("graph1i.pas"), outcome, verbose);
    report
}

} // verus!
