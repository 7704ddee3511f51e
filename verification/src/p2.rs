//! Grading of the generated scanner: its output must be the expected one,
//! line for line.

use vstd::prelude::*;
use crate::lex::{session, Policy, Run, Verdict};
use crate::report::Report;
use crate::text::same_text;

verus! {

/// The policy that takes two lines for the same where they are the same
/// text.
#[derive(Clone, Copy, Debug, PartialEq, Eq, Structural)]
pub struct ExactPolicy {}

impl Policy for ExactPolicy {
    open spec fn initial() -> Self {
        ExactPolicy {  }
    }

    open spec fn verdict(&self, expected: Seq<char>, actual: Seq<char>) -> Option<Verdict> {
        Some(
            if expected == actual {
                Verdict::Same
            } else {
                Verdict::Different
            },
        )
    }

    open spec fn after(&self, expected: Seq<char>, actual: Seq<char>) -> Self {
        *self
    }

    fn start() -> (policy: Self) {
        ExactPolicy {  }
    }

    fn decide(&mut self, expected: &str, actual: &str) -> (r: Option<Verdict>) {
        if same_text(expected, actual) {
            Some(Verdict::Same)
        } else {
            Some(Verdict::Different)
        }
    }
}

/// Grades the tests of the generated scanner.
pub fn grade(verbose: bool, runs: &Vec<Run>) -> (report: Report)
    ensures
        report@ == session::<ExactPolicy>(runs@, verbose, runs@.len() as int),
{
    crate::lex::grade::<ExactPolicy>(verbose, runs)
}

} // verus!
