//! The exercises that can be graded.

use vstd::prelude::*;
use crate::text::same_text;

verus! {

/// An exercise.
#[derive(Clone, Copy, Debug, PartialEq, Eq, Structural)]
pub enum Project {
    /// The hand-written scanner.
    P1,
    /// The generated scanner.
    P2,
    /// The parser, on the smallest sample program.
    P3,
    /// The parser, on the graphing sample program.
    P4,
}

/// The exercise that `name` denotes: its number, alone or behind the letter
/// `p` in either case.
pub open spec fn project_named(name: Seq<char>) -> Option<Project> {
    if name == "1"@ || name == "p1"@ || name == "P1"@ {
        Some(Project::P1)
    } else if name == "2"@ || name == "p2"@ || name == "P2"@ {
        Some(Project::P2)
    } else if name == "3"@ || name == "p3"@ || name == "P3"@ {
        Some(Project::P3)
    } else if name == "4"@ || name == "p4"@ || name == "P4"@ {
        Some(Project::P4)
    } else {
        None
    }
}

/// Whether `name` is the digit or the digit behind a `p` in either case.
fn names(name: &str, digit: &str, lower: &str, upper: &str) -> (r: bool)
    ensures
        r == (name@ == digit@ || name@ == lower@ || name@ == upper@),
{
    same_text(name, digit) || same_text(name, lower) || same_text(name, upper)
}

impl Project {
    /// Reads the name of an exercise.
    pub fn from_str(project: &str) -> (r: Option<Project>)
        ensures
            r == project_named(project@),
    {
        if names(project, "1", "p1", "P1") {
            Some(Project::P1)
        } else if names(project, "2", "p2", "P2") {
            Some(Project::P2)
        } else if names(project, "3", "p3", "P3") {
            Some(Project::P3)
        } else if names(project, "4", "p4", "P4") {
            Some(Project::P4)
        } else {
            None
        }
    }
}

} // verus!
