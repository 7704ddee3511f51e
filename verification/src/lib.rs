//! Grading engine for compiler-construction exercises: it compares the output
//! of a scanner or parser under test with a reference output, line by line,
//! under the tolerance rules of each exercise.
//!
//! The modules, from the bottom up: `text` and `numeric` read characters and
//! number literals; `tolerance` compares decimal fractions; `record` reads
//! one line of scanner output and `policy` says when two records agree;
//! `changes` holds the differences between two texts; `lex` aligns two
//! streams of lines under a policy and `parse` compares the regions of a
//! parser's output; `report` collects the outcomes of a session; `p1` to
//! `p4` grade one exercise each; `project` and `archive` read the names of
//! exercises and of submitted files.

pub mod archive;
pub mod changes;
pub mod lex;
pub mod numeric;
pub mod p1;
pub mod p2;
pub mod p3;
pub mod p4;
pub mod parse;
pub mod policy;
pub mod project;
pub mod record;
pub mod report;
pub mod text;
pub mod tolerance;
