//! The stream aligner: it walks the lines of an expected and an actual
//! output side by side and lets a policy decide, pair by pair, whether the
//! lines agree and which side moves on.

use vstd::prelude::*;
use crate::changes::{
    difference_views,
    lemma_one_line_count,
    line_changes,
    line_diff,
    one_line,
    Difference,
    DifferenceView,
};
use crate::report::{
    classify,
    empty_report,
    outcome_of,
    recorded,
    GradeErrorView,
    Report,
    ReportView,
};
use crate::text::{
    find_char,
    lemma_find_char,
    lines_from,
    lines_of,
    split_lines,
    texts,
    trim_newlines,
};

verus! {

/// What a policy decides of a pair of lines.
#[derive(Clone, Copy, Debug, PartialEq, Eq, Structural)]
pub enum Verdict {
    /// The lines agree; both sides move on.
    Same,
    /// The lines disagree; their difference is reported and both sides move
    /// on.
    Different,
    /// The expected line has no partner; it is reported as removed and only
    /// the expected side moves on.
    DropExpected,
    /// The actual line has no partner; it is reported as added and only the
    /// actual side moves on.
    DropActual,
}

/// Why a test could not be graded.
#[derive(Clone, Debug, PartialEq, Eq)]
pub enum GradeError {
    /// A line of the expected output has no known shape: the fixture itself
    /// is broken.
    MalformedExpected(String),
    /// The actual output shows no symbol table.
    NoSymbolTable,
    /// The actual output shows no syntax tree.
    NoTree,
    /// The two texts have more lines than can be compared.
    TooLarge,
}

/// A rule that compares lines pair by pair and may carry state from one
/// pair to the next.
pub trait Policy: Sized {
    /// The state in which every test starts.
    spec fn initial() -> Self;

    /// The verdict on a pair of lines; `None` where the expected line is
    /// malformed.
    spec fn verdict(&self, expected: Seq<char>, actual: Seq<char>) -> Option<Verdict>;

    /// The state after a pair of lines.
    spec fn after(&self, expected: Seq<char>, actual: Seq<char>) -> Self;

    fn start() -> (policy: Self)
        ensures
            policy == Self::initial(),
    ;

    fn decide(&mut self, expected: &str, actual: &str) -> (r: Option<Verdict>)
        ensures
            r == old(self).verdict(expected@, actual@),
            r is Some ==> *final(self) == old(self).after(expected@, actual@),
    ;
}

/// What a verdict on the lines `expected` and `actual` adds to the report.
pub open spec fn emitted(verdict: Verdict, expected: Seq<char>, actual: Seq<char>) -> Seq<
    DifferenceView,
> {
    match verdict {
        Verdict::Same => seq![],
        Verdict::Different => line_diff(expected, actual),
        Verdict::DropExpected => seq![DifferenceView::Removed(expected)],
        Verdict::DropActual => seq![DifferenceView::Added(actual)],
    }
}

/// Each of `lines` as removed.
pub open spec fn removed_all(lines: Seq<Seq<char>>) -> Seq<DifferenceView> {
    Seq::new(lines.len(), |k: int| DifferenceView::Removed(lines[k]))
}

/// Each of `lines` as added.
pub open spec fn added_all(lines: Seq<Seq<char>>) -> Seq<DifferenceView> {
    Seq::new(lines.len(), |k: int| DifferenceView::Added(lines[k]))
}

/// `prefix` in front of a result.
pub open spec fn prepend(
    prefix: Seq<DifferenceView>,
    result: Result<Seq<DifferenceView>, Seq<char>>,
) -> Result<Seq<DifferenceView>, Seq<char>> {
    match result {
        Ok(rest) => Ok(prefix + rest),
        Err(line) => Err(line),
    }
}

/// The differences between the expected lines from index `i` on and the
/// actual lines from index `j` on, under `policy`. While both sides have a
/// line, the policy decides; once one side is exhausted, each line left on
/// the other is removed or added. The result is the malformed expected line
/// where the policy meets one.
pub open spec fn align<P: Policy>(
    policy: P,
    expected: Seq<Seq<char>>,
    actual: Seq<Seq<char>>,
    i: int,
    j: int,
) -> Result<Seq<DifferenceView>, Seq<char>>
    decreases expected.len() - i + actual.len() - j,
{
    if 0 <= i < expected.len() && 0 <= j < actual.len() {
        match policy.verdict(expected[i], actual[j]) {
            None => Err(expected[i]),
            Some(verdict) => prepend(
                emitted(verdict, expected[i], actual[j]),
                align(
                    policy.after(expected[i], actual[j]),
                    expected,
                    actual,
                    if verdict == Verdict::DropActual {
                        i
                    } else {
                        i + 1
                    },
                    if verdict == Verdict::DropExpected {
                        j
                    } else {
                        j + 1
                    },
                ),
            ),
        }
    } else if 0 <= i < expected.len() {
        Ok(removed_all(expected.skip(i)))
    } else if 0 <= j < actual.len() {
        Ok(added_all(actual.skip(j)))
    } else {
        Ok(seq![])
    }
}

/// The differences between the lines of an expected output and those of an
/// actual one.
pub open spec fn graded<P: Policy>(policy: P, expected: Seq<char>, actual: Seq<char>) -> Result<
    Seq<DifferenceView>,
    Seq<char>,
> {
    align(policy, lines_of(expected), lines_of(actual), 0, 0)
}

/// No line that `lines_from` cuts holds a line feed.
pub proof fn lemma_lines_one_line(s: Seq<char>, i: int)
    requires
        0 <= i <= s.len(),
    ensures
        forall|k: int|
            0 <= k < lines_from(s, i).len() ==> one_line(#[trigger] lines_from(s, i)[k]),
    decreases s.len() - i,
{
    lemma_find_char(s, '\n', i);
    let j = find_char(s, '\n', i);
    if j < s.len() {
        lemma_lines_one_line(s, j + 1);
        assert forall|k: int| 0 <= k < lines_from(s, i).len() implies one_line(
            #[trigger] lines_from(s, i)[k],
        ) by {
            if k > 0 {
                assert(lines_from(s, i)[k] == lines_from(s, j + 1)[k - 1]);
            }
        }
    }
}

/// Compares an expected output with an actual one under `policy`.
pub fn grade_test<P: Policy>(expected: &str, actual: &str, policy: P) -> (r: Result<
    Vec<Difference>,
    GradeError,
>)
    ensures
        match r {
            Ok(differences) => graded(policy, expected@, actual@) == Ok::<
                Seq<DifferenceView>,
                Seq<char>,
            >(difference_views(differences@)),
            Err(GradeError::MalformedExpected(line)) => graded(policy, expected@, actual@) == Err::<
                Seq<DifferenceView>,
                Seq<char>,
            >(line@),
            Err(_) => false,
        },
{
    let mut differences: Vec<Difference> = Vec::new();
    assert(difference_views(differences@) =~= seq![]);
    let expecteds = split_lines(expected);
    let actuals = split_lines(actual);
    let ghost es = texts(expecteds@);
    let ghost acs = texts(actuals@);
    let mut current = policy;
    let mut i: usize = 0;
    let mut j: usize = 0;
    proof {
        lemma_lines_all_one_line(expected@);
        lemma_lines_all_one_line(actual@);
    }
    while i < expecteds.len() && j < actuals.len()
        invariant
            i <= expecteds.len(),
            j <= actuals.len(),
            es == texts(expecteds@),
            acs == texts(actuals@),
            es == lines_of(expected@),
            acs == lines_of(actual@),
            forall|k: int| 0 <= k < es.len() ==> one_line(#[trigger] es[k]),
            forall|k: int| 0 <= k < acs.len() ==> one_line(#[trigger] acs[k]),
            align(policy, es, acs, 0, 0) == prepend(
                difference_views(differences@),
                align(current, es, acs, i as int, j as int),
            ),
        decreases expecteds.len() - i + actuals.len() - j,
    {
        let e: &String = &expecteds[i];
        let a: &String = &actuals[j];
        assert(es[i as int] == e@ && acs[j as int] == a@);
        let ghost before = difference_views(differences@);
        let ghost held = current;
        match current.decide(e.as_str(), a.as_str()) {
            None => {
                assert(align(held, es, acs, i as int, j as int) == Err::<
                    Seq<DifferenceView>,
                    Seq<char>,
                >(e@));
                return Err(GradeError::MalformedExpected(e.clone()));
            },
            Some(Verdict::Same) => {
                assert(before + seq![] =~= before);
                i = i + 1;
                j = j + 1;
            },
            Some(Verdict::Different) => {
                proof {
                    lemma_one_line_count(e@);
                    lemma_one_line_count(a@);
                }
                let mut changes = line_changes(e.as_str(), a.as_str());
                let ghost added = difference_views(changes@);
                differences.append(&mut changes);
                assert(difference_views(differences@) =~= before + added);
                i = i + 1;
                j = j + 1;
            },
            Some(Verdict::DropExpected) => {
                differences.push(Difference::Removed(e.clone()));
                assert(difference_views(differences@) =~= before + seq![
                    DifferenceView::Removed(e@),
                ]);
                i = i + 1;
            },
            Some(Verdict::DropActual) => {
                differences.push(Difference::Added(a.clone()));
                assert(difference_views(differences@) =~= before + seq![
                    DifferenceView::Added(a@),
                ]);
                j = j + 1;
            },
        }
        proof {
            lemma_prepend_twice(
                before,
                emitted(held.verdict(e@, a@)->0, e@, a@),
                align(current, es, acs, i as int, j as int),
            );
        }
    }
    let ghost before = difference_views(differences@);
    let ghost from = i;
    while i < expecteds.len()
        invariant
            from <= i <= expecteds.len(),
            es == texts(expecteds@),
            difference_views(differences@) == before + removed_all(
                es.subrange(from as int, i as int),
            ),
        decreases expecteds.len() - i,
    {
        let ghost so_far = difference_views(differences@);
        differences.push(Difference::Removed(expecteds[i].clone()));
        assert(difference_views(differences@) =~= so_far + seq![
            DifferenceView::Removed(es[i as int]),
        ]);
        assert(before + removed_all(es.subrange(from as int, i + 1)) =~= so_far + seq![
            DifferenceView::Removed(es[i as int]),
        ]);
        i = i + 1;
    }
    let ghost middle = difference_views(differences@);
    let ghost start = j;
    while j < actuals.len()
        invariant
            start <= j <= actuals.len(),
            acs == texts(actuals@),
            difference_views(differences@) == middle + added_all(
                acs.subrange(start as int, j as int),
            ),
        decreases actuals.len() - j,
    {
        let ghost so_far = difference_views(differences@);
        differences.push(Difference::Added(actuals[j].clone()));
        assert(difference_views(differences@) =~= so_far + seq![
            DifferenceView::Added(acs[j as int]),
        ]);
        assert(middle + added_all(acs.subrange(start as int, j + 1)) =~= so_far + seq![
            DifferenceView::Added(acs[j as int]),
        ]);
        j = j + 1;
    }
    proof {
        assert(es.subrange(from as int, es.len() as int) =~= es.skip(from as int));
        assert(acs.subrange(start as int, acs.len() as int) =~= acs.skip(start as int));
        assert(removed_all(es.subrange(from as int, from as int)) =~= seq![]);
        assert(added_all(acs.subrange(start as int, start as int)) =~= seq![]);
        assert(before + seq![] =~= before);
        assert(middle + seq![] =~= middle);
    }
    Ok(differences)
}

/// Prepending twice is prepending the two prefixes joined.
pub proof fn lemma_prepend_twice(
    a: Seq<DifferenceView>,
    b: Seq<DifferenceView>,
    result: Result<Seq<DifferenceView>, Seq<char>>,
)
    ensures
        prepend(a, prepend(b, result)) == prepend(a + b, result),
{
    match result {
        Ok(rest) => {
            assert(a + (b + rest) =~= (a + b) + rest);
        },
        Err(_) => {},
    }
}

/// No line of an output holds a line feed.
pub proof fn lemma_lines_all_one_line(s: Seq<char>)
    ensures
        forall|k: int| 0 <= k < lines_of(s).len() ==> one_line(#[trigger] lines_of(s)[k]),
{
    lemma_lines_one_line(trim_newlines(s), 0);
}

/// One test of a session: its name, the output that was expected of the
/// program under test, and the output that the program gave.
#[derive(Clone, Debug, PartialEq, Eq)]
pub struct Run {
    pub name: String,
    pub expected: String,
    pub actual: String,
}

/// The result of one test under a policy that starts afresh.
pub open spec fn run_result<P: Policy>(expected: Seq<char>, actual: Seq<char>) -> Result<
    Seq<DifferenceView>,
    GradeErrorView,
> {
    match graded(P::initial(), expected, actual) {
        Ok(differences) => Ok(differences),
        Err(line) => Err(GradeErrorView::MalformedExpected(line)),
    }
}

/// The report on the first `n` of `runs`.
pub open spec fn session<P: Policy>(runs: Seq<Run>, verbose: bool, n: int) -> ReportView
    decreases n,
{
    if n <= 0 {
        empty_report()
    } else {
        recorded(
            session::<P>(runs, verbose, n - 1),
            runs[n - 1].name@,
            outcome_of(run_result::<P>(runs[n - 1].expected@, runs[n - 1].actual@)),
            verbose,
        )
    }
}

/// Grades the tests of a session one after the other, each under a policy
/// that starts afresh. A test that cannot be graded is reported as such and
/// does not end the session.
pub fn grade<P: Policy>(verbose: bool, runs: &Vec<Run>) -> (report: Report)
    ensures
        report@ == session::<P>(runs@, verbose, runs@.len() as int),
{
    let mut report = Report::new();
    let mut k: usize = 0;
    while k < runs.len()
        invariant
            k <= runs.len(),
            report.passed <= report.total == k,
            report@ == session::<P>(runs@, verbose, k as int),
        decreases runs.len() - k,
    {
        let run: &Run = &runs[k];
        let result = grade_test(run.expected.as_str(), run.actual.as_str(), P::start());
        let outcome = classify(result);
        report.record(run.name.clone(), outcome, verbose);
        k = k + 1;
    }
    report
}

/// How test inputs and expected outputs are paired: in order, one to one.
/// The result is the number of pairs, and whether anything is left over on
/// either side, which a caller should report.
pub fn pairing(inputs: usize, fixtures: usize) -> (r: (usize, bool))
    ensures
        r.0 == (if inputs <= fixtures {
            inputs
        } else {
            fixtures
        }),
        r.1 == (inputs != fixtures),
{
    if inputs <= fixtures {
        (inputs, inputs != fixtures)
    } else {
        (fixtures, true)
    }
}

} // verus!
