//! The structural extractor: it finds the symbol table and the syntax tree
//! in the output of a parser and compares each with what was expected.

use vstd::prelude::*;
use vstd::string::*;
use crate::changes::{
    changeset_diffs,
    difference_views,
    line_changes,
    line_count,
    one_line,
    table_limit,
    Difference,
    DifferenceView,
};
use crate::lex::GradeError;
use crate::numeric::all_digits;
use crate::report::{
    classify,
    empty_report,
    error_view,
    outcome_of,
    recorded,
    GradeErrorView,
    Report,
    ReportView,
};
use crate::text::{
    count_lines,
    find,
    find_char,
    first_occurrence,
    is_decimal_digit,
    is_digit,
    is_space,
    lemma_find_char,
    lemma_find_shift,
    same_text,
    scan_digits,
    scan_for,
    scan_spaces,
    skip_digits,
    skip_spaces,
    to_chars,
    trim,
    trimmed,
};

verus! {

/// The phrase that opens the symbol table.
pub open spec fn table_marker() -> Seq<char> {
    "Symbol table level 1"@
}

/// The token that opens the syntax tree.
pub open spec fn tree_marker() -> Seq<char> {
    "(program"@
}

/// A line without its offset column: the white space at its start, the
/// digits that follow, and the white space after them are dropped.
pub open spec fn strip_offset(line: Seq<char>) -> Seq<char> {
    line.skip(skip_spaces(line, skip_digits(line, skip_spaces(line, 0))))
}

/// Whether the first character of `line` that is no white space is a digit.
pub open spec fn starts_with_digit(line: Seq<char>) -> bool {
    let at = skip_spaces(line, 0);
    at < line.len() && is_digit(line[at])
}

/// The index behind the line that starts at index `i`: behind its line feed
/// or, where it has none, the end of `s`.
pub open spec fn line_end(s: Seq<char>, i: int) -> int {
    let at = find_char(s, '\n', i);
    if at < s.len() {
        at + 1
    } else {
        at
    }
}

/// The lines of `s` from index `i` on, each without its offset column and
/// all joined. Where `guarded` is set, the lines end before the first one
/// that does not start with a digit.
pub open spec fn rows_from(s: Seq<char>, i: int, guarded: bool) -> Seq<char>
    decreases s.len() - i,
{
    if 0 <= i < s.len() {
        let end = line_end(s, i);
        let line = s.subrange(i, end);
        if i < end <= s.len() && (!guarded || starts_with_digit(line)) {
            strip_offset(line) + rows_from(s, end, guarded)
        } else {
            Seq::empty()
        }
    } else {
        Seq::empty()
    }
}

/// The symbol table as a fixture gives it, ready to be compared.
pub open spec fn expected_table(table: Seq<char>) -> Seq<char> {
    trimmed(rows_from(table, 0, false))
}

/// The symbol table that an output shows, ready to be compared: the lines
/// that follow the line of the marker, as long as they start with a digit.
/// `None` where the output holds no marker.
pub open spec fn table_region(actual: Seq<char>) -> Option<Seq<char>> {
    match first_occurrence(actual, table_marker(), 0) {
        Some(at) => Some(trimmed(rows_from(actual, line_end(actual, at), true))),
        None => None,
    }
}

/// The syntax tree that an output shows, ready to be compared: all from the
/// marker on. `None` where the output holds no marker.
pub open spec fn tree_region(actual: Seq<char>) -> Option<Seq<char>> {
    match first_occurrence(actual, tree_marker(), 0) {
        Some(at) => Some(trimmed(actual.skip(at))),
        None => None,
    }
}

/// Whether every entry is one that both sides hold.
pub open spec fn all_same(differences: Seq<DifferenceView>) -> bool {
    forall|k: int| 0 <= k < differences.len() ==> #[trigger] differences[k] is Same
}

/// The differences of the two regions as one result: none where no entry
/// shows a difference, else the entries of the table and then those of the
/// tree.
pub open spec fn folded(table: Seq<DifferenceView>, tree: Seq<DifferenceView>) -> Seq<
    DifferenceView,
> {
    if all_same(table + tree) {
        seq![]
    } else {
        table + tree
    }
}

/// Whether two texts have few enough lines for a change set.
pub open spec fn comparable(a: Seq<char>, b: Seq<char>) -> bool {
    line_count(a) * line_count(b) <= table_limit()
}

/// The result of comparing the two regions of an output with the fixtures.
pub open spec fn compared(
    table: Seq<char>,
    tree: Seq<char>,
    actual: Seq<char>,
) -> Result<Seq<DifferenceView>, GradeErrorView> {
    match (table_region(actual), tree_region(actual)) {
        (None, _) => Err(GradeErrorView::NoSymbolTable),
        (Some(_), None) => Err(GradeErrorView::NoTree),
        (Some(actual_table), Some(actual_tree)) => {
            if expected_table(table) == actual_table && trimmed(tree) == actual_tree {
                Ok(seq![])
            } else if comparable(expected_table(table), actual_table) && comparable(
                trimmed(tree),
                actual_tree,
            ) {
                Ok(
                    folded(
                        changeset_diffs(expected_table(table), actual_table),
                        changeset_diffs(trimmed(tree), actual_tree),
                    ),
                )
            } else {
                Err(GradeErrorView::TooLarge)
            }
        },
    }
}

/// Whether every entry is one that both sides hold.
fn is_all_same(differences: &Vec<Difference>) -> (r: bool)
    ensures
        r == all_same(difference_views(differences@)),
{
    let mut k: usize = 0;
    while k < differences.len()
        invariant
            k <= differences.len(),
            forall|m: int| 0 <= m < k ==> #[trigger] difference_views(differences@)[m] is Same,
        decreases differences.len() - k,
    {
        match &differences[k] {
            Difference::Same(_) => {},
            _ => {
                assert(!(difference_views(differences@)[k as int] is Same));
                return false;
            },
        }
        k = k + 1;
    }
    true
}

/// Joins the differences of the table and of the tree into one result.
pub fn fold_regions(table: Vec<Difference>, tree: Vec<Difference>) -> (r: Vec<Difference>)
    ensures
        difference_views(r@) == folded(difference_views(table@), difference_views(tree@)),
{
    let mut all = table;
    let mut rest = tree;
    all.append(&mut rest);
    assert(difference_views(all@) =~= difference_views(table@) + difference_views(tree@));
    if is_all_same(&all) {
        let r: Vec<Difference> = Vec::new();
        assert(difference_views(r@) =~= seq![]);
        r
    } else {
        all
    }
}

/// Whether the product of two line counts stays within the limit.
fn fits(a: &str, b: &str) -> (r: bool)
    ensures
        r == comparable(a@, b@),
{
    let limit: usize = usize::MAX / 16;
    match (count_lines(a, limit), count_lines(b, limit)) {
        (Some(n), Some(m)) => {
            assert(n * m <= limit * limit) by (nonlinear_arith)
                requires
                    n <= limit,
                    m <= limit,
            ;
            assert(limit * limit <= 0xFFF_FFFF_FFFF_FFFF * 0xFFF_FFFF_FFFF_FFFF)
                by (nonlinear_arith)
                requires
                    limit <= 0xFFF_FFFF_FFFF_FFFF,
            ;
            (n as u128) * (m as u128) <= limit as u128
        },
        (None, _) => {
            proof {
                lemma_count_positive(b@);
                lemma_product_exceeds(line_count(a@), line_count(b@), limit as nat);
            }
            false
        },
        (_, None) => {
            proof {
                lemma_count_positive(a@);
                lemma_product_exceeds(line_count(b@), line_count(a@), limit as nat);
                assert(line_count(a@) * line_count(b@) == line_count(b@) * line_count(a@))
                    by (nonlinear_arith);
            }
            false
        },
    }
}

/// Every text has at least one line.
pub proof fn lemma_count_positive(s: Seq<char>)
    ensures
        line_count(s) >= 1,
{
    lemma_find_char(s, '\n', 0);
}

proof fn lemma_product_exceeds(n: nat, m: nat, limit: nat)
    requires
        n > limit,
        m >= 1,
    ensures
        n * m > limit,
{
    assert(n * m >= n) by (nonlinear_arith)
        requires
            m >= 1,
    ;
}

/// The rows of `text` from index `from` on, as `rows_from` joins them.
fn rows(text: &str, from: usize, guarded: bool) -> (r: String)
    requires
        from <= text@.len(),
    ensures
        r@ == rows_from(text@, from as int, guarded),
{
    let chars = to_chars(text);
    let mut out = String::new();
    let mut i: usize = from;
    assert(out@ + rows_from(text@, i as int, guarded) =~= rows_from(text@, from as int, guarded));
    loop
        invariant_except_break
            i <= chars.len(),
            chars@ == text@,
            rows_from(text@, from as int, guarded) == out@ + rows_from(text@, i as int, guarded),
        ensures
            rows_from(text@, from as int, guarded) == out@,
        decreases chars.len() - i,
    {
        if i >= chars.len() {
            assert(out@ + Seq::<char>::empty() =~= out@);
            break;
        }
        let at: usize = scan_for(&chars, '\n', i);
        let end: usize = if at < chars.len() {
            at + 1
        } else {
            at
        };
        let line: &str = text.substring_char(i, end);
        let cells = to_chars(line);
        let a: usize = scan_spaces(&cells, 0);
        if guarded && !(a < cells.len() && is_decimal_digit(cells[a])) {
            assert(out@ + Seq::<char>::empty() =~= out@);
            break;
        }
        let b: usize = scan_digits(&cells, a);
        let c: usize = scan_spaces(&cells, b);
        let ghost before = out@;
        let kept: &str = line.substring_char(c, cells.len());
        assert(kept@ =~= strip_offset(line@));
        out.append(kept);
        assert(before + (strip_offset(line@) + rows_from(text@, end as int, guarded)) =~= (before
            + strip_offset(line@)) + rows_from(text@, end as int, guarded));
        i = end;
    }
    out
}

/// The symbol table of a fixture, ready to be compared.
pub fn normalize_table(table: &str) -> (r: String)
    ensures
        r@ == expected_table(table@),
{
    let joined = rows(table, 0, false);
    trim(joined.as_str()).to_owned()
}

/// The symbol table that `actual` shows, ready to be compared.
pub fn extract_table(actual: &str) -> (r: Option<String>)
    ensures
        match r {
            Some(region) => table_region(actual@) == Some(region@),
            None => table_region(actual@) is None,
        },
{
    let chars = to_chars(actual);
    let marker = to_chars("Symbol table level 1");
    match find(&chars, &marker, 0) {
        Some(at) => {
            let stop: usize = scan_for(&chars, '\n', at);
            let end: usize = if stop < chars.len() {
                stop + 1
            } else {
                stop
            };
            let joined = rows(actual, end, true);
            Some(trim(joined.as_str()).to_owned())
        },
        None => None,
    }
}

/// The syntax tree that `actual` shows, ready to be compared.
pub fn extract_tree(actual: &str) -> (r: Option<String>)
    ensures
        match r {
            Some(region) => tree_region(actual@) == Some(region@),
            None => tree_region(actual@) is None,
        },
{
    let chars = to_chars(actual);
    let marker = to_chars("(program");
    match find(&chars, &marker, 0) {
        Some(at) => {
            let tail: &str = actual.substring_char(at, chars.len());
            assert(tail@ =~= actual@.skip(at as int));
            Some(trim(tail).to_owned())
        },
        None => None,
    }
}

/// The result of comparing a table and a tree with what was expected of
/// them.
pub open spec fn regions_compared(
    expected_table: Seq<char>,
    actual_table: Seq<char>,
    expected_tree: Seq<char>,
    actual_tree: Seq<char>,
) -> Result<Seq<DifferenceView>, GradeErrorView> {
    if expected_table == actual_table && expected_tree == actual_tree {
        Ok(seq![])
    } else if comparable(expected_table, actual_table) && comparable(expected_tree, actual_tree) {
        Ok(
            folded(
                changeset_diffs(expected_table, actual_table),
                changeset_diffs(expected_tree, actual_tree),
            ),
        )
    } else {
        Err(GradeErrorView::TooLarge)
    }
}

/// Compares a table and a tree with what was expected of them. Regions
/// that are the same text need no change set.
pub fn compare_regions(
    expected_table: &str,
    actual_table: &str,
    expected_tree: &str,
    actual_tree: &str,
) -> (r: Result<Vec<Difference>, GradeError>)
    ensures
        (match r {
            Ok(differences) => Ok(difference_views(differences@)),
            Err(error) => Err(error_view(error)),
        }) == regions_compared(expected_table@, actual_table@, expected_tree@, actual_tree@),
{
    if same_text(expected_table, actual_table) && same_text(expected_tree, actual_tree) {
        let none: Vec<Difference> = Vec::new();
        assert(difference_views(none@) =~= seq![]);
        return Ok(none);
    }
    if !fits(expected_table, actual_table) || !fits(expected_tree, actual_tree) {
        return Err(GradeError::TooLarge);
    }
    let table = line_changes(expected_table, actual_table);
    let tree = line_changes(expected_tree, actual_tree);
    Ok(fold_regions(table, tree))
}

/// Compares the output of a parser with the fixtures of a test: the table
/// with `table`, the tree with `tree`.
pub fn grade_test(table: &str, tree: &str, actual: &str) -> (r: Result<Vec<Difference>, GradeError>)
    ensures
        (match r {
            Ok(differences) => Ok(difference_views(differences@)),
            Err(error) => Err(error_view(error)),
        }) == compared(table@, tree@, actual@),
{
    let actual_table = match extract_table(actual) {
        Some(region) => region,
        None => {
            return Err(GradeError::NoSymbolTable);
        },
    };
    let actual_tree = match extract_tree(actual) {
        Some(region) => region,
        None => {
            return Err(GradeError::NoTree);
        },
    };
    let expected_table = normalize_table(table);
    compare_regions(
        expected_table.as_str(),
        actual_table.as_str(),
        trim(tree),
        actual_tree.as_str(),
    )
}

/// One test of a parser: its name, the two fixtures, and the output that
/// the parser gave.
#[derive(Clone, Debug, PartialEq, Eq)]
pub struct Test {
    pub name: String,
    pub table: String,
    pub tree: String,
    pub actual: String,
}

/// The report on the first `n` of `tests`.
pub open spec fn session(tests: Seq<Test>, verbose: bool, n: int) -> ReportView
    decreases n,
{
    if n <= 0 {
        empty_report()
    } else {
        recorded(
            session(tests, verbose, n - 1),
            tests[n - 1].name@,
            outcome_of(compared(tests[n - 1].table@, tests[n - 1].tree@, tests[n - 1].actual@)),
            verbose,
        )
    }
}

/// Grades the tests of a parser one after the other. A test that cannot be
/// graded is reported as such and does not end the session.
pub fn grade(verbose: bool, tests: &Vec<Test>) -> (report: Report)
    ensures
        report@ == session(tests@, verbose, tests@.len() as int),
{
    let mut report = Report::new();
    let mut k: usize = 0;
    while k < tests.len()
        invariant
            k <= tests.len(),
            report.passed <= report.total == k,
            report@ == session(tests@, verbose, k as int),
        decreases tests.len() - k,
    {
        let test: &Test = &tests[k];
        let result = grade_test(test.table.as_str(), test.tree.as_str(), test.actual.as_str());
        let outcome = classify(result);
        report.record(test.name.clone(), outcome, verbose);
        k = k + 1;
    }
    report
}

/// Whether every character of `s` is white space.
pub open spec fn all_spaces(s: Seq<char>) -> bool {
    forall|k: int| 0 <= k < s.len() ==> is_space(#[trigger] s[k])
}

/// White space from `i` up to `j`, and none at `j`, is skipped up to `j`.
proof fn lemma_spaces_run(s: Seq<char>, i: int, j: int)
    requires
        0 <= i <= j <= s.len(),
        forall|k: int| i <= k < j ==> is_space(#[trigger] s[k]),
        j < s.len() ==> !is_space(s[j]),
    ensures
        skip_spaces(s, i) == j,
    decreases j - i,
{
    if i < j {
        lemma_spaces_run(s, i + 1, j);
    }
}

/// Digits from `i` up to `j`, and none at `j`, are skipped up to `j`.
proof fn lemma_digits_run(s: Seq<char>, i: int, j: int)
    requires
        0 <= i <= j <= s.len(),
        forall|k: int| i <= k < j ==> is_digit(#[trigger] s[k]),
        j < s.len() ==> !is_digit(s[j]),
    ensures
        skip_digits(s, i) == j,
    decreases j - i,
{
    if i < j {
        lemma_digits_run(s, i + 1, j);
    }
}

/// The offset column does not count. A line made of an indent, an offset,
/// a gap and the rest is stripped down to the rest, whatever the first
/// three are, as long as the rest does not start with white space and, where
/// it starts with a digit, an offset and a gap stand before it.
pub proof fn lemma_offset_ignored(
    indent: Seq<char>,
    offset: Seq<char>,
    gap: Seq<char>,
    rest: Seq<char>,
)
    requires
        all_spaces(indent),
        all_digits(offset),
        all_spaces(gap),
        rest.len() > 0 ==> !is_space(rest[0]),
        rest.len() > 0 && is_digit(rest[0]) ==> offset.len() > 0 && gap.len() > 0,
    ensures
        strip_offset(indent + offset + gap + rest) == rest,
{
    let line = indent + offset + gap + rest;
    let a = indent.len() as int;
    let b = a + offset.len();
    let c = b + gap.len();
    assert forall|k: int| 0 <= k < line.len() implies #[trigger] line[k] == (if k < a {
        indent[k]
    } else if k < b {
        offset[k - a]
    } else if k < c {
        gap[k - b]
    } else {
        rest[k - c]
    }) by {}
    assert forall|k: int| a <= k < b implies !is_space(#[trigger] line[k]) by {
        assert(is_digit(offset[k - a]));
    }
    if offset.len() > 0 {
        lemma_spaces_run(line, 0, a);
        lemma_digits_run(line, a, b);
        lemma_spaces_run(line, b, c);
    } else {
        lemma_spaces_run(line, 0, c);
        lemma_digits_run(line, c, c);
        lemma_spaces_run(line, c, c);
    }
    assert(line.skip(c) =~= rest);
}

/// Two lines that differ in their offset columns only are the same once
/// stripped.
pub proof fn lemma_offsets_do_not_matter(
    first: (Seq<char>, Seq<char>, Seq<char>),
    second: (Seq<char>, Seq<char>, Seq<char>),
    rest: Seq<char>,
)
    requires
        all_spaces(first.0) && all_digits(first.1) && all_spaces(first.2),
        all_spaces(second.0) && all_digits(second.1) && all_spaces(second.2),
        first.1.len() > 0 && first.2.len() > 0,
        second.1.len() > 0 && second.2.len() > 0,
        rest.len() > 0 ==> !is_space(rest[0]),
    ensures
        strip_offset(first.0 + first.1 + first.2 + rest) == strip_offset(
            second.0 + second.1 + second.2 + rest,
        ),
{
    lemma_offset_ignored(first.0, first.1, first.2, rest);
    lemma_offset_ignored(second.0, second.1, second.2, rest);
}

/// The rows from an index on are the rows of what follows the first `k`
/// characters, from that index less `k` on.
pub proof fn lemma_rows_shift(s: Seq<char>, i: int, k: int, guarded: bool)
    requires
        0 <= i,
        0 <= k,
        i + k <= s.len(),
    ensures
        rows_from(s, i + k, guarded) == rows_from(s.skip(k), i, guarded),
    decreases s.len() - i - k,
{
    let t = s.skip(k);
    if i + k < s.len() {
        lemma_find_shift(s, '\n', i, k);
        lemma_find_char(s, '\n', i + k);
        let end = line_end(s, i + k);
        assert(line_end(t, i) == end - k);
        assert(s.subrange(i + k, end) =~= t.subrange(i, end - k));
        if !guarded || starts_with_digit(s.subrange(i + k, end)) {
            lemma_rows_shift(s, end - k, k, guarded);
        }
    }
}

/// The rows of a text that starts with a whole line are that line without
/// its offset column, and then the rows of the rest.
pub proof fn lemma_rows_first(line: Seq<char>, tail: Seq<char>)
    requires
        line.len() > 0,
        line.last() == '\n',
        one_line(line.drop_last()),
    ensures
        rows_from(line + tail, 0, false) == strip_offset(line) + rows_from(tail, 0, false),
{
    let s = line + tail;
    let n = line.len() as int;
    assert forall|k: int| 0 <= k < n - 1 implies #[trigger] s[k] != '\n' by {
        assert(s[k] == line.drop_last()[k]);
    }
    assert(s[n - 1] == '\n');
    lemma_find_char(s, '\n', 0);
    assert(find_char(s, '\n', 0) == n - 1);
    assert(s.subrange(0, n) =~= line);
    lemma_rows_shift(s, 0, n, false);
    assert(s.skip(n) =~= tail);
}

/// The column in front of a row: an indent, an offset and a gap.
pub ghost struct Column {
    pub indent: Seq<char>,
    pub offset: Seq<char>,
    pub gap: Seq<char>,
}

impl Column {
    /// The indent and the gap are white space without a line feed, the gap
    /// is not empty, and the offset is made of one digit or more.
    pub open spec fn well_formed(self) -> bool {
        &&& all_spaces(self.indent) && one_line(self.indent)
        &&& all_digits(self.offset) && self.offset.len() > 0
        &&& all_spaces(self.gap) && one_line(self.gap) && self.gap.len() > 0
    }

    /// The characters of the column.
    pub open spec fn text(self) -> Seq<char> {
        self.indent + self.offset + self.gap
    }
}

/// Whether `row` can stand behind a column: it is not empty, holds no line
/// feed and does not start with white space.
pub open spec fn is_row(row: Seq<char>) -> bool {
    row.len() > 0 && one_line(row) && !is_space(row[0])
}

/// The dump of a table: each row behind its column, and a line feed after
/// each.
pub open spec fn dump(columns: Seq<Column>, rows: Seq<Seq<char>>) -> Seq<char>
    decreases rows.len(),
{
    if rows.len() == 0 || columns.len() != rows.len() {
        Seq::empty()
    } else {
        (columns[0].text() + rows[0] + seq!['\n']) + dump(columns.skip(1), rows.skip(1))
    }
}

/// The rows with a line feed after each.
pub open spec fn joined(rows: Seq<Seq<char>>) -> Seq<char>
    decreases rows.len(),
{
    if rows.len() == 0 {
        Seq::empty()
    } else {
        (rows[0] + seq!['\n']) + joined(rows.skip(1))
    }
}

/// What is compared of a dump are its rows: the columns do not count.
pub proof fn lemma_dump_rows(columns: Seq<Column>, rows: Seq<Seq<char>>)
    requires
        columns.len() == rows.len(),
        forall|k: int| 0 <= k < columns.len() ==> (#[trigger] columns[k]).well_formed(),
        forall|k: int| 0 <= k < rows.len() ==> is_row(#[trigger] rows[k]),
    ensures
        rows_from(dump(columns, rows), 0, false) == joined(rows),
    decreases rows.len(),
{
    if rows.len() > 0 {
        let column = columns[0];
        let row = rows[0];
        let ended = row + seq!['\n'];
        let line = column.text() + row + seq!['\n'];
        let tail = dump(columns.skip(1), rows.skip(1));
        assert(column.well_formed());
        assert(is_row(row));
        assert(line =~= column.indent + column.offset + column.gap + ended);
        assert(ended[0] == row[0]);
        lemma_offset_ignored(column.indent, column.offset, column.gap, ended);
        assert forall|k: int| 0 <= k < line.drop_last().len() implies #[trigger] line.drop_last()[k]
            != '\n' by {
            let a = column.indent.len() as int;
            let b = a + column.offset.len();
            let c = b + column.gap.len();
            if k < a {
                assert(line.drop_last()[k] == column.indent[k]);
            } else if k < b {
                assert(line.drop_last()[k] == column.offset[k - a]);
                assert(is_digit(column.offset[k - a]));
            } else if k < c {
                assert(line.drop_last()[k] == column.gap[k - b]);
            } else {
                assert(line.drop_last()[k] == row[k - c]);
            }
        }
        lemma_rows_first(line, tail);
        assert forall|k: int| 0 <= k < columns.skip(1).len() implies (#[trigger] columns.skip(
            1,
        )[k]).well_formed() by {
            assert(columns.skip(1)[k] == columns[k + 1]);
        }
        assert forall|k: int| 0 <= k < rows.skip(1).len() implies is_row(
            #[trigger] rows.skip(1)[k],
        ) by {
            assert(rows.skip(1)[k] == rows[k + 1]);
        }
        lemma_dump_rows(columns.skip(1), rows.skip(1));
    }
}

/// Two dumps of the same rows are the same table, whatever their columns
/// hold.
pub proof fn lemma_dumps_compare_equal(
    first: Seq<Column>,
    second: Seq<Column>,
    rows: Seq<Seq<char>>,
)
    requires
        first.len() == rows.len(),
        second.len() == rows.len(),
        forall|k: int| 0 <= k < first.len() ==> (#[trigger] first[k]).well_formed(),
        forall|k: int| 0 <= k < second.len() ==> (#[trigger] second[k]).well_formed(),
        forall|k: int| 0 <= k < rows.len() ==> is_row(#[trigger] rows[k]),
    ensures
        expected_table(dump(first, rows)) == expected_table(dump(second, rows)),
{
    lemma_dump_rows(first, rows);
    lemma_dump_rows(second, rows);
}

} // verus!
