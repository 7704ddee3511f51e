//! Differences between two texts, line by line.

use vstd::prelude::*;
use crate::text::{lemma_find_char, lines_from};

verus! {

/// One entry of a comparison: a piece of text that both sides hold, that
/// only the actual side holds, or that only the expected side holds.
#[derive(Clone, Debug, PartialEq, Eq)]
pub enum Difference {
    Same(String),
    Added(String),
    Removed(String),
}

/// The mathematical content of a `Difference`.
pub ghost enum DifferenceView {
    Same(Seq<char>),
    Added(Seq<char>),
    Removed(Seq<char>),
}

impl View for Difference {
    type V = DifferenceView;

    open spec fn view(&self) -> DifferenceView {
        match self {
            Difference::Same(text) => DifferenceView::Same(text@),
            Difference::Added(text) => DifferenceView::Added(text@),
            Difference::Removed(text) => DifferenceView::Removed(text@),
        }
    }
}

/// The views of a sequence of differences.
pub open spec fn difference_views(v: Seq<Difference>) -> Seq<DifferenceView> {
    Seq::new(v.len(), |k: int| v[k]@)
}

/// The number of pieces into which line feeds cut `s`.
pub open spec fn line_count(s: Seq<char>) -> nat {
    lines_from(s, 0).len()
}

/// Whether `s` holds no line feed.
pub open spec fn one_line(s: Seq<char>) -> bool {
    forall|k: int| 0 <= k < s.len() ==> #[trigger] s[k] != '\n'
}

/// The entries of the line-level change set from `orig` to `edit`, as the
/// crate `difference` computes it.
pub uninterp spec fn changeset_diffs(orig: Seq<char>, edit: Seq<char>) -> Seq<DifferenceView>;

/// The change set from one line to another: the line kept where both are
/// the same, else the first removed and the second added; an empty line
/// leaves no entry.
pub open spec fn line_diff(orig: Seq<char>, edit: Seq<char>) -> Seq<DifferenceView> {
    if orig == edit {
        if orig.len() == 0 {
            seq![]
        } else {
            seq![DifferenceView::Same(orig)]
        }
    } else {
        (if orig.len() == 0 {
            seq![]
        } else {
            seq![DifferenceView::Removed(orig)]
        }) + (if edit.len() == 0 {
            seq![]
        } else {
            seq![DifferenceView::Added(edit)]
        })
    }
}

/// The most cells that the table of a change set may have: one cell for each
/// pair of a line of the one text and a line of the other.
pub open spec fn table_limit() -> nat {
    (usize::MAX / 16) as nat
}

/// Calls `difference::Changeset::new` with a line feed as the split and
/// hands out the entries of its field `diffs`, `Add` as `Added` and `Rem` as
/// `Removed`. The contract names that result. Of two texts without a line
/// feed it says what the crate's `lcs` and `merge` do with one piece on
/// either side: equal pieces are kept, different ones are removed and added,
/// and an empty text counts as no piece. The crate allocates a table with a
/// cell for each pair of pieces, so the product of the two counts is
/// bounded.
#[verifier::external_body]
pub(crate) fn line_changes(orig: &str, edit: &str) -> (r: Vec<Difference>)
    requires
        line_count(orig@) * line_count(edit@) <= table_limit(),
    ensures
        difference_views(r@) == changeset_diffs(orig@, edit@),
        one_line(orig@) && one_line(edit@) ==> difference_views(r@) == line_diff(orig@, edit@),
{
    difference::Changeset::new(orig, edit, "\n").diffs.into_iter().map(
        |entry| match entry {
            difference::Difference::Same(text) => Difference::Same(text),
            difference::Difference::Add(text) => Difference::Added(text),
            difference::Difference::Rem(text) => Difference::Removed(text),
        },
    ).collect()
}

/// A text without a line feed is one piece.
pub proof fn lemma_one_line_count(s: Seq<char>)
    requires
        one_line(s),
    ensures
        line_count(s) == 1,
{
    lemma_find_char(s, '\n', 0);
}

} // verus!
