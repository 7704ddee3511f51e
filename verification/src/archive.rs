//! The names of the entries of a submission archive: each tells the student
//! who handed the file in and the name under which the file was written.

use vstd::prelude::*;
use vstd::string::*;
use crate::text::{find_char, is_decimal_digit, is_digit, scan_for, to_chars};

verus! {

/// The greatest index below `j` that holds `c`; `-1` where none does.
pub open spec fn find_last(s: Seq<char>, c: char, j: int) -> int
    decreases j,
{
    if 0 < j <= s.len() && s[j - 1] != c {
        find_last(s, c, j - 1)
    } else {
        j - 1
    }
}

/// Whether `c` belongs to the counter that an upload appends to a file
/// name: a digit or a hyphen.
pub open spec fn is_counter(c: char) -> bool {
    c == '-' || is_digit(c)
}

/// The least index at or before `j` behind which only counter characters
/// stand up to `j`.
pub open spec fn back_counter(s: Seq<char>, j: int) -> int
    decreases j,
{
    if 0 < j <= s.len() && is_counter(s[j - 1]) {
        back_counter(s, j - 1)
    } else {
        j
    }
}

/// The student and the file name that the path of an entry tells. The
/// student stands before the first underscore. The extension stands behind
/// the last point. Of what stands before that point, the counter at its end
/// is dropped, and the name is what then follows the last underscore. The
/// file name is the name, a point and the extension. `None` where the path
/// has no underscore or no point, or no underscore is left before the name.
pub open spec fn entry_of(path: Seq<char>) -> Option<(Seq<char>, Seq<char>)> {
    let under = find_char(path, '_', 0);
    let dot = find_last(path, '.', path.len() as int);
    let stop = back_counter(path, dot);
    let last = find_last(path, '_', stop);
    if under < path.len() && dot >= 0 && last >= 0 {
        Some((path.take(under), path.subrange(last + 1, stop) + seq!['.'] + path.skip(dot + 1)))
    } else {
        None
    }
}

fn scan_last(s: &Vec<char>, c: char, j: usize) -> (r: Option<usize>)
    requires
        j <= s.len(),
    ensures
        match r {
            Some(k) => k == find_last(s@, c, j as int) && k < j,
            None => find_last(s@, c, j as int) == -1,
        },
{
    let mut k: usize = j;
    while k > 0 && s[k - 1] != c
        invariant
            k <= j <= s.len(),
            find_last(s@, c, k as int) == find_last(s@, c, j as int),
        decreases k,
    {
        k = k - 1;
    }
    if k == 0 {
        None
    } else {
        Some(k - 1)
    }
}

fn scan_counter(s: &Vec<char>, j: usize) -> (r: usize)
    requires
        j <= s.len(),
    ensures
        r == back_counter(s@, j as int),
        r <= j,
{
    let mut k: usize = j;
    while k > 0 && (s[k - 1] == '-' || is_decimal_digit(s[k - 1]))
        invariant
            k <= j <= s.len(),
            back_counter(s@, k as int) == back_counter(s@, j as int),
        decreases k,
    {
        k = k - 1;
    }
    k
}

/// Reads the path of an entry: the student and the file name.
pub fn entry_name(path: &str) -> (r: Option<(String, String)>)
    ensures
        match r {
            Some((student, name)) => entry_of(path@) == Some((student@, name@)),
            None => entry_of(path@) is None,
        },
{
    let chars = to_chars(path);
    let under: usize = scan_for(&chars, '_', 0);
    if under >= chars.len() {
        return None;
    }
    let dot: usize = match scan_last(&chars, '.', chars.len()) {
        Some(dot) => dot,
        None => {
            return None;
        },
    };
    let stop: usize = scan_counter(&chars, dot);
    let last: usize = match scan_last(&chars, '_', stop) {
        Some(last) => last,
        None => {
            return None;
        },
    };
    let student: String = path.substring_char(0, under).to_owned();
    let mut name: String = path.substring_char(last + 1, stop).to_owned();
    name.append(".");
    name.append(path.substring_char(dot + 1, chars.len()));
    proof {
        reveal_strlit(".");
        assert("."@ =~= seq!['.']);
        assert(path@.subrange(0, under as int) =~= path@.take(under as int));
        assert(path@.subrange(dot + 1, chars@.len() as int) =~= path@.skip(dot + 1));
    }
    Some((student, name))
}

} // verus!
