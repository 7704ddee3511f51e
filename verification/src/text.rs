//! Character-level helpers shared by the line readers.

use vstd::prelude::*;
use vstd::string::*;

verus! {

/// The characters of `s`, in order.
pub fn to_chars(s: &str) -> (chars: Vec<char>)
    ensures
        chars@ == s@,
{
    let mut chars: Vec<char> = Vec::new();
    for c in it: s.chars()
        invariant
            chars@ == it.seq().take(it.index()),
    {
        chars.push(c);
    }
    chars
}

/// Whether `c` is white space: the code points that carry the Unicode
/// property `White_Space`.
pub open spec fn is_space(c: char) -> bool {
    let n = c as u32;
    ||| 0x09 <= n <= 0x0D
    ||| n == 0x20
    ||| n == 0x85
    ||| n == 0xA0
    ||| n == 0x1680
    ||| 0x2000 <= n <= 0x200A
    ||| n == 0x2028
    ||| n == 0x2029
    ||| n == 0x202F
    ||| n == 0x205F
    ||| n == 0x3000
}

/// Whether `c` is one of the ten decimal digits.
pub open spec fn is_digit(c: char) -> bool {
    '0' <= c <= '9'
}

/// The lower-case form of an upper-case Latin letter; any other character
/// stands for itself.
pub open spec fn lower(c: char) -> char {
    if 'A' <= c <= 'Z' {
        ((c as u8) + 32) as char
    } else {
        c
    }
}

pub fn is_whitespace(c: char) -> (r: bool)
    ensures
        r == is_space(c),
{
    let n: u32 = c as u32;
    (0x09 <= n && n <= 0x0D) || n == 0x20 || n == 0x85 || n == 0xA0 || n == 0x1680 || (0x2000 <= n
        && n <= 0x200A) || n == 0x2028 || n == 0x2029 || n == 0x202F || n == 0x205F || n == 0x3000
}

pub fn is_decimal_digit(c: char) -> (r: bool)
    ensures
        r == is_digit(c),
{
    '0' <= c && c <= '9'
}

pub fn to_lower(c: char) -> (r: char)
    ensures
        r == lower(c),
{
    if 'A' <= c && c <= 'Z' {
        let b: u8 = c as u8;
        (b + 32) as char
    } else {
        c
    }
}

/// The first index at or after `i` that holds no white space; the length of
/// `s` where only white space follows.
pub open spec fn skip_spaces(s: Seq<char>, i: int) -> int
    decreases s.len() - i,
{
    if 0 <= i < s.len() && is_space(s[i]) {
        skip_spaces(s, i + 1)
    } else {
        i
    }
}

/// The first index at or after `i` that holds white space; the length of `s`
/// where none follows.
pub open spec fn skip_word(s: Seq<char>, i: int) -> int
    decreases s.len() - i,
{
    if 0 <= i < s.len() && !is_space(s[i]) {
        skip_word(s, i + 1)
    } else {
        i
    }
}

/// The first index at or after `i` that holds no decimal digit; the length of
/// `s` where only digits follow.
pub open spec fn skip_digits(s: Seq<char>, i: int) -> int
    decreases s.len() - i,
{
    if 0 <= i < s.len() && is_digit(s[i]) {
        skip_digits(s, i + 1)
    } else {
        i
    }
}

/// The first index at or after `i` that holds `c`; the length of `s` where
/// `c` does not follow.
pub open spec fn find_char(s: Seq<char>, c: char, i: int) -> int
    decreases s.len() - i,
{
    if 0 <= i < s.len() && s[i] != c {
        find_char(s, c, i + 1)
    } else {
        i
    }
}

pub proof fn lemma_find_char(s: Seq<char>, c: char, i: int)
    requires
        0 <= i <= s.len(),
    ensures
        i <= find_char(s, c, i) <= s.len(),
        forall|k: int| i <= k < find_char(s, c, i) ==> #[trigger] s[k] != c,
        find_char(s, c, i) < s.len() ==> s[find_char(s, c, i)] == c,
    decreases s.len() - i,
{
    if i < s.len() && s[i] != c {
        lemma_find_char(s, c, i + 1);
    }
}

pub fn scan_spaces(s: &Vec<char>, i: usize) -> (j: usize)
    requires
        i <= s.len(),
    ensures
        j == skip_spaces(s@, i as int),
        i <= j <= s.len(),
{
    let mut j: usize = i;
    while j < s.len() && is_whitespace(s[j])
        invariant
            i <= j <= s.len(),
            skip_spaces(s@, j as int) == skip_spaces(s@, i as int),
        decreases s.len() - j,
    {
        j = j + 1;
    }
    j
}

pub fn scan_word(s: &Vec<char>, i: usize) -> (j: usize)
    requires
        i <= s.len(),
    ensures
        j == skip_word(s@, i as int),
        i <= j <= s.len(),
{
    let mut j: usize = i;
    while j < s.len() && !is_whitespace(s[j])
        invariant
            i <= j <= s.len(),
            skip_word(s@, j as int) == skip_word(s@, i as int),
        decreases s.len() - j,
    {
        j = j + 1;
    }
    j
}

pub fn scan_digits(s: &Vec<char>, i: usize) -> (j: usize)
    requires
        i <= s.len(),
    ensures
        j == skip_digits(s@, i as int),
        i <= j <= s.len(),
{
    let mut j: usize = i;
    while j < s.len() && is_decimal_digit(s[j])
        invariant
            i <= j <= s.len(),
            skip_digits(s@, j as int) == skip_digits(s@, i as int),
        decreases s.len() - j,
    {
        j = j + 1;
    }
    j
}

pub fn scan_for(s: &Vec<char>, c: char, i: usize) -> (j: usize)
    requires
        i <= s.len(),
    ensures
        j == find_char(s@, c, i as int),
        i <= j <= s.len(),
{
    let mut j: usize = i;
    while j < s.len() && s[j] != c
        invariant
            i <= j <= s.len(),
            find_char(s@, c, j as int) == find_char(s@, c, i as int),
        decreases s.len() - j,
    {
        j = j + 1;
    }
    j
}

/// Whether `needle` stands in `hay` at index `i`.
pub open spec fn occurs_at(hay: Seq<char>, needle: Seq<char>, i: int) -> bool {
    &&& 0 <= i
    &&& i + needle.len() <= hay.len()
    &&& hay.subrange(i, i + needle.len()) == needle
}

/// The index of the first occurrence of `needle` in `hay` at or after `i`.
pub open spec fn first_occurrence(hay: Seq<char>, needle: Seq<char>, i: int) -> Option<int>
    decreases hay.len() + 1 - i,
{
    if 0 <= i && i + needle.len() <= hay.len() {
        if occurs_at(hay, needle, i) {
            Some(i)
        } else {
            first_occurrence(hay, needle, i + 1)
        }
    } else {
        None
    }
}

/// Whether `needle` occurs anywhere in `hay`.
pub open spec fn contains(hay: Seq<char>, needle: Seq<char>) -> bool {
    first_occurrence(hay, needle, 0) is Some
}

/// `s` with every upper-case Latin letter replaced by its lower-case form.
pub open spec fn lower_seq(s: Seq<char>) -> Seq<char> {
    Seq::new(s.len(), |k: int| lower(s[k]))
}

/// The views of a sequence of strings.
pub open spec fn texts(v: Seq<String>) -> Seq<Seq<char>> {
    Seq::new(v.len(), |k: int| v[k]@)
}

/// `s` without the line feeds at its end.
pub open spec fn trim_newlines(s: Seq<char>) -> Seq<char>
    decreases s.len(),
{
    if s.len() > 0 && s.last() == '\n' {
        trim_newlines(s.drop_last())
    } else {
        s
    }
}

/// The pieces of `s` from index `i` on that line feeds separate. A text
/// without a line feed is one piece, also when it is empty.
pub open spec fn lines_from(s: Seq<char>, i: int) -> Seq<Seq<char>>
    decreases s.len() - i,
{
    let j = find_char(s, '\n', i);
    if 0 <= i <= j < s.len() {
        seq![s.subrange(i, j)] + lines_from(s, j + 1)
    } else if 0 <= i <= s.len() {
        seq![s.subrange(i, s.len() as int)]
    } else {
        seq![]
    }
}

/// The lines of a captured output: the line feeds at its end are dropped,
/// and the rest is cut at each line feed.
pub open spec fn lines_of(s: Seq<char>) -> Seq<Seq<char>> {
    lines_from(trim_newlines(s), 0)
}

pub fn matches_at(hay: &Vec<char>, needle: &Vec<char>, i: usize) -> (r: bool)
    requires
        i + needle.len() <= hay.len(),
    ensures
        r == occurs_at(hay@, needle@, i as int),
{
    let n: usize = needle.len();
    let mut k: usize = 0;
    while k < n
        invariant
            n == needle.len(),
            k <= n,
            i + n <= hay.len(),
            forall|m: int| 0 <= m < k ==> hay@[i + m] == needle@[m],
        decreases n - k,
    {
        if hay[i + k] != needle[k] {
            assert(hay@.subrange(i as int, i + n)[k as int] == hay@[i + k]);
            return false;
        }
        k = k + 1;
    }
    assert(hay@.subrange(i as int, i + n) =~= needle@);
    true
}

pub fn find(hay: &Vec<char>, needle: &Vec<char>, from: usize) -> (r: Option<usize>)
    ensures
        match r {
            Some(i) => first_occurrence(hay@, needle@, from as int) == Some(i as int) && from <= i
                && i + needle.len() <= hay.len(),
            None => first_occurrence(hay@, needle@, from as int) is None,
        },
{
    if needle.len() > hay.len() {
        return None;
    }
    let last: usize = hay.len() - needle.len();
    let mut i: usize = from;
    while i <= last
        invariant
            from <= i,
            last == hay.len() - needle.len(),
            needle.len() <= hay.len(),
            first_occurrence(hay@, needle@, i as int) == first_occurrence(
                hay@,
                needle@,
                from as int,
            ),
        decreases last + 1 - i,
    {
        if matches_at(hay, needle, i) {
            return Some(i);
        }
        if i == last {
            return None;
        }
        i = i + 1;
    }
    None
}

pub fn lowercase(s: &Vec<char>) -> (r: Vec<char>)
    ensures
        r@ == lower_seq(s@),
{
    let mut r: Vec<char> = Vec::new();
    let mut k: usize = 0;
    while k < s.len()
        invariant
            k <= s.len(),
            r@.len() == k,
            forall|m: int| 0 <= m < k ==> r@[m] == lower(s@[m]),
        decreases s.len() - k,
    {
        r.push(to_lower(s[k]));
        k = k + 1;
    }
    assert(r@ =~= lower_seq(s@));
    r
}

/// The length of `s` once the line feeds at its end are dropped.
pub fn trimmed_len(s: &Vec<char>) -> (n: usize)
    ensures
        n <= s.len(),
        s@.take(n as int) == trim_newlines(s@),
{
    let mut n: usize = s.len();
    assert(s@.take(n as int) =~= s@);
    while n > 0 && s[n - 1] == '\n'
        invariant
            n <= s.len(),
            trim_newlines(s@.take(n as int)) == trim_newlines(s@),
        decreases n,
    {
        assert(s@.take(n as int).drop_last() =~= s@.take(n - 1));
        n = n - 1;
    }
    n
}

/// The lines of `text`, as `lines_of` cuts them.
pub fn split_lines(text: &str) -> (lines: Vec<String>)
    ensures
        texts(lines@) == lines_of(text@),
        lines@.len() >= 1,
{
    let full = to_chars(text);
    let n: usize = trimmed_len(&full);
    let body: &str = text.substring_char(0, n);
    let chars = to_chars(body);
    assert(chars@ == trim_newlines(text@));
    let mut lines: Vec<String> = Vec::new();
    let mut i: usize = 0;
    loop
        invariant_except_break
            i <= chars.len(),
            chars@ == body@,
            lines_from(chars@, 0) == texts(lines@) + lines_from(chars@, i as int),
        ensures
            texts(lines@) == lines_from(chars@, 0),
            lines@.len() >= 1,
        decreases chars.len() - i,
    {
        let j: usize = scan_for(&chars, '\n', i);
        let line: String = body.substring_char(i, j).to_owned();
        let ghost before = lines@;
        lines.push(line);
        assert(texts(lines@) =~= texts(before) + seq![chars@.subrange(i as int, j as int)]);
        if j < chars.len() {
            i = j + 1;
        } else {
            assert(texts(before) + seq![chars@.subrange(i as int, j as int)] =~= texts(before)
                + lines_from(chars@, i as int));
            break;
        }
    }
    lines
}

/// Whether two texts hold the same characters.
pub fn same_text(a: &str, b: &str) -> (r: bool)
    ensures
        r == (a@ == b@),
{
    let left = to_chars(a);
    let right = to_chars(b);
    if left.len() == right.len() {
        let r = matches_at(&left, &right, 0);
        assert(left@.subrange(0, left@.len() as int) =~= left@);
        r
    } else {
        false
    }
}

/// The least index at or before `j` behind which only white space stands
/// up to `j`.
pub open spec fn back_spaces(s: Seq<char>, j: int) -> int
    decreases j,
{
    if 0 < j <= s.len() && is_space(s[j - 1]) {
        back_spaces(s, j - 1)
    } else {
        j
    }
}

/// `s` without the white space at its start and at its end.
pub open spec fn trimmed(s: Seq<char>) -> Seq<char> {
    let from = skip_spaces(s, 0);
    let to = back_spaces(s, s.len() as int);
    if from < to {
        s.subrange(from, to)
    } else {
        Seq::empty()
    }
}

pub fn scan_back(s: &Vec<char>, j: usize) -> (i: usize)
    requires
        j <= s.len(),
    ensures
        i == back_spaces(s@, j as int),
        i <= j,
{
    let mut i: usize = j;
    while i > 0 && is_whitespace(s[i - 1])
        invariant
            i <= j <= s.len(),
            back_spaces(s@, i as int) == back_spaces(s@, j as int),
        decreases i,
    {
        i = i - 1;
    }
    i
}

/// `text` without the white space at its start and at its end.
pub fn trim<'a>(text: &'a str) -> (r: &'a str)
    ensures
        r@ == trimmed(text@),
{
    let chars = to_chars(text);
    let from: usize = scan_spaces(&chars, 0);
    let to: usize = scan_back(&chars, chars.len());
    if from < to {
        text.substring_char(from, to)
    } else {
        let r = text.substring_char(0, 0);
        assert(r@ =~= Seq::<char>::empty());
        r
    }
}

/// The number of pieces into which line feeds cut `text`; `None` where the
/// count exceeds `limit`.
pub fn count_lines(text: &str, limit: usize) -> (r: Option<usize>)
    ensures
        match r {
            Some(n) => n == lines_from(text@, 0).len() && n <= limit,
            None => lines_from(text@, 0).len() > limit,
        },
{
    let chars = to_chars(text);
    let mut n: usize = 0;
    let mut i: usize = 0;
    loop
        invariant_except_break
            i <= chars.len(),
            chars@ == text@,
            n <= limit,
            lines_from(chars@, 0).len() == n + lines_from(chars@, i as int).len(),
        ensures
            chars@ == text@,
            n <= limit,
            lines_from(chars@, 0).len() == n,
        decreases chars.len() - i,
    {
        if n == limit {
            return None;
        }
        let j: usize = scan_for(&chars, '\n', i);
        n = n + 1;
        if j < chars.len() {
            i = j + 1;
        } else {
            break;
        }
    }
    Some(n)
}

/// Searching a range of `s` for `c` is searching `s` from the range's start
/// and stopping at its end.
pub proof fn lemma_find_in_range(s: Seq<char>, c: char, from: int, to: int)
    requires
        0 <= from <= to <= s.len(),
    ensures
        find_char(s.subrange(from, to), c, 0) == (if find_char(s, c, from) < to {
            find_char(s, c, from) - from
        } else {
            to - from
        }),
    decreases to - from,
{
    let r = s.subrange(from, to);
    lemma_find_char(s, c, from);
    if from < to {
        assert(r[0] == s[from]);
        if s[from] != c {
            assert(r.skip(1) =~= s.subrange(from + 1, to));
            lemma_find_in_range(s, c, from + 1, to);
            lemma_find_shift(r, c, 0, 1);
            assert(find_char(r, c, 0) == find_char(r, c, 1));
            assert(find_char(s, c, from) == find_char(s, c, from + 1));
        }
    }
}

/// Searching from index `i + k` is searching what follows the first `k`
/// characters from index `i`.
pub proof fn lemma_find_shift(s: Seq<char>, c: char, i: int, k: int)
    requires
        0 <= i,
        0 <= k,
        i + k <= s.len(),
    ensures
        find_char(s, c, i + k) == find_char(s.skip(k), c, i) + k,
    decreases s.len() - i - k,
{
    let t = s.skip(k);
    if i + k < s.len() {
        assert(t[i] == s[i + k]);
        if s[i + k] != c {
            lemma_find_shift(s, c, i + 1, k);
        }
    }
}

} // verus!
