//! Records: the typed reading of one line of scanner output.

use vstd::prelude::*;
use vstd::string::*;
use crate::numeric::{
    decimal_literal,
    i32_literal,
    parse_decimal,
    parse_i32,
    parse_u16,
    u16_literal,
    Decimal,
    DecimalView,
};
use crate::text::{
    contains,
    find,
    find_char,
    lower_seq,
    lowercase,
    matches_at,
    scan_for,
    scan_spaces,
    scan_word,
    skip_spaces,
    skip_word,
    to_chars,
    lemma_find_in_range,
};

verus! {

/// The numeric kind whose range a literal exceeded.
#[derive(Clone, Copy, Debug, PartialEq, Eq, Structural)]
pub enum Overflow {
    Float,
    Integer,
}

/// The value of a number token.
#[derive(Clone, Debug)]
pub enum Number {
    /// `mantissa` times ten to the power `exponent`, both as written.
    Float { mantissa: Decimal, exponent: i32 },
    Integer(i32),
}

/// The mathematical content of a `Number`.
pub ghost enum NumberView {
    Float { mantissa: DecimalView, exponent: i32 },
    Integer(i32),
}

impl View for Number {
    type V = NumberView;

    open spec fn view(&self) -> NumberView {
        match self {
            Number::Float { mantissa, exponent } => NumberView::Float {
                mantissa: mantissa@,
                exponent: *exponent,
            },
            Number::Integer(value) => NumberView::Integer(*value),
        }
    }
}

/// One line of scanner output, read.
#[derive(Clone, Debug)]
pub enum Record {
    /// The banner that opens a run.
    Start,
    /// A complaint that a literal left the range of its kind.
    Overflow(Overflow),
    Operator(u16),
    Delimiter(u16),
    Reserved(u16),
    Identifier(String),
    String(String),
    Number(Number),
    /// A line of no known shape.
    Unparseable,
}

/// The mathematical content of a `Record`.
pub ghost enum RecordView {
    Start,
    Overflow(Overflow),
    Operator(u16),
    Delimiter(u16),
    Reserved(u16),
    Identifier(Seq<char>),
    String(Seq<char>),
    Number(NumberView),
    Unparseable,
}

impl View for Record {
    type V = RecordView;

    open spec fn view(&self) -> RecordView {
        match self {
            Record::Start => RecordView::Start,
            Record::Overflow(kind) => RecordView::Overflow(*kind),
            Record::Operator(code) => RecordView::Operator(*code),
            Record::Delimiter(code) => RecordView::Delimiter(*code),
            Record::Reserved(code) => RecordView::Reserved(*code),
            Record::Identifier(text) => RecordView::Identifier(text@),
            Record::String(text) => RecordView::String(text@),
            Record::Number(number) => RecordView::Number(number@),
            Record::Unparseable => RecordView::Unparseable,
        }
    }
}

/// The banner line, in lower case.
pub open spec fn banner() -> Seq<char> {
    "started scanner test."@
}

/// Whether a lower-case line speaks of a value that left its range.
pub open spec fn mentions_overflow(low: Seq<char>) -> bool {
    contains(low, "out of range"@) || contains(low, "overflow"@)
}

/// What a float literal denotes: a decimal mantissa, the letter `e`, and a
/// 32-bit exponent, each kept as written.
pub open spec fn float_literal(lit: Seq<char>) -> Option<NumberView> {
    let e = find_char(lit, 'e', 0);
    if e < lit.len() {
        match (decimal_literal(lit.take(e)), i32_literal(lit.skip(e + 1))) {
            (Some(mantissa), Some(exponent)) => Some(NumberView::Float { mantissa, exponent }),
            _ => None,
        }
    } else {
        None
    }
}

/// The code of an operator, delimiter or reserved word, read from the fields
/// of `line` that start at or after `from`. Where two fields or more stand
/// there, the first is a label and the second the code; a single field is the
/// code itself.
pub open spec fn code_of(line: Seq<char>, from: int) -> Option<u16> {
    let s0 = skip_spaces(line, from);
    let e0 = skip_word(line, s0);
    let s1 = skip_spaces(line, e0);
    let e1 = skip_word(line, s1);
    if s1 < line.len() {
        u16_literal(line.subrange(s1, e1))
    } else if s0 < line.len() {
        u16_literal(line.subrange(s0, e0))
    } else {
        None
    }
}

/// The number that a sub-code and a literal denote: sub-code `0` announces
/// an integer, `1` a float.
pub open spec fn number_literal(sub: Seq<char>, lit: Seq<char>) -> Option<NumberView> {
    if sub == seq!['0'] {
        match i32_literal(lit) {
            Some(value) => Some(NumberView::Integer(value)),
            None => None,
        }
    } else if sub == seq!['1'] {
        float_literal(lit)
    } else {
        None
    }
}

/// The number read from the fields of `line` that start at or after `from`.
/// Where three fields or more stand there, the first is a label, the second
/// the sub-code and the third the literal; two fields are the sub-code and
/// the literal.
pub open spec fn number_of(line: Seq<char>, from: int) -> Option<NumberView> {
    let s0 = skip_spaces(line, from);
    let e0 = skip_word(line, s0);
    let s1 = skip_spaces(line, e0);
    let e1 = skip_word(line, s1);
    let s2 = skip_spaces(line, e1);
    let e2 = skip_word(line, s2);
    if s2 < line.len() {
        number_literal(line.subrange(s1, e1), line.subrange(s2, e2))
    } else if s1 < line.len() {
        number_literal(line.subrange(s0, e0), line.subrange(s1, e1))
    } else {
        None
    }
}

/// Where the category of a token line starts and ends: it is the first
/// field after the first colon, and white space must follow it. `None`
/// where the line has no colon or no such field.
pub open spec fn category_span(line: Seq<char>) -> Option<(int, int)> {
    let colon = find_char(line, ':', 0);
    let start = skip_spaces(line, colon + 1);
    let stop = skip_word(line, start);
    if colon < line.len() && stop < line.len() {
        Some((start, stop))
    } else {
        None
    }
}

/// Whether `category` is one of the six known category codes.
pub open spec fn known_category(category: Seq<char>) -> bool {
    category.len() == 1 && '0' <= category[0] <= '5'
}

/// The reading of a token line: the category decides what the rest of the
/// line holds.
pub open spec fn parse_token(line: Seq<char>) -> RecordView {
    match category_span(line) {
        Some((start, stop)) => {
            let category = line.subrange(start, stop);
            let from = stop + 1;
            if category == seq!['0'] {
                match code_of(line, from) {
                    Some(code) => RecordView::Operator(code),
                    None => RecordView::Unparseable,
                }
            } else if category == seq!['1'] {
                match code_of(line, from) {
                    Some(code) => RecordView::Delimiter(code),
                    None => RecordView::Unparseable,
                }
            } else if category == seq!['2'] {
                match code_of(line, from) {
                    Some(code) => RecordView::Reserved(code),
                    None => RecordView::Unparseable,
                }
            } else if category == seq!['3'] {
                RecordView::Identifier(line.skip(from))
            } else if category == seq!['4'] {
                RecordView::String(line.skip(from))
            } else if category == seq!['5'] {
                match number_of(line, from) {
                    Some(number) => RecordView::Number(number),
                    None => RecordView::Unparseable,
                }
            } else {
                RecordView::Unparseable
            }
        },
        None => RecordView::Unparseable,
    }
}

/// Whether a line is read as a banner or an overflow complaint, and so
/// before any look at its fields.
pub open spec fn is_notice(line: Seq<char>) -> bool {
    let low = lower_seq(line);
    low == banner() || ((contains(low, "float"@) || contains(low, "int"@)) && mentions_overflow(
        low,
    ))
}

/// The reading of one line. The banner is known by its text, whatever the
/// case of its letters; a line that names a numeric kind and speaks of
/// overflow is a complaint of that kind, floats first; any other line is
/// read as a token.
pub open spec fn parse_line(line: Seq<char>) -> RecordView {
    let low = lower_seq(line);
    if low == banner() {
        RecordView::Start
    } else if contains(low, "float"@) && mentions_overflow(low) {
        RecordView::Overflow(Overflow::Float)
    } else if contains(low, "int"@) && mentions_overflow(low) {
        RecordView::Overflow(Overflow::Integer)
    } else {
        parse_token(line)
    }
}

/// The category of a token line where it is none of the known ones.
pub open spec fn unknown_category_of(line: Seq<char>) -> Option<Seq<char>> {
    match category_span(line) {
        Some((start, stop)) => if !is_notice(line) && !known_category(
            line.subrange(start, stop),
        ) {
            Some(line.subrange(start, stop))
        } else {
            None
        },
        None => None,
    }
}

/// Whether `s[from..to]` is the single character `c`.
fn is_single(s: &Vec<char>, from: usize, to: usize, c: char) -> (r: bool)
    requires
        from <= to <= s.len(),
    ensures
        r == (s@.subrange(from as int, to as int) == seq![c]),
{
    if to - from == 1 && s[from] == c {
        assert(s@.subrange(from as int, to as int) =~= seq![c]);
        true
    } else {
        assert(seq![c].len() == 1 && seq![c][0] == c);
        assert(s@.subrange(from as int, to as int).len() == to - from);
        if to - from == 1 {
            assert(s@.subrange(from as int, to as int)[0] == s@[from as int]);
        }
        false
    }
}

/// Reads the code of an operator, delimiter or reserved word.
fn read_code(s: &Vec<char>, from: usize) -> (r: Option<u16>)
    requires
        from <= s.len(),
    ensures
        r == code_of(s@, from as int),
{
    let s0: usize = scan_spaces(s, from);
    let e0: usize = scan_word(s, s0);
    let s1: usize = scan_spaces(s, e0);
    let e1: usize = scan_word(s, s1);
    if s1 < s.len() {
        parse_u16(s, s1, e1)
    } else if s0 < s.len() {
        parse_u16(s, s0, e0)
    } else {
        None
    }
}

/// Reads a float literal from `s[from..to]`.
fn read_float(s: &Vec<char>, from: usize, to: usize) -> (r: Option<Number>)
    requires
        from <= to <= s.len(),
    ensures
        match r {
            Some(n) => float_literal(s@.subrange(from as int, to as int)) == Some(n@),
            None => float_literal(s@.subrange(from as int, to as int)) is None,
        },
{
    let ghost lit = s@.subrange(from as int, to as int);
    let e: usize = scan_for(s, 'e', from);
    proof {
        lemma_find_in_range(s@, 'e', from as int, to as int);
    }
    if e >= to {
        return None;
    }
    assert(lit.take(e - from) =~= s@.subrange(from as int, e as int));
    assert(lit.skip(e - from + 1) =~= s@.subrange(e + 1, to as int));
    let mantissa = parse_decimal(s, from, e);
    let exponent = parse_i32(s, e + 1, to);
    match (mantissa, exponent) {
        (Some(mantissa), Some(exponent)) => Some(Number::Float { mantissa, exponent }),
        _ => None,
    }
}

/// Reads a number from a sub-code in `s[a..b]` and a literal in `s[c..d]`.
fn read_literal(s: &Vec<char>, a: usize, b: usize, c: usize, d: usize) -> (r: Option<Number>)
    requires
        a <= b <= s.len(),
        c <= d <= s.len(),
    ensures
        match r {
            Some(n) => number_literal(
                s@.subrange(a as int, b as int),
                s@.subrange(c as int, d as int),
            ) == Some(n@),
            None => number_literal(
                s@.subrange(a as int, b as int),
                s@.subrange(c as int, d as int),
            ) is None,
        },
{
    if is_single(s, a, b, '0') {
        match parse_i32(s, c, d) {
            Some(value) => Some(Number::Integer(value)),
            None => None,
        }
    } else if is_single(s, a, b, '1') {
        read_float(s, c, d)
    } else {
        None
    }
}

/// Reads the sub-code and the literal of a number token.
fn read_number(s: &Vec<char>, from: usize) -> (r: Option<Number>)
    requires
        from <= s.len(),
    ensures
        match r {
            Some(n) => number_of(s@, from as int) == Some(n@),
            None => number_of(s@, from as int) is None,
        },
{
    let s0: usize = scan_spaces(s, from);
    let e0: usize = scan_word(s, s0);
    let s1: usize = scan_spaces(s, e0);
    let e1: usize = scan_word(s, s1);
    let s2: usize = scan_spaces(s, e1);
    let e2: usize = scan_word(s, s2);
    if s2 < s.len() {
        read_literal(s, s1, e1, s2, e2)
    } else if s1 < s.len() {
        read_literal(s, s0, e0, s1, e1)
    } else {
        None
    }
}

/// Finds the category of a token line.
fn read_category(s: &Vec<char>) -> (r: Option<(usize, usize)>)
    ensures
        match r {
            Some((start, stop)) => category_span(s@) == Some((start as int, stop as int))
                && start <= stop < s.len(),
            None => category_span(s@) is None,
        },
{
    let colon: usize = scan_for(s, ':', 0);
    if colon >= s.len() {
        return None;
    }
    let start: usize = scan_spaces(s, colon + 1);
    let stop: usize = scan_word(s, start);
    if stop < s.len() {
        Some((start, stop))
    } else {
        None
    }
}

/// Reads a token line: `s` holds the characters of `line`.
fn read_token(line: &str, s: &Vec<char>) -> (r: Record)
    requires
        s@ == line@,
    ensures
        r@ == parse_token(line@),
{
    match read_category(s) {
        Some((start, stop)) => {
            let from: usize = stop + 1;
            if is_single(s, start, stop, '0') {
                match read_code(s, from) {
                    Some(code) => Record::Operator(code),
                    None => Record::Unparseable,
                }
            } else if is_single(s, start, stop, '1') {
                match read_code(s, from) {
                    Some(code) => Record::Delimiter(code),
                    None => Record::Unparseable,
                }
            } else if is_single(s, start, stop, '2') {
                match read_code(s, from) {
                    Some(code) => Record::Reserved(code),
                    None => Record::Unparseable,
                }
            } else if is_single(s, start, stop, '3') {
                assert(line@.skip(from as int) =~= line@.subrange(from as int, s@.len() as int));
                Record::Identifier(line.substring_char(from, s.len()).to_owned())
            } else if is_single(s, start, stop, '4') {
                assert(line@.skip(from as int) =~= line@.subrange(from as int, s@.len() as int));
                Record::String(line.substring_char(from, s.len()).to_owned())
            } else if is_single(s, start, stop, '5') {
                match read_number(s, from) {
                    Some(number) => Record::Number(number),
                    None => Record::Unparseable,
                }
            } else {
                Record::Unparseable
            }
        },
        None => Record::Unparseable,
    }
}

/// Whether `pattern` occurs in `low`.
fn has(low: &Vec<char>, pattern: &str) -> (r: bool)
    ensures
        r == contains(low@, pattern@),
{
    let needle = to_chars(pattern);
    find(low, &needle, 0).is_some()
}

/// Whether a lower-case line is the banner.
fn is_banner(low: &Vec<char>) -> (r: bool)
    ensures
        r == (low@ == banner()),
{
    let phrase = to_chars("started scanner test.");
    if low.len() == phrase.len() {
        let r = matches_at(low, &phrase, 0);
        assert(low@.subrange(0, low@.len() as int) =~= low@);
        r
    } else {
        false
    }
}

/// Whether a lower-case line names a numeric kind and speaks of overflow.
fn complains(low: &Vec<char>, kind: &str) -> (r: bool)
    ensures
        r == (contains(low@, kind@) && mentions_overflow(low@)),
{
    has(low, kind) && (has(low, "out of range") || has(low, "overflow"))
}

/// Reads one line of scanner output.
pub fn parse(line: &str) -> (r: Record)
    ensures
        r@ == parse_line(line@),
{
    let chars = to_chars(line);
    let low = lowercase(&chars);
    if is_banner(&low) {
        Record::Start
    } else if complains(&low, "float") {
        Record::Overflow(Overflow::Float)
    } else if complains(&low, "int") {
        Record::Overflow(Overflow::Integer)
    } else {
        read_token(line, &chars)
    }
}

/// The category of `line` where `parse` finds there a category that it does
/// not know; a caller may report it.
pub fn unknown_category(line: &str) -> (r: Option<String>)
    ensures
        match r {
            Some(category) => unknown_category_of(line@) == Some(category@),
            None => unknown_category_of(line@) is None,
        },
{
    let chars = to_chars(line);
    let low = lowercase(&chars);
    if is_banner(&low) || complains(&low, "float") || complains(&low, "int") {
        return None;
    }
    match read_category(&chars) {
        Some((start, stop)) => {
            let known: bool = stop - start == 1 && '0' <= chars[start] && chars[start] <= '5';
            assert(line@.subrange(start as int, stop as int).len() == stop - start);
            if stop - start == 1 {
                assert(line@.subrange(start as int, stop as int)[0] == chars@[start as int]);
            }
            if known {
                None
            } else {
                Some(line.substring_char(start, stop).to_owned())
            }
        },
        None => None,
    }
}

/// A token line whose category is none of the known ones is unparseable.
pub proof fn lemma_unknown_category(line: Seq<char>)
    requires
        unknown_category_of(line) is Some,
    ensures
        parse_line(line) == RecordView::Unparseable,
{
    let (start, stop) = category_span(line)->0;
    let category = line.subrange(start, stop);
    assert(!known_category(category));
    assert(seq!['0'].len() == 1 && seq!['0'][0] == '0');
    assert(seq!['1'].len() == 1 && seq!['1'][0] == '1');
    assert(seq!['2'].len() == 1 && seq!['2'][0] == '2');
    assert(seq!['3'].len() == 1 && seq!['3'][0] == '3');
    assert(seq!['4'].len() == 1 && seq!['4'][0] == '4');
    assert(seq!['5'].len() == 1 && seq!['5'][0] == '5');
}

} // verus!
