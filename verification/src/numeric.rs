//! Number literals: integers in decimal notation and decimal fractions.

use vstd::prelude::*;
use crate::text::{find_char, is_decimal_digit, is_digit, lemma_find_in_range, scan_for};

verus! {

/// The value of a decimal digit; zero for any other character.
pub open spec fn digit_value(c: char) -> nat {
    if is_digit(c) {
        (c as u32 - '0' as u32) as nat
    } else {
        0
    }
}

/// The number that the characters of `s` denote when read as decimal digits.
pub open spec fn digits_value(s: Seq<char>) -> nat
    decreases s.len(),
{
    if s.len() == 0 {
        0
    } else {
        digits_value(s.drop_last()) * 10 + digit_value(s.last())
    }
}

/// Whether every character of `s` is a decimal digit.
pub open spec fn all_digits(s: Seq<char>) -> bool {
    forall|k: int| 0 <= k < s.len() ==> is_digit(#[trigger] s[k])
}

/// The value of an integer literal: an optional sign, `-` only where
/// `signed` allows it, and then at least one digit, nothing else.
pub open spec fn integer_literal(s: Seq<char>, signed: bool) -> Option<int> {
    let negative = signed && s.len() > 0 && s[0] == '-';
    let body = if s.len() > 0 && (s[0] == '+' || negative) {
        s.skip(1)
    } else {
        s
    };
    if body.len() > 0 && all_digits(body) {
        if negative {
            Some(-(digits_value(body) as int))
        } else {
            Some(digits_value(body) as int)
        }
    } else {
        None
    }
}

/// What a literal denotes as an unsigned 16-bit number; `None` where it is
/// no literal or its value does not fit.
pub open spec fn u16_literal(s: Seq<char>) -> Option<u16> {
    match integer_literal(s, false) {
        Some(v) => if v <= u16::MAX {
            Some(v as u16)
        } else {
            None
        },
        None => None,
    }
}

/// What a literal denotes as a signed 32-bit number; `None` where it is no
/// literal or its value does not fit.
pub open spec fn i32_literal(s: Seq<char>) -> Option<i32> {
    match integer_literal(s, true) {
        Some(v) => if i32::MIN <= v <= i32::MAX {
            Some(v as i32)
        } else {
            None
        },
        None => None,
    }
}

/// A value never shrinks when more digits follow.
pub proof fn lemma_digits_value_grows(s: Seq<char>, k: int)
    requires
        0 <= k <= s.len(),
    ensures
        digits_value(s.take(k)) <= digits_value(s),
    decreases s.len() - k,
{
    if k == s.len() {
        assert(s.take(k) =~= s);
    } else {
        lemma_digits_value_grows(s.drop_last(), k);
        assert(s.drop_last().take(k) =~= s.take(k));
    }
}

/// Reads `s[from..to]` as a run of digits. The result is the value where
/// the run is not empty, holds digits only and denotes at most `limit`.
pub fn read_digits(s: &Vec<char>, from: usize, to: usize, limit: u64) -> (r: Option<u64>)
    requires
        from <= to <= s.len(),
        limit <= 0xFFFF_FFFF,
    ensures
        r == (if from < to && all_digits(s@.subrange(from as int, to as int)) && digits_value(
            s@.subrange(from as int, to as int),
        ) <= limit {
            Some(digits_value(s@.subrange(from as int, to as int)) as u64)
        } else {
            None
        }),
{
    let ghost run = s@.subrange(from as int, to as int);
    if from == to {
        return None;
    }
    let mut acc: u64 = 0;
    let mut k: usize = from;
    while k < to
        invariant
            from <= k <= to <= s.len(),
            limit <= 0xFFFF_FFFF,
            run == s@.subrange(from as int, to as int),
            acc == digits_value(run.take(k - from)),
            acc <= limit,
            forall|m: int| 0 <= m < k - from ==> is_digit(#[trigger] run[m]),
        decreases to - k,
    {
        let c: char = s[k];
        assert(run[k - from] == c);
        if !is_decimal_digit(c) {
            return None;
        }
        let d: u64 = (c as u32 - '0' as u32) as u64;
        assert(run.take(k - from + 1).drop_last() =~= run.take(k - from));
        assert(run.take(k - from + 1).last() == c);
        acc = acc * 10 + d;
        if acc > limit {
            proof {
                lemma_digits_value_grows(run, k - from + 1);
            }
            return None;
        }
        k = k + 1;
    }
    assert(run.take(to - from) =~= run);
    Some(acc)
}

/// Reads `s[from..to]` as an unsigned 16-bit literal.
pub fn parse_u16(s: &Vec<char>, from: usize, to: usize) -> (r: Option<u16>)
    requires
        from <= to <= s.len(),
    ensures
        r == u16_literal(s@.subrange(from as int, to as int)),
{
    let ghost word = s@.subrange(from as int, to as int);
    let start: usize = if from < to && s[from] == '+' {
        from + 1
    } else {
        from
    };
    if from < to {
        assert(word.skip(1) =~= s@.subrange(from + 1, to as int));
    }
    match read_digits(s, start, to, 0xFFFF) {
        Some(v) => Some(v as u16),
        None => None,
    }
}

/// Reads `s[from..to]` as a signed 32-bit literal.
pub fn parse_i32(s: &Vec<char>, from: usize, to: usize) -> (r: Option<i32>)
    requires
        from <= to <= s.len(),
    ensures
        r == i32_literal(s@.subrange(from as int, to as int)),
{
    let ghost word = s@.subrange(from as int, to as int);
    let negative: bool = from < to && s[from] == '-';
    let start: usize = if from < to && (s[from] == '+' || negative) {
        from + 1
    } else {
        from
    };
    if from < to {
        assert(word.skip(1) =~= s@.subrange(from + 1, to as int));
    }
    if negative {
        match read_digits(s, start, to, 0x8000_0000) {
            Some(v) => Some((0 - (v as i64)) as i32),
            None => None,
        }
    } else {
        match read_digits(s, start, to, 0x7FFF_FFFF) {
            Some(v) => Some(v as i32),
            None => None,
        }
    }
}

/// A decimal fraction, kept digit by digit as it was written: the number is
/// the digits read as an integer, divided by ten to the power `scale`, and
/// negated where `negative` is set.
#[derive(Debug)]
pub struct Decimal {
    negative: bool,
    digits: Vec<u8>,
    scale: usize,
}

/// The mathematical content of a `Decimal`.
pub ghost struct DecimalView {
    pub negative: bool,
    pub digits: Seq<u8>,
    pub scale: nat,
}

impl View for Decimal {
    type V = DecimalView;

    closed spec fn view(&self) -> DecimalView {
        DecimalView { negative: self.negative, digits: self.digits@, scale: self.scale as nat }
    }
}

impl Clone for Decimal {
    fn clone(&self) -> (r: Self)
        ensures
            r@ == self@,
    {
        proof {
            use_type_invariant(self);
        }
        Decimal { negative: self.negative, digits: self.digits.clone(), scale: self.scale }
    }
}

impl Decimal {
    #[verifier::type_invariant]
    spec fn valid(self) -> bool {
        self@.well_formed()
    }

    /// A decimal of the given sign, digits and scale; `None` where a digit
    /// is above nine or the scale exceeds the number of digits.
    pub fn new(negative: bool, digits: Vec<u8>, scale: usize) -> (r: Option<Decimal>)
        ensures
            match r {
                Some(d) => d@ == (DecimalView { negative, digits: digits@, scale: scale as nat })
                    && d@.well_formed(),
                None => !(DecimalView { negative, digits: digits@, scale: scale as nat })
                    .well_formed(),
            },
    {
        if scale > digits.len() {
            return None;
        }
        let mut k: usize = 0;
        while k < digits.len()
            invariant
                k <= digits.len(),
                forall|m: int| 0 <= m < k ==> #[trigger] digits@[m] <= 9,
            decreases digits.len() - k,
        {
            if digits[k] > 9 {
                return None;
            }
            k = k + 1;
        }
        Some(Decimal { negative, digits, scale })
    }

    /// Whether the number carries a minus sign.
    pub fn is_negative(&self) -> (r: bool)
        ensures
            r == self@.negative,
    {
        self.negative
    }

    /// The digits, the first counting most.
    pub fn digits(&self) -> (r: &Vec<u8>)
        ensures
            r@ == self@.digits,
            self@.well_formed(),
    {
        proof {
            use_type_invariant(self);
        }
        &self.digits
    }

    /// How many of the digits stand behind the point.
    pub fn scale(&self) -> (r: usize)
        ensures
            r == self@.scale,
            self@.well_formed(),
    {
        proof {
            use_type_invariant(self);
        }
        self.scale
    }
}

impl DecimalView {
    /// Every digit is below ten, and the fraction is no longer than the
    /// digits.
    pub open spec fn well_formed(self) -> bool {
        &&& self.scale <= self.digits.len()
        &&& forall|k: int| 0 <= k < self.digits.len() ==> #[trigger] self.digits[k] <= 9
    }
}

/// The values of the digits of `s`.
pub open spec fn digit_bytes(s: Seq<char>) -> Seq<u8> {
    Seq::new(s.len(), |k: int| digit_value(s[k]) as u8)
}

/// What a decimal literal denotes: an optional sign, then digits with at
/// most one point among them, and at least one digit in all.
pub open spec fn decimal_literal(s: Seq<char>) -> Option<DecimalView> {
    let signed = s.len() > 0 && (s[0] == '+' || s[0] == '-');
    let body = if signed {
        s.skip(1)
    } else {
        s
    };
    let dot = find_char(body, '.', 0);
    let whole = body.take(dot);
    let fraction = if dot < body.len() {
        body.skip(dot + 1)
    } else {
        Seq::empty()
    };
    if all_digits(whole) && all_digits(fraction) && whole.len() + fraction.len() > 0 {
        Some(
            DecimalView {
                negative: s[0] == '-',
                digits: digit_bytes(whole + fraction),
                scale: fraction.len(),
            },
        )
    } else {
        None
    }
}

/// Appends the digit values of `s[from..to]` to `out`, as long as digits
/// come; tells whether the whole range held digits.
fn push_digits(s: &Vec<char>, from: usize, to: usize, out: &mut Vec<u8>) -> (r: bool)
    requires
        from <= to <= s.len(),
        forall|k: int| 0 <= k < old(out)@.len() ==> #[trigger] old(out)@[k] <= 9,
    ensures
        r == all_digits(s@.subrange(from as int, to as int)),
        r ==> final(out)@ == old(out)@ + digit_bytes(s@.subrange(from as int, to as int)),
        forall|k: int| 0 <= k < final(out)@.len() ==> #[trigger] final(out)@[k] <= 9,
{
    let ghost run = s@.subrange(from as int, to as int);
    let ghost before = out@;
    let mut k: usize = from;
    while k < to
        invariant
            from <= k <= to <= s.len(),
            run == s@.subrange(from as int, to as int),
            out@ == before + digit_bytes(run.take(k - from)),
            forall|m: int| 0 <= m < k - from ==> is_digit(#[trigger] run[m]),
            forall|m: int| 0 <= m < out@.len() ==> #[trigger] out@[m] <= 9,
        decreases to - k,
    {
        let c: char = s[k];
        assert(run[k - from] == c);
        if !is_decimal_digit(c) {
            return false;
        }
        let d: u8 = (c as u32 - '0' as u32) as u8;
        out.push(d);
        assert(out@ =~= before + digit_bytes(run.take(k - from + 1)));
        k = k + 1;
    }
    assert(run.take(to - from) =~= run);
    true
}

/// Reads `s[from..to]` as a decimal literal.
pub fn parse_decimal(s: &Vec<char>, from: usize, to: usize) -> (r: Option<Decimal>)
    requires
        from <= to <= s.len(),
    ensures
        match r {
            Some(d) => decimal_literal(s@.subrange(from as int, to as int)) == Some(d@)
                && d@.well_formed(),
            None => decimal_literal(s@.subrange(from as int, to as int)) is None,
        },
{
    let ghost word = s@.subrange(from as int, to as int);
    let signed: bool = from < to && (s[from] == '+' || s[from] == '-');
    let negative: bool = from < to && s[from] == '-';
    let start: usize = if signed {
        from + 1
    } else {
        from
    };
    let ghost body = s@.subrange(start as int, to as int);
    if from < to {
        assert(word.skip(1) =~= s@.subrange(from + 1, to as int));
    }
    let stop: usize = scan_for(s, '.', start);
    let dot: usize = if stop < to {
        stop
    } else {
        to
    };
    proof {
        lemma_find_in_range(s@, '.', start as int, to as int);
    }
    assert(dot - start == find_char(body, '.', 0));
    let ghost whole = body.take(dot - start);
    assert(whole =~= s@.subrange(start as int, dot as int));
    let rest: usize = if dot < to {
        dot + 1
    } else {
        to
    };
    let ghost fraction = if dot < to {
        body.skip(dot - start + 1)
    } else {
        Seq::empty()
    };
    assert(fraction =~= s@.subrange(rest as int, to as int));
    let mut digits: Vec<u8> = Vec::new();
    if !push_digits(s, start, dot, &mut digits) {
        return None;
    }
    if !push_digits(s, rest, to, &mut digits) {
        return None;
    }
    if digits.len() == 0 {
        return None;
    }
    assert(digits@ =~= digit_bytes(whole + fraction));
    Some(Decimal { negative, digits, scale: to - rest })
}

} // verus!
