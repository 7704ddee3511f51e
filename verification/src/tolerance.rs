//! Comparison of decimal fractions up to one millionth.

use vstd::prelude::*;
use crate::numeric::{Decimal, DecimalView};

verus! {

/// The number that the digits of `d` denote, the first digit counting most.
pub open spec fn bytes_value(d: Seq<u8>) -> nat
    decreases d.len(),
{
    if d.len() == 0 {
        0
    } else {
        bytes_value(d.drop_last()) * 10 + d.last() as nat
    }
}

/// Ten to the power `n`.
pub open spec fn pow10(n: nat) -> nat
    decreases n,
{
    if n == 0 {
        1
    } else {
        10 * pow10((n - 1) as nat)
    }
}

/// The number of decimal places at which two fractions are compared: enough
/// for both, and six at least.
pub open spec fn places(a: DecimalView, b: DecimalView) -> nat {
    let most = if a.scale >= b.scale {
        a.scale
    } else {
        b.scale
    };
    if most >= 6 {
        most
    } else {
        6
    }
}

/// The fraction `d` multiplied by ten to the power `n`: a whole number for
/// every `n` that is at least the scale of `d`.
pub open spec fn scaled(d: DecimalView, n: nat) -> int {
    let magnitude = bytes_value(d.digits) * pow10((n - d.scale) as nat);
    if d.negative {
        -magnitude
    } else {
        magnitude as int
    }
}

/// Whether `a` and `b` differ by less than one millionth. Every fraction is
/// close to itself, and closeness does not depend on the order of the two.
/// It does not carry over: of three fractions half a millionth apart, the
/// first is close to the second and the second to the third, but the first
/// is not close to the third. Grading accepts that.
pub open spec fn close(a: DecimalView, b: DecimalView) -> bool {
    let n = places(a, b);
    let gap = scaled(a, n) - scaled(b, n);
    -pow10((n - 6) as nat) < gap < pow10((n - 6) as nat)
}

/// A value cut off at three and at minus three: beyond them a running value
/// keeps its sign whatever digits follow.
pub open spec fn capped(v: int) -> int {
    if v >= 3 {
        3
    } else if v <= -3 {
        -3
    } else {
        v
    }
}

/// `v`, negated where `negative` is set.
pub open spec fn with_sign(negative: bool, v: int) -> int {
    if negative {
        -v
    } else {
        v
    }
}

/// The digit that `d` shows at position `q` of `whole` positions before the
/// point, with its sign; zero in front of its first digit.
spec fn whole_digit(d: DecimalView, q: int, whole: int) -> int {
    let lead = whole - (d.digits.len() - d.scale);
    if q >= lead {
        with_sign(d.negative, d.digits[q - lead] as int)
    } else {
        0
    }
}

/// The value of what `d` shows in the first `q` of `whole` positions before
/// the point.
spec fn whole_prefix(d: DecimalView, q: int, whole: int) -> int {
    let lead = whole - (d.digits.len() - d.scale);
    with_sign(
        d.negative,
        bytes_value(
            d.digits.take(
                if q >= lead {
                    q - lead
                } else {
                    0
                },
            ),
        ) as int,
    )
}

/// The digit that `d` shows at position `j` after the point, with its sign;
/// zero behind its last digit.
spec fn fraction_digit(d: DecimalView, j: int) -> int {
    if j < d.scale {
        with_sign(d.negative, d.digits[d.digits.len() - d.scale + j] as int)
    } else {
        0
    }
}

/// The value of what `d` shows up to position `j` after the point, the point
/// left out.
spec fn fraction_prefix(d: DecimalView, j: int) -> int {
    if j < d.scale {
        with_sign(d.negative, bytes_value(d.digits.take(d.digits.len() - d.scale + j)) as int)
    } else {
        with_sign(d.negative, (bytes_value(d.digits) * pow10((j - d.scale) as nat)) as int)
    }
}

/// One millionth, up to position `j` after the point.
spec fn threshold_prefix(j: int) -> int {
    if j >= 6 {
        pow10((j - 6) as nat) as int
    } else {
        0
    }
}

proof fn lemma_take_step(d: Seq<u8>, k: int)
    requires
        0 <= k < d.len(),
    ensures
        bytes_value(d.take(k + 1)) == 10 * bytes_value(d.take(k)) + d[k],
{
    assert(d.take(k + 1).drop_last() =~= d.take(k));
}

proof fn lemma_whole_step(d: DecimalView, q: int, whole: int)
    requires
        d.well_formed(),
        d.digits.len() - d.scale <= whole,
        0 <= q < whole,
    ensures
        whole_prefix(d, q + 1, whole) == 10 * whole_prefix(d, q, whole) + whole_digit(
            d,
            q,
            whole,
        ),
        -9 <= whole_digit(d, q, whole) <= 9,
{
    let lead = whole - (d.digits.len() - d.scale);
    if q >= lead {
        lemma_take_step(d.digits, q - lead);
        assert(d.digits[q - lead] <= 9);
    } else {
        assert(d.digits.take(0) =~= Seq::<u8>::empty());
        if q + 1 >= lead {
            assert(q + 1 - lead == 0);
        }
    }
}

proof fn lemma_whole_start(d: DecimalView, whole: int)
    requires
        d.well_formed(),
        d.digits.len() - d.scale <= whole,
    ensures
        whole_prefix(d, 0, whole) == 0,
{
    assert(d.digits.take(0) =~= Seq::<u8>::empty());
}

proof fn lemma_fraction_start(d: DecimalView, whole: int)
    requires
        d.well_formed(),
        d.digits.len() - d.scale <= whole,
    ensures
        fraction_prefix(d, 0) == whole_prefix(d, whole, whole),
{
    if d.scale == 0 {
        assert(d.digits.take(d.digits.len() as int) =~= d.digits);
        assert(pow10(0) == 1);
        assert(bytes_value(d.digits) * 1 == bytes_value(d.digits));
    }
}

proof fn lemma_fraction_step(d: DecimalView, j: int)
    requires
        d.well_formed(),
        0 <= j,
    ensures
        fraction_prefix(d, j + 1) == 10 * fraction_prefix(d, j) + fraction_digit(d, j),
        -9 <= fraction_digit(d, j) <= 9,
{
    let whole = d.digits.len() - d.scale;
    if j < d.scale {
        lemma_take_step(d.digits, whole + j);
        assert(d.digits[whole + j] <= 9);
        if j + 1 == d.scale {
            assert(d.digits.take(d.digits.len() as int) =~= d.digits);
            assert(pow10(0) == 1);
            assert(bytes_value(d.digits) * 1 == bytes_value(d.digits));
        }
    } else {
        let v = bytes_value(d.digits);
        let k = (j - d.scale) as nat;
        assert(pow10(k + 1) == 10 * pow10(k));
        assert(v * (10 * pow10(k)) == 10 * (v * pow10(k))) by (nonlinear_arith);
    }
}

proof fn lemma_threshold_step(j: int)
    requires
        0 <= j,
    ensures
        threshold_prefix(j + 1) == 10 * threshold_prefix(j) + (if j == 5 {
            1int
        } else {
            0
        }),
{
    if j == 5 {
        assert(pow10(0) == 1);
    } else if j > 5 {
        assert(pow10((j + 1 - 6) as nat) == 10 * pow10((j - 6) as nat));
    }
}

/// One more position: the capped running value after the coefficient `c`.
fn step(d: i32, c: i32, Ghost(v): Ghost<int>) -> (r: i32)
    requires
        d == capped(v),
        -19 <= c <= 19,
    ensures
        r == capped(10 * v + c),
{
    if d >= 3 {
        3
    } else if d <= -3 {
        -3
    } else {
        let next: i32 = 10 * d + c;
        if next >= 3 {
            3
        } else if next <= -3 {
            -3
        } else {
            next
        }
    }
}

/// A digit with its sign.
fn signed(digit: u8, negative: bool) -> (r: i32)
    requires
        digit <= 9,
    ensures
        r == with_sign(negative, digit as int),
{
    if negative {
        0 - (digit as i32)
    } else {
        digit as i32
    }
}

/// Whether `a` lies less than one millionth above `b`.
fn within(a: &Decimal, b: &Decimal) -> (r: bool)
    ensures
        r == (scaled(a@, places(a@, b@)) - scaled(b@, places(a@, b@)) < pow10(
            (places(a@, b@) - 6) as nat,
        )),
{
    let a_digits = a.digits();
    let b_digits = b.digits();
    let a_negative = a.is_negative();
    let b_negative = b.is_negative();
    let a_scale: usize = a.scale();
    let b_scale: usize = b.scale();
    let la: usize = a_digits.len();
    let lb: usize = b_digits.len();
    let ia: usize = la - a_scale;
    let ib: usize = lb - b_scale;
    let whole: usize = if ia >= ib {
        ia
    } else {
        ib
    };
    let mut d: i32 = 0;
    let mut q: usize = 0;
    proof {
        lemma_whole_start(a@, whole as int);
        lemma_whole_start(b@, whole as int);
    }
    while q < whole
        invariant
            q <= whole,
            ia <= whole,
            ib <= whole,
            la == a@.digits.len(),
            lb == b@.digits.len(),
            ia + a_scale == la,
            ib + b_scale == lb,
            a_digits@ == a@.digits,
            b_digits@ == b@.digits,
            a_negative == a@.negative,
            b_negative == b@.negative,
            a_scale == a@.scale,
            b_scale == b@.scale,
            a@.well_formed(),
            b@.well_formed(),
            d == capped(whole_prefix(a@, q as int, whole as int) - whole_prefix(
                b@,
                q as int,
                whole as int,
            )),
        decreases whole - q,
    {
        proof {
            lemma_whole_step(a@, q as int, whole as int);
            lemma_whole_step(b@, q as int, whole as int);
        }
        let x: i32 = if q >= whole - ia {
            signed(a_digits[q - (whole - ia)], a_negative)
        } else {
            0
        };
        let y: i32 = if q >= whole - ib {
            signed(b_digits[q - (whole - ib)], b_negative)
        } else {
            0
        };
        d = step(
            d,
            x - y,
            Ghost(
                whole_prefix(a@, q as int, whole as int) - whole_prefix(
                    b@,
                    q as int,
                    whole as int,
                ),
            ),
        );
        q = q + 1;
    }
    let most: usize = if a_scale >= b_scale {
        a_scale
    } else {
        b_scale
    };
    let n: usize = if most >= 6 {
        most
    } else {
        6
    };
    let mut j: usize = 0;
    proof {
        lemma_fraction_start(a@, whole as int);
        lemma_fraction_start(b@, whole as int);
    }
    while j < n
        invariant
            j <= n,
            n == places(a@, b@),
            la == a@.digits.len(),
            lb == b@.digits.len(),
            ia + a_scale == la,
            ib + b_scale == lb,
            a_digits@ == a@.digits,
            b_digits@ == b@.digits,
            a_negative == a@.negative,
            b_negative == b@.negative,
            a_scale == a@.scale,
            b_scale == b@.scale,
            a@.well_formed(),
            b@.well_formed(),
            d == capped(
                fraction_prefix(a@, j as int) - fraction_prefix(b@, j as int) - threshold_prefix(
                    j as int,
                ),
            ),
        decreases n - j,
    {
        proof {
            lemma_fraction_step(a@, j as int);
            lemma_fraction_step(b@, j as int);
            lemma_threshold_step(j as int);
        }
        let x: i32 = if j < a_scale {
            signed(a_digits[ia + j], a_negative)
        } else {
            0
        };
        let y: i32 = if j < b_scale {
            signed(b_digits[ib + j], b_negative)
        } else {
            0
        };
        let t: i32 = if j == 5 {
            1
        } else {
            0
        };
        d = step(
            d,
            x - y - t,
            Ghost(
                fraction_prefix(a@, j as int) - fraction_prefix(b@, j as int) - threshold_prefix(
                    j as int,
                ),
            ),
        );
        j = j + 1;
    }
    d < 0
}

/// Whether two fractions differ by less than one millionth.
pub fn is_close(a: &Decimal, b: &Decimal) -> (r: bool)
    ensures
        r == close(a@, b@),
{
    within(a, b) && within(b, a)
}

} // verus!
