//! What numbers mean: their bit patterns, the results of arithmetic, and texts
//! that denote them.

use crate::double::Double;
use crate::{decimal, double, laws, naturals, reading, rounding};
use vstd::arithmetic::div_mod::*;
use vstd::arithmetic::power::*;
use vstd::arithmetic::power2::*;
use vstd::prelude::*;

verus! {

/// Whether `r` is what `n / d` steps of 2^-1074 round to: no number lies nearer,
/// and where another is as near, `r` is the one with the even pattern. The
/// infinities take part as plus and minus 2^1024.
pub open spec fn correctly_rounded(r: Double, n: int, d: nat) -> bool {
    &&& !r.nan()
    &&& forall|x: Double|
        !x.nan() ==> {
            let here = vstd::math::abs(r.value() * d - n);
            let there = vstd::math::abs(#[trigger] x.value() * d - n);
            &&& here <= there
            &&& here == there && x.value() != r.value() ==> r.bits % 2 == 0
        }
}

/// What a pattern stands for: a sign, an exponent and a fraction.
pub proof fn law_bit_patterns(sign: nat, exponent: nat, fraction: nat)
    requires
        sign < 2,
        exponent < 2048,
        fraction < 0x10_0000_0000_0000,
    ensures
        ({
            let bits = sign * 0x8000_0000_0000_0000 + exponent * 0x10_0000_0000_0000 + fraction;
            let x = Double { bits: bits as u64 };
            let size = if exponent == 0 {
                fraction
            } else {
                (0x10_0000_0000_0000 + fraction) * pow2((exponent - 1) as nat)
            };
            &&& bits <= u64::MAX
            &&& x.negative() == (sign == 1)
            &&& x.nan() == (exponent == 2047 && fraction > 0)
            &&& x.infinite() == (exponent == 2047 && fraction == 0)
            &&& x.finite() == (exponent < 2047)
            &&& !x.nan() ==> x.value() == (if sign == 1 {
                -size
            } else {
                size as int
            })
        }),
{
    if exponent > 0 {
        rounding::lemma_steps_at(
            (0x10_0000_0000_0000 + fraction) as nat,
            (exponent - 1) as nat,
        );
    }
}

/// Comparing numbers is comparing their values; what is not a number compares
/// with nothing.
pub proof fn law_order_is_that_of_values(a: Double, b: Double)
    ensures
        a.nan() || b.nan() ==> !a.below(b) && !a.at_most(b),
        !a.nan() && !b.nan() ==> a.below(b) == (a.value() < b.value()) && a.at_most(b) == (a.value()
            <= b.value()),
{
}

/// What has the magnitude that `n / d` steps round to is correctly rounded.
proof fn lemma_correctly_rounded(r: Double, n: int, d: nat)
    requires
        d > 0,
        r.magnitude() == rounding::capped(rounding::nearest(vstd::math::abs(n), d)),
        n != 0 ==> r.negative() == (n < 0),
    ensures
        correctly_rounded(r, n, d),
{
    let m = vstd::math::abs(n);
    let full = rounding::nearest(m, d);
    let top = rounding::INFINITE as nat;
    let s = rounding::steps(r.magnitude());
    rounding::lemma_nearest_exact(0, d);
    assert(0 * d == 0) by (nonlinear_arith);
    assert((-s) * d == -(s * d)) by (nonlinear_arith);
    assert(s * d >= 0) by (nonlinear_arith);
    if full > top {
        if m < rounding::steps(top) * d {
            rounding::lemma_nearest_monotone(m, rounding::steps(top) * d, d);
            rounding::lemma_nearest_exact(top, d);
        }
    }
    assert forall|x: Double| !x.nan() implies ({
        let here = vstd::math::abs(r.value() * d - n);
        let there = vstd::math::abs(#[trigger] x.value() * d - n);
        &&& here <= there
        &&& here == there && x.value() != r.value() ==> r.bits % 2 == 0
    }) by {
        let y = rounding::steps(x.magnitude());
        assert((-y) * d == -(y * d)) by (nonlinear_arith);
        assert(y * d >= 0) by (nonlinear_arith);
        rounding::lemma_nearest_is_nearest(m, d, x.magnitude());
        rounding::lemma_nearest_is_nearest(m, d, 0);
        laws::lemma_infinite_bounds(x);
        if full > top {
            assert(y * d <= s * d) by (nonlinear_arith)
                requires
                    y <= s,
            ;
            if y < s {
                assert(y * d < s * d) by (nonlinear_arith)
                    requires
                        y < s,
                        d > 0,
                ;
            }
        } else {
            let here = vstd::math::abs(r.value() * d - n);
            let there = vstd::math::abs(x.value() * d - n);
            assert(here == vstd::math::abs(s * d - m));
            assert(there >= vstd::math::abs(y * d - m));
            if here == there && x.value() != r.value() {
                if y == s {
                    // Both signs are equally near only around zero.
                    assert(y * d > 0) by (nonlinear_arith)
                        requires
                            y > 0,
                            d > 0,
                    ;
                    assert(n == 0);
                    assert(s == 0);
                }
                assert(x.magnitude() != full);
                if vstd::math::abs(y * d - m) == here {
                    rounding::lemma_nearest_tie(m, d, x.magnitude());
                }
            }
        }
    }
}

/// The rounded whole numbers, sums, differences, products and quotients of
/// finite numbers are correctly rounded.
pub proof fn law_arithmetic_is_correctly_rounded(n: nat, a: Double, b: Double)
    requires
        a.finite(),
        b.finite(),
    ensures
        correctly_rounded(double::whole(n), (n * double::one_in_steps()) as int, 1),
        correctly_rounded(a.sum(b), a.value() + b.value(), 1),
        correctly_rounded(a.difference(b), a.value() - b.value(), 1),
        correctly_rounded(a.product(b), a.value() * b.value(), double::one_in_steps()),
        b.value() > 0 ==> correctly_rounded(
            a.quotient(b),
            a.value() * double::one_in_steps(),
            b.value() as nat,
        ),
        b.value() < 0 ==> correctly_rounded(
            a.quotient(b),
            -(a.value() * double::one_in_steps()),
            (-b.value()) as nat,
        ),
{
    let one = double::one_in_steps();
    let x = rounding::steps(a.magnitude());
    let y = rounding::steps(b.magnitude());
    lemma_pow2_pos(1074);
    rounding::lemma_nearest_exact(0, 1);
    rounding::lemma_nearest_exact(0, one);
    assert(0 * one == 0) by (nonlinear_arith);
    assert(n * one >= 0) by (nonlinear_arith);
    lemma_correctly_rounded(double::whole(n), (n * one) as int, 1);
    lemma_correctly_rounded(a.sum(b), a.value() + b.value(), 1);
    assert(b.negation().value() == -b.value());
    lemma_correctly_rounded(a.sum(b.negation()), a.value() - b.value(), 1);
    lemma_sign_product(a.negative(), x, b.negative(), y);
    lemma_correctly_rounded(a.product(b), a.value() * b.value(), one);
    if y > 0 {
        let p = a.value() * one;
        lemma_sign_product(a.negative(), x, false, one);
        assert(b.magnitude() != 0);
        if b.value() > 0 {
            lemma_correctly_rounded(a.quotient(b), p, y);
        } else {
            lemma_correctly_rounded(a.quotient(b), -p, y);
        }
    }
}

/// A fraction of whole numbers is correctly rounded.
pub proof fn law_fractions_are_correctly_rounded(n: nat, d: nat)
    requires
        n < 0x20_0000_0000_0000,
        0 < d < 0x20_0000_0000_0000,
    ensures
        correctly_rounded(double::ratio(n, d), (n * pow2(1074)) as int, d),
        !double::ratio(n, d).negative(),
{
    let one = pow2(1074);
    laws::law_whole_numbers_are_exact(n);
    laws::law_whole_numbers_are_exact(d);
    lemma_pow2_pos(1074);
    assert(d * one > 0) by (nonlinear_arith)
        requires
            d > 0,
            one > 0,
    ;
    assert(n * one >= 0) by (nonlinear_arith);
    rounding::lemma_nearest_scale(n * one, d, one);
    lemma_correctly_rounded(double::ratio(n, d), (n * one) as int, d);
}

/// A whole multiple of a number is correctly rounded.
pub proof fn law_multiples_are_correctly_rounded(a: Double, n: nat)
    requires
        a.finite(),
        n < 0x20_0000_0000_0000,
    ensures
        correctly_rounded(a.product(double::whole(n)), a.value() * n, 1),
        a.product(double::whole(n)).negative() == a.negative(),
{
    let one = pow2(1074);
    let x = rounding::steps(a.magnitude());
    laws::law_whole_numbers_are_exact(n);
    lemma_pow2_pos(1074);
    assert(x * (n * one) == (x * n) * one) by (nonlinear_arith);
    assert(1 * one == one);
    rounding::lemma_nearest_scale(x * n, 1, one);
    lemma_sign_product(a.negative(), x, false, n);
    lemma_correctly_rounded(a.product(double::whole(n)), a.value() * n, 1);
}

/// A product has the magnitude of the magnitudes and the sign of the signs.
proof fn lemma_sign_product(s: bool, x: nat, t: bool, y: nat)
    ensures
        ({
            let u: int = if s {
                -x
            } else {
                x as int
            };
            let v: int = if t {
                -y
            } else {
                y as int
            };
            &&& vstd::math::abs(u * v) == x * y
            &&& u * v != 0 ==> (u * v < 0) == (s != t)
        }),
{
    assert((-x) * (y as int) == -(x * y)) by (nonlinear_arith);
    assert((x as int) * (-y) == -(x * y)) by (nonlinear_arith);
    assert((-x) * (-y) == x * y) by (nonlinear_arith);
    assert(x * y >= 0) by (nonlinear_arith);
}

/// Signs, infinities and what is not a number, in sums.
pub proof fn law_sums_of_special_numbers(a: Double, b: Double)
    ensures
        double::one_in_steps() == pow2(1074),
        a.negation().bits == (if a.bits < 0x8000_0000_0000_0000 {
            a.bits + 0x8000_0000_0000_0000
        } else {
            a.bits - 0x8000_0000_0000_0000
        }),
        a.nan() || b.nan() ==> a.sum(b).nan(),
        a.infinite() && b.infinite() && a.negative() != b.negative() ==> a.sum(b).nan(),
        a.infinite() && !b.nan() && !(b.infinite() && a.negative() != b.negative()) ==> a.sum(b)
            == a,
        a.finite() && b.infinite() ==> a.sum(b) == b,
        a.finite() && b.finite() && a.value() + b.value() == 0 ==> a.sum(b).bits == (
        if a.negative() && b.negative() {
            0x8000_0000_0000_0000u64
        } else {
            0u64
        }),
        a.finite() && b.finite() && a.value() + b.value() != 0 ==> a.sum(b).negative() == (a.value()
            + b.value() < 0),
        a.difference(b) == a.sum(b.negation()),
{
}

/// Signs, infinities and what is not a number, in products and quotients.
pub proof fn law_products_of_special_numbers(a: Double, b: Double)
    ensures
        a.nan() || b.nan() ==> a.product(b).nan() && a.quotient(b).nan(),
        a.infinite() && b.value() == 0 ==> a.product(b).nan(),
        a.value() == 0 && b.infinite() ==> a.product(b).nan(),
        a.infinite() && b.infinite() ==> a.quotient(b).nan(),
        a.value() == 0 && b.value() == 0 ==> a.quotient(b).nan(),
        !a.product(b).nan() ==> a.product(b).negative() == (a.negative() != b.negative()),
        !a.quotient(b).nan() ==> a.quotient(b).negative() == (a.negative() != b.negative()),
        !a.nan() && !b.nan() && (a.infinite() || b.infinite()) && a.value() != 0 && b.value() != 0
            ==> a.product(b).infinite(),
        a.infinite() && b.finite() ==> a.quotient(b).infinite(),
        a.finite() && b.infinite() ==> !a.quotient(b).nan() && a.quotient(b).value() == 0,
        a.finite() && a.value() != 0 && b.value() == 0 ==> a.quotient(b).infinite(),
{
    rounding::lemma_steps_increase(0, rounding::INFINITE as nat);
    if a.magnitude() > 0 {
        rounding::lemma_steps_increase(0, a.magnitude());
    }
    if b.magnitude() > 0 {
        rounding::lemma_steps_increase(0, b.magnitude());
    }
}

/// The integer part is what is left without the fraction, within the range of
/// the whole numbers that can be held.
pub proof fn law_integer_part_drops_the_fraction(a: Double)
    ensures
        a.nan() || a.value() < 0 ==> a.integer_part() == 0,
        a.integer_part() <= u64::MAX,
        !a.nan() && a.value() >= 0 ==> a.integer_part() * pow2(1074) <= a.value(),
        !a.nan() && a.value() >= 0 && a.integer_part() < u64::MAX ==> a.value() < (a.integer_part()
            + 1) * pow2(1074),
{
    let one = pow2(1074);
    let v = rounding::steps(a.magnitude());
    lemma_pow2_pos(1074);
    lemma_fundamental_div_mod(v as int, one as int);
    let q = v / one;
    assert(q * one == one * q) by (nonlinear_arith);
    assert((q + 1) * one == one * q + one) by (nonlinear_arith);
    assert(0 * one == 0) by (nonlinear_arith);
    if q > u64::MAX {
        assert(u64::MAX * one <= q * one) by (nonlinear_arith)
            requires
                u64::MAX <= q,
        ;
    }
}

/// Whether a text consists of decimal digits.
pub open spec fn all_digits(s: Seq<char>) -> bool {
    forall|i: int| 0 <= i < s.len() ==> '0' <= #[trigger] s[i] && s[i] <= '9'
}

/// The number that digits denote, the most significant one first.
pub open spec fn digits_read(s: Seq<char>) -> int {
    s.fold_left(0int, |n: int, c: char| 10 * n + (c as int - '0' as int))
}

/// Reading digits one by one adds up to the number they denote.
proof fn lemma_digits_read(s: Seq<char>)
    requires
        all_digits(s),
    ensures
        digits_read(s) == reading::digits_number(s),
    decreases s.len(),
{
    if s.len() > 0 {
        let front = s.drop_last();
        assert forall|i: int| 0 <= i < front.len() implies '0' <= #[trigger] front[i] && front[i]
            <= '9' by {
            assert(front[i] == s[i]);
        }
        lemma_digits_read(front);
        assert('0' <= s[s.len() - 1]);
    }
}

/// Powers of ten.
proof fn lemma_pow10(e: nat)
    ensures
        naturals::pow10(e) == pow(10, e),
    decreases e,
{
    reveal(pow);
    if e > 0 {
        lemma_pow10((e - 1) as nat);
    }
}

/// A whole number in decimal notation consists of digits that denote it, the
/// first of which is zero for zero only.
pub proof fn law_numerals_denote(n: nat)
    ensures
        decimal::numeral(n).len() > 0,
        all_digits(decimal::numeral(n)),
        decimal::numeral(n)[0] == '0' ==> decimal::numeral(n).len() == 1,
        digits_read(decimal::numeral(n)) == n,
    decreases n,
{
    let s = decimal::numeral(n);
    if n < 10 {
        assert(s.drop_last() =~= Seq::<char>::empty());
        assert(s =~= seq![decimal::digit_char(n)]);
        assert(digits_read(s.drop_last()) == 0);
    } else {
        law_numerals_denote(n / 10);
        let front = decimal::numeral(n / 10);
        assert(s.drop_last() =~= front);
        assert(front.drop_last().len() == front.len() - 1);
        assert(s[0] == front[0]);
        if front.len() == 1 && front[0] == '0' {
            assert(front.drop_last() =~= Seq::<char>::empty());
            assert(digits_read(front.drop_last()) == 0);
            assert(digits_read(front) == 0);
        }
    }
}

/// Whether a text is a number in decimal notation: a minus sign, if any, a whole
/// part and, if there are any decimals, a point and these.
pub open spec fn notation(
    text: Seq<char>,
    negative: bool,
    whole: Seq<char>,
    fraction: Seq<char>,
) -> bool {
    &&& text == (if negative {
        seq!['-']
    } else {
        seq![]
    }) + whole + (if fraction.len() > 0 {
        seq!['.'] + fraction
    } else {
        seq![]
    })
    &&& whole.len() > 0
    &&& whole[0] == '0' ==> whole.len() == 1
    &&& all_digits(whole)
    &&& all_digits(fraction)
}

/// Whether a text shows `a` with its sign and exactly this many decimals, and
/// its digits denote what `a` rounds to there: the nearest, and of two that are
/// equally near the even one.
pub open spec fn shows(text: Seq<char>, a: Double, decimals: nat) -> bool {
    exists|whole: Seq<char>, fraction: Seq<char>|
        {
            let shown = digits_read(whole + fraction) * pow2(1074);
            let exact = vstd::math::abs(a.value()) * pow(10, decimals);
            &&& #[trigger] notation(text, a.negative(), whole, fraction)
            &&& fraction.len() == decimals
            &&& 2 * vstd::math::abs(shown - exact) <= pow2(1074)
            &&& 2 * vstd::math::abs(shown - exact) == pow2(1074) ==> digits_read(whole + fraction)
                % 2 == 0
        }
}

/// Fixed notation shows every number with the decimals that were asked for.
pub proof fn law_fixed_notation_denotes(a: Double, decimals: nat)
    ensures
        a.nan() ==> decimal::fixed_text(a, decimals) == "NaN"@,
        a.infinite() && !a.negative() ==> decimal::fixed_text(a, decimals) == "inf"@,
        a.infinite() && a.negative() ==> decimal::fixed_text(a, decimals) == "-inf"@,
        a.finite() ==> shows(decimal::fixed_text(a, decimals), a, decimals),
{
    reveal_strlit("-");
    reveal_strlit("inf");
    reveal_strlit("-inf");
    if a.infinite() && a.negative() {
        assert("-"@ + "inf"@ =~= "-inf"@);
    }
    if a.finite() {
        let n = decimal::scaled(a, decimals);
        let t = naturals::pow10(decimals);
        let one = pow2(1074);
        let exact = rounding::steps(a.magnitude()) * t;
        naturals::lemma_pow10_positive(decimals);
        lemma_pow10(decimals);
        lemma_pow2_pos(1074);
        let whole = decimal::numeral(n / t);
        let fraction = if decimals == 0 {
            Seq::empty()
        } else {
            decimal::padded(n % t, decimals)
        };
        law_numerals_denote(n / t);
        lemma_fundamental_div_mod(n as int, t as int);
        assert(all_digits(whole + fraction) && reading::digits_number(whole + fraction) == n) by {
            if decimals == 0 {
                assert(whole + fraction =~= whole);
                lemma_digits_read(whole);
                assert(n / 1 == n);
            } else {
                laws::lemma_padded(whole, n % t, decimals);
                lemma_digits_read(whole);
                assert(t * (n / t) == (n / t) * t) by (nonlinear_arith);
            }
        }
        lemma_digits_read(whole + fraction);
        assert(all_digits(fraction)) by {
            assert forall|i: int| 0 <= i < fraction.len() implies '0' <= #[trigger] fraction[i]
                && fraction[i] <= '9' by {
                assert((whole + fraction)[whole.len() + i] == fraction[i]);
            }
        }
        assert(fraction.len() == decimals) by {
            if decimals > 0 {
                laws::lemma_padded(whole, n % t, decimals);
            }
        }
        reveal_strlit(".");
        assert("."@ =~= seq!['.']);
        assert("-"@ =~= seq!['-']);
        assert(decimal::fixed_text(a, decimals) =~= (if a.negative() {
            seq!['-']
        } else {
            seq![]
        }) + whole + (if fraction.len() > 0 {
            seq!['.'] + fraction
        } else {
            seq![]
        }));
        laws::law_shown_amount_is_nearest(a, decimals);
        lemma_fundamental_div_mod(exact as int, one as int);
        let q = exact / one;
        assert(q * one == one * q) by (nonlinear_arith);
        assert((q + 1) * one == one * q + one) by (nonlinear_arith);
        assert(vstd::math::abs(a.value()) == rounding::steps(a.magnitude()));
        assert(notation(decimal::fixed_text(a, decimals), a.negative(), whole, fraction));
    }
}

/// Whether a text is empty or a sign.
pub open spec fn sign_text(s: Seq<char>) -> bool {
    s == Seq::<char>::empty() || s == seq!['-'] || s == seq!['+']
}

/// The end of a text that denotes a number: nothing, or the letter for an
/// exponent, its sign, if any, and its digits.
pub open spec fn exponent_text(mark: Seq<char>, sign: Seq<char>, digits: Seq<char>) -> bool {
    ||| mark.len() == 0 && sign.len() == 0 && digits.len() == 0
    ||| (mark == seq!['e'] || mark == seq!['E']) && sign_text(sign) && all_digits(digits)
        && digits.len() > 0
}

/// Whether a text consists of these parts: a sign, if any, a whole part, a
/// point, if any, and decimals, of which one part may be missing, and an
/// exponent, if any.
pub open spec fn decimal_text(
    text: Seq<char>,
    sign: Seq<char>,
    whole: Seq<char>,
    point: Seq<char>,
    fraction: Seq<char>,
    mark: Seq<char>,
    exponent_sign: Seq<char>,
    exponent: Seq<char>,
) -> bool {
    &&& text == sign + (whole + (point + (fraction + (mark + (exponent_sign + exponent)))))
    &&& sign_text(sign)
    &&& all_digits(whole)
    &&& all_digits(fraction)
    &&& point == seq!['.'] || point.len() == 0 && fraction.len() == 0
    &&& whole.len() + fraction.len() > 0
    &&& exponent_text(mark, exponent_sign, exponent)
}

/// A run of digits, and something else after it.
proof fn lemma_run_is(s: Seq<char>, i: int, digits: Seq<char>)
    requires
        0 <= i,
        i + digits.len() <= s.len(),
        all_digits(digits),
        s.subrange(i, i + digits.len()) == digits,
        i + digits.len() < s.len() ==> !reading::is_digit(s[i + digits.len()]),
    ensures
        reading::run(s, i) == i + digits.len(),
{
    reading::lemma_run(s, i);
    let r = reading::run(s, i);
    if r < i + digits.len() {
        assert(digits[r - i] == s[r]);
    }
}

/// The power of ten that an exponent denotes.
pub open spec fn exponent_read(sign: Seq<char>, digits: Seq<char>) -> int {
    if sign == seq!['-'] {
        -digits_read(digits)
    } else {
        digits_read(digits)
    }
}

/// An exponent of such parts is read as what they denote.
proof fn lemma_exponent(mark: Seq<char>, sign: Seq<char>, digits: Seq<char>)
    requires
        exponent_text(mark, sign, digits),
    ensures
        reading::exponent_in(mark + (sign + digits)) == Some(exponent_read(sign, digits)),
        (mark + (sign + digits)).len() > 0 ==> (mark + (sign + digits))[0] == 'e' || (mark + (sign
            + digits))[0] == 'E',
{
    let tail = mark + (sign + digits);
    if mark.len() == 0 {
        assert(tail =~= Seq::<char>::empty());
        assert(digits =~= Seq::<char>::empty());
        assert(digits_read(digits) == 0);
    } else {
        let rest = sign + digits;
        lemma_digits_read(digits);
        assert(tail[0] == mark[0]);
        assert(tail.drop_first() =~= rest);
        lemma_front(rest, sign, digits);
        assert(digits.subrange(0, digits.len() as int) =~= digits);
        lemma_run_is(digits, 0, digits);
    }
}

/// A sign in front of what does not start with one.
proof fn lemma_front(text: Seq<char>, sign: Seq<char>, body: Seq<char>)
    requires
        text == sign + body,
        sign_text(sign),
        body.len() > 0,
        body[0] == '.' || '0' <= body[0] && body[0] <= '9',
    ensures
        reading::unsigned(text) == body,
        reading::has_minus(text) == (sign == seq!['-']),
{
    if sign.len() > 0 {
        assert(text[0] == sign[0]);
        assert(text.drop_first() =~= body);
        if sign == seq!['-'] {
            assert(sign[0] == '-');
        } else {
            assert(sign[0] == '+');
        }
    } else {
        assert(text =~= body);
    }
}

/// Digits, a point and digits, up to an exponent or the end.
proof fn lemma_body(
    negative: bool,
    whole: Seq<char>,
    point: Seq<char>,
    fraction: Seq<char>,
    tail: Seq<char>,
    power: int,
)
    requires
        all_digits(whole),
        all_digits(fraction),
        point == seq!['.'] || point.len() == 0 && fraction.len() == 0,
        whole.len() + fraction.len() > 0,
        tail.len() > 0 ==> tail[0] == 'e' || tail[0] == 'E',
        reading::exponent_in(tail) == Some(power),
    ensures
        reading::digits_in(negative, whole + (point + (fraction + tail))) == Some(
            reading::decimal_number(
                negative,
                reading::digits_number(whole + fraction),
                power - fraction.len(),
            ),
        ),
{
    let body = whole + (point + (fraction + tail));
    let a = whole.len() as int;
    let b = a + point.len() + fraction.len();
    assert(body.subrange(0, a) =~= whole);
    assert(body.take(a) =~= whole);
    assert(body.skip(b) =~= tail);
    if point.len() > 0 {
        assert(point[0] == '.');
        assert(body[a] == '.');
        lemma_run_is(body, 0, whole);
        assert(body.subrange(a + 1, b) =~= fraction);
        if b < body.len() {
            assert(body[b] == tail[0]);
        }
        lemma_run_is(body, a + 1, fraction);
    } else {
        if a < body.len() {
            assert(body[a] == tail[0]);
        }
        lemma_run_is(body, 0, whole);
        assert(fraction =~= Seq::<char>::empty());
    }
}

/// A text of such parts is read as the number nearest to what they denote, and
/// of two that are equally near as the even one.
pub proof fn law_decimal_texts_are_read(
    text: Seq<char>,
    sign: Seq<char>,
    whole: Seq<char>,
    point: Seq<char>,
    fraction: Seq<char>,
    mark: Seq<char>,
    exponent_sign: Seq<char>,
    exponent: Seq<char>,
)
    requires
        decimal_text(text, sign, whole, point, fraction, mark, exponent_sign, exponent),
    ensures
        reading::number_in(text) is Some,
        ({
            let x = reading::number_in(text)->0;
            let minus = sign == seq!['-'];
            let size = digits_read(whole + fraction);
            let digits = if minus {
                -size
            } else {
                size
            };
            let e = exponent_read(exponent_sign, exponent) - fraction.len();
            &&& x.negative() == minus
            &&& e >= 0 ==> correctly_rounded(x, digits * pow(10, e as nat) * pow2(1074), 1)
            &&& e < 0 ==> correctly_rounded(x, digits * pow2(1074), pow(10, (-e) as nat) as nat)
        }),
{
    let tail = mark + (exponent_sign + exponent);
    let body = whole + (point + (fraction + tail));
    let minus = sign == seq!['-'];
    let power = exponent_read(exponent_sign, exponent);
    let first = body[0];
    assert(first == '.' || '0' <= first && first <= '9') by {
        if whole.len() > 0 {
            assert(first == whole[0]);
        } else {
            assert(first == point[0]);
        }
    }
    lemma_front(text, sign, body);
    lemma_exponent(mark, exponent_sign, exponent);
    lemma_body(minus, whole, point, fraction, tail, power);
    reveal_strlit("inf");
    reveal_strlit("infinity");
    reveal_strlit("nan");
    assert(reading::lowered(body)[0] == first);
    let significand = whole + fraction;
    assert forall|i: int| 0 <= i < significand.len() implies '0' <= #[trigger] significand[i]
        && significand[i] <= '9' by {
        if i < whole.len() {
            assert(significand[i] == whole[i]);
        } else {
            assert(significand[i] == fraction[i - whole.len()]);
        }
    }
    lemma_digits_read(significand);
    lemma_decimal_number(
        minus,
        reading::digits_number(significand),
        power - fraction.len(),
    );
}

/// Whether a text is a word in letters of either case.
pub open spec fn word(s: Seq<char>, lower: Seq<char>, upper: Seq<char>) -> bool {
    s.len() == lower.len() && forall|i: int|
        0 <= i < s.len() ==> #[trigger] s[i] == lower[i] || s[i] == upper[i]
}

/// Whether a text is a word for an infinity or for what is not a number.
pub open spec fn special(s: Seq<char>) -> bool {
    word(s, "inf"@, "INF"@) || word(s, "infinity"@, "INFINITY"@) || word(s, "nan"@, "NAN"@)
}

/// Letters of either case are those that lower to the word.
proof fn lemma_word(s: Seq<char>, lower: Seq<char>, upper: Seq<char>)
    requires
        lower.len() == upper.len(),
        forall|i: int|
            0 <= i < lower.len() ==> 'a' <= #[trigger] lower[i] && lower[i] <= 'z' && upper[i] as int
                == lower[i] as int - 32,
    ensures
        reading::lowered(s) == lower <==> word(s, lower, upper),
{
    let t = reading::lowered(s);
    if t == lower {
        assert forall|i: int| 0 <= i < s.len() implies #[trigger] s[i] == lower[i] || s[i]
            == upper[i] by {
            assert(t[i] == reading::ascii_lower(s[i]));
            assert(t[i] == lower[i]);
        }
    }
    if word(s, lower, upper) {
        assert forall|i: int| 0 <= i < s.len() implies #[trigger] t[i] == lower[i] by {
            assert(s[i] == lower[i] || s[i] == upper[i]);
        }
        assert(t =~= lower);
    }
}

/// The words that are read.
proof fn lemma_words(s: Seq<char>)
    ensures
        reading::lowered(s) == "inf"@ <==> word(s, "inf"@, "INF"@),
        reading::lowered(s) == "infinity"@ <==> word(s, "infinity"@, "INFINITY"@),
        reading::lowered(s) == "nan"@ <==> word(s, "nan"@, "NAN"@),
{
    reveal_strlit("inf");
    reveal_strlit("INF");
    reveal_strlit("infinity");
    reveal_strlit("INFINITY");
    reveal_strlit("nan");
    reveal_strlit("NAN");
    lemma_word(s, "inf"@, "INF"@);
    lemma_word(s, "infinity"@, "INFINITY"@);
    lemma_word(s, "nan"@, "NAN"@);
}

/// The words for the infinities and for what is not a number are read, after a
/// sign, if any, in letters of either case.
pub proof fn law_words_are_read(sign: Seq<char>, body: Seq<char>)
    requires
        sign_text(sign),
        special(body),
    ensures
        reading::number_in(sign + body) is Some,
        word(body, "nan"@, "NAN"@) ==> reading::number_in(sign + body)->0.nan(),
        !word(body, "nan"@, "NAN"@) ==> reading::number_in(sign + body)->0.infinite()
            && reading::number_in(sign + body)->0.negative() == (sign == seq!['-']),
{
    let text = sign + body;
    lemma_words(body);
    reveal_strlit("inf");
    reveal_strlit("INF");
    reveal_strlit("infinity");
    reveal_strlit("INFINITY");
    reveal_strlit("nan");
    reveal_strlit("NAN");
    assert(body[0] == 'i' || body[0] == 'I' || body[0] == 'n' || body[0] == 'N');
    if sign.len() > 0 {
        assert(text[0] == sign[0]);
        assert(text.drop_first() =~= body);
    } else {
        assert(text =~= body);
    }
    assert(reading::unsigned(text) == body);
    assert(reading::has_minus(text) == (sign == seq!['-']));
}

/// Whether a text consists of a sign, if any, and such a word.
pub open spec fn word_text(text: Seq<char>, sign: Seq<char>, body: Seq<char>) -> bool {
    text == sign + body && sign_text(sign) && special(body)
}

/// Nothing else is read as a number.
pub proof fn law_only_numbers_are_read(text: Seq<char>)
    requires
        reading::number_in(text) is Some,
    ensures
        (exists|sign: Seq<char>, body: Seq<char>| #[trigger] word_text(text, sign, body)) || exists|
            sign: Seq<char>,
            whole: Seq<char>,
            point: Seq<char>,
            fraction: Seq<char>,
            mark: Seq<char>,
            exponent_sign: Seq<char>,
            exponent: Seq<char>,
        | #[trigger]
            decimal_text(text, sign, whole, point, fraction, mark, exponent_sign, exponent),
{
    let s = reading::unsigned(text);
    lemma_words(s);
    let sign = if reading::has_sign(text) {
        seq![text[0]]
    } else {
        Seq::empty()
    };
    assert(text =~= sign + s);
    if special(s) {
        assert(word_text(text, sign, s));
    } else {
        let (whole, point, fraction, tail) = lemma_body_parts(reading::has_minus(text), s);
        let (mark, exponent_sign, exponent) = lemma_exponent_parts(tail);
        assert(decimal_text(
            text,
            sign,
            whole,
            point,
            fraction,
            mark,
            exponent_sign,
            exponent,
        ));
    }
}

/// What is read as digits has such parts.
proof fn lemma_body_parts(negative: bool, s: Seq<char>) -> (r: (
    Seq<char>,
    Seq<char>,
    Seq<char>,
    Seq<char>,
))
    requires
        reading::digits_in(negative, s) is Some,
    ensures
        s == r.0 + (r.1 + (r.2 + r.3)),
        all_digits(r.0),
        all_digits(r.2),
        r.1 == seq!['.'] || r.1.len() == 0 && r.2.len() == 0,
        r.0.len() + r.2.len() > 0,
        reading::exponent_in(r.3) is Some,
{
    let a = reading::run(s, 0);
    reading::lemma_run(s, 0);
    let whole = s.take(a);
    assert forall|i: int| 0 <= i < whole.len() implies '0' <= #[trigger] whole[i] && whole[i]
        <= '9' by {
        assert(reading::is_digit(s[i]));
    }
    if a < s.len() && s[a] == '.' {
        let b = reading::run(s, a + 1);
        reading::lemma_run(s, a + 1);
        let fraction = s.subrange(a + 1, b);
        assert forall|i: int| 0 <= i < fraction.len() implies '0' <= #[trigger] fraction[i]
            && fraction[i] <= '9' by {
            assert(reading::is_digit(s[a + 1 + i]));
        }
        assert(s =~= whole + (seq!['.'] + (fraction + s.skip(b))));
        (whole, seq!['.'], fraction, s.skip(b))
    } else {
        let none = Seq::<char>::empty();
        assert(s =~= whole + (none + (none + s.skip(a))));
        assert(whole + none =~= whole);
        (whole, none, none, s.skip(a))
    }
}

/// What is read as an exponent has such parts.
proof fn lemma_exponent_parts(tail: Seq<char>) -> (r: (Seq<char>, Seq<char>, Seq<char>))
    requires
        reading::exponent_in(tail) is Some,
    ensures
        exponent_text(r.0, r.1, r.2),
        tail == r.0 + (r.1 + r.2),
{
    if tail.len() == 0 {
        let none = Seq::<char>::empty();
        assert(tail =~= none + (none + none));
        (none, none, none)
    } else {
        let rest = tail.drop_first();
        let digits = reading::unsigned(rest);
        let mark = seq![tail[0]];
        let sign = if reading::has_sign(rest) {
            seq![rest[0]]
        } else {
            Seq::empty()
        };
        reading::lemma_run(digits, 0);
        assert(all_digits(digits)) by {
            assert forall|i: int| 0 <= i < digits.len() implies '0' <= #[trigger] digits[i]
                && digits[i] <= '9' by {
                assert(reading::is_digit(digits[i]));
            }
        }
        assert(rest =~= sign + digits);
        assert(tail =~= mark + (sign + digits));
        (mark, sign, digits)
    }
}

/// What digits and an exponent denote is correctly rounded.
proof fn lemma_decimal_number(negative: bool, n: nat, e: int)
    ensures
        ({
            let x = reading::decimal_number(negative, n, e);
            let digits = if negative {
                -n
            } else {
                n as int
            };
            &&& x.negative() == negative
            &&& e >= 0 ==> correctly_rounded(x, digits * pow(10, e as nat) * pow2(1074), 1)
            &&& e < 0 ==> correctly_rounded(x, digits * pow2(1074), pow(10, (-e) as nat) as nat)
        }),
{
    let x = reading::decimal_number(negative, n, e);
    let one = pow2(1074);
    lemma_pow2_pos(1074);
    if e >= 0 {
        let t = naturals::pow10(e as nat);
        lemma_pow10(e as nat);
        naturals::lemma_pow10_positive(e as nat);
        lemma_sign_product(negative, n, false, t);
        lemma_sign_product(negative, n * t, false, one);
        assert((-n) * (t as int) == -(n * t)) by (nonlinear_arith);
        let digits = if negative {
            -n
        } else {
            n as int
        };
        assert((-(n * t)) * (one as int) == -(n * t * one)) by (nonlinear_arith);
        assert(n * t * one >= 0) by (nonlinear_arith);
        lemma_correctly_rounded(x, digits * t * one, 1);
    } else {
        let t = naturals::pow10((-e) as nat);
        lemma_pow10((-e) as nat);
        naturals::lemma_pow10_positive((-e) as nat);
        lemma_sign_product(negative, n, false, one);
        let digits = if negative {
            -n
        } else {
            n as int
        };
        lemma_correctly_rounded(x, digits * one, t);
    }
}

} // verus!
