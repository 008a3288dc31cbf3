//! Reading numbers in decimal notation.

use crate::double::Double;
use crate::{double, naturals, rounding};
use vstd::arithmetic::div_mod::*;
use vstd::arithmetic::power2::*;
use vstd::prelude::*;
use vstd::string::*;

verus! {

/// Whether `c` is a decimal digit.
pub open spec fn is_digit(c: char) -> bool {
    '0' <= c && c <= '9'
}

/// Where the run of digits that starts at place `i` ends.
pub open spec fn run(s: Seq<char>, i: int) -> int
    decreases s.len() - i,
{
    if 0 <= i < s.len() && is_digit(s[i]) {
        run(s, i + 1)
    } else {
        i
    }
}

/// The number that a run of digits denotes.
pub open spec fn digits_number(s: Seq<char>) -> nat
    decreases s.len(),
{
    if s.len() == 0 {
        0
    } else {
        (10 * digits_number(s.drop_last()) + (s.last() as int - '0' as int)) as nat
    }
}

/// Whether a text starts with a sign.
pub open spec fn has_sign(s: Seq<char>) -> bool {
    s.len() > 0 && (s[0] == '-' || s[0] == '+')
}

/// Whether a text starts with a minus sign.
pub open spec fn has_minus(s: Seq<char>) -> bool {
    s.len() > 0 && s[0] == '-'
}

/// A text without the sign it starts with, if any.
pub open spec fn unsigned(s: Seq<char>) -> Seq<char> {
    if has_sign(s) {
        s.drop_first()
    } else {
        s
    }
}

/// The exponent that ends a number: none, or `e`, a sign if any, and digits.
pub open spec fn exponent_in(s: Seq<char>) -> Option<int> {
    if s.len() == 0 {
        Some(0)
    } else if s[0] == 'e' || s[0] == 'E' {
        let rest = s.drop_first();
        let digits = unsigned(rest);
        if digits.len() > 0 && run(digits, 0) == digits.len() {
            Some(
                if has_minus(rest) {
                    -(digits_number(digits) as int)
                } else {
                    digits_number(digits) as int
                },
            )
        } else {
            None
        }
    } else {
        None
    }
}

/// The number that a text without sign denotes in digits: a whole part, a
/// decimal point and a fraction, of which one part may be missing, and an
/// exponent, if any.
pub open spec fn digits_in(negative: bool, s: Seq<char>) -> Option<Double> {
    let a = run(s, 0);
    let point = a < s.len() && s[a] == '.';
    let b = if point {
        run(s, a + 1)
    } else {
        a
    };
    let fraction = if point {
        s.subrange(a + 1, b)
    } else {
        Seq::empty()
    };
    let significand = s.take(a) + fraction;
    if significand.len() == 0 {
        None
    } else {
        match exponent_in(s.skip(b)) {
            Some(e) => Some(
                decimal_number(negative, digits_number(significand), e - fraction.len()),
            ),
            None => None,
        }
    }
}

/// The lower case of an ASCII letter; any other character as it is.
pub open spec fn ascii_lower(c: char) -> char {
    if 'A' <= c && c <= 'Z' {
        (c as int + 32) as char
    } else {
        c
    }
}

/// A text with its ASCII letters in lower case.
pub open spec fn lowered(s: Seq<char>) -> Seq<char> {
    s.map_values(|c: char| ascii_lower(c))
}

/// The number that a text denotes: digits, or a word for an infinity or for
/// what is not a number, after a sign, if any.
pub open spec fn number_in(s: Seq<char>) -> Option<Double> {
    let body = unsigned(s);
    let word = lowered(body);
    if word == "inf"@ || word == "infinity"@ {
        Some(double::signed(has_minus(s), rounding::INFINITE as nat))
    } else if word == "nan"@ {
        Some(Double { bits: double::NAN })
    } else {
        digits_in(has_minus(s), body)
    }
}

/// `m * 10^e`, rounded, with the given sign.
pub open spec fn decimal_number(negative: bool, m: nat, e: int) -> Double {
    let one = double::one_in_steps();
    let magnitude = if e >= 0 {
        rounding::nearest((m * naturals::pow10(e as nat)) * one, 1)
    } else {
        rounding::nearest(m * one, naturals::pow10((-e) as nat))
    };
    double::signed(negative, rounding::capped(magnitude))
}

/// Zero is zero at any exponent.
proof fn lemma_zero_number(v: Seq<u8>, negative: bool, e: int)
    requires
        naturals::digits_value(v) == 0,
    ensures
        decimal_number(negative, naturals::digits_value(v), e) == double::signed(negative, 0),
{
    let one = double::one_in_steps();
    if e >= 0 {
        assert((0 * naturals::pow10(e as nat)) * one == 0) by (nonlinear_arith);
        rounding::lemma_nearest_exact(0, 1);
    } else {
        let d = naturals::pow10((-e) as nat);
        naturals::lemma_pow10_positive((-e) as nat);
        rounding::lemma_nearest_exact(0, d);
        assert(0 * d == 0) by (nonlinear_arith);
        assert(0 * one == 0) by (nonlinear_arith);
    }
}

/// A fraction of at least 2^1200 rounds to infinity.
proof fn lemma_overflow(m: nat, den: nat)
    requires
        den > 0,
        m >= den * pow2(1200),
    ensures
        rounding::capped(rounding::nearest(m * double::one_in_steps(), den)) == rounding::INFINITE,
{
    let one = double::one_in_steps();
    let top = rounding::INFINITE as nat;
    rounding::lemma_steps_at(rounding::BINADE as nat, 2046);
    lemma2_to64_rest();
    lemma_pow2_adds(52, 2046);
    lemma_pow2_adds(1200, 1074);
    lemma_pow2_strictly_increases(2098, 2274);
    assert(rounding::steps(top) <= pow2(1200) * one);
    assert(rounding::steps(top) * den <= m * one) by (nonlinear_arith)
        requires
            rounding::steps(top) <= pow2(1200) * one,
            m >= den * pow2(1200),
    ;
    rounding::lemma_nearest_exact(top, den);
    rounding::lemma_nearest_monotone(rounding::steps(top) * den, m * one, den);
}

/// A fraction of less than 2^-1200 rounds to zero.
proof fn lemma_underflow(m: nat, den: nat)
    requires
        den >= m * pow2(1200),
        den > 0,
    ensures
        rounding::nearest(m * double::one_in_steps(), den) == 0,
{
    let one = double::one_in_steps();
    lemma_pow2_pos(1074);
    lemma_pow2_adds(126, 1074);
    lemma2_to64();
    lemma_pow2_strictly_increases(2, 126);
    let n = m * one;
    let w = pow2(126);
    assert(m * (w * one) == n * w) by (nonlinear_arith)
        requires
            n == m * one,
    ;
    assert(4 * n <= n * w) by (nonlinear_arith)
        requires
            w >= 4,
            n >= 0,
    ;
    assert(2 * n < den);
    assert(n < 2 * rounding::BINADE * den) by (nonlinear_arith)
        requires
            2 * n < den,
            n >= 0,
    ;
    lemma_small_mod(n, den);
    lemma_basic_div(n as int, den as int);
}

/// Where the digits and the exponent put a number beyond 10^400 or below
/// 10^-400, it is beyond or below the range of the format.
proof fn lemma_out_of_range(v: Seq<u8>, negative: bool, e: int)
    requires
        naturals::digits(v),
        v.len() > 0,
        v.last() > 0,
    ensures
        v.len() + e > 400 ==> decimal_number(negative, naturals::digits_value(v), e)
            == double::signed(negative, rounding::INFINITE as nat),
        v.len() + e < -400 ==> decimal_number(negative, naturals::digits_value(v), e)
            == double::signed(negative, 0),
{
    let m = naturals::digits_value(v);
    let len = v.len();
    naturals::lemma_digits_least(v);
    naturals::lemma_digits_bound(v);
    lemma2_to64();
    if len + e > 400 {
        naturals::lemma_pow10_range((len + e - 1) as nat);
        if len + e - 1 > 400 {
            lemma_pow2_strictly_increases(1200, (3 * (len + e - 1)) as nat);
        }
        if e >= 0 {
            naturals::lemma_pow10_adds((len - 1) as nat, e as nat);
            let t = naturals::pow10(e as nat);
            assert(m * t >= naturals::pow10((len - 1) as nat) * t) by (nonlinear_arith)
                requires
                    m >= naturals::pow10((len - 1) as nat),
            ;
            lemma_overflow(m * t, 1);
        } else {
            let f = (-e) as nat;
            naturals::lemma_pow10_positive(f);
            naturals::lemma_pow10_adds((len + e - 1) as nat, f);
            let t = naturals::pow10(f);
            assert(m >= t * pow2(1200)) by (nonlinear_arith)
                requires
                    m >= naturals::pow10((len + e - 1) as nat) * t,
                    naturals::pow10((len + e - 1) as nat) >= pow2(1200),
            ;
            lemma_overflow(m, t);
        }
    }
    if len + e < -400 {
        let f = (-e) as nat;
        let g = (f - len) as nat;
        naturals::lemma_pow10_positive(f);
        naturals::lemma_pow10_range(g);
        naturals::lemma_pow10_adds(len, g);
        lemma_pow2_strictly_increases(1200, 3 * g);
        assert(naturals::pow10(f) >= m * pow2(1200)) by (nonlinear_arith)
            requires
                naturals::pow10(f) == naturals::pow10(len) * naturals::pow10(g),
                m <= naturals::pow10(len),
                pow2(1200) <= naturals::pow10(g),
        ;
        lemma_underflow(m, naturals::pow10(f));
    }
}

/// One more binary digit of a large number goes into the sticky digit.
proof fn lemma_jam(q: nat, sticky: bool, s: int)
    requires
        q >= 16 * rounding::BINADE,
    ensures
        ({
            let p = 2 * q + if sticky {
                1nat
            } else {
                0nat
            };
            let r = 2 * (q / 2) + if sticky || q % 2 == 1 {
                1nat
            } else {
                0nat
            };
            rounding::nearest(rounding::scaled_num(p, s), rounding::scaled_den(s))
                == rounding::nearest(rounding::scaled_num(r, s + 1), rounding::scaled_den(s + 1))
        }),
{
    let p = 2 * q + if sticky {
        1nat
    } else {
        0nat
    };
    lemma2_to64();
    assert(rounding::sticky_quotient(p, 4) == 2 * (q / 2) + if sticky || q % 2 == 1 {
        1nat
    } else {
        0nat
    });
    if s >= -2 {
        let e = (s + 2) as nat;
        rounding::lemma_nearest_quotient(p, 4, e, 0);
        if s >= 0 {
            lemma_pow2_adds(s as nat, 2);
            let w = pow2(s as nat);
            assert(p * (w * 4) == (p * w) * 4) by (nonlinear_arith);
            rounding::lemma_nearest_scale(p * w, 1, 4);
        } else if s == -1 {
            rounding::lemma_nearest_scale(p, 2, 2);
        } else {
            assert(p * pow2(0) == p);
        }
    } else {
        let f = (-s - 2) as nat;
        rounding::lemma_nearest_quotient(p, 4, 0, f);
        assert(p * pow2(0) == p);
        lemma_pow2_adds(2, f);
    }
}

/// Whether one of the digits below place `f` is not zero.
fn any_below(v: &Vec<u8>, f: usize) -> (r: bool)
    requires
        f <= v@.len(),
    ensures
        r == (naturals::digits_value(v@.take(f as int)) != 0),
{
    let mut i: usize = 0;
    proof {
        assert(v@.take(0) =~= Seq::<u8>::empty());
    }
    while i < f
        invariant
            i <= f <= v@.len(),
            naturals::digits_value(v@.take(i as int)) == 0,
        decreases f - i,
    {
        proof {
            assert(v@.take(i + 1) =~= v@.take(i as int).push(v@[i as int]));
            naturals::lemma_digits_push(v@.take(i as int), v@[i as int]);
        }
        if v[i] != 0 {
            proof {
                let x = v@[i as int];
                let w = naturals::pow10(i as nat);
                naturals::lemma_pow10_positive(i as nat);
                assert(x * w > 0) by (nonlinear_arith)
                    requires
                        x > 0,
                        w > 0,
                ;
                naturals::lemma_digits_sum(v@.take(f as int), (i + 1) as nat);
                assert(v@.take(f as int).take(i + 1) =~= v@.take(i + 1));
                let high = naturals::digits_value(v@.take(f as int).skip(i + 1));
                let z = naturals::pow10((i + 1) as nat);
                assert(high * z >= 0) by (nonlinear_arith);
            }
            return true;
        }
        proof {
            assert(0 * naturals::pow10(i as nat) == 0) by (nonlinear_arith);
        }
        i = i + 1;
    }
    false
}

/// The digits from place `f` on.
fn digits_from(v: &Vec<u8>, f: usize) -> (r: Vec<u8>)
    requires
        f <= v@.len(),
    ensures
        r@ == v@.skip(f as int),
{
    let mut r: Vec<u8> = Vec::new();
    let mut i: usize = f;
    while i < v.len()
        invariant
            f <= i <= v@.len(),
            r@ == v@.subrange(f as int, i as int),
        decreases v.len() - i,
    {
        r.push(v[i]);
        proof {
            assert(r@ =~= v@.subrange(f as int, i + 1));
        }
        i = i + 1;
    }
    proof {
        assert(r@ =~= v@.skip(f as int));
    }
    r
}

/// The number with these digits.
fn number_of(v: &Vec<u8>) -> (r: u128)
    requires
        naturals::digits(v@),
        v@.len() <= 36,
    ensures
        r == naturals::digits_value(v@),
        r < 1_000_000_000_000_000_000_000_000_000_000_000_000,
{
    proof {
        reveal_with_fuel(naturals::pow10, 37);
        assert(naturals::pow10(36) == 1_000_000_000_000_000_000_000_000_000_000_000_000);
        assert(v@.skip(v@.len() as int) =~= Seq::<u8>::empty());
    }
    let mut r: u128 = 0;
    let mut i: usize = v.len();
    while i > 0
        invariant
            i <= v@.len() <= 36,
            naturals::digits(v@),
            r == naturals::digits_value(v@.skip(i as int)),
            naturals::pow10(36) == 1_000_000_000_000_000_000_000_000_000_000_000_000,
        decreases i,
    {
        proof {
            let rest = v@.skip(i - 1);
            assert(rest.drop_first() =~= v@.skip(i as int));
            assert(rest[0] == v@[i - 1]);
            assert(naturals::digits(rest));
            lemma_short(rest);
        }
        i = i - 1;
        r = r * 10 + v[i] as u128;
    }
    proof {
        assert(v@.skip(0) =~= v@);
        lemma_short(v@);
    }
    r
}

/// At most 36 digits are a number below 10^36.
proof fn lemma_short(v: Seq<u8>)
    requires
        naturals::digits(v),
        v.len() <= 36,
    ensures
        naturals::digits_value(v) < naturals::pow10(36),
{
    naturals::lemma_digits_bound(v);
    naturals::lemma_pow10_adds(v.len(), (36 - v.len()) as nat);
    naturals::lemma_pow10_positive((36 - v.len()) as nat);
    let a = naturals::pow10(v.len());
    let b = naturals::pow10((36 - v.len()) as nat);
    assert(a * b >= a) by (nonlinear_arith)
        requires
            b >= 1,
            a >= 0,
    ;
}

/// `2 * q`, plus one where `sticky` is set.
spec fn jammed(q: nat, sticky: bool) -> nat {
    2 * q + if sticky {
        1nat
    } else {
        0nat
    }
}

/// Rounds an eighth of what `jammed` makes of the number with these digits.
fn round_digits(digits: Vec<u8>, sticky: bool) -> (r: u64)
    requires
        naturals::digits(digits@),
        naturals::canonical(digits@),
        naturals::digits_value(digits@) < pow2(5000),
    ensures
        r == rounding::capped(
            rounding::nearest(jammed(naturals::digits_value(digits@), sticky), 8),
        ),
{
    let ghost goal = rounding::nearest(jammed(naturals::digits_value(digits@), sticky), 8);
    let mut q: Vec<u8> = digits;
    let mut st: bool = sticky;
    let mut s: i32 = -3;
    proof {
        lemma2_to64();
        let n = naturals::digits_value(q@);
        assert(n * pow2(0) == n);
    }
    while q.len() > 36
        invariant
            naturals::digits(q@),
            naturals::canonical(q@),
            -3 <= s < 5000,
            naturals::digits_value(q@) * pow2((s + 3) as nat) < pow2(5000),
            goal == rounding::nearest(
                rounding::scaled_num(jammed(naturals::digits_value(q@), st), s as int),
                rounding::scaled_den(s as int),
            ),
        decreases naturals::digits_value(q@),
    {
        let ghost n = naturals::digits_value(q@);
        proof {
            lemma_long(q@);
            lemma_jam(n, st, s as int);
        }
        let (half, odd) = naturals::halved(&q);
        proof {
            let w = pow2((s + 3) as nat);
            lemma_pow2_unfold((s + 4) as nat);
            lemma_pow2_pos((s + 4) as nat);
            lemma_pow2_pos((s + 3) as nat);
            assert((n / 2) * (2 * w) <= n * w) by (nonlinear_arith)
                requires
                    2 * (n / 2) <= n,
                    w > 0,
            ;
            assert((n / 2) * (2 * w) >= 2 * w) by (nonlinear_arith)
                requires
                    n / 2 >= 1,
                    w > 0,
            ;
            assert(pow2((s + 4) as nat) < pow2(5000));
            if s + 4 >= 5000 {
                if s + 4 > 5000 {
                    lemma_pow2_strictly_increases(5000, (s + 4) as nat);
                }
            }
        }
        q = half;
        st = st || odd;
        s = s + 1;
    }
    let n = number_of(&q);
    let p: u128 = if st {
        2 * n + 1
    } else {
        2 * n
    };
    rounding::round_scaled(p, s)
}

/// More than 36 digits are a number of at least 10^36.
proof fn lemma_long(v: Seq<u8>)
    requires
        naturals::canonical(v),
        v.len() > 36,
    ensures
        naturals::digits_value(v) >= 16 * rounding::BINADE,
{
    naturals::lemma_digits_least(v);
    naturals::lemma_pow10_range((v.len() - 1) as nat);
    lemma2_to64();
    lemma2_to64_rest();
    lemma_pow2_strictly_increases(56, (3 * (v.len() - 1)) as nat);
}

/// `m * 10^e`, rounded, with the given sign, where `v` are the digits of `m`.
fn assemble(negative: bool, v: Vec<u8>, e: i128) -> (r: Double)
    requires
        naturals::digits(v@),
        naturals::canonical(v@),
        -0x1_0000_0000_0000_0000_0000 < e < 0x1_0000_0000_0000_0000_0000,
    ensures
        r == decimal_number(negative, naturals::digits_value(v@), e as int),
{
    let n = v.len();
    let len: i128 = n as i128;
    if v[n - 1] == 0 {
        proof {
            assert(v@.drop_first() =~= Seq::<u8>::empty());
            assert(naturals::digits_value(v@.drop_first()) == 0);
            lemma_zero_number(v@, negative, e as int);
        }
        return Double::assemble(negative, 0);
    }
    proof {
        lemma_out_of_range(v@, negative, e as int);
    }
    if len + e > 400 {
        return Double::assemble(negative, rounding::INFINITE);
    }
    if len + e < -400 {
        return Double::assemble(negative, 0);
    }
    let ghost v0 = v@;
    let ghost m = naturals::digits_value(v0);
    let mut u: Vec<u8> = v;
    let mut i: i128 = 0;
    proof {
        assert(m * naturals::pow10(0) == m) by {
            assert(naturals::pow10(0) == 1);
        }
    }
    while i < e
        invariant
            0 <= i,
            i <= e || i == 0,
            naturals::digits(u@),
            u@.len() > 0,
            u@.last() > 0,
            naturals::digits_value(u@) == m * naturals::pow10(i as nat),
        decreases e - i,
    {
        let next = naturals::prepend(0, &u);
        proof {
            assert(next@.drop_first() =~= u@);
            assert(next@.last() == u@.last());
            let t = naturals::pow10(i as nat);
            assert(10 * (m * t) == m * (10 * t)) by (nonlinear_arith);
        }
        u = next;
        i = i + 1;
    }
    let ghost base = naturals::digits_value(u@);
    let mut j: u32 = 0;
    proof {
        lemma2_to64();
        assert(base * pow2(0) == base);
    }
    while j < 1076
        invariant
            j <= 1076,
            naturals::digits(u@),
            naturals::canonical(u@),
            naturals::digits_value(u@) == base * pow2(j as nat),
        decreases 1076 - j,
    {
        u = naturals::doubled(&u);
        proof {
            lemma_pow2_unfold((j + 1) as nat);
            let w = pow2(j as nat);
            assert(2 * (base * w) == base * (2 * w)) by (nonlinear_arith);
        }
        j = j + 1;
    }
    let f: i128 = if e < 0 {
        -e
    } else {
        0
    };
    let (q, sticky) = if f >= u.len() as i128 {
        (vec![0u8], true)
    } else {
        (digits_from(&u, f as usize), any_below(&u, f as usize))
    };
    proof {
        let d = naturals::pow10(f as nat);
        naturals::lemma_pow10_positive(f as nat);
        assert(naturals::pow10(0) == 1);
        lemma_base_bound(v0, e as int, base, d);
        lemma_split(u@, f as nat, base, d, q@, sticky);
        lemma_shifted(base, d, q@, sticky);
    }
    Double::assemble(negative, round_digits(q, sticky))
}

/// The whole part of the digits, and whether anything lies below it.
proof fn lemma_split(u: Seq<u8>, f: nat, base: nat, d: nat, q: Seq<u8>, sticky: bool)
    requires
        naturals::digits(u),
        naturals::canonical(u),
        naturals::digits_value(u) == base * pow2(1076),
        base > 0,
        d == naturals::pow10(f),
        f >= u.len() ==> q.len() == 1 && q[0] == 0 && sticky,
        f < u.len() ==> q == u.skip(f as int) && sticky == (naturals::digits_value(
            u.take(f as int),
        ) != 0),
    ensures
        naturals::digits(q),
        naturals::canonical(q),
        d > 0,
        naturals::digits_value(q) == (base * pow2(1076)) / d,
        jammed(naturals::digits_value(q), sticky) == rounding::sticky_quotient(
            base * pow2(1076),
            d,
        ),
{
    let big = base * pow2(1076);
    naturals::lemma_pow10_positive(f);
    if f >= u.len() {
        naturals::lemma_digits_bound(u);
        naturals::lemma_pow10_adds(u.len(), (f - u.len()) as nat);
        naturals::lemma_pow10_positive((f - u.len()) as nat);
        let a = naturals::pow10(u.len());
        let b = naturals::pow10((f - u.len()) as nat);
        assert(a * b >= a) by (nonlinear_arith)
            requires
                b >= 1,
                a >= 0,
        ;
        lemma_pow2_pos(1076);
        assert(big > 0) by (nonlinear_arith)
            requires
                big == base * pow2(1076),
                base > 0,
                pow2(1076) > 0,
        ;
        lemma_small_mod(big, d);
        lemma_basic_div(big as int, d as int);
        assert(q.drop_first() =~= Seq::<u8>::empty());
        assert(naturals::digits_value(q.drop_first()) == 0);
    } else {
        naturals::lemma_digits_split(u, f);
        assert(q.last() == u.last());
    }
}

/// Rounding the fraction through four times as fine a grid.
proof fn lemma_shifted(base: nat, d: nat, q: Seq<u8>, sticky: bool)
    requires
        d > 0,
        base < d * naturals::pow10(400),
        naturals::digits_value(q) == (base * pow2(1076)) / d,
        jammed(naturals::digits_value(q), sticky) == rounding::sticky_quotient(
            base * pow2(1076),
            d,
        ),
    ensures
        naturals::digits_value(q) < pow2(5000),
        rounding::nearest(jammed(naturals::digits_value(q), sticky), 8) == rounding::nearest(
            base * double::one_in_steps(),
            d,
        ),
{
    let one = double::one_in_steps();
    let w = pow2(1076);
    let big = base * w;
    lemma2_to64();
    lemma_pow2_pos(1076);
    lemma_pow2_adds(1074, 2);
    rounding::lemma_nearest_sticky(big, d, 2);
    assert(base * (one * 4) == (base * one) * 4) by (nonlinear_arith);
    rounding::lemma_nearest_scale(base * one, d, 4);
    naturals::lemma_pow10_range(400);
    lemma_pow2_adds(1600, 1076);
    lemma_pow2_strictly_increases(2676, 5000);
    let t = naturals::pow10(400);
    lemma_fundamental_div_mod(big as int, d as int);
    let n = big / d;
    assert(n < t * w) by (nonlinear_arith)
        requires
            big == base * w,
            base < d * t,
            big == d * n + big % d,
            big % d >= 0,
            d > 0,
            w > 0,
    ;
    assert(t * w <= pow2(1600) * w) by (nonlinear_arith)
        requires
            t <= pow2(1600),
    ;
}

/// A number of moderate size, before it is divided by its power of ten.
proof fn lemma_base_bound(v: Seq<u8>, e: int, base: nat, d: nat)
    requires
        naturals::digits(v),
        v.len() > 0,
        v.last() > 0,
        v.len() + e <= 400,
        e >= 0 ==> base == naturals::digits_value(v) * naturals::pow10(e as nat) && d == 1,
        e < 0 ==> base == naturals::digits_value(v) && d == naturals::pow10((-e) as nat),
    ensures
        0 < base < d * naturals::pow10(400),
{
    let m = naturals::digits_value(v);
    let len = v.len();
    naturals::lemma_digits_bound(v);
    naturals::lemma_digits_least(v);
    naturals::lemma_pow10_positive((len - 1) as nat);
    if e >= 0 {
        let t = naturals::pow10(e as nat);
        naturals::lemma_pow10_positive(e as nat);
        naturals::lemma_pow10_adds(len, e as nat);
        assert(0 < m * t < naturals::pow10(len) * t) by (nonlinear_arith)
            requires
                0 < m < naturals::pow10(len),
                t > 0,
        ;
        lemma_pow10_monotone((len + e) as nat, 400);
    } else {
        naturals::lemma_pow10_adds((-e) as nat, 400);
        lemma_pow10_monotone(len, (400 - e) as nat);
    }
}

proof fn lemma_pow10_monotone(a: nat, b: nat)
    requires
        a <= b,
    ensures
        naturals::pow10(a) <= naturals::pow10(b),
    decreases b,
{
    if a < b {
        lemma_pow10_monotone(a, (b - 1) as nat);
    }
}

/// The characters of a text.
fn characters(text: &str) -> (r: Vec<char>)
    ensures
        r@ == text@,
{
    let n = text.unicode_len();
    let mut r: Vec<char> = Vec::new();
    let mut i: usize = 0;
    while i < n
        invariant
            i <= n == text@.len(),
            r@ == text@.take(i as int),
        decreases n - i,
    {
        r.push(text.get_char(i));
        proof {
            assert(text@.take(i + 1) =~= text@.take(i as int).push(text@[i as int]));
        }
        i = i + 1;
    }
    proof {
        assert(text@.take(n as int) =~= text@);
    }
    r
}

/// The characters from place `from` up to place `to`.
fn part(s: &Vec<char>, from: usize, to: usize) -> (r: Vec<char>)
    requires
        from <= to <= s@.len(),
    ensures
        r@ == s@.subrange(from as int, to as int),
{
    let mut r: Vec<char> = Vec::new();
    let mut i: usize = from;
    while i < to
        invariant
            from <= i <= to <= s@.len(),
            r@ == s@.subrange(from as int, i as int),
        decreases to - i,
    {
        r.push(s[i]);
        proof {
            assert(r@ =~= s@.subrange(from as int, i + 1));
        }
        i = i + 1;
    }
    r
}

/// Where the run of digits that starts at place `i` ends.
fn run_end(s: &Vec<char>, i: usize) -> (r: usize)
    requires
        i <= s@.len(),
    ensures
        r == run(s@, i as int),
        i <= r <= s@.len(),
        forall|j: int| i <= j < r ==> is_digit(#[trigger] s@[j]),
{
    let mut r: usize = i;
    while r < s.len() && '0' <= s[r] && s[r] <= '9'
        invariant
            i <= r <= s@.len(),
            run(s@, i as int) == run(s@, r as int),
            forall|j: int| i <= j < r ==> is_digit(#[trigger] s@[j]),
        decreases s.len() - r,
    {
        r = r + 1;
    }
    r
}

/// A digit in front of other digits counts for its place.
proof fn lemma_leading_digit(c: char, s: Seq<char>)
    requires
        is_digit(c),
        forall|j: int| 0 <= j < s.len() ==> is_digit(#[trigger] s[j]),
    ensures
        digits_number(seq![c] + s) == (c as int - '0' as int) * naturals::pow10(s.len())
            + digits_number(s),
    decreases s.len(),
{
    let whole = seq![c] + s;
    let d = c as int - '0' as int;
    if s.len() == 0 {
        assert(whole.drop_last() =~= Seq::<char>::empty());
        assert(digits_number(whole.drop_last()) == 0);
        assert(naturals::pow10(0) == 1);
        assert(d * 1 == d);
    } else {
        let short = s.drop_last();
        lemma_leading_digit(c, short);
        assert(whole.drop_last() =~= seq![c] + short);
        assert(whole.last() == s.last());
        assert(is_digit(s[s.len() - 1]));
        let t = naturals::pow10(short.len());
        assert(10 * (d * t) == d * (10 * t)) by (nonlinear_arith);
        assert(d * t >= 0) by (nonlinear_arith)
            requires
                d >= 0,
        ;
    }
}

/// The digits of the number that a run of digits denotes.
fn digits_read(s: &Vec<char>) -> (v: Vec<u8>)
    requires
        s@.len() > 0,
        forall|j: int| 0 <= j < s@.len() ==> is_digit(#[trigger] s@[j]),
    ensures
        naturals::digits(v@),
        naturals::canonical(v@),
        v@.len() <= s@.len(),
        naturals::digits_value(v@) == digits_number(s@),
{
    let mut v: Vec<u8> = Vec::new();
    let mut i: usize = s.len();
    proof {
        assert(s@.skip(s@.len() as int) =~= Seq::<char>::empty());
    }
    while i > 0
        invariant
            i <= s@.len(),
            v@.len() == s@.len() - i,
            forall|j: int| 0 <= j < s@.len() ==> is_digit(#[trigger] s@[j]),
            naturals::digits(v@),
            naturals::digits_value(v@) == digits_number(s@.skip(i as int)),
        decreases i,
    {
        i = i - 1;
        let c = s[i];
        proof {
            assert(is_digit(s@[i as int]));
            let rest = s@.skip(i + 1);
            assert(s@.skip(i as int) =~= seq![c] + rest);
            lemma_leading_digit(c, rest);
        }
        let d: u8 = (c as u32 - '0' as u32) as u8;
        proof {
            naturals::lemma_digits_push(v@, d);
        }
        v.push(d);
    }
    proof {
        assert(s@.skip(0) =~= s@);
    }
    while v.len() > 1 && v[v.len() - 1] == 0
        invariant
            0 < v@.len() <= s@.len(),
            naturals::digits(v@),
            naturals::digits_value(v@) == digits_number(s@),
        decreases v.len(),
    {
        let ghost before = v@;
        v.pop();
        proof {
            assert(before =~= v@.push(0));
            naturals::lemma_digits_push(v@, 0);
            assert(0 * naturals::pow10(v@.len()) == 0) by (nonlinear_arith);
        }
    }
    v
}

/// Beyond this, exponents make no difference any more.
const FAR: i128 = 0x100_0000_0000_0000_0000;

/// An exponent, or the limit beyond which it makes no difference.
spec fn limited(e: int) -> int {
    if e > FAR {
        FAR as int
    } else if e < -FAR {
        -FAR
    } else {
        e
    }
}

/// The number that a run of digits denotes, up to `FAR`.
fn small_number(s: &Vec<char>) -> (r: i128)
    requires
        forall|j: int| 0 <= j < s@.len() ==> is_digit(#[trigger] s@[j]),
    ensures
        r == limited(digits_number(s@) as int),
{
    let mut r: i128 = 0;
    let mut i: usize = 0;
    proof {
        assert(s@.take(0) =~= Seq::<char>::empty());
    }
    while i < s.len()
        invariant
            i <= s@.len(),
            forall|j: int| 0 <= j < s@.len() ==> is_digit(#[trigger] s@[j]),
            0 <= r <= FAR,
            r == limited(digits_number(s@.take(i as int)) as int),
        decreases s.len() - i,
    {
        let c = s[i];
        proof {
            assert(is_digit(s@[i as int]));
            let upto = s@.take(i + 1);
            assert(upto.drop_last() =~= s@.take(i as int));
            assert(upto.last() == c);
        }
        let d: i128 = (c as u32 - '0' as u32) as i128;
        r = r * 10 + d;
        if r > FAR {
            r = FAR;
        }
        i = i + 1;
    }
    proof {
        assert(s@.take(s@.len() as int) =~= s@);
    }
    r
}

/// A run consists of digits, and ends at the end or before what is none.
pub proof fn lemma_run(s: Seq<char>, i: int)
    requires
        0 <= i <= s.len(),
    ensures
        i <= run(s, i) <= s.len(),
        forall|j: int| i <= j < run(s, i) ==> is_digit(#[trigger] s[j]),
        run(s, i) < s.len() ==> !is_digit(s[run(s, i)]),
    decreases s.len() - i,
{
    if i < s.len() && is_digit(s[i]) {
        lemma_run(s, i + 1);
    }
}

/// The exponent that ends a number, up to `FAR`.
fn exponent_read(s: &Vec<char>) -> (r: Option<i128>)
    ensures
        match exponent_in(s@) {
            Some(e) => r is Some && r->0 == limited(e),
            None => r is None,
        },
{
    if s.len() == 0 {
        return Some(0);
    }
    if s[0] != 'e' && s[0] != 'E' {
        return None;
    }
    let n = s.len();
    let signed = n > 1 && (s[1] == '-' || s[1] == '+');
    let minus = n > 1 && s[1] == '-';
    let from: usize = if signed {
        2
    } else {
        1
    };
    let digits = part(s, from, n);
    proof {
        let rest = s@.drop_first();
        assert(unsigned(rest) =~= digits@);
    }
    if digits.len() == 0 || run_end(&digits, 0) != digits.len() {
        return None;
    }
    proof {
        lemma_run(digits@, 0);
    }
    let x = small_number(&digits);
    if minus {
        Some(-x)
    } else {
        Some(x)
    }
}

/// Beyond the limit an exponent makes no difference.
proof fn lemma_limited(v: Seq<u8>, negative: bool, e: int, places: int)
    requires
        naturals::digits(v),
        naturals::canonical(v),
        v.len() <= usize::MAX,
        0 <= places <= usize::MAX,
    ensures
        decimal_number(negative, naturals::digits_value(v), e - places) == decimal_number(
            negative,
            naturals::digits_value(v),
            limited(e) - places,
        ),
{
    if v.last() == 0 {
        assert(v.drop_first() =~= Seq::<u8>::empty());
        assert(naturals::digits_value(v.drop_first()) == 0);
        lemma_zero_number(v, negative, e - places);
        lemma_zero_number(v, negative, limited(e) - places);
    } else {
        lemma_out_of_range(v, negative, e - places);
        lemma_out_of_range(v, negative, limited(e) - places);
    }
}

/// The number that a text without sign denotes in digits.
fn digits_parsed(negative: bool, s: &Vec<char>) -> (r: Option<Double>)
    ensures
        r == digits_in(negative, s@),
{
    let n = s.len();
    let a = run_end(s, 0);
    let point = a < n && s[a] == '.';
    let b = if point {
        run_end(s, a + 1)
    } else {
        a
    };
    let mut significand = part(s, 0, a);
    let mut places: usize = 0;
    proof {
        assert(s@.subrange(0, a as int) =~= s@.take(a as int));
    }
    if point {
        let mut fraction = part(s, a + 1, b);
        places = b - (a + 1);
        proof {
            assert(fraction@ =~= s@.subrange(a + 1, b as int));
        }
        significand.append(&mut fraction);
    } else {
        proof {
            assert(significand@ =~= s@.take(a as int) + Seq::<char>::empty());
        }
    }
    if significand.len() == 0 {
        return None;
    }
    proof {
        assert forall|j: int| 0 <= j < significand@.len() implies is_digit(
            #[trigger] significand@[j],
        ) by {
            if j < a {
                assert(significand@[j] == s@[j]);
            } else {
                assert(significand@[j] == s@[j + 1]);
            }
        }
    }
    let tail = part(s, b, n);
    proof {
        assert(tail@ =~= s@.skip(b as int));
    }
    match exponent_read(&tail) {
        Some(e) => {
            let v = digits_read(&significand);
            proof {
                lemma_limited(v@, negative, exponent_in(tail@)->0, places as int);
            }
            Some(assemble(negative, v, e - places as i128))
        },
        None => None,
    }
}

/// Whether `s` spells `word`, in letters of either case.
fn spells(s: &Vec<char>, word: &str) -> (r: bool)
    ensures
        r == (lowered(s@) == word@),
{
    let w = characters(word);
    if s.len() != w.len() {
        return false;
    }
    let mut i: usize = 0;
    while i < s.len()
        invariant
            i <= s@.len() == w@.len(),
            w@ == word@,
            forall|j: int| 0 <= j < i ==> ascii_lower(#[trigger] s@[j]) == w@[j],
        decreases s.len() - i,
    {
        let c = s[i];
        let lower: char = if 'A' <= c && c <= 'Z' {
            (c as u8 + 32) as char
        } else {
            c
        };
        if lower != w[i] {
            proof {
                assert(lowered(s@)[i as int] != word@[i as int]);
            }
            return false;
        }
        i = i + 1;
    }
    proof {
        assert(lowered(s@) =~= word@);
    }
    true
}

/// Reads the number that a text denotes.
pub fn read_number(text: &str) -> (r: Option<Double>)
    ensures
        r == number_in(text@),
{
    let s = characters(text);
    let n = s.len();
    let signed = n > 0 && (s[0] == '-' || s[0] == '+');
    let minus = n > 0 && s[0] == '-';
    let from: usize = if signed {
        1
    } else {
        0
    };
    let body = part(&s, from, n);
    proof {
        assert(unsigned(s@) =~= body@);
    }
    if spells(&body, "inf") || spells(&body, "infinity") {
        return Some(Double::assemble(minus, rounding::INFINITE));
    }
    if spells(&body, "nan") {
        return Some(Double { bits: double::NAN });
    }
    digits_parsed(minus, &body)
}

} // verus!
