//! Decimal notation.

use crate::double::Double;
use crate::{double, naturals, rounding};
use vstd::arithmetic::div_mod::*;
use vstd::arithmetic::power2::*;
use vstd::prelude::*;
use vstd::string::*;

verus! {

/// The character of a decimal digit.
pub open spec fn digit_char(d: nat) -> char {
    (48 + d) as char
}

/// The decimal notation of `n`, without leading zeros.
pub open spec fn numeral(n: nat) -> Seq<char>
    decreases n,
{
    if n < 10 {
        seq![digit_char(n)]
    } else {
        numeral(n / 10).push(digit_char(n % 10))
    }
}

/// The last `width` digits of the decimal notation of `n`, with leading zeros.
pub open spec fn padded(n: nat, width: nat) -> Seq<char>
    decreases width,
{
    if width == 0 {
        Seq::empty()
    } else {
        padded(n / 10, (width - 1) as nat).push(digit_char(n % 10))
    }
}

/// The magnitude of `a` in units of `10^-decimals`, rounded to the nearest
/// whole number, the even one of two that are equally near.
pub open spec fn scaled(a: Double, decimals: nat) -> nat {
    rounding::half_even(
        rounding::steps(a.magnitude()) * naturals::pow10(decimals),
        double::one_in_steps(),
    )
}

/// `n` units of `10^-decimals` in decimal notation.
pub open spec fn pointed(n: nat, decimals: nat) -> Seq<char> {
    let whole = numeral(n / naturals::pow10(decimals));
    if decimals == 0 {
        whole
    } else {
        whole + "."@ + padded(n % naturals::pow10(decimals), decimals)
    }
}

/// `a` in decimal notation with the given number of decimals.
pub open spec fn fixed_text(a: Double, decimals: nat) -> Seq<char> {
    if a.nan() {
        "NaN"@
    } else {
        let unsigned = if a.infinite() {
            "inf"@
        } else {
            pointed(scaled(a, decimals), decimals)
        };
        if a.negative() {
            "-"@ + unsigned
        } else {
            unsigned
        }
    }
}

/// `v` written out, the most significant digit first.
spec fn written(v: Seq<u8>) -> Seq<char>
    decreases v.len(),
{
    if v.len() == 0 {
        Seq::empty()
    } else {
        written(v.drop_first()).push(digit_char(v[0] as nat))
    }
}

proof fn lemma_written_padded(v: Seq<u8>)
    requires
        naturals::digits(v),
    ensures
        written(v) == padded(naturals::digits_value(v), v.len()),
        naturals::digits_value(v) < naturals::pow10(v.len()),
    decreases v.len(),
{
    if v.len() > 0 {
        let rest = v.drop_first();
        naturals::lemma_digits_rest(v);
        lemma_written_padded(rest);
        let n = naturals::digits_value(v);
        assert(v[0] < 10);
        assert(n / 10 == naturals::digits_value(rest) && n % 10 == v[0]);
    }
}

proof fn lemma_written_numeral(v: Seq<u8>)
    requires
        naturals::digits(v),
        naturals::canonical(v),
    ensures
        written(v) == numeral(naturals::digits_value(v)),
        v.len() > 1 ==> naturals::digits_value(v) >= 10,
        v.last() > 0 ==> naturals::digits_value(v) > 0,
    decreases v.len(),
{
    let rest = v.drop_first();
    assert(v[0] < 10);
    if v.len() == 1 {
        assert(rest =~= Seq::<u8>::empty());
        assert(written(rest) =~= Seq::<char>::empty());
        assert(written(v) =~= seq![digit_char(v[0] as nat)]);
        assert(naturals::digits_value(rest) == 0);
    } else {
        naturals::lemma_digits_rest(v);
        assert(rest.last() == v.last());
        lemma_written_numeral(rest);
        let n = naturals::digits_value(v);
        assert(n / 10 == naturals::digits_value(rest) && n % 10 == v[0]);
    }
}

/// The text of one decimal digit.
fn digit_text(d: u8) -> (r: &'static str)
    requires
        d < 10,
    ensures
        r@ == seq![digit_char(d as nat)],
{
    proof {
        reveal_strlit("0");
        reveal_strlit("1");
        reveal_strlit("2");
        reveal_strlit("3");
        reveal_strlit("4");
        reveal_strlit("5");
        reveal_strlit("6");
        reveal_strlit("7");
        reveal_strlit("8");
        reveal_strlit("9");
    }
    match d {
        0 => "0",
        1 => "1",
        2 => "2",
        3 => "3",
        4 => "4",
        5 => "5",
        6 => "6",
        7 => "7",
        8 => "8",
        _ => "9",
    }
}

/// Appends the digits of `v` from place `hi - 1` down to place `lo`.
fn write_digits(text: &mut String, v: &Vec<u8>, lo: usize, hi: usize)
    requires
        naturals::digits(v@),
        lo <= hi <= v@.len(),
    ensures
        final(text)@ == old(text)@ + written(v@.subrange(lo as int, hi as int)),
{
    let mut i: usize = hi;
    proof {
        assert(v@.subrange(hi as int, hi as int) =~= Seq::<u8>::empty());
        assert(text@ =~= text@ + written(v@.subrange(hi as int, hi as int)));
        assert(v@.subrange(lo as int, hi as int).skip(hi - lo) =~= Seq::<u8>::empty());
    }
    let ghost all = v@.subrange(lo as int, hi as int);
    while i > lo
        invariant
            lo <= i <= hi <= v@.len(),
            naturals::digits(v@),
            all == v@.subrange(lo as int, hi as int),
            text@ == old(text)@ + written(all.skip(i - lo)),
        decreases i,
    {
        i = i - 1;
        proof {
            let tail = all.skip(i - lo);
            assert(tail.drop_first() =~= all.skip(i + 1 - lo));
            assert(tail[0] == v@[i as int]);
        }
        text.append(digit_text(v[i]));
        proof {
            assert(text@ =~= old(text)@ + written(all.skip(i - lo)));
        }
    }
    proof {
        assert(all.skip(0) =~= all);
    }
}

/// The decimal notation of `n`.
pub fn numeral_text(n: u64) -> (r: String)
    ensures
        r@ == numeral(n as nat),
{
    let v = naturals::digits_of(n as u128);
    let mut text = String::new();
    write_digits(&mut text, &v, 0, v.len());
    proof {
        assert(v@.subrange(0, v@.len() as int) =~= v@);
        lemma_written_numeral(v@);
    }
    text
}

/// Ten to the power `e`.
fn ten_to(e: u32) -> (r: u128)
    requires
        e <= 20,
    ensures
        r == naturals::pow10(e as nat),
        r <= 100_000_000_000_000_000_000,
{
    proof {
        reveal_with_fuel(naturals::pow10, 21);
    }
    let mut r: u128 = 1;
    let mut i: u32 = 0;
    while i < e
        invariant
            i <= e <= 20,
            r == naturals::pow10(i as nat),
            r * naturals::pow10((20 - i) as nat) == 100_000_000_000_000_000_000,
        decreases e - i,
    {
        proof {
            naturals::lemma_pow10_positive((20 - i - 1) as nat);
            let w = naturals::pow10((20 - i - 1) as nat);
            assert(naturals::pow10((20 - i) as nat) == 10 * w);
            assert(r * (10 * w) == (r * 10) * w) by (nonlinear_arith);
            assert(r * 10 <= 100_000_000_000_000_000_000) by (nonlinear_arith)
                requires
                    (r * 10) * w == 100_000_000_000_000_000_000,
                    w >= 1,
            ;
        }
        r = r * 10;
        i = i + 1;
    }
    proof {
        naturals::lemma_pow10_positive((20 - i) as nat);
        let w = naturals::pow10((20 - i) as nat);
        assert(r <= 100_000_000_000_000_000_000) by (nonlinear_arith)
            requires
                r * w == 100_000_000_000_000_000_000,
                w >= 1,
        ;
    }
    r
}

/// The digits of the magnitude of `a` in units of `10^-decimals`.
fn scaled_digits(a: Double, decimals: u32) -> (v: Vec<u8>)
    requires
        a.finite(),
        decimals <= 20,
    ensures
        naturals::digits(v@),
        naturals::digits_value(v@) == scaled(a, decimals as nat),
        naturals::canonical(v@),
{
    let (c, k) = double::split(a.pattern());
    let w = ten_to(decimals);
    if k < 1074 {
        proof {
            lemma_fraction(c as nat, k as nat, w as nat);
            assert(0 <= c * w < 0x8000_0000_0000_0000_0000_0000_0000_0000) by (nonlinear_arith)
                requires
                    0 <= c < 0x20_0000_0000_0000,
                    0 <= w <= 100_000_000_000_000_000_000,
            ;
        }
        let t: u32 = 1074 - k;
        if t <= 127 {
            naturals::digits_of(rounding::divide_half_even(c as u128 * w, t))
        } else {
            proof {
                lemma_vanishing((c * w) as nat, t as nat);
            }
            naturals::digits_of(0)
        }
    } else {
        let mut v = naturals::digits_of(c as u128);
        let mut i: u32 = 1074;
        proof {
            lemma2_to64();
            assert(c * pow2(0) == c);
        }
        while i < k
            invariant
                1074 <= i <= k,
                naturals::digits(v@),
                naturals::canonical(v@),
                naturals::digits_value(v@) == c * pow2((i - 1074) as nat),
            decreases k - i,
        {
            v = naturals::doubled(&v);
            proof {
                lemma_pow2_unfold((i + 1 - 1074) as nat);
                let f = pow2((i - 1074) as nat);
                assert(2 * (c * f) == c * (2 * f)) by (nonlinear_arith);
            }
            i = i + 1;
        }
        let mut j: u32 = 0;
        proof {
            assert(naturals::pow10(0) == 1);
            lemma_pow2_pos((k - 1074) as nat);
            assert(c * pow2((k - 1074) as nat) > 0) by (nonlinear_arith)
                requires
                    c > 0,
                    pow2((k - 1074) as nat) > 0,
            ;
            naturals::lemma_top_digit(v@);
        }
        while j < decimals
            invariant
                j <= decimals,
                naturals::digits(v@),
                v@.len() > 0,
                v@.last() > 0,
                naturals::digits_value(v@) == (c * pow2((k - 1074) as nat)) * naturals::pow10(j as nat),
            decreases decimals - j,
        {
            let next = naturals::prepend(0, &v);
            proof {
                assert(next@.drop_first() =~= v@);
                let n = c * pow2((k - 1074) as nat);
                let t = naturals::pow10(j as nat);
                assert(10 * (n * t) == n * (10 * t)) by (nonlinear_arith);
                assert(next@.last() == v@.last());
            }
            v = next;
            j = j + 1;
        }
        proof {
            lemma_whole(c as nat, k as nat, w as nat);
        }
        v
    }
}

/// Below the spacing of one, the scaled magnitude is a fraction of a power of
/// two.
proof fn lemma_fraction(c: nat, k: nat, w: nat)
    requires
        k < 1074,
    ensures
        rounding::half_even((c * pow2(k)) * w, double::one_in_steps()) == rounding::half_even(
            c * w,
            pow2((1074 - k) as nat),
        ),
{
    let t = (1074 - k) as nat;
    lemma_pow2_adds(t, k);
    lemma_pow2_pos(t);
    lemma_pow2_pos(k);
    assert((c * pow2(k)) * w == (c * w) * pow2(k)) by (nonlinear_arith);
    rounding::lemma_half_even_scale(c * w, pow2(t), pow2(k));
}

/// From the spacing of one on, the scaled magnitude is a whole number.
proof fn lemma_whole(c: nat, k: nat, w: nat)
    requires
        k >= 1074,
    ensures
        rounding::half_even((c * pow2(k)) * w, double::one_in_steps()) == (c * pow2(
            (k - 1074) as nat,
        )) * w,
{
    let f = pow2((k - 1074) as nat);
    lemma_pow2_adds((k - 1074) as nat, 1074);
    lemma_pow2_pos(1074);
    let u = pow2(1074);
    assert((c * (f * u)) * w == ((c * f) * w) * u) by (nonlinear_arith);
    rounding::lemma_half_even_exact((c * f) * w, u);
}

/// What is less than half a unit rounds to nothing.
proof fn lemma_vanishing(n: nat, t: nat)
    requires
        n < 0x8000_0000_0000_0000_0000_0000_0000_0000,
        t > 127,
    ensures
        rounding::half_even(n, pow2(t)) == 0,
{
    lemma2_to64();
    lemma2_to64_rest();
    lemma_pow2_adds(64, 63);
    lemma_pow2_unfold(t);
    if t > 128 {
        lemma_pow2_strictly_increases(127, (t - 1) as nat);
    }
    lemma_small_mod(n, pow2(t));
    lemma_basic_div(n as int, pow2(t) as int);
}

/// `a` in decimal notation with the given number of decimals.
pub fn fixed(a: Double, decimals: u32) -> (r: String)
    requires
        decimals <= 20,
    ensures
        r@ == fixed_text(a, decimals as nat),
{
    if a.is_nan() {
        return "NaN".to_owned();
    }
    let mut text = String::new();
    if a.is_negative() {
        text.append("-");
    }
    let ghost sign = text@;
    if a.is_infinite() {
        text.append("inf");
        proof {
            assert("-"@ + "inf"@ =~= Seq::<char>::empty() + "-"@ + "inf"@);
            assert(Seq::<char>::empty() + "inf"@ =~= "inf"@);
        }
        return text;
    }
    let mut v = scaled_digits(a, decimals);
    let d = decimals as usize;
    let ghost n = scaled(a, decimals as nat);
    while v.len() <= d
        invariant
            naturals::digits(v@),
            naturals::digits_value(v@) == n,
            v@.len() <= d + 1 || naturals::canonical(v@),
        decreases d + 1 - v.len(),
    {
        proof {
            naturals::lemma_digits_push(v@, 0);
            assert(0 * naturals::pow10(v@.len()) == 0) by (nonlinear_arith);
        }
        v.push(0);
    }
    proof {
        let whole = v@.skip(d as int);
        naturals::lemma_digits_split(v@, d as nat);
        assert(whole.last() == v@.last());
        lemma_written_numeral(whole);
        lemma_written_padded(v@.take(d as int));
        assert(v@.subrange(d as int, v@.len() as int) =~= whole);
        assert(v@.subrange(0, d as int) =~= v@.take(d as int));
    }
    write_digits(&mut text, &v, d, v.len());
    if d > 0 {
        text.append(".");
        write_digits(&mut text, &v, 0, d);
    }
    proof {
        assert(text@ =~= sign + pointed(n, decimals as nat));
        assert(Seq::<char>::empty() + pointed(n, decimals as nat) =~= pointed(n, decimals as nat));
    }
    text
}

} // verus!
