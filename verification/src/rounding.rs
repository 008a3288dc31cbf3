//! Rounding to the grid of IEEE 754 binary64 magnitudes.
//!
//! Every finite binary64 magnitude is a whole number of steps of 2^-1074, the
//! smallest positive value of the format. The magnitudes, in increasing order,
//! are numbered by their bit patterns without the sign bit: pattern 0 is zero,
//! pattern 1 is one step, and so on. The grid is uniform up to 2^53 steps, and
//! from there on its spacing doubles every 2^52 patterns.

use vstd::arithmetic::div_mod::*;
use vstd::arithmetic::power2::*;
use vstd::prelude::*;

verus! {

/// How many patterns share one spacing: 2^52.
pub const BINADE: u64 = 0x10_0000_0000_0000;

/// The pattern of infinity, the first one that is not a finite magnitude.
pub const INFINITE: u64 = 0x7FF0_0000_0000_0000;

/// How many times as great as its rounding error a magnitude is at least, from
/// 2^52 steps on: 2^53.
pub const PRECISION: u64 = 0x20_0000_0000_0000;

/// The integer nearest to `n / d`, the even one of two that are equally near.
pub open spec fn half_even(n: nat, d: nat) -> nat {
    let q = n / d;
    let r = n % d;
    if 2 * r < d || (2 * r == d && q % 2 == 0) {
        q
    } else {
        q + 1
    }
}

/// How many steps of 2^-1074 the magnitude with pattern `m` amounts to. For
/// `INFINITE` it is what the next power of two would amount to.
pub open spec fn steps(m: nat) -> nat
    decreases m,
{
    if m < 2 * BINADE {
        m
    } else {
        2 * steps((m - BINADE) as nat)
    }
}

/// The pattern on the grid, continued without bound, that `num / den` steps
/// round to.
pub open spec fn nearest(num: nat, den: nat) -> nat
    decreases num - den,
{
    if den == 0 {
        0
    } else if num < 2 * BINADE * den {
        half_even(num, den)
    } else {
        proof {
            assert(2 * BINADE * den >= 2 * den) by (nonlinear_arith)
                requires
                    den > 0,
            ;
        }
        BINADE as nat + nearest(num, 2 * den)
    }
}

/// `m`, or the pattern of infinity where `m` lies beyond the finite patterns.
pub open spec fn capped(m: nat) -> nat {
    if m < INFINITE {
        m
    } else {
        INFINITE as nat
    }
}

/// Numerator of `p * 2^s`.
pub open spec fn scaled_num(p: nat, s: int) -> nat {
    if s >= 0 {
        p * pow2(s as nat)
    } else {
        p
    }
}

/// Denominator of `p * 2^s`.
pub open spec fn scaled_den(s: int) -> nat {
    if s >= 0 {
        1
    } else {
        pow2((-s) as nat)
    }
}

/// Rounding to an integer does not depend on how the fraction is expanded.
pub proof fn lemma_half_even_scale(n: nat, d: nat, c: nat)
    requires
        c > 0,
        d > 0,
    ensures
        half_even(n * c, d * c) == half_even(n, d),
{
    let q = n / d;
    let r = n % d;
    lemma_fundamental_div_mod(n as int, d as int);
    assert(n * c == (d * c) * q + r * c) by (nonlinear_arith)
        requires
            n == d * q + r,
    ;
    assert(0 <= r * c < d * c) by (nonlinear_arith)
        requires
            0 <= r < d,
            c > 0,
    ;
    assert((d * c) * q == q * (d * c)) by (nonlinear_arith);
    lemma_fundamental_div_mod_converse((n * c) as int, (d * c) as int, q as int, (r * c) as int);
    assert(2 * r < d <==> 2 * (r * c) < d * c) by (nonlinear_arith)
        requires
            c > 0,
    ;
    assert(2 * r == d <==> 2 * (r * c) == d * c) by (nonlinear_arith)
        requires
            c > 0,
    ;
}

/// Rounding a whole number changes nothing.
pub proof fn lemma_half_even_exact(q: nat, d: nat)
    requires
        d > 0,
    ensures
        half_even(q * d, d) == q,
{
    lemma_fundamental_div_mod_converse((q * d) as int, d as int, q as int, 0);
}

/// Rounding to the grid does not depend on how the fraction is expanded.
pub proof fn lemma_nearest_scale(num: nat, den: nat, c: nat)
    requires
        c > 0,
        den > 0,
    ensures
        nearest(num * c, den * c) == nearest(num, den),
    decreases num - den,
{
    assert(den * c > 0) by (nonlinear_arith)
        requires
            den > 0,
            c > 0,
    ;
    assert(num < 2 * BINADE * den <==> num * c < 2 * BINADE * (den * c)) by (nonlinear_arith)
        requires
            c > 0,
    ;
    if num < 2 * BINADE * den {
        lemma_half_even_scale(num, den, c);
    } else {
        assert(2 * BINADE * den >= 2 * den) by (nonlinear_arith)
            requires
                den > 0,
        ;
        lemma_nearest_scale(num, 2 * den, c);
        assert(2 * (den * c) == 2 * den * c) by (nonlinear_arith);
    }
}

/// Where the spacing around `num / den` is `2^k` steps, rounding to the grid
/// is rounding to a whole number of these.
pub proof fn lemma_nearest_at(num: nat, den: nat, k: nat)
    requires
        den > 0,
        num < 2 * BINADE * (den * pow2(k)),
        k > 0 ==> num >= BINADE * (den * pow2(k)),
    ensures
        nearest(num, den) == k * BINADE + half_even(num, den * pow2(k)),
    decreases k,
{
    lemma_pow2_pos(k);
    if k == 0 {
        lemma2_to64();
        assert(den * pow2(0) == den);
    } else {
        lemma_pow2_unfold(k);
        let h = pow2((k - 1) as nat);
        lemma_pow2_pos((k - 1) as nat);
        assert(den * pow2(k) == (2 * den) * h) by (nonlinear_arith)
            requires
                pow2(k) == 2 * h,
        ;
        assert(BINADE * ((2 * den) * h) >= 2 * BINADE * den) by (nonlinear_arith)
            requires
                h >= 1,
        ;
        if k > 1 {
            lemma_pow2_pos((k - 1) as nat);
        }
        lemma_nearest_at(num, 2 * den, (k - 1) as nat);
        assert(k * BINADE == BINADE + (k - 1) * BINADE) by (nonlinear_arith);
    }
}

/// The steps of a pattern, from its significand `c` and spacing `2^k`.
pub proof fn lemma_steps_at(c: nat, k: nat)
    requires
        c <= 2 * BINADE,
        k > 0 ==> c >= BINADE,
    ensures
        steps((k * BINADE + c) as nat) == c * pow2(k),
    decreases k,
{
    lemma2_to64();
    if k == 0 {
        assert(c * pow2(0) == c);
        assert(steps(c) == c) by {
            if c == 2 * BINADE {
                assert(steps(BINADE as nat) == BINADE);
            }
        }
    } else {
        lemma_pow2_unfold(k);
        lemma_steps_at(c, (k - 1) as nat);
        assert(k * BINADE == BINADE + (k - 1) * BINADE) by (nonlinear_arith);
        assert(k * BINADE >= BINADE) by (nonlinear_arith)
            requires
                k >= 1,
        ;
        assert((k * BINADE + c - BINADE) as nat == ((k - 1) * BINADE + c) as nat);
        let h = pow2((k - 1) as nat);
        assert(2 * (c * h) == c * (2 * h)) by (nonlinear_arith);
    }
}

/// The patterns come in the order of their magnitudes.
pub proof fn lemma_steps_increase(a: nat, b: nat)
    requires
        a < b,
    ensures
        steps(a) < steps(b),
    decreases b,
{
    if b >= 2 * BINADE {
        if a >= 2 * BINADE {
            lemma_steps_increase((a - BINADE) as nat, (b - BINADE) as nat);
        } else {
            lemma_steps_least((b - BINADE) as nat);
        }
    }
}

/// From 2^52 on, a pattern amounts to at least 2^52 steps.
proof fn lemma_steps_least(m: nat)
    requires
        m >= BINADE,
    ensures
        steps(m) >= BINADE,
    decreases m,
{
    if m >= 2 * BINADE {
        lemma_steps_least((m - BINADE) as nat);
    }
}

/// Rounding to an integer picks a nearest one.
proof fn lemma_half_even_nearest(n: nat, d: nat, x: nat)
    requires
        d > 0,
    ensures
        vstd::math::abs(half_even(n, d) * d - n) <= vstd::math::abs(x * d - n),
{
    let q = n / d;
    let r = n % d;
    lemma_fundamental_div_mod(n as int, d as int);
    assert(d * q == q * d) by (nonlinear_arith);
    assert((q + 1) * d == q * d + d) by (nonlinear_arith);
    if x <= q {
        assert(x * d <= q * d) by (nonlinear_arith)
            requires
                x <= q,
        ;
    } else {
        assert(x * d >= (q + 1) * d) by (nonlinear_arith)
            requires
                x >= q + 1,
        ;
    }
}

/// Of two integers that are equally near, rounding picks the even one.
proof fn lemma_half_even_tie(n: nat, d: nat, x: nat)
    requires
        d > 0,
        x != half_even(n, d),
        vstd::math::abs(half_even(n, d) * d - n) == vstd::math::abs(x * d - n),
    ensures
        half_even(n, d) % 2 == 0,
{
    let q = n / d;
    lemma_fundamental_div_mod(n as int, d as int);
    assert(d * q == q * d) by (nonlinear_arith);
    assert((q + 1) * d == q * d + d) by (nonlinear_arith);
    if x < q {
        assert(x * d + d <= q * d) by (nonlinear_arith)
            requires
                x + 1 <= q,
                d > 0,
        ;
    } else if x > q + 1 {
        assert(x * d >= (q + 1) * d + d) by (nonlinear_arith)
            requires
                x >= q + 2,
                d > 0,
        ;
    }
}

/// Rounding to an integer changes a fraction by at most one half.
proof fn lemma_half_even_error(n: nat, d: nat)
    requires
        d > 0,
    ensures
        2 * vstd::math::abs(half_even(n, d) * d - n) <= d,
{
    let q = n / d;
    lemma_fundamental_div_mod(n as int, d as int);
    assert(d * q == q * d) by (nonlinear_arith);
    assert((q + 1) * d == q * d + d) by (nonlinear_arith);
}

/// A fraction of at least `b` rounds to at least `b`.
proof fn lemma_half_even_least(n: nat, d: nat, b: nat)
    requires
        d > 0,
        n >= b * d,
    ensures
        half_even(n, d) >= b,
{
    lemma_fundamental_div_mod(n as int, d as int);
    let q = n / d;
    if q < b {
        assert(d * q + d <= b * d) by (nonlinear_arith)
            requires
                q + 1 <= b,
                d > 0,
        ;
    }
}

/// At least 2^52 steps round to a pattern from 2^52 on.
proof fn lemma_nearest_least(num: nat, den: nat)
    requires
        den > 0,
        num >= BINADE * den,
    ensures
        nearest(num, den) >= BINADE,
{
    if num < 2 * BINADE * den {
        lemma_half_even_least(num, den, BINADE as nat);
    }
}

/// No magnitude of the grid lies nearer to `num / den` than the one it is
/// rounded to.
pub proof fn lemma_nearest_is_nearest(num: nat, den: nat, m: nat)
    requires
        den > 0,
    ensures
        vstd::math::abs(steps(nearest(num, den)) * den - num) <= vstd::math::abs(steps(m) * den - num),
    decreases num - den,
{
    if num < 2 * BINADE * den {
        let q = half_even(num, den);
        assert(q <= 2 * BINADE) by {
            lemma_fundamental_div_mod(num as int, den as int);
            assert(num / den < 2 * BINADE) by (nonlinear_arith)
                requires
                    num < 2 * BINADE * den,
                    den > 0,
            ;
        }
        lemma_steps_at(q, 0);
        lemma2_to64();
        assert(q * pow2(0) == q);
        lemma_half_even_nearest(num, den, steps(m));
    } else {
        assert(2 * BINADE * den >= 2 * den) by (nonlinear_arith)
            requires
                den > 0,
        ;
        assert(BINADE * (2 * den) == 2 * BINADE * den) by (nonlinear_arith);
        let inner = nearest(num, 2 * den);
        lemma_nearest_least(num, 2 * den);
        assert(steps(nearest(num, den)) == 2 * steps(inner));
        assert(2 * steps(inner) * den == steps(inner) * (2 * den)) by (nonlinear_arith);
        if m >= 2 * BINADE {
            let n = (m - BINADE) as nat;
            lemma_nearest_is_nearest(num, 2 * den, n);
            assert(2 * steps(n) * den == steps(n) * (2 * den)) by (nonlinear_arith);
        } else {
            // Everything below 2^53 steps is farther away than 2^53 steps are.
            lemma_nearest_is_nearest(num, 2 * den, BINADE as nat);
            assert(steps(BINADE as nat) == BINADE);
            assert(m * den <= BINADE * (2 * den)) by (nonlinear_arith)
                requires
                    m <= 2 * BINADE,
            ;
        }
    }
}

/// Of two magnitudes of the grid that are equally near, rounding picks the one
/// with the even pattern.
pub proof fn lemma_nearest_tie(num: nat, den: nat, m: nat)
    requires
        den > 0,
        m != nearest(num, den),
        vstd::math::abs(steps(nearest(num, den)) * den - num) == vstd::math::abs(
            steps(m) * den - num,
        ),
    ensures
        nearest(num, den) % 2 == 0,
    decreases num - den,
{
    if num < 2 * BINADE * den {
        let q = half_even(num, den);
        lemma_round_quotient(num, den);
        lemma_steps_at(q, 0);
        lemma2_to64();
        assert(q * pow2(0) == q);
        if m < q {
            lemma_steps_increase(m, q);
        } else {
            lemma_steps_increase(q, m);
        }
        lemma_half_even_tie(num, den, steps(m));
    } else {
        assert(2 * BINADE * den >= 2 * den) by (nonlinear_arith)
            requires
                den > 0,
        ;
        assert(BINADE * (2 * den) == 2 * BINADE * den) by (nonlinear_arith);
        let inner = nearest(num, 2 * den);
        lemma_nearest_least(num, 2 * den);
        assert(2 * steps(inner) * den == steps(inner) * (2 * den)) by (nonlinear_arith);
        if m >= 2 * BINADE {
            let n = (m - BINADE) as nat;
            assert(2 * steps(n) * den == steps(n) * (2 * den)) by (nonlinear_arith);
            lemma_nearest_tie(num, 2 * den, n);
        } else {
            lemma_nearest_is_nearest(num, 2 * den, BINADE as nat);
            assert(steps(BINADE as nat) == BINADE);
            assert(m * den < 2 * BINADE * den) by (nonlinear_arith)
                requires
                    m < 2 * BINADE,
                    den > 0,
            ;
        }
    }
}

/// From 2^52 steps on, rounding to the grid is precise to one part in 2^53.
pub proof fn lemma_nearest_error(num: nat, den: nat)
    requires
        den > 0,
        num >= BINADE * den,
    ensures
        PRECISION * vstd::math::abs(steps(nearest(num, den)) * den - num) <= num,
    decreases num - den,
{
    if num < 2 * BINADE * den {
        lemma_nearest_error_small(num, den);
    } else {
        assert(2 * BINADE * den >= 2 * den) by (nonlinear_arith)
            requires
                den > 0,
        ;
        assert(BINADE * (2 * den) == 2 * BINADE * den) by (nonlinear_arith);
        let inner = nearest(num, 2 * den);
        lemma_nearest_least(num, 2 * den);
        lemma_nearest_error(num, 2 * den);
        assert(2 * steps(inner) * den == steps(inner) * (2 * den)) by (nonlinear_arith);
    }
}

/// Below 2^53 steps, rounding to the grid changes a fraction by at most half a
/// step.
proof fn lemma_nearest_error_small(num: nat, den: nat)
    requires
        den > 0,
        num < 2 * BINADE * den,
    ensures
        2 * vstd::math::abs(steps(nearest(num, den)) * den - num) <= den,
{
    let q = half_even(num, den);
    lemma_round_quotient(num, den);
    lemma_steps_at(q, 0);
    lemma2_to64();
    assert(q * pow2(0) == q);
    lemma_half_even_error(num, den);
}

/// Rounding to the grid is precise to one part in 2^53 and one step.
pub proof fn lemma_nearest_error_at_most(num: nat, den: nat)
    requires
        den > 0,
    ensures
        PRECISION * vstd::math::abs(steps(nearest(num, den)) * den - num) <= num + PRECISION * den,
{
    if num < 2 * BINADE * den {
        lemma_nearest_error_small(num, den);
    } else {
        assert(2 * BINADE * den >= BINADE * den) by (nonlinear_arith);
        lemma_nearest_error(num, den);
    }
}

/// A whole number of steps is rounded with a precision of one part in 2^53.
pub proof fn lemma_nearest_error_whole(num: nat)
    ensures
        PRECISION * vstd::math::abs(steps(nearest(num, 1)) - num) <= num,
{
    if num < BINADE {
        lemma_half_even_exact(num, 1);
        assert(num * 1 == num);
    } else {
        lemma_nearest_error(num, 1);
        assert(steps(nearest(num, 1)) * 1 == steps(nearest(num, 1)));
    }
}

/// Multiplying by a power of two commutes with rounding whole numbers of steps.
pub proof fn lemma_nearest_times_power(num: nat, j: nat)
    ensures
        steps(nearest(num * pow2(j), 1)) == steps(nearest(num, 1)) * pow2(j),
{
    if num < BINADE {
        lemma_half_even_exact(num, 1);
        assert(num * 1 == num);
        let m = lemma_representable(num, j);
        lemma_nearest_exact(m, 1);
        assert(steps(m) * 1 == steps(m));
    } else {
        lemma_nearest_shift(num, 1, j);
        lemma_nearest_least(num, 1);
        lemma_steps_shift(nearest(num, 1), j);
    }
}

/// From 2^52 on, 2^52 patterns further on the magnitude is twice as great.
proof fn lemma_steps_shift(m: nat, j: nat)
    requires
        m >= BINADE,
    ensures
        steps((j * BINADE + m) as nat) == steps(m) * pow2(j),
    decreases j,
{
    lemma2_to64();
    if j > 0 {
        lemma_pow2_unfold(j);
        lemma_steps_shift(m, (j - 1) as nat);
        assert(j * BINADE == BINADE + (j - 1) * BINADE) by (nonlinear_arith);
        assert(j * BINADE >= BINADE) by (nonlinear_arith)
            requires
                j >= 1,
        ;
        let h = pow2((j - 1) as nat);
        assert(2 * (steps(m) * h) == steps(m) * (2 * h)) by (nonlinear_arith);
    } else {
        assert(0 * BINADE + m == m);
        assert(steps(m) * 1 == steps(m));
    }
}

/// A significand of at most 53 binary digits, at any spacing, is on the grid.
pub proof fn lemma_representable(c: nat, k: nat) -> (m: nat)
    requires
        c < 2 * BINADE,
    ensures
        steps(m) == c * pow2(k),
        m <= k * BINADE + 2 * BINADE,
    decreases k,
{
    if k == 0 || c >= BINADE {
        lemma_steps_at(c, k);
        (k * BINADE + c) as nat
    } else {
        let m = lemma_representable(2 * c, (k - 1) as nat);
        lemma_pow2_unfold(k);
        let h = pow2((k - 1) as nat);
        assert((2 * c) * h == c * (2 * h)) by (nonlinear_arith);
        assert(k * BINADE >= (k - 1) * BINADE) by (nonlinear_arith);
        m
    }
}

/// A magnitude of the grid rounds to itself.
pub proof fn lemma_nearest_exact(m: nat, den: nat)
    requires
        den > 0,
    ensures
        nearest(steps(m) * den, den) == m,
    decreases m,
{
    if m < 2 * BINADE {
        assert(m * den < 2 * BINADE * den) by (nonlinear_arith)
            requires
                m < 2 * BINADE,
                den > 0,
        ;
        lemma_half_even_exact(m, den);
    } else {
        let n = (m - BINADE) as nat;
        lemma_nearest_exact(n, 2 * den);
        assert(2 * steps(n) * den == steps(n) * (2 * den)) by (nonlinear_arith);
        lemma_steps_least(n);
        assert(steps(n) * (2 * den) >= 2 * BINADE * den) by (nonlinear_arith)
            requires
                steps(n) >= BINADE,
        ;
    }
}

/// Rounding to an integer keeps the order.
pub proof fn lemma_half_even_monotone(n1: nat, n2: nat, d: nat)
    requires
        d > 0,
        n1 <= n2,
    ensures
        half_even(n1, d) <= half_even(n2, d),
{
    let q1 = n1 / d;
    let q2 = n2 / d;
    lemma_fundamental_div_mod(n1 as int, d as int);
    lemma_fundamental_div_mod(n2 as int, d as int);
    if q1 > q2 {
        assert(d * q1 >= d * q2 + d) by (nonlinear_arith)
            requires
                q1 >= q2 + 1,
        ;
    }
}

/// Rounding to the grid keeps the order.
pub proof fn lemma_nearest_monotone(num1: nat, num2: nat, den: nat)
    requires
        den > 0,
        num1 <= num2,
    ensures
        nearest(num1, den) <= nearest(num2, den),
    decreases num2 - den,
{
    if num2 < 2 * BINADE * den {
        lemma_half_even_monotone(num1, num2, den);
    } else {
        assert(2 * BINADE * den >= 2 * den) by (nonlinear_arith)
            requires
                den > 0,
        ;
        assert(BINADE * (2 * den) == 2 * BINADE * den) by (nonlinear_arith);
        if num1 < 2 * BINADE * den {
            lemma_nearest_least(num2, 2 * den);
            let top = (2 * BINADE) as nat;
            lemma_half_even_monotone(num1, (2 * BINADE * den) as nat, den);
            lemma_half_even_exact(top, den);
            assert(top * den == 2 * BINADE * den);
        } else {
            lemma_nearest_monotone(num1, num2, 2 * den);
        }
    }
}

/// A fraction that lies a little above or below a magnitude of the grid rounds
/// to that magnitude: a quarter of the spacing is little enough.
pub proof fn lemma_nearest_absorbs(c: nat, k: nat, t: nat)
    requires
        BINADE <= c < 2 * BINADE,
        k > 0,
        4 * t < pow2(k),
    ensures
        nearest((c * pow2(k) + t) as nat, 1) == k * BINADE + c,
        nearest((c * pow2(k) - t) as nat, 1) == k * BINADE + c,
{
    let d = pow2(k);
    lemma_pow2_pos(k);
    lemma_pow2_unfold(k);
    assert(1 * d == d);
    assert(c * d >= BINADE * d) by (nonlinear_arith)
        requires
            c >= BINADE,
    ;
    assert(c * d + d <= 2 * BINADE * d) by (nonlinear_arith)
        requires
            c + 1 <= 2 * BINADE,
    ;
    let above = (c * d + t) as nat;
    lemma_nearest_at(above, 1, k);
    lemma_fundamental_div_mod_converse(above as int, d as int, c as int, t as int);
    assert(BINADE * d >= d) by (nonlinear_arith)
        requires
            d > 0,
    ;
    let under = (c * d - t) as nat;
    if t == 0 {
    } else if c > BINADE {
        assert((c - 1) * d == c * d - d) by (nonlinear_arith);
        assert((c - 1) * d >= BINADE * d) by (nonlinear_arith)
            requires
                c - 1 >= BINADE,
        ;
        lemma_nearest_at(under, 1, k);
        lemma_fundamental_div_mod_converse(under as int, d as int, c - 1, d - t);
    } else {
        let h = pow2((k - 1) as nat);
        lemma_pow2_pos((k - 1) as nat);
        assert(1 * h == h);
        let top = (2 * BINADE) as nat;
        assert(c * d == top * h) by (nonlinear_arith)
            requires
                d == 2 * h,
                top == 2 * c,
        ;
        assert((top - 1) * h == top * h - h) by (nonlinear_arith);
        assert((top - 1) * h >= BINADE * h) by (nonlinear_arith)
            requires
                top - 1 >= BINADE,
        ;
        lemma_nearest_at(under, 1, (k - 1) as nat);
        lemma_fundamental_div_mod_converse(under as int, h as int, top - 1, h - t);
        assert(half_even(under, h) == top);
        assert((k - 1) * BINADE == k * BINADE - BINADE) by (nonlinear_arith);
    }
}

/// Twice the integer quotient, plus one where a remainder was dropped: as good
/// as the exact quotient for rounding, where that is large.
pub open spec fn sticky_quotient(n: nat, d: nat) -> nat {
    2 * (n / d) + if n % d == 0 {
        0nat
    } else {
        1nat
    }
}

/// Rounding a quotient needs no more than its sticky integer part where the
/// quotient is large, or at least one binary digit of it is rounded off.
pub proof fn lemma_nearest_sticky(n: nat, d: nat, y: nat)
    requires
        d > 0,
        y > 0 || n / d >= 4 * BINADE,
    ensures
        nearest(n, d * pow2(y)) == nearest(sticky_quotient(n, d), 2 * pow2(y)),
    decreases n - d * pow2(y),
{
    let w = pow2(y);
    let q = n / d;
    let r = n % d;
    let p = sticky_quotient(n, d);
    lemma_pow2_pos(y);
    lemma_fundamental_div_mod(n as int, d as int);
    assert(d * w > 0) by (nonlinear_arith)
        requires
            d > 0,
            w > 0,
    ;
    let top = (2 * BINADE * w) as nat;
    assert(2 * BINADE * (d * w) == d * top) by (nonlinear_arith)
        requires
            top == 2 * BINADE * w,
    ;
    assert(2 * BINADE * (2 * w) == 2 * top) by (nonlinear_arith)
        requires
            top == 2 * BINADE * w,
    ;
    if q < top {
        assert(n < d * top) by (nonlinear_arith)
            requires
                n == d * q + r,
                r < d,
                q + 1 <= top,
        ;
        lemma2_to64();
        assert(y > 0) by {
            if y == 0 {
                assert(w == 1);
            }
        }
        lemma_pow2_unfold(y);
        let h = pow2((y - 1) as nat);
        let u = q / w;
        let v = q % w;
        lemma_fundamental_div_mod(q as int, w as int);
        assert(n == u * (d * w) + (d * v + r)) by (nonlinear_arith)
            requires
                n == d * q + r,
                q == w * u + v,
        ;
        assert(d * v + r < d * w) by (nonlinear_arith)
            requires
                v + 1 <= w,
                r < d,
                d > 0,
        ;
        assert(0 <= d * v) by (nonlinear_arith);
        lemma_fundamental_div_mod_converse(n as int, (d * w) as int, u as int, (d * v + r) as int);
        let st = p - 2 * q;
        assert(p == u * (2 * w) + (2 * v + st)) by (nonlinear_arith)
            requires
                p == 2 * q + st,
                q == w * u + v,
        ;
        lemma_fundamental_div_mod_converse(p as int, (2 * w) as int, u as int, 2 * v + st);
        assert(d * w == 2 * (d * h)) by (nonlinear_arith)
            requires
                w == 2 * h,
        ;
        if v < h {
            assert(d * v + r < d * h) by (nonlinear_arith)
                requires
                    v + 1 <= h,
                    r < d,
                    d > 0,
            ;
        } else {
            assert(d * v >= d * h) by (nonlinear_arith)
                requires
                    v >= h,
            ;
            if v > h {
                assert(d * v > d * h) by (nonlinear_arith)
                    requires
                        v > h,
                        d > 0,
                ;
            }
        }
    } else {
        assert(n >= d * top) by (nonlinear_arith)
            requires
                n == d * q + r,
                q >= top,
                r >= 0,
        ;
        assert(d * top >= 2 * (d * w)) by (nonlinear_arith)
            requires
                top == 2 * BINADE * w,
                d > 0,
                w > 0,
        ;
        lemma_pow2_unfold(y + 1);
        assert(d * pow2(y + 1) == 2 * (d * w)) by (nonlinear_arith)
            requires
                pow2(y + 1) == 2 * w,
        ;
        lemma_nearest_sticky(n, d, y + 1);
    }
}

/// Doubling a large numerator moves the result by 2^52 patterns.
proof fn lemma_nearest_shift(num: nat, den: nat, x: nat)
    requires
        den > 0,
        num >= BINADE * den,
    ensures
        nearest(num * pow2(x), den) == x * BINADE + nearest(num, den),
    decreases x,
{
    lemma_pow2_pos(x);
    if x == 0 {
        lemma2_to64();
        assert(num * pow2(0) == num);
    } else {
        let h = pow2((x - 1) as nat);
        lemma_pow2_pos((x - 1) as nat);
        lemma_pow2_unfold(x);
        lemma_nearest_shift(num, den, (x - 1) as nat);
        assert(num * pow2(x) == (num * h) * 2) by (nonlinear_arith)
            requires
                pow2(x) == 2 * h,
        ;
        assert((num * h) * 2 >= 2 * BINADE * den) by (nonlinear_arith)
            requires
                num >= BINADE * den,
                h >= 1,
        ;
        lemma_nearest_scale(num * h, den, 2);
        assert(x * BINADE == BINADE + (x - 1) * BINADE) by (nonlinear_arith);
    }
}

/// Rounding a large quotient, scaled by a power of two, through its sticky
/// integer part.
pub proof fn lemma_nearest_quotient(n: nat, d: nat, e: nat, f: nat)
    requires
        d > 0,
        n / d >= 4 * BINADE,
    ensures
        nearest(n * pow2(e), d * pow2(f)) == nearest(
            scaled_num(sticky_quotient(n, d), e - f - 1),
            scaled_den(e - f - 1),
        ),
{
    let p = sticky_quotient(n, d);
    let s = e - f - 1;
    lemma2_to64();
    lemma_pow2_pos(e);
    lemma_pow2_pos(f);
    lemma_fundamental_div_mod(n as int, d as int);
    if e >= f {
        let x = (e - f) as nat;
        lemma_pow2_adds(x, f);
        assert(n * (pow2(x) * pow2(f)) == (n * pow2(x)) * pow2(f)) by (nonlinear_arith);
        lemma_nearest_scale(n * pow2(x), d, pow2(f));
        assert(n >= BINADE * d) by (nonlinear_arith)
            requires
                n == d * (n / d) + n % d,
                n % d >= 0,
                n / d >= 4 * BINADE,
        ;
        lemma_nearest_shift(n, d, x);
        lemma_nearest_sticky(n, d, 0);
        assert(d * pow2(0) == d);
        lemma_nearest_shift(p, 2, x);
        if s >= 0 {
            lemma_pow2_unfold(x);
            assert(p * pow2(x) == (p * pow2(s as nat)) * 2) by (nonlinear_arith)
                requires
                    pow2(x) == 2 * pow2(s as nat),
            ;
            lemma_nearest_scale(p * pow2(s as nat), 1, 2);
        } else {
            assert(p * pow2(0) == p);
        }
    } else {
        let y = (f - e) as nat;
        lemma_pow2_adds(y, e);
        assert(d * (pow2(y) * pow2(e)) == (d * pow2(y)) * pow2(e)) by (nonlinear_arith);
        assert(d * pow2(y) > 0) by (nonlinear_arith)
            requires
                d > 0,
                pow2(y) > 0,
        {
            lemma_pow2_pos(y);
        }
        lemma_nearest_scale(n, d * pow2(y), pow2(e));
        lemma_nearest_sticky(n, d, y);
        lemma_pow2_unfold(y + 1);
    }
}

/// Two to the power `e`.
pub(crate) fn two_to(e: u32) -> (r: u128)
    requires
        e <= 127,
    ensures
        r == pow2(e as nat),
{
    proof {
        lemma2_to64();
    }
    let mut r: u128 = 1;
    let mut i: u32 = 0;
    while i < e
        invariant
            i <= e <= 127,
            r == pow2(i as nat),
        decreases e - i,
    {
        proof {
            lemma_pow2_unfold((i + 1) as nat);
            lemma_pow2_below_128((i + 1) as nat);
        }
        r = r * 2;
        i = i + 1;
    }
    r
}

/// 2^127 is the largest power of two that 128 bits hold.
proof fn lemma_pow2_below_128(e: nat)
    requires
        e <= 127,
    ensures
        pow2(e) <= 0x8000_0000_0000_0000_0000_0000_0000_0000,
{
    lemma2_to64();
    lemma2_to64_rest();
    lemma_pow2_adds(64, 63);
    if e < 127 {
        lemma_pow2_strictly_increases(e, 127);
    }
}

/// How many binary digits `p` has.
pub(crate) fn bit_length(p: u128) -> (r: u32)
    requires
        0 < p < 0x8000_0000_0000_0000_0000_0000_0000_0000,
    ensures
        1 <= r <= 127,
        pow2((r - 1) as nat) <= p < pow2(r as nat),
{
    proof {
        lemma2_to64();
    }
    let mut r: u32 = 1;
    let mut bound: u128 = 2;
    while bound <= p
        invariant
            0 < p < 0x8000_0000_0000_0000_0000_0000_0000_0000,
            1 <= r <= 127,
            bound == pow2(r as nat),
            pow2((r - 1) as nat) <= p,
        decreases 127 - r,
    {
        proof {
            lemma_pow2_unfold((r + 1) as nat);
            if r == 127 {
                lemma2_to64();
                lemma2_to64_rest();
                lemma_pow2_adds(64, 63);
            }
        }
        bound = bound * 2;
        r = r + 1;
    }
    r
}

/// The integer nearest to `p / 2^t`, the even one of two that are equally near.
pub(crate) fn divide_half_even(p: u128, t: u32) -> (q: u128)
    requires
        1 <= t <= 127,
        p < 0x8000_0000_0000_0000_0000_0000_0000_0000,
    ensures
        q == half_even(p as nat, pow2(t as nat)),
{
    let d = two_to(t);
    let half = two_to(t - 1);
    proof {
        lemma_pow2_unfold(t as nat);
        lemma_pow2_pos(t as nat);
    }
    let q: u128 = p / d;
    let r: u128 = p % d;
    proof {
        lemma_fundamental_div_mod(p as int, d as int);
        assert(q <= p) by (nonlinear_arith)
            requires
                p == d * q + r,
                r >= 0,
                d >= 1,
        ;
    }
    if r < half || (r == half && q % 2 == 0) {
        q
    } else {
        q + 1
    }
}

/// `p * 2^s` steps, rounded.
pub(crate) fn round_scaled(p: u128, s: i32) -> (r: u64)
    requires
        p < 0x8000_0000_0000_0000_0000_0000_0000_0000,
        -10_000 <= s <= 10_000,
    ensures
        r == capped(nearest(scaled_num(p as nat, s as int), scaled_den(s as int))),
{
    let ghost num = scaled_num(p as nat, s as int);
    let ghost den = scaled_den(s as int);
    proof {
        if s < 0 {
            lemma_pow2_pos((-s) as nat);
        }
    }
    if p == 0 {
        proof {
            assert(num == 0) by (nonlinear_arith)
                requires
                    p == 0,
                    num == p || num == p * pow2(s as nat),
            ;
            lemma_nearest_exact(0, den);
            assert(0 * den == 0) by (nonlinear_arith);
        }
        return 0;
    }
    let len: i32 = bit_length(p) as i32;
    let k: i32 = if len + s > 53 {
        len + s - 53
    } else {
        0
    };
    let t: i32 = k - s;
    proof {
        lemma_round_range(p as nat, s as int, len as nat, k as nat);
        lemma_nearest_at(num, den, k as nat);
    }
    if k >= 2046 {
        proof {
            lemma_pow2_pos(k as nat);
            assert(den * pow2(k as nat) > 0) by (nonlinear_arith)
                requires
                    den > 0,
                    pow2(k as nat) > 0,
            ;
            lemma_half_even_least(num, den * pow2(k as nat), BINADE as nat);
            assert(k * BINADE >= 2046 * BINADE) by (nonlinear_arith)
                requires
                    k >= 2046,
            ;
        }
        return INFINITE;
    }
    let q: u128 = if t <= 0 {
        let f = two_to((0 - t) as u32);
        proof {
            lemma_round_left(p as nat, s as int, len as nat, k as nat);
        }
        p * f
    } else if t > len {
        proof {
            lemma_round_right(p as nat, s as int, k as nat);
            lemma_pow2_unfold(t as nat);
            lemma_pow2_pos(t as nat);
            if len < t - 1 {
                lemma_pow2_strictly_increases(len as nat, (t - 1) as nat);
            }
            lemma_small_mod(p as nat, pow2(t as nat));
            lemma_basic_div(p as int, pow2(t as nat) as int);
        }
        0
    } else {
        proof {
            lemma_round_right(p as nat, s as int, k as nat);
        }
        divide_half_even(p, t as u32)
    };
    proof {
        lemma_round_quotient(num, den * pow2(k as nat));
        assert(q == half_even(num, den * pow2(k as nat)));
        assert(k * BINADE <= 2046 * BINADE) by (nonlinear_arith)
            requires
                k <= 2046,
        ;
    }
    let m: u64 = k as u64 * BINADE + q as u64;
    if m < INFINITE {
        m
    } else {
        INFINITE
    }
}

/// With `k` as `round_scaled` picks it, `p * 2^s` lies where the spacing is
/// `2^k`.
proof fn lemma_round_range(p: nat, s: int, len: nat, k: nat)
    requires
        len >= 1,
        pow2((len - 1) as nat) <= p < pow2(len),
        k == (if len + s > 53 {
            len + s - 53
        } else {
            0
        }),
    ensures
        scaled_den(s) > 0,
        scaled_num(p, s) < 2 * BINADE * (scaled_den(s) * pow2(k)),
        k > 0 ==> scaled_num(p, s) >= BINADE * (scaled_den(s) * pow2(k)),
{
    lemma2_to64_rest();
    assert(pow2(52) == BINADE);
    assert(pow2(53) == 2 * BINADE);
    if s >= 0 {
        let w = pow2(s as nat);
        lemma_pow2_pos(s as nat);
        lemma_pow2_adds(len, s as nat);
        lemma_pow2_adds((len - 1) as nat, s as nat);
        lemma_pow2_adds(53, k);
        lemma_pow2_adds(52, k);
        assert(p * w < pow2(len) * w) by (nonlinear_arith)
            requires
                p < pow2(len),
                w > 0,
        ;
        assert(p * w >= pow2((len - 1) as nat) * w) by (nonlinear_arith)
            requires
                p >= pow2((len - 1) as nat),
        ;
        if len + s < 53 + k {
            lemma_pow2_strictly_increases((len + s) as nat, 53 + k);
        }
        assert(1 * pow2(k) == pow2(k));
    } else {
        let w = (-s) as nat;
        lemma_pow2_pos(w);
        lemma_pow2_adds(w, k);
        lemma_pow2_adds(53, w + k);
        lemma_pow2_adds(52, w + k);
        if len < 53 + w + k {
            lemma_pow2_strictly_increases(len, 53 + w + k);
        }
    }
}

/// Rounding to a multiple of a spacing coarser than `2^s`.
proof fn lemma_round_right(p: nat, s: int, k: nat)
    requires
        k > s,
    ensures
        half_even(scaled_num(p, s), scaled_den(s) * pow2(k)) == half_even(p, pow2((k - s) as nat)),
{
    if s >= 0 {
        lemma_pow2_pos(s as nat);
        lemma_pow2_pos((k - s) as nat);
        lemma_pow2_adds((k - s) as nat, s as nat);
        lemma_half_even_scale(p, pow2((k - s) as nat), pow2(s as nat));
        assert(1 * pow2(k) == pow2(k));
    } else {
        lemma_pow2_adds((-s) as nat, k);
    }
}

/// Rounding to a multiple of a spacing that divides `2^s`.
proof fn lemma_round_left(p: nat, s: int, len: nat, k: nat)
    requires
        k <= s,
        len >= 1,
        p < pow2(len),
        k == (if len + s > 53 {
            len + s - 53
        } else {
            0
        }),
    ensures
        half_even(scaled_num(p, s), scaled_den(s) * pow2(k)) == p * pow2((s - k) as nat),
        p * pow2((s - k) as nat) < 2 * BINADE,
        s - k <= 52,
{
    let d = (s - k) as nat;
    lemma_pow2_pos(k);
    lemma_pow2_pos(d);
    lemma_pow2_adds(d, k);
    assert(p * (pow2(d) * pow2(k)) == (p * pow2(d)) * pow2(k)) by (nonlinear_arith);
    lemma_half_even_exact(p * pow2(d), pow2(k));
    assert(1 * pow2(k) == pow2(k));
    lemma2_to64_rest();
    lemma_pow2_adds(len, d);
    assert(p * pow2(d) < pow2(len) * pow2(d)) by (nonlinear_arith)
        requires
            p < pow2(len),
            pow2(d) > 0,
    ;
    if len + d < 53 {
        lemma_pow2_strictly_increases(len + d, 53);
    }
}

/// Below 2^53 spacings, rounding gives at most 2^53 of them.
proof fn lemma_round_quotient(num: nat, d: nat)
    requires
        d > 0,
        num < 2 * BINADE * d,
    ensures
        half_even(num, d) <= 2 * BINADE,
{
    lemma_fundamental_div_mod(num as int, d as int);
    assert(num / d < 2 * BINADE) by (nonlinear_arith)
        requires
            num < 2 * BINADE * d,
            num == d * (num / d) + num % d,
            num % d >= 0,
            d > 0,
    ;
}

} // verus!
