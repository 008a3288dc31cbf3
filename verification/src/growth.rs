//! What the growth of prices depends on, and how near to the exact growth
//! rounding stays.

use crate::double::Double;
use crate::json::JsonView;
use crate::{double, laws, market, proportions, reading, rounding};
use vstd::arithmetic::power::*;
use vstd::arithmetic::power2::*;
use vstd::prelude::*;

verus! {

/// Closing prices that are in the same proportion give the same growth.
pub proof fn law_growth_depends_on_the_proportion(
    first_a: Double,
    last_a: Double,
    first_b: Double,
    last_b: Double,
)
    requires
        first_a.finite(),
        last_a.finite(),
        first_b.finite(),
        last_b.finite(),
        first_a.value() > 0,
        first_b.value() > 0,
        last_a.negative() == last_b.negative(),
        last_a.value() * first_b.value() == last_b.value() * first_a.value(),
    ensures
        market::growth_power(Some(first_a), Some(last_a)) == market::growth_power(
            Some(first_b),
            Some(last_b),
        ),
{
    laws::lemma_zero();
    proportions::law_quotient_depends_on_the_proportion(last_a, first_a, last_b, first_b);
}

/// The number nearest to `n / d` steps.
pub open spec fn nearest_number(n: nat, d: nat) -> Double {
    double::signed(false, rounding::capped(rounding::nearest(n, d)))
}

/// Whether `n / d` steps are at least 2^-1022 and round to a finite number.
pub open spec fn in_range(n: nat, d: nat) -> bool {
    d > 0 && n >= rounding::BINADE * d && nearest_number(n, d).finite()
}

/// How near the number nearest to `n / d` steps is.
proof fn lemma_nearest_number(n: nat, d: nat)
    requires
        in_range(n, d),
    ensures
        nearest_number(n, d).value() > 0,
        nearest_number(n, d).value() * d * rounding::PRECISION <= n * (rounding::PRECISION + 1),
        nearest_number(n, d).value() * d * rounding::PRECISION >= n * (rounding::PRECISION - 1),
{
    let u = rounding::PRECISION as int;
    let v = nearest_number(n, d).value();
    rounding::lemma_nearest_error(n, d);
    let x = v * d;
    assert(x * u - n * u <= n && n * u - x * u <= n) by (nonlinear_arith)
        requires
            u * vstd::math::abs(x - n) <= n,
            u > 0,
    ;
    assert(n * (u + 1) == n * u + n) by (nonlinear_arith);
    assert(n * (u - 1) == n * u - n) by (nonlinear_arith);
    assert(n > 0) by (nonlinear_arith)
        requires
            n >= rounding::BINADE * d,
            d > 0,
    ;
    assert(v > 0) by (nonlinear_arith)
        requires
            v * d * u >= n * (u - 1),
            n > 0,
            u > 1,
            d > 0,
    ;
}

/// How near a quotient of rounded prices is to the exact one.
proof fn lemma_rounded_ratio(a: nat, b: nat, d: nat)
    requires
        in_range(a, d),
        in_range(b, d),
        in_range(
            (nearest_number(b, d).value() * double::one_in_steps()) as nat,
            nearest_number(a, d).value() as nat,
        ),
    ensures
        ({
            let base = nearest_number(b, d).quotient(nearest_number(a, d)).value();
            let u = rounding::PRECISION as int;
            let one = double::one_in_steps();
            &&& (base * a) * (u * (u - 1)) <= (b * one) * ((u + 1) * (u + 1))
            &&& (base * a) * (u * (u + 1)) >= (b * one) * ((u - 1) * (u - 1))
        }),
{
    let u = rounding::PRECISION as int;
    let one = double::one_in_steps() as int;
    let f = nearest_number(a, d);
    let l = nearest_number(b, d);
    let x = f.value();
    let y = l.value();
    lemma_nearest_number(a, d);
    lemma_nearest_number(b, d);
    proportions::lemma_one();
    assert(y * one >= 0) by (nonlinear_arith)
        requires
            y > 0,
            one > 0,
    ;
    lemma_nearest_number((y * one) as nat, x as nat);
    let base = l.quotient(f).value();
    assert(base == nearest_number((y * one) as nat, x as nat).value());
    assert((base * a) * (u * (u - 1)) <= (b * one) * ((u + 1) * (u + 1))) by {
        let r = base * u;
        assert(base * x * u == r * x) by (nonlinear_arith)
            requires
                r == base * u,
        ;
        // r * x <= y * one * (u + 1), with x * d * u >= a * (u - 1) and
        // y * d * u <= b * (u + 1).
        assert(r * (a * (u - 1)) <= r * (x * d * u)) by (nonlinear_arith)
            requires
                a * (u - 1) <= x * d * u,
                r >= 0,
        ;
        assert(r * (x * d * u) == (r * x) * (d * u)) by (nonlinear_arith);
        assert((r * x) * (d * u) <= (y * one * (u + 1)) * (d * u)) by (nonlinear_arith)
            requires
                r * x <= y * one * (u + 1),
                d * u >= 0,
        ;
        assert((y * one * (u + 1)) * (d * u) == (y * d * u) * (one * (u + 1))) by (nonlinear_arith);
        assert((y * d * u) * (one * (u + 1)) <= (b * (u + 1)) * (one * (u + 1)))
            by (nonlinear_arith)
            requires
                y * d * u <= b * (u + 1),
                one * (u + 1) >= 0,
        ;
        assert((b * (u + 1)) * (one * (u + 1)) == (b * one) * ((u + 1) * (u + 1)))
            by (nonlinear_arith);
        assert(r * (a * (u - 1)) == (base * a) * (u * (u - 1))) by (nonlinear_arith)
            requires
                r == base * u,
        ;
    }
    assert((base * a) * (u * (u + 1)) >= (b * one) * ((u - 1) * (u - 1))) by {
        let r = base * u;
        assert(base * x * u == r * x) by (nonlinear_arith)
            requires
                r == base * u,
        ;
        assert(r * (a * (u + 1)) >= r * (x * d * u)) by (nonlinear_arith)
            requires
                a * (u + 1) >= x * d * u,
                r >= 0,
        ;
        assert(r * (x * d * u) == (r * x) * (d * u)) by (nonlinear_arith);
        assert((r * x) * (d * u) >= (y * one * (u - 1)) * (d * u)) by (nonlinear_arith)
            requires
                r * x >= y * one * (u - 1),
                d * u >= 0,
        ;
        assert((y * one * (u - 1)) * (d * u) == (y * d * u) * (one * (u - 1))) by (nonlinear_arith);
        assert((y * d * u) * (one * (u - 1)) >= (b * (u - 1)) * (one * (u - 1)))
            by (nonlinear_arith)
            requires
                y * d * u >= b * (u - 1),
                one * (u - 1) >= 0,
        ;
        assert((b * (u - 1)) * (one * (u - 1)) == (b * one) * ((u - 1) * (u - 1)))
            by (nonlinear_arith);
        assert(r * (a * (u + 1)) == (base * a) * (u * (u + 1))) by (nonlinear_arith)
            requires
                r == base * u,
        ;
    }
}

/// Two bases that are near the same ratio are near each other.
proof fn lemma_bases_near(x: int, y: int, a: int, r: int, u: int)
    requires
        a > 0,
        u > 1,
        (x * a) * (u * (u - 1)) <= r * ((u + 1) * (u + 1)),
        (y * a) * (u * (u + 1)) >= r * ((u - 1) * (u - 1)),
    ensures
        x * ((u - 1) * (u - 1) * (u - 1)) <= y * ((u + 1) * (u + 1) * (u + 1)),
{
    let m = u - 1;
    let p = u + 1;
    assert(((x * a) * (u * m)) * (m * m) <= (r * (p * p)) * (m * m)) by (nonlinear_arith)
        requires
            (x * a) * (u * m) <= r * (p * p),
    ;
    assert((r * (p * p)) * (m * m) == (r * (m * m)) * (p * p)) by (nonlinear_arith);
    assert((r * (m * m)) * (p * p) <= ((y * a) * (u * p)) * (p * p)) by (nonlinear_arith)
        requires
            (y * a) * (u * p) >= r * (m * m),
    ;
    let c = a * u;
    assert(((x * a) * (u * m)) * (m * m) == (x * (m * m * m)) * c) by (nonlinear_arith)
        requires
            c == a * u,
    ;
    assert(((y * a) * (u * p)) * (p * p) == (y * (p * p * p)) * c) by (nonlinear_arith)
        requires
            c == a * u,
    ;
    assert(c > 0) by (nonlinear_arith)
        requires
            c == a * u,
            a > 0,
            u > 1,
    ;
    assert(x * (m * m * m) <= y * (p * p * p)) by (nonlinear_arith)
        requires
            (x * (m * m * m)) * c <= (y * (p * p * p)) * c,
            c > 0,
    ;
}

/// Whether two numbers have the same sign, and magnitudes within one part in
/// 2^53 of each other, `n` times over.
pub open spec fn within(x: Double, y: Double, n: nat) -> bool {
    let u = rounding::PRECISION as int;
    let x_steps = rounding::steps(x.magnitude());
    let y_steps = rounding::steps(y.magnitude());
    &&& x.negative() == y.negative()
    &&& x_steps * pow(u - 1, n) <= y_steps * pow(u + 1, n)
    &&& y_steps * pow(u - 1, n) <= x_steps * pow(u + 1, n)
}

/// Closing prices that are all the same number of times as great give the same
/// growth, but for the rounding of the prices as they are read and of their
/// ratio. The prices are `a / d` and `b / d` steps in one document, and `a * k /
/// e` and `b * k / e` steps in the other.
pub proof fn law_growth_is_independent_of_the_unit(
    doc: JsonView,
    other: JsonView,
    a: nat,
    b: nat,
    d: nat,
    k: nat,
    e: nat,
)
    requires
        k > 0,
        in_range(a, d),
        in_range(b, d),
        in_range(a * k, e),
        in_range(b * k, e),
        in_range(
            (nearest_number(b, d).value() * double::one_in_steps()) as nat,
            nearest_number(a, d).value() as nat,
        ),
        in_range(
            (nearest_number(b * k, e).value() * double::one_in_steps()) as nat,
            nearest_number(a * k, e).value() as nat,
        ),
        market::closes(doc) matches Some((first, last)) && reading::number_in(first) == Some(
            nearest_number(a, d),
        ) && reading::number_in(last) == Some(nearest_number(b, d)),
        market::closes(other) matches Some((first, last)) && reading::number_in(first) == Some(
            nearest_number(a * k, e),
        ) && reading::number_in(last) == Some(nearest_number(b * k, e)),
    ensures
        market::growth_in(doc) is Some,
        market::growth_in(other) is Some,
        market::growth_in(doc)->0.exponent == market::growth_in(other)->0.exponent,
        within(market::growth_in(doc)->0.base, market::growth_in(other)->0.base, 3),
{
    let u = rounding::PRECISION as int;
    let one = double::one_in_steps() as int;
    laws::lemma_zero();
    lemma_nearest_number(a, d);
    lemma_nearest_number(a * k, e);
    lemma_rounded_ratio(a, b, d);
    lemma_rounded_ratio(a * k, b * k, e);
    let x = nearest_number(b, d).quotient(nearest_number(a, d)).value();
    let y = nearest_number(b * k, e).quotient(nearest_number(a * k, e)).value();
    assert(a > 0) by (nonlinear_arith)
        requires
            a >= rounding::BINADE * d,
            d > 0,
    ;
    let r = b * one;
    assert((y * (a * k)) * (u * (u - 1)) == ((y * a) * (u * (u - 1))) * k) by (nonlinear_arith);
    assert((y * (a * k)) * (u * (u + 1)) == ((y * a) * (u * (u + 1))) * k) by (nonlinear_arith);
    assert(((b * k) * one) * ((u + 1) * (u + 1)) == (r * ((u + 1) * (u + 1))) * k)
        by (nonlinear_arith)
        requires
            r == b * one,
    ;
    assert(((b * k) * one) * ((u - 1) * (u - 1)) == (r * ((u - 1) * (u - 1))) * k)
        by (nonlinear_arith)
        requires
            r == b * one,
    ;
    lemma_cancel((y * a) * (u * (u - 1)), r * ((u + 1) * (u + 1)), k);
    lemma_cancel(r * ((u - 1) * (u - 1)), (y * a) * (u * (u + 1)), k);
    lemma_bases_near(x, y, a as int, r, u);
    lemma_bases_near(y, x, a as int, r, u);
    lemma_cube(u - 1);
    lemma_cube(u + 1);
}

/// A common positive factor does not change an order.
proof fn lemma_cancel(x: int, y: int, k: nat)
    requires
        k > 0,
        x * k <= y * k,
    ensures
        x <= y,
{
    assert(x <= y) by (nonlinear_arith)
        requires
            x * k <= y * k,
            k > 0,
    ;
}

/// A third power, written out.
proof fn lemma_cube(b: int)
    ensures
        pow(b, 3) == b * b * b,
{
    reveal_with_fuel(pow, 4);
    assert(b * (b * (b * 1)) == b * b * b) by (nonlinear_arith);
}

/// What one grows to in a year with this rate, in percent.
pub open spec fn factor(rate: Double) -> Double {
    double::whole(1).sum(rate.quotient(double::whole(100)))
}

/// The exact product of the magnitudes of the factors, each in steps.
pub open spec fn exact_product(rates: Seq<Double>) -> int {
    rates.fold_left(1int, |grown: int, rate: Double| grown * rounding::steps(
        factor(rate).magnitude(),
    ))
}

/// Whether an odd number of the factors is negative.
pub open spec fn exact_sign(rates: Seq<Double>) -> bool {
    rates.fold_left(false, |negative: bool, rate: Double| negative != factor(rate).negative())
}

/// Whether what one grows to is finite, and over more than 19 years also
/// greater than 2^-1022 in magnitude after each of them, unless a factor is
/// zero. Over fewer years it cannot become as small as that.
pub open spec fn steady(rates: Seq<Double>) -> bool {
    &&& market::compounded(rates).finite()
    &&& rates.len() > 19 ==> forall|i: int|
        0 <= i <= rates.len() ==> exact_product(#[trigger] rates.take(i)) == 0
            || market::compounded(rates.take(i)).magnitude() > rounding::BINADE
}

/// A product is finite only where both factors are, and then has the sign of
/// their signs and the magnitude of their magnitudes.
proof fn lemma_finite_product(a: Double, b: Double)
    requires
        a.product(b).finite(),
    ensures
        a.finite(),
        b.finite(),
        a.product(b).negative() == (a.negative() != b.negative()),
        a.product(b).magnitude() == rounding::nearest(
            rounding::steps(a.magnitude()) * rounding::steps(b.magnitude()),
            double::one_in_steps(),
        ),
{
}

/// What one grows to has the sign of all factors together.
proof fn lemma_compounded_sign(rates: Seq<Double>)
    requires
        market::compounded(rates).finite(),
    ensures
        market::compounded(rates).negative() == exact_sign(rates),
    decreases rates.len(),
{
    if rates.len() == 0 {
        laws::law_whole_numbers_are_exact(1);
    } else {
        let past = rates.drop_last();
        lemma_finite_product(market::compounded(past), factor(rates.last()));
        lemma_compounded_sign(past);
    }
}

/// Where a factor is zero, nothing is left.
proof fn lemma_compounded_zero(rates: Seq<Double>)
    requires
        market::compounded(rates).finite(),
        exact_product(rates) == 0,
    ensures
        market::compounded(rates).magnitude() == 0,
    decreases rates.len(),
{
    if rates.len() > 0 {
        let past = rates.drop_last();
        let before = market::compounded(past);
        let f = factor(rates.last());
        lemma_finite_product(before, f);
        let x = rounding::steps(before.magnitude());
        let y = rounding::steps(f.magnitude());
        let p = exact_product(past);
        assert(p == 0 || y == 0) by (nonlinear_arith)
            requires
                p * y == 0,
        ;
        if p == 0 {
            lemma_compounded_zero(past);
        }
        assert(x * y == 0) by (nonlinear_arith)
            requires
                x == 0 || y == 0,
        ;
        proportions::lemma_one();
        rounding::lemma_nearest_exact(0, double::one_in_steps());
        assert(0 * double::one_in_steps() == 0) by (nonlinear_arith);
    }
}

/// One and a number that do not cancel out leave at least 2^-53.
proof fn lemma_factor_least(q: Double)
    requires
        double::whole(1).sum(q).finite(),
        double::whole(1).sum(q).magnitude() != 0,
    ensures
        rounding::steps(double::whole(1).sum(q).magnitude()) >= pow2(1021),
{
    let one = double::one_in_steps();
    let w = pow2(1021);
    laws::law_whole_numbers_are_exact(1);
    assert(q.finite());
    let m = q.magnitude();
    let v = rounding::steps(m);
    let n = one + q.value();
    assert(n != 0);
    lemma_pow2_pos(1021);
    lemma_pow2_adds(53, 1021);
    lemma_pow2_unfold(1022);
    lemma_pow2_unfold(1073);
    lemma_pow2_unfold(1074);
    lemma_pow2_strictly_increases(1021, 1073);
    assert(vstd::math::abs(n) >= w) by {
        if q.negative() {
            let (c, k) = lemma_split(m);
            if k >= 1021 {
                let j = (k - 1021) as nat;
                lemma_pow2_adds(j, 1021);
                assert(c * (pow2(j) * w) == (c * pow2(j)) * w) by (nonlinear_arith);
                let d = pow2(53) - c * pow2(j);
                assert(n == d * w) by (nonlinear_arith)
                    requires
                        n == pow2(53) * w - (c * pow2(j)) * w,
                        d == pow2(53) - c * pow2(j),
                ;
                assert(vstd::math::abs(n) >= w) by (nonlinear_arith)
                    requires
                        n == d * w,
                        n != 0,
                        w > 0,
                ;
            } else {
                lemma2_to64_rest();
                lemma_pow2_adds(53, k);
                if k < 1020 {
                    lemma_pow2_strictly_increases(53 + k, 1073);
                }
                assert(c * pow2(k) <= pow2(53) * pow2(k)) by (nonlinear_arith)
                    requires
                        c <= pow2(53),
                ;
            }
        }
    }
    let size = vstd::math::abs(n) as nat;
    lemma_at_least(size, 1, 1021);
}

/// The significand and the spacing of a magnitude.
proof fn lemma_split(m: nat) -> (r: (nat, nat))
    ensures
        r.0 < 2 * rounding::BINADE,
        rounding::steps(m) == r.0 * pow2(r.1),
{
    if m < 2 * rounding::BINADE {
        rounding::lemma_steps_at(m, 0);
        (m, 0)
    } else {
        let c = m % (rounding::BINADE as nat) + rounding::BINADE as nat;
        let k = (m / (rounding::BINADE as nat) - 1) as nat;
        rounding::lemma_steps_at(c, k);
        (c, k)
    }
}

/// A fraction of at least `2^e` steps rounds to at least as much.
proof fn lemma_at_least(num: nat, den: nat, e: nat)
    requires
        den > 0,
        num >= pow2(e) * den,
    ensures
        rounding::steps(rounding::nearest(num, den)) >= pow2(e),
{
    let m = rounding::lemma_representable(1, e);
    assert(1 * pow2(e) == pow2(e));
    rounding::lemma_nearest_exact(m, den);
    rounding::lemma_nearest_monotone(pow2(e) * den, num, den);
    laws::lemma_steps_monotone(m, rounding::nearest(num, den));
}

/// What one grows to cannot fall by more than 2^53 times a year, short of
/// nothing.
proof fn lemma_compounded_least(rates: Seq<Double>)
    requires
        market::compounded(rates).finite(),
        exact_product(rates) != 0,
        rates.len() <= 19,
    ensures
        rounding::steps(market::compounded(rates).magnitude()) >= pow2(
            (1074 - 53 * rates.len()) as nat,
        ),
    decreases rates.len(),
{
    if rates.len() == 0 {
        laws::law_whole_numbers_are_exact(1);
    } else {
        let past = rates.drop_last();
        let before = market::compounded(past);
        let f = factor(rates.last());
        lemma_finite_product(before, f);
        let x = rounding::steps(before.magnitude());
        let y = rounding::steps(f.magnitude());
        assert(exact_product(past) != 0 && y != 0) by (nonlinear_arith)
            requires
                exact_product(past) * y != 0,
        ;
        lemma_compounded_least(past);
        lemma_factor_least(rates.last().quotient(double::whole(100)));
        let e = (1074 - 53 * rates.len()) as nat;
        lemma_pow2_adds(e, 1074);
        lemma_pow2_adds(e + 53, 1021);
        assert(x * y >= pow2(e + 53) * pow2(1021)) by (nonlinear_arith)
            requires
                x >= pow2(e + 53),
                y >= pow2(1021),
        ;
        proportions::lemma_one();
        lemma_at_least(x * y, double::one_in_steps(), e);
    }
}

/// What one grows to steadily is nothing or in the range of full precision.
proof fn lemma_steady(rates: Seq<Double>)
    requires
        steady(rates),
        exact_product(rates) != 0,
    ensures
        market::compounded(rates).magnitude() > rounding::BINADE,
{
    let m = market::compounded(rates).magnitude();
    if rates.len() <= 19 {
        lemma_compounded_least(rates);
        lemma2_to64_rest();
        lemma_pow2_strictly_increases(52, (1074 - 53 * rates.len()) as nat);
        if m <= rounding::BINADE {
            laws::lemma_steps_monotone(m, rounding::BINADE as nat);
        }
    } else {
        assert(rates.take(rates.len() as int) =~= rates);
    }
}

/// One year changes what one grows to by its factor, to one part in 2^53.
proof fn lemma_year_near(before: Double, f: Double)
    requires
        before.product(f).finite(),
        before.product(f).magnitude() > rounding::BINADE,
    ensures
        ({
            let grown = rounding::steps(before.product(f).magnitude());
            let n = rounding::steps(before.magnitude()) * rounding::steps(f.magnitude());
            let u = rounding::PRECISION as int;
            &&& grown * (double::one_in_steps() * u) <= n * (u + 1)
            &&& grown * (double::one_in_steps() * u) >= n * (u - 1)
        }),
{
    let one = double::one_in_steps();
    let u = rounding::PRECISION as int;
    let n = rounding::steps(before.magnitude()) * rounding::steps(f.magnitude());
    lemma_finite_product(before, f);
    proportions::lemma_one();
    let least = (rounding::BINADE * one) as nat;
    if n < least {
        rounding::lemma_nearest_exact(rounding::BINADE as nat, one);
        rounding::lemma_nearest_monotone(n, least, one);
    }
    lemma_nearest_number(n, one);
    let v = rounding::steps(before.product(f).magnitude());
    assert(v * one * u == v * (one * u)) by (nonlinear_arith);
}

/// Compounding has the sign of all factors together, and is precise to one part
/// in 2^53 for each year.
pub proof fn law_compounding_is_precise(rates: Seq<Double>)
    requires
        steady(rates),
    ensures
        ({
            let u = rounding::PRECISION as int;
            let one = double::one_in_steps();
            let n = rates.len();
            let c = rounding::steps(market::compounded(rates).magnitude());
            let p = exact_product(rates) * one;
            &&& market::compounded(rates).negative() == exact_sign(rates)
            &&& c * pow(one * u, n) <= p * pow(u + 1, n)
            &&& c * pow(one * u, n) >= p * pow(u - 1, n)
        }),
    decreases rates.len(),
{
    let u = rounding::PRECISION as int;
    let one = double::one_in_steps() as int;
    let n = rates.len();
    let w = one * u;
    proportions::lemma_one();
    lemma_compounded_sign(rates);
    if n == 0 {
        lemma_pow0(w);
        lemma_pow0(u + 1);
        lemma_pow0(u - 1);
        laws::law_whole_numbers_are_exact(1);
    } else if exact_product(rates) == 0 {
        lemma_compounded_zero(rates);
        assert(0 * pow(w, n) == 0) by (nonlinear_arith);
        assert(0 * one == 0) by (nonlinear_arith);
        assert(0 * pow(u + 1, n) == 0) by (nonlinear_arith);
        assert(0 * pow(u - 1, n) == 0) by (nonlinear_arith);
    } else {
        let past = rates.drop_last();
        let m = (n - 1) as nat;
        let before = market::compounded(past);
        let f = factor(rates.last());
        lemma_finite_product(before, f);
        assert(steady(past)) by {
            if past.len() > 19 {
                assert forall|i: int| 0 <= i <= past.len() implies exact_product(
                    #[trigger] past.take(i),
                ) == 0 || market::compounded(past.take(i)).magnitude() > rounding::BINADE by {
                    assert(past.take(i) =~= rates.take(i));
                }
            }
        }
        law_compounding_is_precise(past);
        lemma_steady(rates);
        lemma_year_near(before, f);
        let c = rounding::steps(market::compounded(rates).magnitude()) as int;
        let b = rounding::steps(before.magnitude()) as int;
        let x = rounding::steps(f.magnitude()) as int;
        let p = exact_product(past) * one;
        let q = exact_product(rates) * one;
        assert(exact_product(rates) == exact_product(past) * x);
        assert(q == p * x) by (nonlinear_arith)
            requires
                exact_product(rates) == exact_product(past) * x,
                p == exact_product(past) * one,
                q == exact_product(rates) * one,
        ;
        assert(x != 0) by (nonlinear_arith)
            requires
                exact_product(past) * x != 0,
        ;
        lemma_pow1(w);
        lemma_pow_adds(w, m, 1);
        lemma_pow1(u + 1);
        lemma_pow_adds(u + 1, m, 1);
        lemma_pow1(u - 1);
        lemma_pow_adds(u - 1, m, 1);
        assert(w > 0) by (nonlinear_arith)
            requires
                w == one * u,
                one > 0,
                u > 0,
        ;
        lemma_pow_positive(w, m);
        lemma_step_bounds(c, b, x, w, pow(w, m), p, u + 1, pow(u + 1, m));
        lemma_step_bounds_below(c, b, x, w, pow(w, m), p, u - 1, pow(u - 1, m));
    }
}

/// One more year keeps what is known from above of the years before.
proof fn lemma_step_bounds(c: int, b: int, x: int, w: int, wm: int, p: int, v: int, vm: int)
    requires
        x > 0,
        wm > 0,
        v > 0,
        c * w <= b * x * v,
        b * wm <= p * vm,
    ensures
        c * (wm * w) <= (p * x) * (vm * v),
{
    assert(c * (wm * w) == (c * w) * wm) by (nonlinear_arith);
    assert((c * w) * wm <= (b * x * v) * wm) by (nonlinear_arith)
        requires
            c * w <= b * x * v,
            wm > 0,
    ;
    let k = x * v;
    assert(k > 0) by (nonlinear_arith)
        requires
            k == x * v,
            x > 0,
            v > 0,
    ;
    assert((b * x * v) * wm == (b * wm) * k) by (nonlinear_arith)
        requires
            k == x * v,
    ;
    assert((b * wm) * k <= (p * vm) * k) by (nonlinear_arith)
        requires
            b * wm <= p * vm,
            k > 0,
    ;
    assert((p * vm) * k == (p * x) * (vm * v)) by (nonlinear_arith)
        requires
            k == x * v,
    ;
}

/// One more year keeps what is known from below of the years before.
proof fn lemma_step_bounds_below(c: int, b: int, x: int, w: int, wm: int, p: int, v: int, vm: int)
    requires
        x > 0,
        wm > 0,
        v > 0,
        c * w >= b * x * v,
        b * wm >= p * vm,
    ensures
        c * (wm * w) >= (p * x) * (vm * v),
{
    assert((-b) * x * v == -(b * x * v)) by (nonlinear_arith);
    assert((-c) * w == -(c * w)) by (nonlinear_arith);
    assert((-b) * wm == -(b * wm)) by (nonlinear_arith);
    assert((-p) * vm == -(p * vm)) by (nonlinear_arith);
    lemma_step_bounds(-c, -b, x, w, wm, -p, v, vm);
    assert((-c) * (wm * w) == -(c * (wm * w))) by (nonlinear_arith);
    assert(((-p) * x) * (vm * v) == -((p * x) * (vm * v))) by (nonlinear_arith);
}

/// The order of the years changes what rates compound to only by rounding, one
/// part in 2^53 for each year, and the sign not at all.
pub proof fn law_order_of_years_matters_only_in_rounding(a: Seq<Double>, b: Seq<Double>)
    requires
        a.to_multiset() == b.to_multiset(),
        a.len() > 0,
        steady(a),
        steady(b),
    ensures
        market::average_power(a) is Some,
        market::average_power(b) is Some,
        market::average_power(a)->0.exponent == market::average_power(b)->0.exponent,
        within(market::average_power(a)->0.base, market::average_power(b)->0.base, a.len()),
{
    let u = rounding::PRECISION as int;
    let one = double::one_in_steps() as int;
    let n = a.len();
    vstd::seq_lib::to_multiset_len(a);
    vstd::seq_lib::to_multiset_len(b);
    let f = |grown: int, rate: Double| grown * rounding::steps(factor(rate).magnitude());
    assert forall|x: Double, y: Double, v: int| #[trigger] f(f(v, x), y) == f(f(v, y), x) by {
        let p = rounding::steps(factor(x).magnitude());
        let q = rounding::steps(factor(y).magnitude());
        assert((v * p) * q == (v * q) * p) by (nonlinear_arith);
    }
    vstd::seq_lib::lemma_fold_left_permutation(a, b, f, 1int);
    assert(exact_product(a) == exact_product(b));
    let g = |negative: bool, rate: Double| negative != factor(rate).negative();
    vstd::seq_lib::lemma_fold_left_permutation(a, b, g, false);
    assert(exact_sign(a) == exact_sign(b));
    law_compounding_is_precise(a);
    law_compounding_is_precise(b);
    proportions::lemma_one();
    let w = one * u;
    assert(w > 0) by (nonlinear_arith)
        requires
            w == one * u,
            one > 0,
            u > 0,
    ;
    lemma_pow_positive(w, n);
    lemma_pow_positive(u + 1, n);
    lemma_pow_positive(u - 1, n);
    let x = rounding::steps(market::compounded(a).magnitude()) as int;
    let y = rounding::steps(market::compounded(b).magnitude()) as int;
    let p = exact_product(a) * one;
    lemma_within(x, y, pow(w, n), p, pow(u - 1, n), pow(u + 1, n));
    lemma_within(y, x, pow(w, n), p, pow(u - 1, n), pow(u + 1, n));
}

/// Inflation depends on the last four reported years only, and on their order
/// only by rounding, whatever years stand between and before them, as long as
/// what they compound to overflows in neither order.
pub proof fn law_inflation_depends_on_the_last_four_reported_years(
    doc: JsonView,
    other: JsonView,
    entries: Seq<JsonView>,
    other_entries: Seq<JsonView>,
)
    requires
        doc.element(1) == Some(JsonView::Array(entries)),
        other.element(1) == Some(JsonView::Array(other_entries)),
        market::readings_among(entries).len() >= 4,
        market::readings_among(other_entries).len() >= 4,
        market::readings_among(entries).take(4).to_multiset() == market::readings_among(
            other_entries,
        ).take(4).to_multiset(),
        market::compounded(market::readings(doc)).finite(),
        market::compounded(market::readings(other)).finite(),
    ensures
        market::average_power(market::readings(doc)) is Some,
        market::average_power(market::readings(other)) is Some,
        market::average_power(market::readings(doc))->0.exponent == market::average_power(
            market::readings(other),
        )->0.exponent,
        within(
            market::average_power(market::readings(doc))->0.base,
            market::average_power(market::readings(other))->0.base,
            4,
        ),
{
    market::law_last_four_reported_years_count(doc, entries);
    market::law_last_four_reported_years_count(other, other_entries);
    law_order_of_years_matters_only_in_rounding(market::readings(doc), market::readings(other));
}

/// What is near the same from above and from below is near each other.
proof fn lemma_within(x: int, y: int, w: int, p: int, low: int, high: int)
    requires
        w > 0,
        low > 0,
        high > 0,
        x * w <= p * high,
        y * w >= p * low,
    ensures
        x * low <= y * high,
{
    assert((x * low) * w <= (p * high) * low) by (nonlinear_arith)
        requires
            x * w <= p * high,
            low > 0,
    ;
    assert((p * high) * low == (p * low) * high) by (nonlinear_arith);
    assert((p * low) * high <= (y * high) * w) by (nonlinear_arith)
        requires
            y * w >= p * low,
            high > 0,
    ;
    assert(x * low <= y * high) by (nonlinear_arith)
        requires
            (x * low) * w <= (y * high) * w,
            w > 0,
    ;
}

} // verus!
