//! What holds of the arithmetic and of the budget as a whole.

use crate::budget::{ExpenseApp, ExpenseView};
use crate::double::Double;
use crate::rates::Rates;
use crate::{budget, decimal, double, naturals, pie, reading, rounding};
use vstd::arithmetic::div_mod::*;
use vstd::arithmetic::power2::*;
use vstd::prelude::*;

verus! {

/// Whole numbers below 2^53 are held exactly.
pub proof fn law_whole_numbers_are_exact(n: nat)
    requires
        n < 2 * rounding::BINADE,
    ensures
        double::whole(n).finite(),
        !double::whole(n).negative(),
        double::whole(n).value() == n * double::one_in_steps(),
{
    let m = rounding::lemma_representable(n, 1074);
    rounding::lemma_nearest_exact(m, 1);
    assert(rounding::steps(m) * 1 == rounding::steps(m));
    assert(n * pow2(1074) == n * double::one_in_steps());
}

/// The order of patterns is the order of what they amount to.
pub(crate) proof fn lemma_steps_monotone(a: nat, b: nat)
    requires
        a <= b,
    ensures
        rounding::steps(a) <= rounding::steps(b),
{
    if a < b {
        rounding::lemma_steps_increase(a, b);
    }
}

/// The sum does not depend on the order of its terms.
pub proof fn law_sum_commutes(a: Double, b: Double)
    ensures
        a.sum(b) == b.sum(a),
{
}

/// The product does not depend on the order of its factors.
pub proof fn law_product_commutes(a: Double, b: Double)
    ensures
        a.product(b) == b.product(a),
{
    let x = rounding::steps(a.magnitude());
    let y = rounding::steps(b.magnitude());
    assert(x * y == y * x) by (nonlinear_arith);
}

/// Multiplying or dividing by one changes nothing.
pub proof fn law_one_is_neutral(x: Double)
    requires
        !x.nan(),
    ensures
        x.product(double::whole(1)) == x,
        x.quotient(double::whole(1)) == x,
{
    law_whole_numbers_are_exact(1);
    let one = double::whole(1);
    lemma_pow2_pos(1074);
    assert(one.magnitude() != 0);
    rounding::lemma_nearest_exact(x.magnitude(), pow2(1074));
}

/// What a sum starts from changes nothing it is added to.
pub proof fn law_nothing_is_neutral(x: Double)
    requires
        !x.nan(),
    ensures
        budget::nothing().sum(x) == x,
{
    rounding::lemma_nearest_exact(x.magnitude(), 1);
    let m = rounding::steps(x.magnitude());
    assert(m * 1 == m);
    if x.magnitude() > 0 {
        rounding::lemma_steps_increase(0, x.magnitude());
    }
}

/// What is taken from itself leaves zero.
pub proof fn law_nothing_is_left_of_equals(x: Double)
    requires
        x.finite(),
    ensures
        x.difference(x) == double::whole(0),
{
    law_whole_numbers_are_exact(0);
    lemma_zero();
}

pub(crate) proof fn lemma_zero()
    ensures
        double::whole(0) == double::signed(false, 0),
        double::whole(0).value() == 0,
{
    rounding::lemma_nearest_exact(0, 1);
    assert(0 * double::one_in_steps() == 0) by (nonlinear_arith);
}

/// The value that `n / d` steps round to.
pub(crate) open spec fn rounded(n: int, d: nat) -> int {
    if n < 0 {
        -(rounding::steps(rounding::capped(rounding::nearest((-n) as nat, d))) as int)
    } else {
        rounding::steps(rounding::capped(rounding::nearest(n as nat, d))) as int
    }
}

pub(crate) proof fn lemma_sum_value(a: Double, b: Double)
    requires
        a.finite(),
        b.finite(),
    ensures
        !a.sum(b).nan(),
        a.sum(b).value() == rounded(a.value() + b.value(), 1),
{
    rounding::lemma_nearest_exact(0, 1);
}

pub(crate) proof fn lemma_rounded_monotone(n1: int, n2: int, d: nat)
    requires
        n1 <= n2,
        d > 0,
    ensures
        rounded(n1, d) <= rounded(n2, d),
{
    if n1 >= 0 {
        rounding::lemma_nearest_monotone(n1 as nat, n2 as nat, d);
        lemma_steps_monotone(
            rounding::capped(rounding::nearest(n1 as nat, d)),
            rounding::capped(rounding::nearest(n2 as nat, d)),
        );
    } else if n2 < 0 {
        rounding::lemma_nearest_monotone((-n2) as nat, (-n1) as nat, d);
        lemma_steps_monotone(
            rounding::capped(rounding::nearest((-n2) as nat, d)),
            rounding::capped(rounding::nearest((-n1) as nat, d)),
        );
    }
}

/// No number lies nearer to `n / d` steps than what they round to, where that
/// is finite.
proof fn lemma_rounded_is_nearest(n: int, d: nat, x: Double)
    requires
        d > 0,
        !x.nan(),
        vstd::math::abs(rounded(n, d)) < rounding::steps(rounding::INFINITE as nat),
    ensures
        vstd::math::abs(rounded(n, d) * d - n) <= vstd::math::abs(x.value() * d - n),
{
    let m = if n < 0 {
        (-n) as nat
    } else {
        n as nat
    };
    let r = rounding::nearest(m, d);
    let s = rounding::steps(r);
    let t = rounding::steps(x.magnitude());
    rounding::lemma_nearest_is_nearest(m, d, x.magnitude());
    rounding::lemma_nearest_is_nearest(m, d, 0);
    assert(0 * d == 0) by (nonlinear_arith);
    assert((-s) * d == -(s * d)) by (nonlinear_arith);
    assert((-t) * d == -(t * d)) by (nonlinear_arith);
    assert(s * d >= 0) by (nonlinear_arith);
    assert(t * d >= 0) by (nonlinear_arith);
}

/// No number lies nearer to the exact sum than the one that the sum is rounded
/// to.
pub proof fn law_sum_is_nearest(a: Double, b: Double, x: Double)
    requires
        a.finite(),
        b.finite(),
        !x.nan(),
        a.sum(b).finite(),
    ensures
        vstd::math::abs(a.sum(b).value() - (a.value() + b.value())) <= vstd::math::abs(
            x.value() - (a.value() + b.value()),
        ),
{
    lemma_sum_value(a, b);
    lemma_infinite_bounds(a.sum(b));
    lemma_rounded_is_nearest(a.value() + b.value(), 1, x);
    assert(a.sum(b).value() * 1 == a.sum(b).value());
    assert(x.value() * 1 == x.value());
}

/// No number lies nearer to the exact product with a positive number than the
/// one that the product is rounded to.
pub proof fn law_product_is_nearest(a: Double, p: Double, x: Double)
    requires
        a.finite(),
        p.finite(),
        p.value() > 0,
        !x.nan(),
        a.product(p).finite(),
    ensures
        vstd::math::abs(a.product(p).value() * double::one_in_steps() - a.value() * p.value())
            <= vstd::math::abs(x.value() * double::one_in_steps() - a.value() * p.value()),
{
    lemma_pow2_pos(1074);
    lemma_product_value(a, p);
    lemma_infinite_bounds(a.product(p));
    lemma_rounded_is_nearest(a.value() * p.value(), double::one_in_steps(), x);
}

/// No number lies nearer to the exact quotient by a positive number than the
/// one that the quotient is rounded to.
pub proof fn law_quotient_is_nearest(a: Double, p: Double, x: Double)
    requires
        a.finite(),
        p.finite(),
        p.value() > 0,
        !x.nan(),
        a.quotient(p).finite(),
    ensures
        vstd::math::abs(a.quotient(p).value() * p.value() - a.value() * double::one_in_steps())
            <= vstd::math::abs(x.value() * p.value() - a.value() * double::one_in_steps()),
{
    lemma_quotient_value(a, p);
    lemma_infinite_bounds(a.quotient(p));
    lemma_rounded_is_nearest(
        a.value() * double::one_in_steps(),
        rounding::steps(p.magnitude()),
        x,
    );
}

/// Adding the same to a greater number gives no smaller sum.
pub proof fn law_sum_is_monotone(a: Double, b: Double, c: Double)
    requires
        a.at_most(b),
        c.finite(),
    ensures
        a.sum(c).at_most(b.sum(c)),
{
    lemma_infinite_bounds(a);
    lemma_infinite_bounds(b);
    if a.finite() && b.finite() {
        lemma_sum_value(a, c);
        lemma_sum_value(b, c);
        lemma_rounded_monotone(a.value() + c.value(), b.value() + c.value(), 1);
    } else {
        if a.finite() {
            lemma_sum_value(a, c);
            lemma_infinite_bounds(a.sum(c));
        }
        if b.finite() {
            lemma_sum_value(b, c);
            lemma_infinite_bounds(b.sum(c));
        }
    }
}

/// The infinities are the extremes.
pub(crate) proof fn lemma_infinite_bounds(a: Double)
    requires
        !a.nan(),
    ensures
        vstd::math::abs(a.value()) <= rounding::steps(rounding::INFINITE as nat),
        a.finite() ==> vstd::math::abs(a.value()) < rounding::steps(rounding::INFINITE as nat),
        rounding::steps(rounding::INFINITE as nat) > 0,
{
    rounding::lemma_steps_increase(0, rounding::INFINITE as nat);
    if a.finite() {
        rounding::lemma_steps_increase(a.magnitude(), rounding::INFINITE as nat);
    }
}

/// What is left of a budget is a number, and not less than zero.
pub proof fn law_left_over_is_never_negative(total_budget: Double, spent: Double)
    ensures
        !budget::left_over(total_budget, spent).nan(),
        budget::left_over(total_budget, spent).value() >= 0,
        double::whole(0).at_most(budget::left_over(total_budget, spent)),
{
    lemma_zero();
}

/// A greater budget never leaves less.
pub proof fn law_more_budget_never_leaves_less(b1: Double, b2: Double, spent: Double)
    requires
        b1.at_most(b2),
        spent.finite(),
    ensures
        budget::left_over(b1, spent).at_most(budget::left_over(b2, spent)),
{
    lemma_zero();
    law_sum_is_monotone(b1, b2, spent.negation());
}

/// Spending more never leaves more.
pub proof fn law_more_spending_never_leaves_more(total_budget: Double, s1: Double, s2: Double)
    requires
        s1.at_most(s2),
        total_budget.finite(),
    ensures
        budget::left_over(total_budget, s2).at_most(budget::left_over(total_budget, s1)),
{
    lemma_zero();
    assert(s2.negation().value() == -s2.value());
    assert(s1.negation().value() == -s1.value());
    law_sum_is_monotone(s2.negation(), s1.negation(), total_budget);
    law_sum_commutes(s1.negation(), total_budget);
    law_sum_commutes(s2.negation(), total_budget);
}

/// A budget of which nothing is spent is left whole.
pub proof fn law_unspent_budget_is_left_whole(total_budget: Double)
    requires
        double::whole(0).below(total_budget),
    ensures
        budget::left_over(total_budget, budget::total(Seq::empty())) == total_budget,
{
    lemma_zero();
    rounding::lemma_nearest_exact(total_budget.magnitude(), 1);
    let m = rounding::steps(total_budget.magnitude());
    assert(m * 1 == m);
}

/// Dropping the last expense undoes planning one more.
pub proof fn law_delete_undoes_add(p: Seq<ExpenseView>)
    ensures
        budget::without_last(budget::with_new(p)) == p,
{
    assert(budget::without_last(budget::with_new(p)) =~= p);
}

/// An expense that is not filled in yet leaves what is left as it was.
pub proof fn law_new_expense_costs_nothing(total_budget: Double, p: Seq<ExpenseView>)
    ensures
        budget::left_over(total_budget, budget::total(budget::with_new(p)))
            == budget::left_over(total_budget, budget::total(p)),
{
    let q = budget::with_new(p);
    let t = budget::total(p);
    assert(q.drop_last() =~= p);
    lemma_zero();
    lemma_plus_zero(t);
    if t == budget::nothing() {
        rounding::lemma_nearest_exact(total_budget.magnitude(), 1);
        let m = rounding::steps(total_budget.magnitude());
        assert(m * 1 == m);
        if total_budget.magnitude() > 0 {
            rounding::lemma_steps_increase(0, total_budget.magnitude());
        }
    }
}

/// A sum that is not a number is the one pattern for that.
proof fn lemma_total_nan(p: Seq<ExpenseView>)
    ensures
        budget::total(p).nan() ==> budget::total(p) == (Double { bits: double::NAN }),
{
}

pub(crate) proof fn lemma_negligible()
    ensures
        double::whole(0).at_most(budget::negligible()),
        budget::nothing().at_most(budget::negligible()),
{
    lemma_zero();
    law_whole_numbers_are_exact(1);
    law_whole_numbers_are_exact(1_000_000);
    lemma_pow2_pos(1074);
    let million = double::whole(1_000_000);
    let one = double::one_in_steps();
    assert(million.value() > 0) by (nonlinear_arith)
        requires
            million.value() == 1_000_000 * one,
            one > 0,
    ;
    lemma_quotient_value(double::whole(1), million);
}

/// An expense that is not filled in yet leaves the pie as it was.
pub proof fn law_new_expense_leaves_the_pie_alone(total_budget: Double, p: Seq<ExpenseView>)
    ensures
        pie::pie_of(
            pie::entries(
                budget::with_new(p),
                budget::left_over(total_budget, budget::total(budget::with_new(p))),
            ),
        ) == pie::pie_of(
            pie::entries(p, budget::left_over(total_budget, budget::total(p))),
        ),
{
    let q = budget::with_new(p);
    let left = budget::left_over(total_budget, budget::total(p));
    law_new_expense_costs_nothing(total_budget, p);
    let t = budget::total(p);
    let u = budget::total(q);
    assert(q.drop_last() =~= p);
    lemma_zero();
    lemma_negligible();
    lemma_plus_zero(t);
    lemma_total_nan(p);
    lemma_total_nan(q);
    if budget::negligible().below(left) {
        let before = pie::entries(p, left);
        let after = pie::entries(q, left);
        assert(before.drop_last() =~= p);
        assert(after.drop_last() =~= q);
        if t == budget::nothing() {
            law_nothing_is_neutral(left);
            rounding::lemma_nearest_exact(left.magnitude(), 1);
            let m = rounding::steps(left.magnitude());
            assert(m * 1 == m);
        }
        let whole = budget::total(before);
        assert(budget::total(after) == whole);
        assert(pie::slices(q, whole) == pie::slices(p, whole));
        assert(pie::slice_of(after.last(), after.len() - 1, whole) == pie::slice_of(
            before.last(),
            before.len() - 1,
            whole,
        ));
        assert(pie::slices(after, whole) == pie::slices(before, whole));
    } else {
        assert(pie::slices(q, t) == pie::slices(p, t));
    }
}

/// Adding zero changes nothing but the sign of a zero, and what is not a
/// number.
proof fn lemma_plus_zero(t: Double)
    ensures
        !t.nan() && t != budget::nothing() ==> t.sum(double::whole(0)) == t,
        t == budget::nothing() ==> t.sum(double::whole(0)) == double::whole(0),
        t.nan() ==> t.sum(double::whole(0)).nan(),
{
    lemma_zero();
    rounding::lemma_nearest_exact(t.magnitude(), 1);
    let m = rounding::steps(t.magnitude());
    assert(m * 1 == m);
    if t.magnitude() > 0 {
        rounding::lemma_steps_increase(0, t.magnitude());
    }
}

pub(crate) proof fn lemma_quotient_value(f: Double, p: Double)
    requires
        f.finite(),
        p.finite(),
        p.value() > 0,
    ensures
        !f.quotient(p).nan(),
        f.quotient(p).value() == rounded(
            f.value() * double::one_in_steps(),
            rounding::steps(p.magnitude()),
        ),
        rounding::steps(p.magnitude()) > 0,
{
    let one = double::one_in_steps();
    let den = rounding::steps(p.magnitude());
    let m = rounding::steps(f.magnitude());
    lemma_pow2_pos(1074);
    rounding::lemma_nearest_exact(0, den);
    assert(0 * den == 0) by (nonlinear_arith);
    assert((-m) * one == -(m * one)) by (nonlinear_arith);
    if m == 0 {
        assert(0 * one == 0) by (nonlinear_arith);
    } else {
        assert(m * one > 0) by (nonlinear_arith)
            requires
                m > 0,
                one > 0,
        ;
    }
}

/// Dividing a greater number by the same positive one gives no smaller
/// quotient.
pub proof fn law_quotient_is_monotone(a: Double, b: Double, p: Double)
    requires
        a.at_most(b),
        p.finite(),
        p.value() > 0,
    ensures
        a.quotient(p).at_most(b.quotient(p)),
{
    lemma_infinite_bounds(a);
    lemma_infinite_bounds(b);
    if a.finite() {
        lemma_quotient_value(a, p);
        lemma_infinite_bounds(a.quotient(p));
    }
    if b.finite() {
        lemma_quotient_value(b, p);
        lemma_infinite_bounds(b.quotient(p));
    }
    if a.finite() && b.finite() {
        let one = double::one_in_steps() as int;
        lemma_pow2_pos(1074);
        assert(a.value() * one <= b.value() * one) by (nonlinear_arith)
            requires
                a.value() <= b.value(),
                one > 0,
        ;
        lemma_rounded_monotone(
            a.value() * one,
            b.value() * one,
            rounding::steps(p.magnitude()),
        );
    }
}

pub(crate) proof fn lemma_product_value(f: Double, p: Double)
    requires
        f.finite(),
        p.finite(),
        p.value() > 0,
    ensures
        !f.product(p).nan(),
        f.product(p).value() == rounded(f.value() * p.value(), double::one_in_steps()),
{
    let one = double::one_in_steps();
    let m = rounding::steps(f.magnitude());
    let n = rounding::steps(p.magnitude());
    lemma_pow2_pos(1074);
    rounding::lemma_nearest_exact(0, one);
    assert(0 * one == 0) by (nonlinear_arith);
    assert((-m) * n == -(m * n)) by (nonlinear_arith);
    if m == 0 {
        assert(0 * n == 0) by (nonlinear_arith);
    } else {
        assert(m * n > 0) by (nonlinear_arith)
            requires
                m > 0,
                n > 0,
        ;
    }
}

/// Multiplying a greater number by the same positive one gives no smaller
/// product.
pub proof fn law_product_is_monotone(a: Double, b: Double, p: Double)
    requires
        a.at_most(b),
        p.finite(),
        p.value() > 0,
    ensures
        a.product(p).at_most(b.product(p)),
{
    lemma_infinite_bounds(a);
    lemma_infinite_bounds(b);
    if a.finite() {
        lemma_product_value(a, p);
        lemma_infinite_bounds(a.product(p));
    }
    if b.finite() {
        lemma_product_value(b, p);
        lemma_infinite_bounds(b.product(p));
    }
    if a.finite() && b.finite() {
        assert(a.value() * p.value() <= b.value() * p.value()) by (nonlinear_arith)
            requires
                a.value() <= b.value(),
                p.value() > 0,
        ;
        lemma_pow2_pos(1074);
        lemma_rounded_monotone(
            a.value() * p.value(),
            b.value() * p.value(),
            double::one_in_steps(),
        );
    }
}

/// The number that an amount of bitcoin shows as.
pub open spec fn number_shown(btc: Double, mode: budget::DisplayMode) -> Option<Double> {
    reading::number_in(budget::amount_text(btc, mode))
}

/// How many units of the last place an amount of bitcoin shows as: hundred
/// millionths of a bitcoin, or satoshis.
pub open spec fn units_shown(btc: Double, mode: budget::DisplayMode) -> int {
    match mode {
        budget::DisplayMode::BTC => if btc.negative() {
            -(decimal::scaled(btc, 8) as int)
        } else {
            decimal::scaled(btc, 8) as int
        },
        budget::DisplayMode::SATS => btc.product(
            double::whole(100_000_000),
        ).integer_part() as int,
    }
}

/// At a price that is not negligible, more money is worth no less bitcoin, and
/// shows as no smaller a number, in whatever unit.
pub proof fn law_more_money_is_worth_no_less(
    a: Double,
    b: Double,
    price: Double,
    mode: budget::DisplayMode,
)
    requires
        a.at_most(b),
        price.finite() || a.finite() && b.finite(),
        budget::negligible().below(price),
    ensures
        budget::worth(a, price).at_most(budget::worth(b, price)),
        units_shown(budget::worth(a, price), mode) <= units_shown(budget::worth(b, price), mode),
        number_shown(budget::worth(a, price), mode) is Some,
        number_shown(budget::worth(b, price), mode) is Some,
        number_shown(budget::worth(a, price), mode)->0.at_most(
            number_shown(budget::worth(b, price), mode)->0,
        ),
{
    lemma_negligible();
    lemma_zero();
    lemma_infinite_bounds(price);
    if price.finite() {
        law_quotient_is_monotone(a, b, price);
    }
    law_more_bitcoin_shows_as_no_less(budget::worth(a, price), budget::worth(b, price), mode);
}

/// More bitcoin shows as no smaller a number, in whatever unit.
pub proof fn law_more_bitcoin_shows_as_no_less(a: Double, b: Double, mode: budget::DisplayMode)
    requires
        a.at_most(b),
    ensures
        units_shown(a, mode) <= units_shown(b, mode),
        number_shown(a, mode) is Some,
        number_shown(b, mode) is Some,
        number_shown(a, mode)->0.at_most(number_shown(b, mode)->0),
{
    match mode {
        budget::DisplayMode::BTC => {
            law_shown_amounts_are_read_back(a, 8);
            law_shown_amounts_are_read_back(b, 8);
            lemma_shown_order(a, b, 8);
            lemma_scaled_order(a, b, 8);
            lemma_scaled_order(b, a, 8);
        },
        budget::DisplayMode::SATS => {
            let sats = double::whole(100_000_000);
            law_whole_numbers_are_exact(100_000_000);
            lemma_pow2_pos(1074);
            assert(sats.value() > 0) by (nonlinear_arith)
                requires
                    sats.value() == 100_000_000 * double::one_in_steps(),
                    double::one_in_steps() > 0,
            ;
            law_product_is_monotone(a, b, sats);
            let u = a.product(sats);
            let v = b.product(sats);
            lemma_integer_part_order(u, v);
            law_numerals_are_read_back(u.integer_part());
            law_numerals_are_read_back(v.integer_part());
            lemma_whole_order(u.integer_part(), v.integer_part());
        },
    }
}

/// A greater magnitude has no fewer units of the last decimal.
pub(crate) proof fn lemma_scaled_order(a: Double, b: Double, decimals: nat)
    ensures
        rounding::steps(a.magnitude()) <= rounding::steps(b.magnitude()) ==> decimal::scaled(
            a,
            decimals,
        ) <= decimal::scaled(b, decimals),
        rounding::steps(a.magnitude()) == 0 ==> decimal::scaled(a, decimals) == 0,
{
    let x = rounding::steps(a.magnitude());
    let y = rounding::steps(b.magnitude());
    let t = naturals::pow10(decimals);
    let one = double::one_in_steps();
    lemma_pow2_pos(1074);
    assert(0 * t == 0) by (nonlinear_arith);
    assert(0 * one == 0) by (nonlinear_arith);
    rounding::lemma_half_even_exact(0, one);
    if x <= y {
        assert(x * t <= y * t) by (nonlinear_arith)
            requires
                x <= y,
        ;
        rounding::lemma_half_even_monotone(x * t, y * t, one);
    }
}

/// A greater number has no smaller integer part.
proof fn lemma_integer_part_order(u: Double, v: Double)
    requires
        u.at_most(v),
    ensures
        u.integer_part() <= v.integer_part(),
{
    lemma_pow2_pos(1074);
    if !u.negative() {
        if v.negative() {
            // Only a zero can be both at least as great and negative.
            assert(u.value() == 0);
            lemma_basic_div(0, double::one_in_steps() as int);
        } else {
            lemma_div_is_ordered(u.value(), v.value(), double::one_in_steps() as int);
        }
    }
}

/// A greater whole number is held as no smaller a number.
proof fn lemma_whole_order(m: nat, n: nat)
    requires
        m <= n,
    ensures
        double::whole(m).at_most(double::whole(n)),
{
    let one = double::one_in_steps();
    assert(m * one <= n * one) by (nonlinear_arith)
        requires
            m <= n,
    ;
    rounding::lemma_nearest_monotone(m * one, n * one, 1);
    lemma_steps_monotone(
        rounding::capped(rounding::nearest(m * one, 1)),
        rounding::capped(rounding::nearest(n * one, 1)),
    );
}

/// The number that `a` with the given number of decimals denotes.
pub open spec fn denoted(a: Double, decimals: nat) -> Double {
    if a.infinite() {
        a
    } else {
        reading::decimal_number(a.negative(), decimal::scaled(a, decimals), -(decimals as int))
    }
}

/// A number with decimals is a fraction by a power of ten.
proof fn lemma_decimal_fraction(negative: bool, m: nat, decimals: nat)
    ensures
        reading::decimal_number(negative, m, -(decimals as int)) == double::signed(
            negative,
            rounding::capped(
                rounding::nearest(m * double::one_in_steps(), naturals::pow10(decimals)),
            ),
        ),
{
    if decimals == 0 {
        assert(naturals::pow10(0) == 1);
        assert(m * 1 == m) by (nonlinear_arith);
    }
}

/// A greater magnitude, with the same number of decimals, denotes no smaller
/// magnitude.
proof fn lemma_shown_magnitude_order(a: Double, b: Double, decimals: nat)
    requires
        !a.nan(),
        !b.nan(),
        rounding::steps(a.magnitude()) <= rounding::steps(b.magnitude()),
    ensures
        !denoted(a, decimals).nan(),
        !denoted(b, decimals).nan(),
        denoted(a, decimals).negative() == a.negative(),
        denoted(b, decimals).negative() == b.negative(),
        rounding::steps(denoted(a, decimals).magnitude()) <= rounding::steps(
            denoted(b, decimals).magnitude(),
        ),
{
    let one = double::one_in_steps();
    let t = naturals::pow10(decimals);
    lemma_infinite_bounds(a);
    lemma_infinite_bounds(b);
    lemma_infinite_bounds(denoted(a, decimals));
    if b.finite() {
        let m = decimal::scaled(a, decimals);
        let n = decimal::scaled(b, decimals);
        naturals::lemma_pow10_positive(decimals);
        lemma_scaled_order(a, b, decimals);
        assert(m * one <= n * one) by (nonlinear_arith)
            requires
                m <= n,
        ;
        rounding::lemma_nearest_monotone(m * one, n * one, t);
        lemma_decimal_fraction(a.negative(), m, decimals);
        lemma_decimal_fraction(b.negative(), n, decimals);
        lemma_steps_monotone(
            rounding::capped(rounding::nearest(m * one, t)),
            rounding::capped(rounding::nearest(n * one, t)),
        );
    }
}

/// A greater number, with the same number of decimals, denotes no smaller one.
proof fn lemma_shown_order(a: Double, b: Double, decimals: nat)
    requires
        a.at_most(b),
    ensures
        denoted(a, decimals).at_most(denoted(b, decimals)),
{
    if rounding::steps(a.magnitude()) <= rounding::steps(b.magnitude()) {
        lemma_shown_magnitude_order(a, b, decimals);
    }
    if rounding::steps(b.magnitude()) <= rounding::steps(a.magnitude()) {
        lemma_shown_magnitude_order(b, a, decimals);
    }
    if b.negative() && !a.negative() {
        // Only zeros are in this order.
        assert(rounding::steps(a.magnitude()) == 0 && rounding::steps(b.magnitude()) == 0);
        lemma_zero_shown(a, decimals);
        lemma_zero_shown(b, decimals);
    }
}

/// A zero denotes a zero.
proof fn lemma_zero_shown(a: Double, decimals: nat)
    requires
        rounding::steps(a.magnitude()) == 0,
    ensures
        denoted(a, decimals).value() == 0,
{
    let t = naturals::pow10(decimals);
    naturals::lemma_pow10_positive(decimals);
    lemma_infinite_bounds(Double { bits: rounding::INFINITE });
    lemma_scaled_order(a, a, decimals);
    lemma_decimal_fraction(a.negative(), 0, decimals);
    assert(0 * t == 0) by (nonlinear_arith);
    assert(0 * double::one_in_steps() == 0) by (nonlinear_arith);
    rounding::lemma_nearest_exact(0, t);
}

/// An amount in decimal notation is read as the number that its digits denote.
pub proof fn law_shown_amounts_are_read_back(a: Double, decimals: nat)
    requires
        !a.nan(),
    ensures
        reading::number_in(decimal::fixed_text(a, decimals)) == Some(denoted(a, decimals)),
{
    let text = decimal::fixed_text(a, decimals);
    let body = if a.infinite() {
        "inf"@
    } else {
        decimal::pointed(decimal::scaled(a, decimals), decimals)
    };
    reveal_strlit("-");
    reveal_strlit("inf");
    reveal_strlit("infinity");
    reveal_strlit("nan");
    if a.infinite() {
        assert(reading::lowered(body) =~= body);
    } else {
        lemma_pointed(a.negative(), decimal::scaled(a, decimals), decimals);
        assert(reading::lowered(body)[0] == body[0]);
    }
    if a.negative() {
        assert(text.drop_first() =~= body);
    }
    assert(reading::unsigned(text) == body);
    assert(reading::has_minus(text) == a.negative());
}

/// A number with a decimal point starts with a digit, and its digits denote it.
proof fn lemma_pointed(negative: bool, n: nat, decimals: nat)
    ensures
        decimal::pointed(n, decimals).len() > 0,
        reading::is_digit(decimal::pointed(n, decimals)[0]),
        reading::digits_in(negative, decimal::pointed(n, decimals)) == Some(
            reading::decimal_number(negative, n, -(decimals as int)),
        ),
{
    let t = naturals::pow10(decimals);
    let s = decimal::pointed(n, decimals);
    let whole = decimal::numeral(n / t);
    let a = whole.len() as int;
    naturals::lemma_pow10_positive(decimals);
    lemma_fundamental_div_mod(n as int, t as int);
    lemma_numeral(n / t);
    assert forall|j: int| 0 <= j < a implies reading::is_digit(#[trigger] s[j]) by {
        assert(s[j] == whole[j]);
    }
    assert(s[0] == whole[0]);
    reading::lemma_run(s, 0);
    assert(s.take(a) =~= whole);
    if decimals == 0 {
        assert(n / 1 == n);
        assert(s.take(a) + Seq::<char>::empty() =~= whole);
        assert(s.skip(a) =~= Seq::<char>::empty());
    } else {
        let fraction = decimal::padded(n % t, decimals);
        lemma_padded(whole, n % t, decimals);
        reveal_strlit(".");
        assert(s[a] == '.');
        assert(!reading::is_digit(s[a]));
        assert(reading::run(s, 0) == a);
        assert forall|j: int| a + 1 <= j < s.len() implies reading::is_digit(#[trigger] s[j]) by {
            assert(s[j] == fraction[j - a - 1]);
        }
        reading::lemma_run(s, a + 1);
        assert(reading::run(s, a + 1) == s.len());
        assert(s.subrange(a + 1, s.len() as int) =~= fraction);
        assert(s.skip(s.len() as int) =~= Seq::<char>::empty());
        assert(t * (n / t) == (n / t) * t) by (nonlinear_arith);
    }
}

/// Padded digits after others denote the two numbers together.
pub(crate) proof fn lemma_padded(front: Seq<char>, m: nat, width: nat)
    requires
        m < naturals::pow10(width),
    ensures
        decimal::padded(m, width).len() == width,
        forall|i: int|
            0 <= i < width ==> reading::is_digit(#[trigger] decimal::padded(m, width)[i]),
        reading::digits_number(front + decimal::padded(m, width)) == reading::digits_number(front)
            * naturals::pow10(width) + m,
    decreases width,
{
    let s = decimal::padded(m, width);
    if width == 0 {
        assert(front + s =~= front);
        assert(naturals::pow10(0) == 1);
        assert(reading::digits_number(front) * 1 == reading::digits_number(front));
    } else {
        let w = (width - 1) as nat;
        let before = decimal::padded(m / 10, w);
        assert(naturals::pow10(width) == 10 * naturals::pow10(w));
        lemma_padded(front, m / 10, w);
        assert((front + s).drop_last() =~= front + before);
        assert((front + s).last() == decimal::digit_char(m % 10));
        let d = reading::digits_number(front);
        let t = naturals::pow10(w);
        assert(10 * (d * t) == d * (10 * t)) by (nonlinear_arith);
    }
}

/// Without a price, no amount is worth any bitcoin.
pub proof fn law_without_price_nothing_is_worth_anything(app: ExpenseApp, fiat: Double)
    requires
        app.btc_prices.rate(app.selected_currency) is None,
    ensures
        budget::worth(fiat, app.price()) == double::whole(0),
        budget::hard_text(budget::worth(fiat, app.price()), budget::DisplayMode::SATS)
            == "0 SATS"@,
{
    lemma_zero();
    law_whole_numbers_are_exact(1);
    law_whole_numbers_are_exact(1_000_000);
    law_whole_numbers_are_exact(100_000_000);
    lemma_pow2_pos(1074);
    let one = double::one_in_steps();
    let million = double::whole(1_000_000);
    assert(million.value() > 0) by (nonlinear_arith)
        requires
            million.value() == 1_000_000 * one,
            one > 0,
    ;
    lemma_quotient_value(double::whole(1), million);
    let zero = double::whole(0);
    let sats = double::whole(100_000_000);
    assert(0 * rounding::steps(sats.magnitude()) == 0) by (nonlinear_arith);
    rounding::lemma_nearest_exact(0, one);
    assert(0 * one == 0) by (nonlinear_arith);
    assert(zero.product(sats) == double::signed(false, 0));
    lemma_basic_div(0, one as int);
    reveal_strlit(" SATS");
    reveal_strlit("0 SATS");
    assert(decimal::numeral(0) + " SATS"@ =~= "0 SATS"@);
}

/// An amount is shown within half a unit of its last decimal.
pub proof fn law_shown_amount_is_nearest(a: Double, decimals: nat)
    ensures
        2 * vstd::math::abs(
            decimal::scaled(a, decimals) * double::one_in_steps() - rounding::steps(a.magnitude())
                * naturals::pow10(decimals),
        ) <= double::one_in_steps(),
{
    let n = rounding::steps(a.magnitude()) * naturals::pow10(decimals);
    let d = double::one_in_steps();
    lemma_pow2_pos(1074);
    lemma_fundamental_div_mod(n as int, d as int);
    let q = n / d;
    assert(q * d == d * q) by (nonlinear_arith);
    assert((q + 1) * d == d * q + d) by (nonlinear_arith);
}

/// A whole number in decimal notation is read as that number.
pub proof fn law_numerals_are_read_back(n: nat)
    ensures
        reading::number_in(decimal::numeral(n)) == Some(double::whole(n)),
{
    let s = decimal::numeral(n);
    lemma_numeral(n);
    assert(reading::is_digit(s[0]));
    assert(reading::unsigned(s) == s);
    assert(reading::lowered(s)[0] == s[0]);
    reveal_strlit("inf");
    reveal_strlit("infinity");
    reveal_strlit("nan");
    reading::lemma_run(s, 0);
    assert(s.take(s.len() as int) + Seq::<char>::empty() =~= s);
    assert(s.skip(s.len() as int) =~= Seq::<char>::empty());
    assert(naturals::pow10(0) == 1);
    assert(n * 1 == n);
}

/// A numeral consists of digits, and these denote the number.
proof fn lemma_numeral(n: nat)
    ensures
        decimal::numeral(n).len() > 0,
        forall|i: int|
            0 <= i < decimal::numeral(n).len() ==> reading::is_digit(
                #[trigger] decimal::numeral(n)[i],
            ),
        reading::digits_number(decimal::numeral(n)) == n,
    decreases n,
{
    let s = decimal::numeral(n);
    if n < 10 {
        assert(s.drop_last() =~= Seq::<char>::empty());
        assert(reading::digits_number(s.drop_last()) == 0);
    } else {
        lemma_numeral(n / 10);
        assert(s.drop_last() =~= decimal::numeral(n / 10));
    }
}

/// A frame that has started asks for nothing when it is started again.
pub proof fn law_nothing_is_asked_twice(app: ExpenseApp, now: u128)
    requires
        app.wf(),
    ensures
        app.begun(now).wf(),
        !app.begun(now).due(now).prices,
        !app.begun(now).due(now).macro_data,
        app.begun(now).begun(now) == app.begun(now),
{
}

/// While a reply is awaited, it is not asked for again, however much later.
pub proof fn law_one_request_at_a_time(app: ExpenseApp, now: u128)
    ensures
        app.prices_awaited ==> !app.due(now).prices,
        app.macro_awaited ==> !app.due(now).macro_data,
{
}

/// Prices are asked for again exactly where the reply had none.
pub proof fn law_prices_are_asked_for_until_known(app: ExpenseApp, prices: Rates, now: u128)
    requires
        app.prices_awaited,
    ensures
        app.priced(prices).due(now).prices == prices.empty(),
{
}

/// Inflation and growth are kept for an hour, and then asked for again.
pub proof fn law_macro_data_is_kept_for_an_hour(
    app: ExpenseApp,
    inflation: Rates,
    btc_cagr: Double,
    received: u128,
    now: u128,
)
    requires
        app.wf(),
        app.macro_awaited,
    ensures
        app.informed(inflation, btc_cagr, received).wf(),
        app.informed(inflation, btc_cagr, received).due(now).macro_data == (now - received
            > budget::REFRESH_NANOS),
{
}

/// Market data leaves what is planned as it is.
pub proof fn law_market_data_leaves_the_plan_alone(
    app: ExpenseApp,
    prices: Rates,
    inflation: Rates,
    btc_cagr: Double,
    now: u128,
)
    ensures
        app.begun(now).left() == app.left(),
        app.begun(now).expenses == app.expenses,
        app.priced(prices).left() == app.left(),
        app.priced(prices).expenses == app.expenses,
        app.informed(inflation, btc_cagr, now).left() == app.left(),
        app.informed(inflation, btc_cagr, now).expenses == app.expenses,
{
}

/// Every slice of the pie is that of an entry which is not negligible.
pub proof fn law_every_slice_is_of_an_entry(data: Seq<ExpenseView>, whole: Double, j: int)
    requires
        0 <= j < pie::slices(data, whole).len(),
    ensures
        exists|i: int|
            0 <= i < data.len() && !(#[trigger] data[i]).amount.at_most(budget::negligible())
                && pie::slices(data, whole)[j] == pie::slice_of(data[i], i, whole),
    decreases data.len(),
{
    let before = data.drop_last();
    let last = data.len() - 1;
    if j < pie::slices(before, whole).len() {
        law_every_slice_is_of_an_entry(before, whole, j);
        let i = choose|i: int|
            0 <= i < before.len() && !(#[trigger] before[i]).amount.at_most(budget::negligible())
                && pie::slices(before, whole)[j] == pie::slice_of(before[i], i, whole);
        assert(data[i] == before[i]);
    } else {
        assert(data[last] == data.last());
    }
}

/// Every entry of the pie that is not negligible has a slice.
pub proof fn law_every_entry_has_a_slice(data: Seq<ExpenseView>, whole: Double, i: int)
    requires
        0 <= i < data.len(),
        !data[i].amount.at_most(budget::negligible()),
    ensures
        exists|j: int|
            0 <= j < pie::slices(data, whole).len() && #[trigger] pie::slices(data, whole)[j]
                == pie::slice_of(data[i], i, whole),
    decreases data.len(),
{
    let before = data.drop_last();
    let all = pie::slices(data, whole);
    if i < before.len() {
        law_every_entry_has_a_slice(before, whole, i);
        let j = choose|j: int|
            0 <= j < pie::slices(before, whole).len() && #[trigger] pie::slices(before, whole)[j]
                == pie::slice_of(before[i], i, whole);
        assert(all[j] == pie::slices(before, whole)[j]);
    } else {
        assert(all[all.len() - 1] == pie::slice_of(data[i], i, whole));
    }
}

/// What is left of the budget is in the pie exactly where it is not
/// negligible, and comes last.
pub proof fn law_what_is_left_comes_last(expenses: Seq<ExpenseView>, left: Double)
    ensures
        budget::negligible().below(left) ==> pie::entries(expenses, left).last() == (ExpenseView {
            name: "Remaining"@,
            amount: left,
        }) && pie::entries(expenses, left).drop_last() == expenses,
        !budget::negligible().below(left) ==> pie::entries(expenses, left) == expenses,
{
    if budget::negligible().below(left) {
        assert(pie::entries(expenses, left).drop_last() =~= expenses);
    }
}

/// Prices that have not fallen leave money no more purchasing power than it
/// had.
pub proof fn law_inflation_adds_no_purchasing_power(money: Double, inflated: Double)
    requires
        !money.nan(),
        !money.negative(),
        money.finite() || inflated.finite(),
        double::whole(1).at_most(inflated),
    ensures
        money.quotient(inflated).at_most(money),
{
    law_whole_numbers_are_exact(1);
    let one = double::one_in_steps();
    lemma_pow2_pos(1074);
    if money.finite() && inflated.finite() {
        let n = rounding::steps(money.magnitude());
        let d = rounding::steps(inflated.magnitude());
        lemma_quotient_value(money, inflated);
        assert(n * one <= n * d) by (nonlinear_arith)
            requires
                one <= d,
                n >= 0,
        ;
        assert(money.value() == n);
        assert(n * one >= 0) by (nonlinear_arith);
        rounding::lemma_nearest_monotone(n * one, n * d, d);
        rounding::lemma_nearest_exact(money.magnitude(), d);
        lemma_steps_monotone(
            rounding::capped(rounding::nearest(n * one, d)),
            money.magnitude(),
        );
    }
}

/// A price of bitcoin that has not fallen leaves it no less purchasing power
/// than it had.
pub proof fn law_growth_takes_no_purchasing_power(money: Double, appreciated: Double)
    requires
        !money.nan(),
        !money.negative(),
        money.value() > 0 || appreciated.finite(),
        double::whole(1).at_most(appreciated),
    ensures
        money.at_most(money.product(appreciated)),
{
    law_whole_numbers_are_exact(1);
    let one = double::one_in_steps();
    lemma_pow2_pos(1074);
    let g = rounding::steps(appreciated.magnitude());
    assert(appreciated.magnitude() != 0);
    lemma_infinite_bounds(money);
    if money.finite() && appreciated.finite() {
        let n = rounding::steps(money.magnitude());
        lemma_product_value(money, appreciated);
        assert(n * one <= n * g) by (nonlinear_arith)
            requires
                one <= g,
                n >= 0,
        ;
        assert(money.value() * appreciated.value() == n * g);
        assert(n * g >= 0) by (nonlinear_arith);
        rounding::lemma_nearest_monotone(n * one, n * g, one);
        rounding::lemma_nearest_exact(money.magnitude(), one);
        lemma_steps_monotone(
            money.magnitude(),
            rounding::capped(rounding::nearest(n * g, one)),
        );
    }
}

/// The more prices have grown, the less purchasing power money is left with:
/// down the projection, that of fiat money never grows.
pub proof fn law_more_inflation_leaves_no_more(money: Double, i1: Double, i2: Double)
    requires
        !money.nan(),
        !money.negative(),
        money.finite() || i2.finite(),
        i1.value() > 0,
        i1.at_most(i2),
    ensures
        money.quotient(i2).at_most(money.quotient(i1)),
{
    lemma_infinite_bounds(i1);
    lemma_infinite_bounds(i2);
    if i1.finite() && money.finite() {
        lemma_quotient_value(money, i1);
    }
    if money.finite() && i2.finite() {
        let one = double::one_in_steps();
        let n = rounding::steps(money.magnitude());
        let d1 = rounding::steps(i1.magnitude());
        let d2 = rounding::steps(i2.magnitude());
        lemma_quotient_value(money, i1);
        lemma_quotient_value(money, i2);
        assert(n * one * d1 <= n * one * d2) by (nonlinear_arith)
            requires
                d1 <= d2,
                n >= 0,
                one >= 0,
        ;
        assert(d1 * d2 == d2 * d1) by (nonlinear_arith);
        assert(d1 * d2 > 0) by (nonlinear_arith)
            requires
                d1 > 0,
                d2 > 0,
        ;
        rounding::lemma_nearest_scale(n * one, d2, d1);
        rounding::lemma_nearest_scale(n * one, d1, d2);
        rounding::lemma_nearest_monotone(n * one * d1, n * one * d2, d1 * d2);
        assert(n * one >= 0) by (nonlinear_arith);
        lemma_steps_monotone(
            rounding::capped(rounding::nearest(n * one, d2)),
            rounding::capped(rounding::nearest(n * one, d1)),
        );
    }
}

/// The more the price of bitcoin has grown, the more purchasing power it has:
/// down the projection, that of bitcoin never falls.
pub proof fn law_more_growth_leaves_no_less(money: Double, g1: Double, g2: Double)
    requires
        !money.nan(),
        money.value() >= 0,
        money.value() == 0 ==> g1.finite() && g2.finite(),
        money.infinite() ==> g1.value() != 0 && g2.value() != 0,
        g1.at_most(g2),
    ensures
        money.product(g1).at_most(money.product(g2)),
{
    lemma_infinite_bounds(money);
    lemma_infinite_bounds(g1);
    lemma_infinite_bounds(g2);
    if money.infinite() {
        assert(g1.magnitude() != 0 && g2.magnitude() != 0);
    } else if money.value() == 0 {
        lemma_nothing_times(money, g1);
        lemma_nothing_times(money, g2);
    } else {
        law_product_commutes(money, g1);
        law_product_commutes(money, g2);
        law_product_is_monotone(g1, g2, money);
    }
}

/// Nothing, however many times, is nothing.
proof fn lemma_nothing_times(zero: Double, g: Double)
    requires
        zero.finite(),
        zero.value() == 0,
        g.finite(),
    ensures
        !zero.product(g).nan(),
        zero.product(g).value() == 0,
{
    let one = double::one_in_steps();
    let n = rounding::steps(g.magnitude());
    lemma_pow2_pos(1074);
    rounding::lemma_nearest_exact(0, one);
    assert(0 * one == 0) by (nonlinear_arith);
    assert(0 * n == 0) by (nonlinear_arith);
}

} // verus!
