//! What depends on proportions alone, and how near to exact proportions
//! rounding stays.

use crate::budget::ExpenseView;
use crate::double::Double;
use crate::pie::SliceView;
use crate::{budget, double, laws, pie, rounding};
use vstd::arithmetic::power2::*;
use vstd::prelude::*;

verus! {

/// Whether `b` is `2^j` times `a`, and both are finite.
pub open spec fn magnified(a: Double, b: Double, j: nat) -> bool {
    &&& a.finite()
    &&& b.finite()
    &&& a.negative() == b.negative()
    &&& b.value() == a.value() * pow2(j)
}

/// Whether the expenses `b` are called like the expenses `a`, and each amounts
/// to `2^j` times as much.
pub open spec fn all_magnified(a: Seq<ExpenseView>, b: Seq<ExpenseView>, j: nat) -> bool {
    &&& a.len() == b.len()
    &&& forall|i: int|
        0 <= i < a.len() ==> (#[trigger] b[i]).name == a[i].name && magnified(
            a[i].amount,
            b[i].amount,
            j,
        )
}

/// Whether two amounts are both negligible, or both not.
pub open spec fn alike(a: Double, b: Double) -> bool {
    a.at_most(budget::negligible()) == b.at_most(budget::negligible())
}

/// Whether at each place the expenses are both negligible, or both not.
pub open spec fn all_alike(a: Seq<ExpenseView>, b: Seq<ExpenseView>) -> bool {
    forall|i: int| 0 <= i < a.len() ==> alike(a[i].amount, (#[trigger] b[i]).amount)
}

/// A sum of terms that are `2^j` times as great is `2^j` times as great.
proof fn lemma_sum_magnified(a1: Double, b1: Double, a2: Double, b2: Double, j: nat)
    requires
        magnified(a1, b1, j),
        magnified(a2, b2, j),
        b1.sum(b2).finite(),
    ensures
        magnified(a1.sum(a2), b1.sum(b2), j),
{
    let w = pow2(j);
    lemma_pow2_pos(j);
    let x = a1.value() + a2.value();
    let y = b1.value() + b2.value();
    assert(y == x * w) by (nonlinear_arith)
        requires
            y == a1.value() * w + a2.value() * w,
            x == a1.value() + a2.value(),
    ;
    assert((-x) * w == -(x * w)) by (nonlinear_arith);
    assert(x == 0 <==> y == 0) by (nonlinear_arith)
        requires
            y == x * w,
            w > 0,
    ;
    assert(x < 0 <==> y < 0) by (nonlinear_arith)
        requires
            y == x * w,
            w > 0,
    ;
    if x == 0 {
        assert(0 * w == 0) by (nonlinear_arith);
    } else {
        let n = if x < 0 {
            (-x) as nat
        } else {
            x as nat
        };
        let near = rounding::nearest(n, 1);
        let far = rounding::nearest(n * w, 1);
        rounding::lemma_nearest_times_power(n, j);
        let s = rounding::steps(near);
        assert(s <= s * w) by (nonlinear_arith)
            requires
                w >= 1,
                s >= 0,
        ;
        assert((-s) * w == -(s * w)) by (nonlinear_arith);
        if near > far {
            rounding::lemma_steps_increase(far, near);
        }
        assert(b1.sum(b2).magnitude() == far);
        assert(a1.sum(a2).magnitude() == near);
    }
}

/// Amounts that are `2^j` times as great add up to `2^j` times as much.
proof fn lemma_total_magnified(a: Seq<ExpenseView>, b: Seq<ExpenseView>, j: nat)
    requires
        all_magnified(a, b, j),
        budget::total(b).finite(),
    ensures
        magnified(budget::total(a), budget::total(b), j),
    decreases a.len(),
{
    if a.len() == 0 {
        assert(0 * pow2(j) == 0) by (nonlinear_arith);
    } else {
        let p = a.drop_last();
        let q = b.drop_last();
        assert(b[b.len() - 1].name == a[a.len() - 1].name);
        assert forall|i: int| 0 <= i < p.len() implies (#[trigger] q[i]).name == p[i].name
            && magnified(p[i].amount, q[i].amount, j) by {
            assert(q[i] == b[i]);
        }
        lemma_total_magnified(p, q, j);
        lemma_sum_magnified(
            budget::total(p),
            budget::total(q),
            a.last().amount,
            b.last().amount,
            j,
        );
    }
}

/// A quotient does not depend on the magnitude that numerator and denominator
/// share.
pub proof fn law_quotient_depends_on_the_proportion(a: Double, b: Double, c: Double, d: Double)
    requires
        a.finite(),
        b.finite(),
        c.finite(),
        d.finite(),
        b.value() > 0,
        d.value() > 0,
        a.negative() == c.negative(),
        a.value() * d.value() == c.value() * b.value(),
    ensures
        a.quotient(b) == c.quotient(d),
{
    let one = double::one_in_steps();
    let x = rounding::steps(a.magnitude());
    let y = rounding::steps(b.magnitude());
    let z = rounding::steps(c.magnitude());
    let t = rounding::steps(d.magnitude());
    assert((-x) * t == -(x * t)) by (nonlinear_arith);
    assert((-z) * y == -(z * y)) by (nonlinear_arith);
    assert((x * one) * t == (z * one) * y) by (nonlinear_arith)
        requires
            x * t == z * y,
    ;
    assert(y * t == t * y) by (nonlinear_arith);
    rounding::lemma_nearest_scale(x * one, y, t);
    rounding::lemma_nearest_scale(z * one, t, y);
}

/// Slices of entries that are `2^j` times as great, of a whole that is `2^j`
/// times as great, are the same.
proof fn lemma_slices_magnified(
    a: Seq<ExpenseView>,
    b: Seq<ExpenseView>,
    j: nat,
    whole: Double,
    greater: Double,
)
    requires
        all_magnified(a, b, j),
        all_alike(a, b),
        magnified(whole, greater, j),
        whole.value() > 0,
    ensures
        pie::slices(a, whole) == pie::slices(b, greater),
    decreases a.len(),
{
    if a.len() > 0 {
        let p = a.drop_last();
        let q = b.drop_last();
        let x = a.last().amount;
        let y = b.last().amount;
        let w = pow2(j);
        assert(b[b.len() - 1].name == a[a.len() - 1].name);
        assert forall|i: int| 0 <= i < p.len() implies (#[trigger] q[i]).name == p[i].name
            && magnified(p[i].amount, q[i].amount, j) && alike(p[i].amount, q[i].amount) by {
            assert(q[i] == b[i]);
        }
        lemma_slices_magnified(p, q, j, whole, greater);
        lemma_pow2_pos(j);
        assert(greater.value() > 0) by (nonlinear_arith)
            requires
                greater.value() == whole.value() * w,
                whole.value() > 0,
                w > 0,
        ;
        assert(x.value() * greater.value() == y.value() * whole.value()) by (nonlinear_arith)
            requires
                y.value() == x.value() * w,
                greater.value() == whole.value() * w,
        ;
        law_quotient_depends_on_the_proportion(x, whole, y, greater);
    }
}

/// Entries that are `2^j` times as great have the same pie, unless the
/// difference makes some of them negligible.
pub proof fn law_magnified_entries_have_the_same_pie(
    a: Seq<ExpenseView>,
    b: Seq<ExpenseView>,
    j: nat,
)
    requires
        all_magnified(a, b, j),
        all_alike(a, b),
        budget::total(b).finite(),
        alike(budget::total(a), budget::total(b)),
    ensures
        pie::pie_of(a) == pie::pie_of(b),
{
    lemma_total_magnified(a, b, j);
    laws::lemma_negligible();
    laws::lemma_zero();
    if !budget::total(a).at_most(budget::negligible()) {
        lemma_slices_magnified(a, b, j, budget::total(a), budget::total(b));
    }
}

/// A budget and expenses that are `2^j` times as great have the same pie,
/// unless the difference makes some amount negligible.
pub proof fn law_magnified_budget_has_the_same_pie(
    budget_a: Double,
    a: Seq<ExpenseView>,
    budget_b: Double,
    b: Seq<ExpenseView>,
    j: nat,
)
    requires
        magnified(budget_a, budget_b, j),
        all_magnified(a, b, j),
        budget_b.difference(budget::total(b)).finite(),
        ({
            let p = pie::entries(a, budget::left_over(budget_a, budget::total(a)));
            let q = pie::entries(b, budget::left_over(budget_b, budget::total(b)));
            &&& p.len() == q.len()
            &&& all_alike(p, q)
            &&& alike(budget::total(p), budget::total(q))
            &&& budget::total(q).finite()
        }),
    ensures
        pie::pie_of(pie::entries(a, budget::left_over(budget_a, budget::total(a))))
            == pie::pie_of(pie::entries(b, budget::left_over(budget_b, budget::total(b)))),
{
    let s = budget::total(a);
    let t = budget::total(b);
    lemma_total_magnified(a, b, j);
    let w = pow2(j);
    assert((-s.value()) * w == -(s.value() * w)) by (nonlinear_arith);
    lemma_sum_magnified(budget_a, budget_b, s.negation(), t.negation(), j);
    let rest_a = budget_a.difference(s);
    let rest_b = budget_b.difference(t);
    lemma_pow2_pos(j);
    laws::lemma_zero();
    assert(rest_a.value() > 0 <==> rest_b.value() > 0) by (nonlinear_arith)
        requires
            rest_b.value() == rest_a.value() * w,
            w > 0,
    ;
    assert(0 * w == 0) by (nonlinear_arith);
    let p = pie::entries(a, budget::left_over(budget_a, s));
    let q = pie::entries(b, budget::left_over(budget_b, t));
    assert forall|i: int| 0 <= i < p.len() implies (#[trigger] q[i]).name == p[i].name
        && magnified(p[i].amount, q[i].amount, j) by {
        if i < a.len() {
            assert(q[i] == b[i]);
        }
    }
    law_magnified_entries_have_the_same_pie(p, q, j);
}

/// Whether all amounts are finite and none is negative.
pub open spec fn payable(data: Seq<ExpenseView>) -> bool {
    forall|i: int|
        0 <= i < data.len() ==> (#[trigger] data[i]).amount.finite() && data[i].amount.value() >= 0
}

/// The exact sum of the amounts, in steps.
pub open spec fn exact_total(data: Seq<ExpenseView>) -> int
    decreases data.len(),
{
    if data.len() == 0 {
        0
    } else {
        exact_total(data.drop_last()) + data.last().amount.value()
    }
}

/// What is rounded from a sum of numbers that are not negative.
proof fn lemma_sum_near(a: Double, b: Double)
    requires
        a.finite(),
        b.finite(),
        a.value() >= 0,
        b.value() >= 0,
        a.sum(b).finite(),
    ensures
        a.sum(b).value() >= a.value(),
        a.sum(b).value() >= b.value(),
        rounding::PRECISION * vstd::math::abs(a.sum(b).value() - (a.value() + b.value()))
            <= a.value() + b.value(),
{
    let n = a.value() + b.value();
    laws::lemma_sum_value(a, b);
    laws::lemma_infinite_bounds(a.sum(b));
    rounding::lemma_nearest_error_whole(n as nat);
    lemma_value_is_exact(a);
    lemma_value_is_exact(b);
    laws::lemma_rounded_monotone(a.value(), n, 1);
    laws::lemma_rounded_monotone(b.value(), n, 1);
}

/// A finite number that is not negative rounds to itself.
proof fn lemma_value_is_exact(a: Double)
    requires
        a.finite(),
        a.value() >= 0,
    ensures
        laws::rounded(a.value(), 1) == a.value(),
{
    rounding::lemma_nearest_exact(a.magnitude(), 1);
    let m = rounding::steps(a.magnitude());
    assert(m * 1 == m);
}

/// Adding up in order is precise to two parts in 2^53 for each amount, and
/// gives no less than any of them.
proof fn lemma_total_near(data: Seq<ExpenseView>)
    requires
        payable(data),
        budget::total(data).finite(),
        2 * data.len() <= rounding::PRECISION,
    ensures
        budget::total(data).value() >= 0,
        exact_total(data) >= 0,
        rounding::PRECISION * vstd::math::abs(budget::total(data).value() - exact_total(data)) <= 2
            * data.len() * exact_total(data),
        forall|i: int|
            0 <= i < data.len() ==> (#[trigger] data[i]).amount.value() <= budget::total(
                data,
            ).value() && data[i].amount.value() <= exact_total(data),
    decreases data.len(),
{
    if data.len() > 0 {
        let p = data.drop_last();
        let a = data.last().amount;
        assert(data[data.len() - 1].amount == a);
        assert forall|i: int| 0 <= i < p.len() implies (#[trigger] p[i]).amount.finite()
            && p[i].amount.value() >= 0 by {
            assert(p[i] == data[i]);
        }
        lemma_total_near(p);
        let before = budget::total(p);
        lemma_sum_near(before, a);
        let t = before.value();
        let e = exact_total(p);
        let n = data.len() as int;
        let u = rounding::PRECISION as int;
        let x = vstd::math::abs(t - e);
        assert(u * x <= u * e) by (nonlinear_arith)
            requires
                u * x <= 2 * (n - 1) * e,
                2 * n <= u,
                e >= 0,
        ;
        assert(x <= e) by (nonlinear_arith)
            requires
                u * x <= u * e,
                u > 0,
        ;
        let y = vstd::math::abs(budget::total(data).value() - (t + a.value()));
        let z = vstd::math::abs(budget::total(data).value() - exact_total(data));
        assert(u * z <= u * x + u * y) by (nonlinear_arith)
            requires
                z <= x + y,
                u > 0,
        ;
        let all = exact_total(data);
        assert(2 * (n - 1) * e + 2 * all <= 2 * n * all) by (nonlinear_arith)
            requires
                e <= all,
                n >= 1,
        ;
        assert forall|i: int| 0 <= i < data.len() implies (#[trigger] data[i]).amount.value()
            <= budget::total(data).value() && data[i].amount.value() <= exact_total(data) by {
            if i < p.len() {
                assert(p[i] == data[i]);
            }
        }
    }
}

/// A share of a pie is at most the whole, and within `2n + 2` parts in 2^53 of
/// the exact proportion, where there are `n` entries.
pub proof fn law_share_is_near_the_proportion(data: Seq<ExpenseView>, i: int)
    requires
        payable(data),
        budget::total(data).finite(),
        budget::total(data).value() > 0,
        2 * data.len() <= rounding::PRECISION,
        0 <= i < data.len(),
    ensures
        ({
            let share = data[i].amount.quotient(budget::total(data));
            let all = exact_total(data);
            let one = double::one_in_steps();
            &&& all > 0
            &&& share.finite()
            &&& 0 <= share.value() <= one
            &&& rounding::PRECISION * vstd::math::abs(
                share.value() * all - data[i].amount.value() * one,
            ) <= (2 * data.len() + 2) * (all * one)
        }),
{
    let u = rounding::PRECISION as int;
    let one = double::one_in_steps() as int;
    let n = data.len() as int;
    let whole = budget::total(data);
    let t = whole.value();
    let e = exact_total(data);
    let a = data[i].amount.value();
    let share = data[i].amount.quotient(whole);
    let s = share.value();
    lemma_total_near(data);
    lemma_one();
    laws::lemma_quotient_value(data[i].amount, whole);
    assert(0 <= a * one <= one * t) by (nonlinear_arith)
        requires
            0 <= a <= t,
            one > 0,
    ;
    let m = double::whole(1).magnitude();
    rounding::lemma_nearest_exact(m, t as nat);
    rounding::lemma_nearest_monotone((a * one) as nat, (one * t) as nat, t as nat);
    rounding::lemma_nearest_error_at_most((a * one) as nat, t as nat);
    laws::lemma_steps_monotone(rounding::nearest((a * one) as nat, t as nat), m);
    let x = vstd::math::abs(t - e);
    assert(u * x <= u * e) by (nonlinear_arith)
        requires
            u * x <= 2 * n * e,
            2 * n <= u,
            e >= 0,
    ;
    assert(x <= e) by (nonlinear_arith)
        requires
            u * x <= u * e,
            u > 0,
    ;
    assert(u * t <= one * e) by (nonlinear_arith)
        requires
            0 <= t <= 2 * e,
            2 * u <= one,
            u > 0,
    ;
    assert(a * one <= e * one) by (nonlinear_arith)
        requires
            a <= e,
            one > 0,
    ;
    let y = vstd::math::abs(s * t - a * one);
    let z = vstd::math::abs(s * e - a * one);
    assert(vstd::math::abs(s * e - s * t) == s * x) by (nonlinear_arith)
        requires
            x == vstd::math::abs(t - e),
            s >= 0,
    ;
    assert(u * z <= u * y + s * (u * x)) by (nonlinear_arith)
        requires
            z <= y + s * x,
            u > 0,
    ;
    assert(s * (u * x) <= one * (2 * n * e)) by (nonlinear_arith)
        requires
            0 <= s <= one,
            0 <= u * x <= 2 * n * e,
    ;
    assert(one * (2 * n * e) + 2 * (e * one) == (2 * n + 2) * (e * one)) by (nonlinear_arith);
}

/// One, and how much greater than 2^53 steps it is.
pub(crate) proof fn lemma_one()
    ensures
        double::whole(1).finite(),
        rounding::steps(double::whole(1).magnitude()) == double::one_in_steps(),
        2 * rounding::PRECISION <= double::one_in_steps(),
{
    laws::law_whole_numbers_are_exact(1);
    lemma2_to64_rest();
    lemma_pow2_strictly_increases(54, 1074);
}

/// Two fractions `s` and `t` of one that are within `k` parts in 2^53 of the
/// same proportion are within `2k` parts of each other.
proof fn lemma_near_each_other(s: int, x: int, all_x: int, t: int, y: int, all_y: int, k: int)
    requires
        all_x > 0,
        all_y > 0,
        x * all_y == y * all_x,
        rounding::PRECISION * vstd::math::abs(s * all_x - x * double::one_in_steps()) <= k * (all_x
            * double::one_in_steps()),
        rounding::PRECISION * vstd::math::abs(t * all_y - y * double::one_in_steps()) <= k * (all_y
            * double::one_in_steps()),
    ensures
        rounding::PRECISION * vstd::math::abs(s - t) <= 2 * k * double::one_in_steps(),
{
    let u = rounding::PRECISION as int;
    let one = double::one_in_steps() as int;
    let p = s * all_x - x * one;
    let q = t * all_y - y * one;
    let area = all_x * all_y;
    assert(area > 0) by (nonlinear_arith)
        requires
            all_x > 0,
            all_y > 0,
            area == all_x * all_y,
    ;
    assert(p * all_y == s * area - (x * all_y) * one) by (nonlinear_arith)
        requires
            p == s * all_x - x * one,
            area == all_x * all_y,
    ;
    assert(q * all_x == t * area - (y * all_x) * one) by (nonlinear_arith)
        requires
            q == t * all_y - y * one,
            area == all_x * all_y,
    ;
    assert((s - t) * area == s * area - t * area) by (nonlinear_arith);
    let f = vstd::math::abs(p);
    let g = vstd::math::abs(q);
    let h = vstd::math::abs(s - t);
    assert(h * area == vstd::math::abs((s - t) * area)) by (nonlinear_arith)
        requires
            h == vstd::math::abs(s - t),
            area > 0,
    ;
    assert(f * all_y == vstd::math::abs(p * all_y)) by (nonlinear_arith)
        requires
            f == vstd::math::abs(p),
            all_y > 0,
    ;
    assert(g * all_x == vstd::math::abs(q * all_x)) by (nonlinear_arith)
        requires
            g == vstd::math::abs(q),
            all_x > 0,
    ;
    assert((u * f) * all_y <= (k * one) * area) by (nonlinear_arith)
        requires
            u * f <= k * (all_x * one),
            all_y > 0,
            area == all_x * all_y,
    ;
    assert((u * g) * all_x <= (k * one) * area) by (nonlinear_arith)
        requires
            u * g <= k * (all_y * one),
            all_x > 0,
            area == all_x * all_y,
    ;
    assert((u * h) * area <= (u * f) * all_y + (u * g) * all_x) by (nonlinear_arith)
        requires
            h * area <= f * all_y + g * all_x,
            u > 0,
    ;
    assert(u * h <= 2 * (k * one)) by (nonlinear_arith)
        requires
            (u * h) * area <= (k * one) * area + (k * one) * area,
            area > 0,
    ;
    assert(2 * (k * one) == 2 * k * one) by (nonlinear_arith);
}

/// Whether two slices have the same colour and the same label, shares within
/// `k` parts in 2^53 of the whole, and a caption each that shows its own share
/// and stands where that share has it.
pub open spec fn near(x: SliceView, y: SliceView, k: int) -> bool {
    &&& x.color == y.color
    &&& exists|label: Seq<char>|
        x.caption == #[trigger] pie::caption_text(label, x.share) && y.caption == pie::caption_text(
            label,
            y.share,
        )
    &&& x.inside == double::ratio(1, 10).below(x.share)
    &&& y.inside == double::ratio(1, 10).below(y.share)
    &&& rounding::PRECISION * vstd::math::abs(x.share.value() - y.share.value()) <= k
        * double::one_in_steps()
}

/// Whether two pies have as many slices, and these are near each other.
pub open spec fn all_near(x: Seq<SliceView>, y: Seq<SliceView>, k: int) -> bool {
    &&& x.len() == y.len()
    &&& forall|i: int| 0 <= i < x.len() ==> near(#[trigger] x[i], y[i], k)
}

/// Whether the expenses `b` are called like the expenses `a`.
pub open spec fn same_names(a: Seq<ExpenseView>, b: Seq<ExpenseView>) -> bool {
    &&& a.len() == b.len()
    &&& forall|i: int| 0 <= i < a.len() ==> (#[trigger] b[i]).name == a[i].name
}

/// Whether each of the expenses `b` amounts to `num / den` times as much as the
/// one of `a` in its place.
pub open spec fn proportional(
    a: Seq<ExpenseView>,
    b: Seq<ExpenseView>,
    num: nat,
    den: nat,
) -> bool {
    &&& a.len() == b.len()
    &&& forall|i: int|
        0 <= i < a.len() ==> (#[trigger] b[i]).amount.value() * den == a[i].amount.value() * num
}

/// Entries with shares near each other have slices near each other.
proof fn lemma_slices_near(
    a: Seq<ExpenseView>,
    b: Seq<ExpenseView>,
    whole_a: Double,
    whole_b: Double,
    k: int,
)
    requires
        same_names(a, b),
        all_alike(a, b),
        forall|i: int|
            0 <= i < a.len() ==> rounding::PRECISION * vstd::math::abs(
                a[i].amount.quotient(whole_a).value() - (#[trigger] b[i]).amount.quotient(
                    whole_b,
                ).value(),
            ) <= k * double::one_in_steps(),
    ensures
        all_near(pie::slices(a, whole_a), pie::slices(b, whole_b), k),
    decreases a.len(),
{
    if a.len() > 0 {
        let p = a.drop_last();
        let q = b.drop_last();
        assert(b[b.len() - 1].name == a[a.len() - 1].name);
        assert forall|i: int| 0 <= i < p.len() implies (#[trigger] q[i]) == b[i] && p[i] == a[i] by {}
        lemma_slices_near(p, q, whole_a, whole_b, k);
        let x = pie::slice_of(a.last(), a.len() - 1, whole_a);
        let y = pie::slice_of(b.last(), b.len() - 1, whole_b);
        assert(x.caption == pie::caption_text(a.last().name, x.share));
        assert(y.caption == pie::caption_text(a.last().name, y.share));
        assert(near(x, y, k));
    }
}

/// Amounts in proportion add up in proportion.
proof fn lemma_exact_total_proportional(
    a: Seq<ExpenseView>,
    b: Seq<ExpenseView>,
    num: nat,
    den: nat,
)
    requires
        proportional(a, b, num, den),
    ensures
        exact_total(b) * den == exact_total(a) * num,
    decreases a.len(),
{
    if a.len() == 0 {
        assert(0 * den == 0 * num) by (nonlinear_arith);
    } else {
        let p = a.drop_last();
        let q = b.drop_last();
        assert forall|i: int| 0 <= i < p.len() implies (#[trigger] q[i]).amount.value() * den
            == p[i].amount.value() * num by {
            assert(q[i] == b[i]);
        }
        lemma_exact_total_proportional(p, q, num, den);
        let x = a.last().amount.value();
        let y = b.last().amount.value();
        assert(b[b.len() - 1].amount.value() * den == a[a.len() - 1].amount.value() * num);
        assert((exact_total(q) + y) * den == (exact_total(p) + x) * num) by (nonlinear_arith)
            requires
                exact_total(q) * den == exact_total(p) * num,
                y * den == x * num,
        ;
    }
}

/// Where two amounts are in the same proportion as two wholes, each is the same
/// proportion of its whole.
proof fn lemma_cross(x: int, all_x: int, y: int, all_y: int, num: nat, den: nat)
    requires
        den > 0,
        y * den == x * num,
        all_y * den == all_x * num,
    ensures
        x * all_y == y * all_x,
{
    assert((x * all_y) * den == (y * all_x) * den) by (nonlinear_arith)
        requires
            y * den == x * num,
            all_y * den == all_x * num,
    ;
    assert(x * all_y == y * all_x) by (nonlinear_arith)
        requires
            (x * all_y) * den == (y * all_x) * den,
            den > 0,
    ;
}

/// The pie depends on proportions only: entries that are any number of times as
/// great have the same slices, with shares that differ by rounding at most,
/// unless the difference makes some of them negligible.
pub proof fn law_pie_depends_on_proportions(
    a: Seq<ExpenseView>,
    b: Seq<ExpenseView>,
    num: nat,
    den: nat,
)
    requires
        num > 0,
        den > 0,
        same_names(a, b),
        proportional(a, b, num, den),
        payable(a),
        payable(b),
        all_alike(a, b),
        budget::total(a).finite(),
        budget::total(b).finite(),
        alike(budget::total(a), budget::total(b)),
        2 * a.len() <= rounding::PRECISION,
    ensures
        all_near(pie::pie_of(a), pie::pie_of(b), (4 * a.len() + 4) as int),
{
    let whole_a = budget::total(a);
    let whole_b = budget::total(b);
    laws::lemma_negligible();
    laws::lemma_zero();
    if !whole_a.at_most(budget::negligible()) {
        lemma_exact_total_proportional(a, b, num, den);
        let k = (2 * a.len() + 2) as int;
        assert forall|i: int| 0 <= i < a.len() implies rounding::PRECISION * vstd::math::abs(
            a[i].amount.quotient(whole_a).value() - (#[trigger] b[i]).amount.quotient(
                whole_b,
            ).value(),
        ) <= 2 * k * double::one_in_steps() by {
            law_share_is_near_the_proportion(a, i);
            law_share_is_near_the_proportion(b, i);
            let x = a[i].amount.value();
            let y = b[i].amount.value();
            lemma_cross(x, exact_total(a), y, exact_total(b), num, den);
            lemma_near_each_other(
                a[i].amount.quotient(whole_a).value(),
                x,
                exact_total(a),
                b[i].amount.quotient(whole_b).value(),
                y,
                exact_total(b),
                k,
            );
        }
        lemma_slices_near(a, b, whole_a, whole_b, 2 * k);
    }
}

/// The exact amount that the entry of the pie at place `i` stands for: an
/// expense, or what is left of the budget.
spec fn exact_entry(p: Seq<ExpenseView>, total_budget: Double, i: int) -> int {
    if i < p.len() {
        p[i].amount.value()
    } else {
        total_budget.value() - exact_total(p)
    }
}

/// Where something is left of the budget, each share of the pie is near the
/// exact proportion of the budget.
proof fn lemma_share_of_budget(p: Seq<ExpenseView>, total_budget: Double, i: int)
    requires
        payable(p),
        total_budget.finite(),
        budget::total(p).finite(),
        budget::negligible().below(budget::left_over(total_budget, budget::total(p))),
        ({
            let left = budget::left_over(total_budget, budget::total(p));
            &&& left.finite()
            &&& budget::total(pie::entries(p, left)).finite()
        }),
        8 * p.len() + 8 <= rounding::PRECISION,
        0 <= i <= p.len(),
    ensures
        ({
            let data = pie::entries(p, budget::left_over(total_budget, budget::total(p)));
            let share = data[i].amount.quotient(budget::total(data));
            let one = double::one_in_steps();
            &&& total_budget.value() > 0
            &&& rounding::PRECISION * vstd::math::abs(
                share.value() * total_budget.value() - exact_entry(p, total_budget, i) * one,
            ) <= (12 * p.len() + 10) * (total_budget.value() * one)
        }),
{
    let u = rounding::PRECISION as int;
    let one = double::one_in_steps() as int;
    let n = p.len() as int;
    let spent = budget::total(p);
    let left = budget::left_over(total_budget, spent);
    let data = pie::entries(p, left);
    laws::lemma_negligible();
    laws::lemma_zero();
    lemma_one();
    lemma_total_near(p);
    let b = total_budget.value();
    let t = spent.value();
    let s = exact_total(p);
    let l = left.value();
    assert(data.drop_last() =~= p);
    assert(data.last().amount == left);
    assert forall|j: int| 0 <= j < data.len() implies (#[trigger] data[j]).amount.finite()
        && data[j].amount.value() >= 0 by {
        if j < p.len() {
            assert(data[j] == p[j]);
        }
    }
    let e = exact_total(data);
    assert(e == s + l);
    laws::lemma_sum_value(total_budget, spent.negation());
    laws::lemma_infinite_bounds(left);
    let rest = b - t;
    assert(rest > 0) by {
        rounding::lemma_nearest_exact(0, 1);
    }
    rounding::lemma_nearest_error_whole(rest as nat);
    let w = vstd::math::abs(l - rest);
    let x = vstd::math::abs(t - s);
    assert(2 * x <= s) by (nonlinear_arith)
        requires
            u * x <= 2 * n * s,
            4 * n <= u,
            s >= 0,
            x >= 0,
            u > 0,
    ;
    assert(n * s <= n * (2 * b)) by (nonlinear_arith)
        requires
            s <= 2 * b,
            n >= 0,
    ;
    let d = vstd::math::abs(e - b);
    assert(u * d <= u * w + u * x) by (nonlinear_arith)
        requires
            d <= w + x,
            u > 0,
    ;
    assert(2 * n * s <= 4 * (n * b)) by (nonlinear_arith)
        requires
            n * s <= n * (2 * b),
    ;
    let gap = (4 * n + 1) * b;
    assert(gap == 4 * (n * b) + b) by (nonlinear_arith)
        requires
            gap == (4 * n + 1) * b,
    ;
    assert(u * d <= gap);
    assert(d <= b) by (nonlinear_arith)
        requires
            u * d <= (4 * n + 1) * b,
            4 * n + 1 <= u,
            b > 0,
            u > 0,
    ;
    assert(budget::total(data).value() >= left.value()) by {
        lemma_total_near(data);
        assert(data[n].amount == left);
    }
    law_share_is_near_the_proportion(data, i);
    let share = data[i].amount.quotient(budget::total(data)).value();
    let a = data[i].amount.value();
    let exact = exact_entry(p, total_budget, i);
    let y = vstd::math::abs(share * e - a * one);
    let z = vstd::math::abs(share * b - exact * one);
    assert(vstd::math::abs(a - exact) <= d);
    assert(vstd::math::abs(a * one - exact * one) <= one * d) by (nonlinear_arith)
        requires
            vstd::math::abs(a - exact) <= d,
            one > 0,
    ;
    assert(vstd::math::abs(share * b - share * e) <= one * d) by (nonlinear_arith)
        requires
            d == vstd::math::abs(e - b),
            0 <= share <= one,
    ;
    assert(u * z <= u * y + 2 * (one * (u * d))) by (nonlinear_arith)
        requires
            z <= y + 2 * (one * d),
            u > 0,
    ;
    assert(one * (u * d) <= one * gap) by (nonlinear_arith)
        requires
            u * d <= gap,
            one > 0,
    ;
    assert((2 * n + 4) * (e * one) <= (2 * n + 4) * (2 * (b * one))) by (nonlinear_arith)
        requires
            e <= 2 * b,
            one > 0,
            n >= 0,
    ;
    assert((2 * n + 4) * (2 * (b * one)) + 2 * (one * gap) == (12 * n + 10) * (b * one))
        by (nonlinear_arith)
        requires
            gap == (4 * n + 1) * b,
    ;
}

/// The pie of a budget depends on proportions only: a budget and expenses that
/// are any number of times as great have the same slices, with shares that
/// differ by rounding at most, unless the difference makes some amount
/// negligible.
pub proof fn law_pie_of_budget_depends_on_proportions(
    budget_a: Double,
    a: Seq<ExpenseView>,
    budget_b: Double,
    b: Seq<ExpenseView>,
    num: nat,
    den: nat,
)
    requires
        num > 0,
        den > 0,
        budget_a.finite(),
        budget_b.finite(),
        budget_b.value() * den == budget_a.value() * num,
        same_names(a, b),
        proportional(a, b, num, den),
        payable(a),
        payable(b),
        8 * a.len() + 8 <= rounding::PRECISION,
        ({
            let p = pie::entries(a, budget::left_over(budget_a, budget::total(a)));
            let q = pie::entries(b, budget::left_over(budget_b, budget::total(b)));
            &&& p.len() == q.len()
            &&& all_alike(p, q)
            &&& alike(budget::total(p), budget::total(q))
            &&& budget::total(p).finite()
            &&& budget::total(q).finite()
        }),
    ensures
        all_near(
            pie::pie_of(pie::entries(a, budget::left_over(budget_a, budget::total(a)))),
            pie::pie_of(pie::entries(b, budget::left_over(budget_b, budget::total(b)))),
            (24 * a.len() + 20) as int,
        ),
{
    let left_a = budget::left_over(budget_a, budget::total(a));
    let left_b = budget::left_over(budget_b, budget::total(b));
    let p = pie::entries(a, left_a);
    let q = pie::entries(b, left_b);
    let one = double::one_in_steps() as int;
    let n = a.len() as int;
    let k = 12 * n + 10;
    laws::law_left_over_is_never_negative(budget_a, budget::total(a));
    laws::law_left_over_is_never_negative(budget_b, budget::total(b));
    if budget::negligible().below(left_a) {
        assert(p.drop_last() =~= a);
        assert(q.drop_last() =~= b);
        assert(p.last().amount == left_a && q.last().amount == left_b);
        lemma_exact_total_proportional(a, b, num, den);
        let whole_a = budget::total(p);
        let whole_b = budget::total(q);
        assert forall|i: int| 0 <= i < p.len() implies rounding::PRECISION * vstd::math::abs(
            p[i].amount.quotient(whole_a).value() - (#[trigger] q[i]).amount.quotient(
                whole_b,
            ).value(),
        ) <= 2 * k * double::one_in_steps() by {
            lemma_share_of_budget(a, budget_a, i);
            lemma_share_of_budget(b, budget_b, i);
            let x = exact_entry(a, budget_a, i);
            let y = exact_entry(b, budget_b, i);
            if i < n {
                assert(b[i].amount.value() * den == a[i].amount.value() * num);
            } else {
                assert(y * den == x * num) by (nonlinear_arith)
                    requires
                        budget_b.value() * den == budget_a.value() * num,
                        exact_total(b) * den == exact_total(a) * num,
                        x == budget_a.value() - exact_total(a),
                        y == budget_b.value() - exact_total(b),
                ;
            }
            lemma_cross(x, budget_a.value(), y, budget_b.value(), num, den);
            lemma_near_each_other(
                p[i].amount.quotient(whole_a).value(),
                x,
                budget_a.value(),
                q[i].amount.quotient(whole_b).value(),
                y,
                budget_b.value(),
                k,
            );
        }
        assert forall|i: int| 0 <= i < p.len() implies (#[trigger] q[i]).name == p[i].name by {
            if i < n {
                assert(q[i] == b[i]);
            }
        }
        lemma_slices_near(p, q, whole_a, whole_b, 2 * k);
    } else {
        law_pie_depends_on_proportions(a, b, num, den);
        assert((4 * n + 4) * one <= 2 * k * one) by (nonlinear_arith)
            requires
                4 * n + 4 <= 2 * k,
                one >= 0,
        ;
    }
}

} // verus!
