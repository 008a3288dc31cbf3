//! The budget: what is planned, what it is worth in bitcoin, and when market
//! data is asked for.

use crate::currency::Currency;
use crate::decimal;
use crate::double;
use crate::double::Double;
use crate::rates::Rates;
use crate::{promises, proportions, rounding};
use vstd::prelude::*;
use vstd::string::*;

verus! {

/// How long market data other than prices is kept, in nanoseconds: one hour.
pub const REFRESH_NANOS: u128 = 3_600_000_000_000;

/// The unit in which amounts of bitcoin are shown.
#[derive(Clone, Copy, Debug, PartialEq, Eq, Structural)]
pub enum DisplayMode {
    BTC,
    SATS,
}

impl Default for DisplayMode {
    fn default() -> (r: Self)
        ensures
            r == DisplayMode::BTC,
    {
        DisplayMode::BTC
    }
}

impl DisplayMode {
    /// The name of the unit.
    pub open spec fn name_text(self) -> Seq<char> {
        match self {
            DisplayMode::BTC => "BTC"@,
            DisplayMode::SATS => "SATS"@,
        }
    }

    /// The name of the unit.
    pub fn name(self) -> (r: &'static str)
        ensures
            r@ == self.name_text(),
    {
        match self {
            DisplayMode::BTC => "BTC",
            DisplayMode::SATS => "SATS",
        }
    }
}

/// A planned expense.
pub struct Expense {
    pub name: String,
    pub amount: Double,
}

/// A planned expense as a mathematical value.
pub struct ExpenseView {
    pub name: Seq<char>,
    pub amount: Double,
}

impl View for Expense {
    type V = ExpenseView;

    open spec fn view(&self) -> ExpenseView {
        ExpenseView { name: self.name@, amount: self.amount }
    }
}

/// Planned expenses as mathematical values.
pub open spec fn plan(expenses: Seq<Expense>) -> Seq<ExpenseView> {
    expenses.map_values(|e: Expense| e@)
}

/// A plan with one more expense, for the user to fill in.
pub open spec fn with_new(p: Seq<ExpenseView>) -> Seq<ExpenseView> {
    p.push(ExpenseView { name: "New"@, amount: double::whole(0) })
}

/// A plan without its last expense; an empty one stays empty.
pub open spec fn without_last(p: Seq<ExpenseView>) -> Seq<ExpenseView> {
    if p.len() == 0 {
        p
    } else {
        p.drop_last()
    }
}

/// Negative zero, from which a sum starts: it changes nothing it is added to.
pub open spec fn nothing() -> Double {
    double::signed(true, 0)
}

/// The sum of the amounts, added up in order.
pub open spec fn total(expenses: Seq<ExpenseView>) -> Double
    decreases expenses.len(),
{
    if expenses.len() == 0 {
        nothing()
    } else {
        total(expenses.drop_last()).sum(expenses.last().amount)
    }
}

/// The sum of the amounts, added up in order.
pub fn sum_of(expenses: &Vec<Expense>) -> (r: Double)
    ensures
        r == total(plan(expenses@)),
{
    let mut sum = Double::from_count(0).negated();
    proof {
        lemma_negative_zero();
        assert(plan(expenses@).take(0) =~= Seq::<ExpenseView>::empty());
    }
    let mut i: usize = 0;
    while i < expenses.len()
        invariant
            i <= expenses.len(),
            sum == total(plan(expenses@).take(i as int)),
        decreases expenses.len() - i,
    {
        proof {
            let upto = plan(expenses@).take(i + 1);
            assert(upto.drop_last() =~= plan(expenses@).take(i as int));
            assert(upto.last() == expenses@[i as int]@);
        }
        sum = sum.plus(expenses[i].amount);
        i = i + 1;
    }
    proof {
        assert(plan(expenses@).take(expenses@.len() as int) =~= plan(expenses@));
    }
    sum
}

/// Negating zero gives negative zero.
proof fn lemma_negative_zero()
    ensures
        double::whole(0).negation() == nothing(),
{
    rounding::lemma_nearest_exact(0, 1);
    assert(0 * double::one_in_steps() == 0) by (nonlinear_arith);
}

/// An amount of at most this is treated as none.
pub open spec fn negligible() -> Double {
    double::ratio(1, 1_000_000)
}

/// An amount of at most this is treated as none.
pub fn eps() -> (r: Double)
    ensures
        r == negligible(),
{
    Double::fraction(1, 1_000_000)
}

/// The inflation assumed where none is known: three percent.
pub open spec fn assumed_inflation() -> Double {
    double::ratio(3, 100)
}

/// What a price makes of an amount of fiat money, in bitcoin: nothing where
/// the price is negligible.
pub open spec fn worth(fiat: Double, price: Double) -> Double {
    if price.at_most(negligible()) {
        double::whole(0)
    } else {
        fiat.quotient(price)
    }
}

/// The number that an amount of bitcoin is shown by.
pub open spec fn amount_text(btc: Double, mode: DisplayMode) -> Seq<char> {
    match mode {
        DisplayMode::BTC => decimal::fixed_text(btc, 8),
        DisplayMode::SATS => decimal::numeral(
            btc.product(double::whole(100_000_000)).integer_part(),
        ),
    }
}

/// An amount of bitcoin, as shown: a number and the unit.
pub open spec fn hard_text(btc: Double, mode: DisplayMode) -> Seq<char> {
    amount_text(btc, mode) + (match mode {
        DisplayMode::BTC => " BTC"@,
        DisplayMode::SATS => " SATS"@,
    })
}

/// What is left of `budget` after `spent`, but never less than nothing.
pub open spec fn left_over(budget: Double, spent: Double) -> Double {
    let rest = budget.difference(spent);
    if double::whole(0).below(rest) {
        rest
    } else {
        double::whole(0)
    }
}

/// The state of the application.
pub struct ExpenseApp {
    pub total_budget: Double,
    pub expenses: Vec<Expense>,
    /// Prices of a bitcoin.
    pub btc_prices: Rates,
    pub selected_currency: Currency,
    /// Whether a reply with prices is awaited.
    pub prices_awaited: bool,
    /// Yearly inflation.
    pub inflation_rates: Rates,
    /// Yearly growth of the price of a bitcoin over the last four years.
    pub btc_cagr_4y: Double,
    /// Whether a reply with inflation and growth is awaited.
    pub macro_awaited: bool,
    /// When inflation and growth were last received, in nanoseconds.
    pub last_macro_refresh: Option<u128>,
    pub macro_loading: bool,
    pub display_mode: DisplayMode,
}

/// What is to be fetched now.
#[derive(Clone, Copy, Debug, PartialEq, Eq, Structural)]
pub struct Requests {
    pub prices: bool,
    pub macro_data: bool,
}

/// Whether inflation and growth received at `last` are due for a refresh.
pub open spec fn refresh_due(last: Option<u128>, now: u128) -> bool {
    match last {
        None => true,
        Some(t) => now - t > REFRESH_NANOS,
    }
}

impl ExpenseApp {
    /// Inflation and growth are loading while a reply with them is awaited,
    /// and at no other time.
    pub open spec fn wf(self) -> bool {
        self.macro_loading == self.macro_awaited
    }

    /// The requests to make when a frame starts at time `now`.
    pub open spec fn due(self, now: u128) -> Requests {
        Requests {
            prices: !self.prices_awaited && self.btc_prices.empty(),
            macro_data: refresh_due(self.last_macro_refresh, now) && !self.macro_awaited
                && !self.macro_loading,
        }
    }

    /// The state once a frame has started at time `now`, with the requests made
    /// that were due.
    pub open spec fn begun(self, now: u128) -> ExpenseApp {
        let due = self.due(now);
        ExpenseApp {
            prices_awaited: self.prices_awaited || due.prices,
            macro_awaited: self.macro_awaited || due.macro_data,
            macro_loading: self.macro_loading || due.macro_data,
            ..self
        }
    }

    /// The state once a reply with prices has come in.
    pub open spec fn priced(self, prices: Rates) -> ExpenseApp {
        if self.prices_awaited {
            ExpenseApp { btc_prices: prices, prices_awaited: false, ..self }
        } else {
            self
        }
    }

    /// The state once a reply with inflation and growth has come in at time
    /// `now`.
    pub open spec fn informed(self, inflation: Rates, btc_cagr: Double, now: u128) -> ExpenseApp {
        if self.macro_awaited {
            ExpenseApp {
                inflation_rates: inflation,
                btc_cagr_4y: btc_cagr,
                macro_awaited: false,
                last_macro_refresh: Some(now),
                macro_loading: false,
                ..self
            }
        } else {
            self
        }
    }

    /// The price of a bitcoin in the selected currency, zero where unknown.
    pub open spec fn price(self) -> Double {
        match self.btc_prices.rate(self.selected_currency) {
            Some(p) => p,
            None => double::whole(0),
        }
    }

    /// The yearly inflation of `c`.
    pub open spec fn inflation(self, c: Currency) -> Double {
        match self.inflation_rates.rate(c) {
            Some(x) => x,
            None => assumed_inflation(),
        }
    }

    /// What the planned expenses add up to.
    pub open spec fn spending(self) -> Double {
        total(plan(self.expenses@))
    }

    /// What is left of the budget.
    pub open spec fn left(self) -> Double {
        left_over(self.total_budget, self.spending())
    }

    /// The state in which the application starts.
    pub fn new() -> (r: Self)
        ensures
            r.wf(),
            r.total_budget == double::whole(1000),
            plan(r.expenses@) == seq![
                ExpenseView { name: "Rent"@, amount: double::whole(200) },
                ExpenseView { name: "Food"@, amount: double::whole(150) },
            ],
            r.btc_prices.empty(),
            r.selected_currency == Currency::Usd,
            !r.prices_awaited,
            r.inflation_rates.empty(),
            r.btc_cagr_4y == double::whole(0),
            !r.macro_awaited,
            r.last_macro_refresh is None,
            !r.macro_loading,
            r.display_mode == DisplayMode::BTC,
    {
        let mut expenses: Vec<Expense> = Vec::new();
        expenses.push(Expense { name: "Rent".to_owned(), amount: Double::from_count(200) });
        expenses.push(Expense { name: "Food".to_owned(), amount: Double::from_count(150) });
        proof {
            assert(plan(expenses@) =~= seq![
                ExpenseView { name: "Rent"@, amount: double::whole(200) },
                ExpenseView { name: "Food"@, amount: double::whole(150) },
            ]);
        }
        ExpenseApp {
            total_budget: Double::from_count(1000),
            expenses,
            btc_prices: Rates::new(),
            selected_currency: Currency::Usd,
            prices_awaited: false,
            inflation_rates: Rates::new(),
            btc_cagr_4y: Double::from_count(0),
            macro_awaited: false,
            last_macro_refresh: None,
            macro_loading: false,
            display_mode: DisplayMode::BTC,
        }
    }

    /// The yearly inflation of `currency`, three percent where it is unknown.
    pub fn inflation_rate_for(&self, currency: Currency) -> (r: Double)
        ensures
            r == self.inflation(currency),
    {
        match self.inflation_rates.get(currency) {
            Some(x) => x,
            None => Double::fraction(3, 100),
        }
    }

    /// The price of a bitcoin in the selected currency, zero where unknown.
    pub fn btc_price(&self) -> (r: Double)
        ensures
            r == self.price(),
            self.btc_prices.rate(self.selected_currency) matches Some(p) ==> r == p,
            self.btc_prices.rate(self.selected_currency) is None ==> r == double::whole(0),
    {
        match self.btc_prices.get(self.selected_currency) {
            Some(p) => p,
            None => Double::from_count(0),
        }
    }

    /// What an amount of the selected currency is worth in bitcoin.
    pub fn btc_value(&self, fiat: Double) -> (r: Double)
        ensures
            r == worth(fiat, self.price()),
            self.btc_prices.rate(self.selected_currency) matches Some(p) ==> (!p.at_most(
                negligible(),
            ) ==> r == fiat.quotient(p)),
    {
        let p = self.btc_price();
        if p.le(eps()) {
            return Double::from_count(0);
        }
        fiat.over(p)
    }

    /// An amount of bitcoin in the unit that is selected.
    pub fn fmt_hard(&self, btc: Double) -> (r: String)
        ensures
            r@ == hard_text(btc, self.display_mode),
    {
        match self.display_mode {
            DisplayMode::BTC => {
                let mut text = decimal::fixed(btc, 8);
                text.append(" BTC");
                text
            },
            DisplayMode::SATS => {
                let sats = btc.times(Double::from_count(100_000_000)).to_integer();
                let mut text = decimal::numeral_text(sats);
                text.append(" SATS");
                text
            },
        }
    }

    /// What the planned expenses add up to.
    pub fn spent(&self) -> (r: Double)
        ensures
            r == self.spending(),
            r == total(plan(self.expenses@)),
            promises::all_finite(plan(self.expenses@)) && r.finite() && 2 * self.expenses@.len()
                <= rounding::PRECISION ==> rounding::PRECISION * vstd::math::abs(
                r.value() - proportions::exact_total(plan(self.expenses@)),
            ) <= 2 * self.expenses@.len() * promises::exact_size(plan(self.expenses@)),
    {
        let sum = sum_of(&self.expenses);
        proof {
            if promises::all_finite(plan(self.expenses@)) && sum.finite() && 2
                * self.expenses@.len() <= rounding::PRECISION {
                promises::law_sum_is_near_the_exact_sum(plan(self.expenses@));
            }
        }
        sum
    }

    /// What is left of the budget, never less than nothing.
    pub fn remaining(&self) -> (r: Double)
        ensures
            r == self.left(),
    {
        let zero = Double::from_count(0);
        let rest = self.total_budget.minus(self.spent());
        if zero.lt(rest) {
            rest
        } else {
            zero
        }
    }

    /// Plans one more expense, for the user to fill in.
    pub fn add_expense(&mut self)
        ensures
            plan(final(self).expenses@) == with_new(plan(old(self).expenses@)),
            *final(self) == (ExpenseApp { expenses: final(self).expenses, ..*old(self) }),
    {
        self.expenses.push(Expense { name: "New".to_owned(), amount: Double::from_count(0) });
        proof {
            assert(plan(self.expenses@) =~= with_new(plan(old(self).expenses@)));
        }
    }

    /// Drops the last planned expense, if there is one.
    pub fn delete_expense(&mut self)
        ensures
            plan(final(self).expenses@) == without_last(plan(old(self).expenses@)),
            *final(self) == (ExpenseApp { expenses: final(self).expenses, ..*old(self) }),
    {
        self.expenses.pop();
        proof {
            assert(plan(self.expenses@) =~= without_last(plan(old(self).expenses@)));
        }
    }

    /// Starts a frame at time `now`: says what is to be fetched, and from then
    /// on awaits the replies.
    pub fn begin_frame(&mut self, now: u128) -> (r: Requests)
        ensures
            old(self).wf() ==> final(self).wf(),
            r == old(self).due(now),
            *final(self) == old(self).begun(now),
    {
        let prices = !self.prices_awaited && self.btc_prices.is_empty();
        let should_refresh = match self.last_macro_refresh {
            None => true,
            Some(t) => now > t && now - t > REFRESH_NANOS,
        };
        let macro_data = should_refresh && !self.macro_awaited && !self.macro_loading;
        if prices {
            self.prices_awaited = true;
        }
        if macro_data {
            self.macro_loading = true;
            self.macro_awaited = true;
        }
        Requests { prices, macro_data }
    }

    /// Takes a reply with prices, if one is awaited.
    pub fn receive_prices(&mut self, prices: Rates)
        ensures
            *final(self) == old(self).priced(prices),
            old(self).wf() ==> final(self).wf(),
    {
        if self.prices_awaited {
            self.btc_prices = prices;
            self.prices_awaited = false;
        }
    }

    /// Takes a reply with inflation and growth at time `now`, if one is
    /// awaited.
    pub fn receive_macro_data(&mut self, inflation: Rates, btc_cagr: Double, now: u128)
        ensures
            old(self).wf() ==> final(self).wf(),
            *final(self) == old(self).informed(inflation, btc_cagr, now),
    {
        if self.macro_awaited {
            self.inflation_rates = inflation;
            self.btc_cagr_4y = btc_cagr;
            self.macro_awaited = false;
            self.last_macro_refresh = Some(now);
            self.macro_loading = false;
        }
    }
}

} // verus!
