//! The lines of text in which the budget is shown.

use crate::budget::ExpenseApp;
use crate::currency::Currency;
use crate::double::Double;
use crate::{budget, decimal, double};
use vstd::prelude::*;
use vstd::string::*;

verus! {

/// A line of the budget summary: what, in fiat money, in bitcoin.
pub struct Row {
    pub name: String,
    pub fiat: String,
    pub hard: String,
}

/// A line as a mathematical value.
pub struct RowView {
    pub name: Seq<char>,
    pub fiat: Seq<char>,
    pub hard: Seq<char>,
}

impl View for Row {
    type V = RowView;

    open spec fn view(&self) -> RowView {
        RowView { name: self.name@, fiat: self.fiat@, hard: self.hard@ }
    }
}

/// A line of the projection: after how long, and the purchasing power then of
/// fiat money and of bitcoin.
pub struct Projection {
    pub years: String,
    pub fiat: String,
    pub btc: String,
}

/// A line of the projection as a mathematical value.
pub struct ProjectionView {
    pub years: Seq<char>,
    pub fiat: Seq<char>,
    pub btc: Seq<char>,
}

impl View for Projection {
    type V = ProjectionView;

    open spec fn view(&self) -> ProjectionView {
        ProjectionView { years: self.years@, fiat: self.fiat@, btc: self.btc@ }
    }
}

/// An amount of fiat money, as shown.
pub open spec fn fiat_text(amount: Double, c: Currency) -> Seq<char> {
    decimal::fixed_text(amount, 2) + " "@ + c.label_text()
}

/// An amount of fiat money, as shown.
pub fn fmt_fiat(amount: Double, c: Currency) -> (r: String)
    ensures
        r@ == fiat_text(amount, c),
{
    let mut text = decimal::fixed(amount, 2);
    text.append(" ");
    text.append(c.label());
    text
}

/// A rate in percent, as shown.
pub open spec fn percent_text(rate: Double) -> Seq<char> {
    decimal::fixed_text(rate.product(double::whole(100)), 2) + "%"@
}

/// A rate in percent, as shown.
pub fn fmt_percent(rate: Double) -> (r: String)
    ensures
        r@ == percent_text(rate),
{
    let mut text = decimal::fixed(rate.times(Double::from_count(100)), 2);
    text.append("%");
    text
}

/// The years for which purchasing power is projected.
pub open spec fn horizon() -> Seq<u32> {
    seq![1, 4, 5, 10, 15, 20, 25, 30]
}

/// The years for which purchasing power is projected.
pub fn years() -> (r: Vec<u32>)
    ensures
        r@ == horizon(),
{
    let r: Vec<u32> = vec![1, 4, 5, 10, 15, 20, 25, 30];
    proof {
        assert(r@ =~= horizon());
    }
    r
}

/// A number of years, as shown.
pub open spec fn years_text(y: nat) -> Seq<char> {
    decimal::numeral(y) + " Year"@ + if y > 1 {
        "s"@
    } else {
        ""@
    }
}

/// A number of years, as shown.
pub fn fmt_years(y: u32) -> (r: String)
    ensures
        r@ == years_text(y as nat),
{
    let mut text = decimal::numeral_text(y as u64);
    text.append(" Year");
    text.append(
        if y > 1 {
            "s"
        } else {
            ""
        },
    );
    text
}

impl ExpenseApp {
    /// The line of the summary for an amount of the selected currency.
    pub open spec fn row_of(self, name: Seq<char>, amount: Double) -> RowView {
        RowView {
            name,
            fiat: fiat_text(amount, self.selected_currency),
            hard: budget::hard_text(budget::worth(amount, self.price()), self.display_mode),
        }
    }

    /// The heading with the price of a bitcoin, without its fraction.
    pub open spec fn price_heading_text(self) -> Seq<char> {
        "BTC Price: "@ + decimal::numeral(self.price().integer_part()) + " "@
            + self.selected_currency.label_text()
    }

    /// The heading with the price of a bitcoin, without its fraction.
    pub fn price_heading(&self) -> (r: String)
        ensures
            r@ == self.price_heading_text(),
    {
        let mut text: String = "BTC Price: ".to_owned();
        text.append(decimal::numeral_text(self.btc_price().to_integer()).as_str());
        text.append(" ");
        text.append(self.selected_currency.label());
        text
    }

    /// The heading of the column with amounts of fiat money.
    pub fn value_heading(&self) -> (r: String)
        ensures
            r@ == self.selected_currency.label_text() + " Value"@,
    {
        let mut text: String = self.selected_currency.label().to_owned();
        text.append(" Value");
        text
    }

    /// The heading of the column with the purchasing power of fiat money.
    pub fn power_heading(&self) -> (r: String)
        ensures
            r@ == self.selected_currency.label_text() + " Purchasing Power"@,
    {
        let mut text: String = self.selected_currency.label().to_owned();
        text.append(" Purchasing Power");
        text
    }

    /// The line of the summary for an amount of the selected currency.
    pub fn row(&self, name: &str, amount: Double) -> (r: Row)
        ensures
            r@ == self.row_of(name@, amount),
    {
        Row {
            name: name.to_owned(),
            fiat: fmt_fiat(amount, self.selected_currency),
            hard: self.fmt_hard(self.btc_value(amount)),
        }
    }

    /// The lines of the summary for the planned expenses.
    pub fn expense_rows(&self) -> (r: Vec<Row>)
        ensures
            r@.len() == self.expenses@.len(),
            forall|i: int|
                0 <= i < r@.len() ==> (#[trigger] r@[i])@ == self.row_of(
                    self.expenses@[i].name@,
                    self.expenses@[i].amount,
                ),
    {
        let mut rows: Vec<Row> = Vec::new();
        let mut i: usize = 0;
        while i < self.expenses.len()
            invariant
                i <= self.expenses.len(),
                rows@.len() == i,
                forall|j: int|
                    0 <= j < i ==> (#[trigger] rows@[j])@ == self.row_of(
                        self.expenses@[j].name@,
                        self.expenses@[j].amount,
                    ),
            decreases self.expenses.len() - i,
        {
            let e = &self.expenses[i];
            rows.push(self.row(e.name.as_str(), e.amount));
            i = i + 1;
        }
        rows
    }

    /// The line of the summary for what is spent.
    pub fn spent_row(&self) -> (r: Row)
        ensures
            r@ == self.row_of("Spent"@, self.spending()),
    {
        self.row("Spent", self.spent())
    }

    /// The line of the summary for what is left.
    pub fn remaining_row(&self) -> (r: Row)
        ensures
            r@ == self.row_of("Remaining"@, self.left()),
    {
        self.row("Remaining", self.remaining())
    }

    /// The line that says what is left in bitcoin.
    pub fn banner(&self) -> (r: String)
        ensures
            r@ == "YOU HAVE "@ + budget::hard_text(
                budget::worth(self.left(), self.price()),
                self.display_mode,
            ) + " IN HARD MONEY REMAINING!"@,
    {
        let mut text: String = "YOU HAVE ".to_owned();
        text.append(self.fmt_hard(self.btc_value(self.remaining())).as_str());
        text.append(" IN HARD MONEY REMAINING!");
        text
    }

    /// The line with the rates that the projection assumes.
    pub fn rates_line(&self) -> (r: String)
        ensures
            r@ == "Inflation: "@ + percent_text(self.inflation(self.selected_currency))
                + " | BTC CAGR: "@ + percent_text(self.btc_cagr_4y),
    {
        let mut text: String = "Inflation: ".to_owned();
        text.append(fmt_percent(self.inflation_rate_for(self.selected_currency)).as_str());
        text.append(" | BTC CAGR: ");
        text.append(fmt_percent(self.btc_cagr_4y).as_str());
        text
    }

    /// What prices grow by in a year.
    pub fn inflation_growth(&self) -> (r: Double)
        ensures
            r == double::whole(1).sum(self.inflation(self.selected_currency)),
    {
        Double::from_count(1).plus(self.inflation_rate_for(self.selected_currency))
    }

    /// What the price of a bitcoin grows by in a year.
    pub fn btc_growth(&self) -> (r: Double)
        ensures
            r == double::whole(1).sum(self.btc_cagr_4y),
    {
        Double::from_count(1).plus(self.btc_cagr_4y)
    }

    /// The line of the projection for `y` years, after which prices have grown
    /// by `inflated` and the price of a bitcoin by `appreciated`.
    pub fn projection(&self, y: u32, inflated: Double, appreciated: Double) -> (r: Projection)
        ensures
            r@ == (ProjectionView {
                years: years_text(y as nat),
                fiat: fiat_text(self.left().quotient(inflated), self.selected_currency),
                btc: fiat_text(self.left().product(appreciated), self.selected_currency),
            }),
    {
        let remaining = self.remaining();
        Projection {
            years: fmt_years(y),
            fiat: fmt_fiat(remaining.over(inflated), self.selected_currency),
            btc: fmt_fiat(remaining.times(appreciated), self.selected_currency),
        }
    }
}

} // verus!
