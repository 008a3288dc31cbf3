use satsbudget::budget::{eps, sum_of, DisplayMode, Expense, ExpenseApp, REFRESH_NANOS};
use satsbudget::currency::Currency;
use satsbudget::double::Double;
use satsbudget::rates::Rates;

fn d(x: f64) -> Double {
    Double::from_bits(x.to_bits())
}

fn f(x: Double) -> f64 {
    f64::from_bits(x.to_bits())
}

fn names(app: &ExpenseApp) -> Vec<String> {
    app.expenses.iter().map(|e| e.name.clone()).collect()
}

fn priced(usd: f64) -> ExpenseApp {
    let mut app = ExpenseApp::new();
    app.btc_prices.insert(Currency::Usd, d(usd));
    app
}

fn with_amounts(budget: f64, amounts: &[f64]) -> ExpenseApp {
    let mut app = ExpenseApp::new();
    app.total_budget = d(budget);
    app.expenses = amounts
        .iter()
        .map(|x| Expense { name: "x".to_string(), amount: d(*x) })
        .collect();
    app
}

#[test]
fn a_new_application_has_a_small_plan() {
    let app = ExpenseApp::new();
    assert_eq!(app.total_budget, d(1000.0));
    assert_eq!(names(&app), vec!["Rent", "Food"]);
    assert_eq!(app.expenses[0].amount, d(200.0));
    assert_eq!(app.expenses[1].amount, d(150.0));
    assert_eq!(app.selected_currency, Currency::Usd);
    assert!(app.btc_prices.is_empty());
    assert!(app.inflation_rates.is_empty());
    assert_eq!(app.btc_cagr_4y, d(0.0));
    assert_eq!(app.last_macro_refresh, None);
    assert!(!app.macro_loading && !app.macro_awaited && !app.prices_awaited);
    assert_eq!(app.display_mode, DisplayMode::default());
    assert_eq!(DisplayMode::default(), DisplayMode::BTC);
}

#[test]
fn display_modes_have_names() {
    assert_eq!(DisplayMode::BTC.name(), "BTC");
    assert_eq!(DisplayMode::SATS.name(), "SATS");
}

#[test]
fn unknown_inflation_is_three_percent() {
    let mut app = ExpenseApp::new();
    assert_eq!(app.inflation_rate_for(Currency::Usd), d(0.03));
    app.inflation_rates.insert(Currency::Eur, d(0.021));
    assert_eq!(app.inflation_rate_for(Currency::Eur), d(0.021));
    assert_eq!(app.inflation_rate_for(Currency::Usd), d(0.03));
}

#[test]
fn the_price_is_that_in_the_selected_currency() {
    let mut app = priced(65000.0);
    assert_eq!(app.btc_price(), d(65000.0));
    app.selected_currency = Currency::Chf;
    assert_eq!(app.btc_price(), d(0.0));
}

#[test]
fn money_is_worth_its_quotient_by_the_price() {
    let app = priced(64321.5);
    assert_eq!(app.btc_value(d(650.0)), d(650.0 / 64321.5));
    assert_eq!(app.btc_value(d(-1.0)), d(-1.0 / 64321.5));
}

#[test]
fn money_is_worth_nothing_at_a_negligible_price() {
    assert_eq!(eps(), d(1e-6));
    assert_eq!(ExpenseApp::new().btc_value(d(650.0)), d(0.0));
    assert_eq!(priced(1e-6).btc_value(d(650.0)), d(0.0));
    assert_eq!(priced(-5.0).btc_value(d(650.0)), d(0.0));
    assert_eq!(priced(1.1e-6).btc_value(d(1.0)), d(1.0 / 1.1e-6));
}

#[test]
fn amounts_of_bitcoin_are_shown_in_the_selected_unit() {
    let mut app = ExpenseApp::new();
    assert_eq!(app.fmt_hard(d(0.01)), "0.01000000 BTC");
    assert_eq!(app.fmt_hard(d(1.0 / 3.0)), "0.33333333 BTC");
    app.display_mode = DisplayMode::SATS;
    assert_eq!(app.fmt_hard(d(0.01)), "1000000 SATS");
    assert_eq!(app.fmt_hard(d(0.999999999)), "99999999 SATS");
    assert_eq!(app.fmt_hard(d(-2.0)), "0 SATS");
    assert_eq!(app.fmt_hard(d(f64::INFINITY)), "18446744073709551615 SATS");
    for x in [0.00012345, 0.5, 20.999999999, 1e-9] {
        let sats = (x * 100_000_000.0) as u64;
        assert_eq!(app.fmt_hard(d(x)), format!("{} SATS", sats));
    }
}

#[test]
fn spending_is_summed_in_order() {
    let amounts = [0.1, 0.2, 0.3, 1e17, -1e17, 0.7];
    let app = with_amounts(1.0, &amounts);
    let sum: f64 = amounts.iter().sum();
    assert_eq!(app.spent(), d(sum));
    assert_eq!(sum_of(&app.expenses), d(sum));
    let none: [f64; 0] = [];
    let empty: f64 = none.iter().sum();
    assert_eq!(with_amounts(1.0, &none).spent(), d(empty));
}

#[test]
fn what_remains_is_never_negative() {
    assert_eq!(ExpenseApp::new().remaining(), d(650.0));
    assert_eq!(with_amounts(100.0, &[60.0, 60.0]).remaining(), d(0.0));
    assert_eq!(with_amounts(100.0, &[100.0]).remaining(), d(0.0));
    assert_eq!(with_amounts(100.0, &[f64::NAN]).remaining(), d(0.0));
    assert_eq!(with_amounts(0.3, &[0.1, 0.1]).remaining(), d(0.3 - (0.1 + 0.1)));
    assert_eq!(with_amounts(5.0, &[]).remaining(), d(5.0));
}

#[test]
fn deleting_undoes_adding() {
    let mut app = ExpenseApp::new();
    let left = app.remaining();
    app.add_expense();
    assert_eq!(names(&app), vec!["Rent", "Food", "New"]);
    assert_eq!(app.expenses[2].amount, d(0.0));
    assert_eq!(app.remaining(), left);
    app.delete_expense();
    assert_eq!(names(&app), vec!["Rent", "Food"]);
    app.delete_expense();
    app.delete_expense();
    app.delete_expense();
    assert!(app.expenses.is_empty());
}

#[test]
fn more_budget_leaves_more_and_more_spending_leaves_less() {
    let a = with_amounts(100.0, &[30.0]).remaining();
    let b = with_amounts(120.0, &[30.0]).remaining();
    let c = with_amounts(100.0, &[45.5]).remaining();
    assert!(a.le(b));
    assert!(c.le(a));
}

#[test]
fn more_money_is_more_satoshis() {
    let mut app = priced(64321.5);
    app.display_mode = DisplayMode::SATS;
    assert!(app.btc_value(d(10.0)).le(app.btc_value(d(10.01))));
    assert_eq!(app.fmt_hard(app.btc_value(d(10.0))), "15546 SATS");
    assert_eq!(app.fmt_hard(app.btc_value(d(10.01))), "15562 SATS");
}

#[test]
fn requests_are_made_once() {
    let mut app = ExpenseApp::new();
    let first = app.begin_frame(5);
    assert!(first.prices && first.macro_data);
    assert!(app.prices_awaited && app.macro_awaited && app.macro_loading);
    let second = app.begin_frame(REFRESH_NANOS * 10);
    assert!(!second.prices && !second.macro_data);
}

#[test]
fn prices_are_asked_for_until_they_are_known() {
    let mut app = ExpenseApp::new();
    app.begin_frame(0);
    app.receive_prices(Rates::new());
    assert!(!app.prices_awaited);
    assert!(app.begin_frame(1).prices);
    let mut prices = Rates::new();
    prices.insert(Currency::Usd, d(65000.0));
    app.receive_prices(prices);
    assert_eq!(app.btc_price(), d(65000.0));
    assert!(!app.begin_frame(2).prices);
    // A reply that nobody awaits changes nothing.
    app.receive_prices(Rates::new());
    assert_eq!(app.btc_price(), d(65000.0));
}

#[test]
fn macro_data_is_refreshed_after_an_hour() {
    let mut app = ExpenseApp::new();
    app.begin_frame(0);
    let mut inflation = Rates::new();
    inflation.insert(Currency::Usd, d(0.04));
    app.receive_macro_data(inflation, d(0.25), 7);
    assert_eq!(app.inflation_rate_for(Currency::Usd), d(0.04));
    assert_eq!(app.btc_cagr_4y, d(0.25));
    assert_eq!(app.last_macro_refresh, Some(7));
    assert!(!app.macro_loading && !app.macro_awaited);
    assert!(!app.begin_frame(8).macro_data);
    assert!(!app.begin_frame(7 + 3_600_000_000_000).macro_data);
    assert!(!app.begin_frame(3).macro_data);
    assert!(app.begin_frame(8 + 3_600_000_000_000).macro_data);
    assert!(app.macro_loading);
    app.receive_macro_data(Rates::new(), d(0.0), 9);
    assert!(app.inflation_rates.is_empty());
    // A reply that nobody awaits changes nothing.
    app.receive_macro_data(inflation, d(0.25), 10);
    assert!(app.inflation_rates.is_empty());
    assert_eq!(app.last_macro_refresh, Some(9));
    assert_eq!(f(app.btc_cagr_4y), 0.0);
}

#[test]
fn more_bitcoin_never_shows_as_less() {
    let mut app = ExpenseApp::new();
    let amounts =
        [f64::NEG_INFINITY, -1.5, -1e-9, -0.0, 0.0, 4e-9, 6e-9, 0.1, 0.10000000499, 21e6, 1e30, f64::INFINITY];
    for mode in [DisplayMode::BTC, DisplayMode::SATS] {
        app.display_mode = mode;
        let shown: Vec<f64> = amounts
            .iter()
            .map(|x| app.fmt_hard(d(*x)).split(' ').next().unwrap().parse::<f64>().unwrap())
            .collect();
        assert!(shown.windows(2).all(|w| w[0] <= w[1]));
    }
}
