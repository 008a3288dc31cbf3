use satsbudget::budget::{DisplayMode, ExpenseApp};
use satsbudget::currency::Currency;
use satsbudget::double::Double;
use satsbudget::report::{fmt_fiat, fmt_percent, fmt_years, years};

fn d(x: f64) -> Double {
    Double::from_bits(x.to_bits())
}

fn f(x: Double) -> f64 {
    f64::from_bits(x.to_bits())
}

fn app() -> ExpenseApp {
    let mut app = ExpenseApp::new();
    app.selected_currency = Currency::Gbp;
    app.btc_prices.insert(Currency::Gbp, d(50000.75));
    app.inflation_rates.insert(Currency::Gbp, d(0.0375));
    app.btc_cagr_4y = d(0.4);
    app
}

#[test]
fn headings() {
    let app = app();
    assert_eq!(app.price_heading(), "BTC Price: 50000 GBP");
    assert_eq!(app.value_heading(), "GBP Value");
    assert_eq!(app.power_heading(), "GBP Purchasing Power");
    assert_eq!(ExpenseApp::new().price_heading(), "BTC Price: 0 USD");
}

#[test]
fn summary_rows() {
    let mut app = app();
    let rows = app.expense_rows();
    assert_eq!(rows.len(), 2);
    assert_eq!(rows[0].name, "Rent");
    assert_eq!(rows[0].fiat, "200.00 GBP");
    assert_eq!(rows[0].hard, format!("{:.8} BTC", 200.0 / 50000.75));
    assert_eq!(rows[1].name, "Food");
    assert_eq!(app.spent_row().name, "Spent");
    assert_eq!(app.spent_row().fiat, "350.00 GBP");
    app.display_mode = DisplayMode::SATS;
    assert_eq!(app.remaining_row().name, "Remaining");
    assert_eq!(app.remaining_row().fiat, "650.00 GBP");
    let sats = (650.0 / 50000.75 * 100_000_000.0) as u64;
    assert_eq!(app.remaining_row().hard, format!("{} SATS", sats));
    let row = app.row("Trip", d(12.5));
    assert_eq!((row.name.as_str(), row.fiat.as_str()), ("Trip", "12.50 GBP"));
}

#[test]
fn the_banner_says_what_is_left() {
    let mut app = app();
    assert_eq!(
        app.banner(),
        format!("YOU HAVE {:.8} BTC IN HARD MONEY REMAINING!", 650.0 / 50000.75)
    );
    app.display_mode = DisplayMode::SATS;
    app.selected_currency = Currency::Usd;
    assert_eq!(app.banner(), "YOU HAVE 0 SATS IN HARD MONEY REMAINING!");
}

#[test]
fn the_rates_line() {
    assert_eq!(app().rates_line(), "Inflation: 3.75% | BTC CAGR: 40.00%");
    assert_eq!(ExpenseApp::new().rates_line(), "Inflation: 3.00% | BTC CAGR: 0.00%");
    assert_eq!(fmt_percent(d(-0.123456)), "-12.35%");
}

#[test]
fn projections() {
    let app = app();
    assert_eq!(years(), vec![1, 4, 5, 10, 15, 20, 25, 30]);
    assert_eq!(app.inflation_growth(), d(1.0 + 0.0375));
    assert_eq!(app.btc_growth(), d(1.0 + 0.4));
    for y in years() {
        let inflated = f(app.inflation_growth()).powi(y as i32);
        let appreciated = f(app.btc_growth()).powi(y as i32);
        let row = app.projection(y, d(inflated), d(appreciated));
        assert_eq!(row.years, format!("{} Year{}", y, if y > 1 { "s" } else { "" }));
        assert_eq!(row.fiat, format!("{:.2} GBP", 650.0 / inflated));
        assert_eq!(row.btc, format!("{:.2} GBP", 650.0 * appreciated));
    }
}

#[test]
fn years_are_counted_in_english() {
    assert_eq!(fmt_years(1), "1 Year");
    assert_eq!(fmt_years(30), "30 Years");
}

#[test]
fn fiat_money_has_two_decimals() {
    assert_eq!(fmt_fiat(d(1234.567), Currency::Jpy), "1234.57 JPY");
}

#[test]
fn fiat_money_never_gains_down_the_projection() {
    let left = d(650.0);
    let mut i = 1;
    let growths = [1.0, 1.0375, 1.0375000000000003, 2.5, 1e300, f64::INFINITY];
    while i < growths.len() {
        let (less, more) = (d(growths[i - 1]), d(growths[i]));
        assert!(left.over(more).le(left.over(less)));
        assert!(left.times(less).le(left.times(more)));
        assert!(left.over(more).le(left));
        assert!(left.le(left.times(more)));
        i += 1;
    }
    assert_eq!(d(0.0).times(d(1.5)), d(0.0));
    assert_eq!(left.over(d(f64::INFINITY)), d(0.0));
    assert_eq!(left.times(d(f64::INFINITY)), d(f64::INFINITY));
}
