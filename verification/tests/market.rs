use satsbudget::currency::Currency;
use satsbudget::double::Double;
use satsbudget::json::{parse, Json};
use satsbudget::market::{
    average_growth, inflation_from_reply, inflation_url, price_growth_from_reply, price_growth_in,
    prices_from_reply, prices_in, prices_received, rate_of_growth, readings_from_reply, readings_in, yearly_growth,
    MacroData, KLINES_URL, PRICE_URL, USER_AGENT,
};
use satsbudget::rates::Rates;

fn d(x: f64) -> Double {
    Double::from_bits(x.to_bits())
}

fn f(x: Double) -> f64 {
    f64::from_bits(x.to_bits())
}

fn number(x: f64) -> Json {
    Json::Number(Some(x.to_bits()))
}

fn text(s: &str) -> Json {
    Json::Text(s.to_string())
}

#[test]
fn currencies_have_codes_labels_and_countries() {
    let expected = [
        ("usd", "USD", "US"),
        ("gbp", "GBP", "GB"),
        ("eur", "EUR", "EU"),
        ("jpy", "JPY", "JP"),
        ("cad", "CAD", "CA"),
        ("aud", "AUD", "AU"),
        ("chf", "CHF", "CH"),
    ];
    let all = Currency::all();
    assert_eq!(all.len(), expected.len());
    for (c, (code, label, country)) in all.iter().zip(expected) {
        assert_eq!(c.code(), code);
        assert_eq!(c.label(), code.to_uppercase());
        assert_eq!(c.label(), label);
        assert_eq!(c.country(), country);
    }
}

#[test]
fn requests_go_to_the_services() {
    assert_eq!(USER_AGENT, "satsbudget");
    assert_eq!(
        PRICE_URL,
        "https://api.coingecko.com/api/v3/simple/price?ids=bitcoin&vs_currencies=usd,gbp,eur,jpy,cad,aud,chf"
    );
    assert_eq!(
        KLINES_URL,
        "https://api.binance.com/api/v3/klines?symbol=BTCUSDT&interval=1M&limit=48"
    );
    assert_eq!(
        inflation_url(Currency::Gbp),
        "https://api.worldbank.org/v2/country/GB/indicator/FP.CPI.TOTL.ZG?format=json"
    );
}

#[test]
fn documents_become_trees() {
    let doc = parse("{\"a\": [1, 2.5, \"x\", null, true], \"b\": {\"c\": -3}}").unwrap();
    let a = doc.get("a").unwrap();
    assert_eq!(a.as_array().unwrap().len(), 5);
    assert_eq!(a.at(0).unwrap().as_number(), Some(d(1.0)));
    assert_eq!(a.at(1).unwrap().as_number(), Some(d(2.5)));
    assert_eq!(a.at(2).unwrap().as_text().unwrap(), "x");
    assert_eq!(a.at(2).unwrap().as_number(), None);
    assert!(matches!(a.at(3).unwrap(), Json::Null));
    assert!(matches!(a.at(4).unwrap(), Json::Bool(true)));
    assert!(a.at(5).is_none());
    assert!(a.get("a").is_none());
    assert!(doc.at(0).is_none());
    assert!(doc.get("z").is_none());
    assert_eq!(doc.get("b").unwrap().get("c").unwrap().as_number(), Some(d(-3.0)));
    assert!(parse("{").is_none());
    assert!(parse("").is_none());
}

#[test]
fn a_repeated_member_counts_as_its_last() {
    let doc = parse("{\"a\": 1, \"a\": 2}").unwrap();
    assert_eq!(doc.get("a").unwrap().as_number(), Some(d(2.0)));
}

#[test]
fn prices_are_read_from_a_document() {
    let doc = Json::Object(vec![(
        "bitcoin".to_string(),
        Json::Object(vec![
            ("usd".to_string(), number(65000.12)),
            ("gbp".to_string(), text("51000")),
            ("chf".to_string(), number(58000.0)),
        ]),
    )]);
    let prices = prices_in(&doc);
    assert_eq!(prices.get(Currency::Usd), Some(d(65000.12)));
    assert_eq!(prices.get(Currency::Gbp), None);
    assert_eq!(prices.get(Currency::Eur), None);
    assert_eq!(prices.get(Currency::Chf), Some(d(58000.0)));
    assert!(!prices.is_empty());
}

#[test]
fn prices_are_read_from_a_reply() {
    let prices = prices_from_reply("{\"bitcoin\":{\"usd\":65000,\"jpy\":9800000.5,\"xyz\":1}}");
    assert_eq!(prices.get(Currency::Usd), Some(d(65000.0)));
    assert_eq!(prices.get(Currency::Jpy), Some(d(9800000.5)));
    assert_eq!(prices.get(Currency::Aud), None);
    assert!(prices_from_reply("{\"ethereum\":{\"usd\":1}}").is_empty());
    assert!(prices_from_reply("rate limited").is_empty());
    assert!(prices_from_reply("[]").is_empty());
}

#[test]
fn rates_are_kept_by_currency() {
    let mut rates = Rates::new();
    assert!(rates.is_empty());
    for (i, c) in Currency::all().into_iter().enumerate() {
        assert_eq!(rates.get(c), None);
        rates.insert(c, d(i as f64));
    }
    for (i, c) in Currency::all().into_iter().enumerate() {
        assert_eq!(rates.get(c), Some(d(i as f64)));
    }
    rates.insert(Currency::Eur, d(0.5));
    assert_eq!(rates.get(Currency::Eur), Some(d(0.5)));
    assert_eq!(rates.get(Currency::Usd), Some(d(0.0)));
    assert!(!rates.is_empty());
}

fn month(close: &str) -> Json {
    Json::Array(vec![
        number(1.0),
        text("1"),
        text("2"),
        text("3"),
        text(close),
        text("5"),
    ])
}

#[test]
fn growth_is_read_from_the_first_and_last_close() {
    let doc = Json::Array(vec![month("10000.0"), month("bad"), month("81000.0")]);
    let power = price_growth_in(&doc).unwrap();
    assert_eq!(power.base, d(81000.0 / 10000.0));
    assert_eq!(power.exponent, d(1.0 / 4.0));
    let growth = f(power.base).powf(f(power.exponent));
    assert_eq!(rate_of_growth(d(growth)), d((81000.0f64 / 10000.0).powf(1.0 / 4.0) - 1.0));
}

#[test]
fn growth_needs_two_readable_closes_and_a_positive_first() {
    assert!(price_growth_in(&Json::Array(vec![month("1")])).is_none());
    assert!(price_growth_in(&Json::Array(vec![])).is_none());
    assert!(price_growth_in(&Json::Null).is_none());
    assert!(price_growth_in(&Json::Array(vec![month("x"), month("1")])).is_none());
    assert!(price_growth_in(&Json::Array(vec![month("1"), month("x")])).is_none());
    assert!(price_growth_in(&Json::Array(vec![month("0.0"), month("1")])).is_none());
    assert!(price_growth_in(&Json::Array(vec![month("-1"), month("1")])).is_none());
    assert!(price_growth_in(&Json::Array(vec![month("1"), Json::Array(vec![])])).is_none());
    assert!(yearly_growth(None, Some(d(1.0))).is_none());
    assert!(yearly_growth(Some(d(1.0)), None).is_none());
    assert!(yearly_growth(Some(d(f64::NAN)), Some(d(1.0))).is_none());
    assert!(yearly_growth(Some(d(2.0)), Some(d(1.0))).is_some());
}

#[test]
fn growth_is_read_from_a_reply() {
    let reply = "[[1,\"9\",\"9\",\"9\",\"20000.00000000\",\"9\"],[2,\"9\",\"9\",\"9\",\"60000.50000000\",\"9\"]]";
    assert_eq!(price_growth_from_reply(reply).unwrap().base, d(60000.5 / 20000.0));
    assert!(price_growth_from_reply("{\"code\":0}").is_none());
    assert!(price_growth_from_reply("<html>").is_none());
}

fn year(value: Json) -> Json {
    Json::Object(vec![
        ("date".to_string(), text("2023")),
        ("value".to_string(), value),
    ])
}

#[test]
fn readings_are_those_of_the_last_four_reported_years() {
    let doc = Json::Array(vec![
        Json::Null,
        Json::Array(vec![
            year(Json::Null),
            year(number(4.0)),
            year(number(8.0)),
            Json::Null,
            year(number(1.0)),
        ]),
    ]);
    assert_eq!(readings_in(&doc), vec![d(4.0), d(8.0), d(1.0)]);
    let gap = Json::Array(vec![
        Json::Null,
        Json::Array(vec![
            year(Json::Null),
            year(number(1.0)),
            year(number(2.0)),
            year(text("3")),
            year(number(4.0)),
            year(number(5.0)),
            year(number(6.0)),
        ]),
    ]);
    assert_eq!(readings_in(&gap), vec![d(1.0), d(2.0), d(4.0), d(5.0)]);
    let five = Json::Array(vec![
        Json::Null,
        Json::Array(vec![
            year(number(1.0)),
            year(number(2.0)),
            year(number(3.0)),
            year(number(4.0)),
            year(number(5.0)),
        ]),
    ]);
    assert_eq!(readings_in(&five), vec![d(1.0), d(2.0), d(3.0), d(4.0)]);
    assert!(readings_in(&Json::Array(vec![Json::Null])).is_empty());
    assert!(readings_in(&Json::Array(vec![Json::Null, Json::Null])).is_empty());
}

#[test]
fn inflation_is_the_geometric_mean() {
    let vals = vec![d(4.1), d(8.0), d(4.7)];
    let power = average_growth(&vals).unwrap();
    let compounded = [4.1, 8.0, 4.7].iter().fold(1.0, |acc, v| acc * (1.0 + v / 100.0));
    assert_eq!(power.base, d(compounded));
    assert_eq!(power.exponent, d(1.0 / 3.0));
    let growth = f(power.base).powf(f(power.exponent));
    assert_eq!(rate_of_growth(d(growth)), d(compounded.powf(1.0 / 3.0) - 1.0));
    assert!(average_growth(&vec![]).is_none());
}

#[test]
fn inflation_is_read_from_a_reply() {
    let reply = "[{\"page\":1},[{\"value\":null},{\"value\":2.9},{\"value\":4}]]";
    assert_eq!(readings_from_reply(reply), vec![d(2.9), d(4.0)]);
    let power = inflation_from_reply(reply).unwrap();
    assert_eq!(power.base, d(1.0 * (1.0 + 2.9 / 100.0) * (1.0 + 4.0 / 100.0)));
    assert_eq!(power.exponent, d(0.5));
    let gap = "[{},[{\"value\":null},{\"value\":1},{\"value\":2},{\"value\":3},{\"value\":4},{\"value\":50}]]";
    let power = inflation_from_reply(gap).unwrap();
    let compounded = [1.0, 2.0, 3.0, 4.0].iter().fold(1.0, |acc, v| acc * (1.0 + v / 100.0));
    assert_eq!(power.base, d(compounded));
    assert_eq!(power.exponent, d(0.25));
    assert!(inflation_from_reply("[{\"message\":[]}]").is_none());
    assert!(inflation_from_reply("oops").is_none());
    assert!(readings_from_reply("oops").is_empty());
}

#[test]
fn macro_data_is_collected() {
    let mut data = MacroData::new();
    assert!(data.inflation.is_empty());
    assert_eq!(data.btc_cagr, d(0.0));
    data.note_price_growth(d(1.5));
    data.note_inflation(Currency::Jpy, d(1.02));
    assert_eq!(data.btc_cagr, d(0.5));
    assert_eq!(data.inflation.get(Currency::Jpy), Some(d(1.02 - 1.0)));
    assert_eq!(data.inflation.get(Currency::Usd), None);
}

#[test]
fn a_failed_request_changes_nothing() {
    let mut data = MacroData::new();
    data.take_price_growth(None);
    data.take_inflation(Currency::Eur, None);
    assert_eq!(data, MacroData::new());
    data.take_price_growth(Some(d(1.25)));
    data.take_inflation(Currency::Eur, Some(d(1.5)));
    assert_eq!(data.btc_cagr, d(0.25));
    assert_eq!(data.inflation.get(Currency::Eur), Some(d(0.5)));
    assert_eq!(data.inflation.get(Currency::Usd), None);
    let before = data;
    data.take_price_growth(None);
    data.take_inflation(Currency::Eur, None);
    assert_eq!(data, before);
    assert!(prices_received(None).is_empty());
    assert!(prices_received(Some("oops")).is_empty());
    let prices = prices_received(Some("{\"bitcoin\":{\"chf\":90000.5}}"));
    assert_eq!(prices.get(Currency::Chf), Some(d(90000.5)));
}

#[test]
fn prices_are_asked_for_in_every_currency() {
    let codes: Vec<&str> = Currency::all().iter().map(|c| c.code()).collect();
    let listed = format!("vs_currencies={}", codes.join(","));
    assert!(PRICE_URL.ends_with(&listed));
    let members: Vec<String> = codes.iter().map(|c| format!("\"{}\":7", c)).collect();
    let prices = prices_from_reply(&format!("{{\"bitcoin\":{{{}}}}}", members.join(",")));
    for c in Currency::all() {
        assert_eq!(prices.get(c), Some(d(7.0)));
    }
}

#[test]
fn growth_depends_on_first_and_last_close() {
    let short = Json::Array(vec![month("10"), month("15")]);
    let long = Json::Array(vec![month("10"), month("99999"), Json::Null, month("15")]);
    assert_eq!(price_growth_in(&short), price_growth_in(&long));
    let other_unit = Json::Array(vec![month("70"), month("105")]);
    assert_eq!(price_growth_in(&short), price_growth_in(&other_unit));
    let tenths = Json::Array(vec![month("0.7"), month("1.05")]);
    let (x, y) = (price_growth_in(&short).unwrap(), price_growth_in(&tenths).unwrap());
    assert_eq!(x.exponent, y.exponent);
    assert!((f(x.base) - f(y.base)).abs() <= 1.5 * 1e-15);
}

#[test]
fn order_of_years_matters_only_in_rounding() {
    let rates = [4.1, -8.3, 4.7, 0.9];
    let forth = average_growth(&rates.iter().map(|r| d(*r)).collect()).unwrap();
    let back = average_growth(&rates.iter().rev().map(|r| d(*r)).collect()).unwrap();
    assert_eq!(forth.exponent, back.exponent);
    assert!((f(forth.base) - f(back.base)).abs() <= 1e-15);
}

#[test]
fn older_years_do_not_count() {
    let four = "[0,[{\"value\":1},{\"value\":2},{\"value\":3},{\"value\":4}]]";
    let more = "[0,[{\"value\":1},{\"value\":2},{\"value\":3},{\"value\":4},{\"value\":null},{\"value\":9}]]";
    assert_eq!(inflation_from_reply(four), inflation_from_reply(more));
}

#[test]
fn order_of_years_keeps_the_sign_and_nothing() {
    let power = |rates: &[f64]| average_growth(&rates.iter().map(|r| d(*r)).collect()).unwrap();
    let forth = power(&[-250.0, 4.1, 7.3, -99.99]);
    let back = power(&[-99.99, 7.3, 4.1, -250.0]);
    assert!(f(forth.base) < 0.0);
    assert!(f(back.base) < 0.0);
    assert!((f(forth.base) / f(back.base) - 1.0).abs() <= 1e-15);
    let forth = power(&[-100.0, 4.1, -300.0, 7.3]);
    let back = power(&[7.3, -300.0, 4.1, -100.0]);
    assert_eq!(forth.base, d(-0.0));
    assert_eq!(back.base, d(-0.0));
    let tiny = -99.99999999999999;
    let least = power(&[tiny, tiny, tiny, tiny]);
    assert_eq!(least, power(&[tiny, tiny, tiny, tiny]));
    assert!(f(least.base) > 1e-64);
}

#[test]
fn compounding_is_precise() {
    let power = average_growth(&vec![d(25.0), d(50.0), d(-75.0), d(100.0)]).unwrap();
    assert_eq!(power.base, d(1.25 * 1.5 * 0.25 * 2.0));
}
