//! What is asked of the services for prices and consumer price indices, and
//! what is read from their replies.

use crate::currency::Currency;
use crate::double::Double;
use crate::json::Json;
use crate::json::JsonView;
use crate::rates::Rates;
use crate::{currency, double, json, reading};
use vstd::prelude::*;
use vstd::string::*;

verus! {

/// The name under which requests for prices are made.
pub const USER_AGENT: &'static str = "satsbudget";

/// Where the price of a bitcoin in the supported currencies is asked for.
pub const PRICE_URL: &'static str =
    "https://api.coingecko.com/api/v3/simple/price?ids=bitcoin&vs_currencies=usd,gbp,eur,jpy,cad,aud,chf";

/// Where the monthly prices of the last four years are asked for.
pub const KLINES_URL: &'static str =
    "https://api.binance.com/api/v3/klines?symbol=BTCUSDT&interval=1M&limit=48";

/// Where the yearly inflation behind a currency is asked for.
pub open spec fn inflation_url_text(c: Currency) -> Seq<char> {
    "https://api.worldbank.org/v2/country/"@ + c.country_text()
        + "/indicator/FP.CPI.TOTL.ZG?format=json"@
}

/// Where the yearly inflation behind a currency is asked for.
pub fn inflation_url(c: Currency) -> (r: String)
    ensures
        r@ == inflation_url_text(c),
{
    let mut url: String = "https://api.worldbank.org/v2/country/".to_owned();
    url.append(c.country());
    url.append("/indicator/FP.CPI.TOTL.ZG?format=json");
    url
}

/// The price of a bitcoin in `c` that a document of prices gives.
pub open spec fn price_in(doc: JsonView, c: Currency) -> Option<Double> {
    match doc.member("bitcoin"@) {
        Some(btc) => match btc.member(c.code_text()) {
            Some(v) => v.number(),
            None => None,
        },
        None => None,
    }
}

/// The prices that a document of prices gives.
pub fn prices_in(doc: &Json) -> (r: Rates)
    ensures
        forall|c: Currency| #[trigger] r.rate(c) == price_in(doc.view(), c),
{
    let mut prices = Rates::new();
    if let Some(btc) = doc.get("bitcoin") {
        let all = Currency::all();
        let mut i: usize = 0;
        while i < all.len()
            invariant
                i <= all.len(),
                all@ == currency::supported(),
                doc.view().member("bitcoin"@) == Some(btc.view()),
                forall|j: int|
                    0 <= j < i ==> prices.rate(#[trigger] all@[j]) == price_in(doc.view(), all@[j]),
                forall|j: int| i <= j < all@.len() ==> prices.rate(#[trigger] all@[j]) is None,
            decreases all.len() - i,
        {
            let c = all[i];
            let ghost before = prices;
            if let Some(v) = btc.get(c.code()) {
                if let Some(x) = v.as_number() {
                    prices.insert(c, x);
                }
            }
            proof {
                currency::law_every_currency_is_offered_once(c);
                assert forall|j: int| 0 <= j < all@.len() && j != i implies prices.rate(
                    #[trigger] all@[j],
                ) == before.rate(all@[j]) by {
                    assert(all@[j] != c);
                }
            }
            i = i + 1;
        }
        proof {
            assert forall|c: Currency| #[trigger] prices.rate(c) == price_in(doc.view(), c) by {
                currency::law_every_currency_is_offered_once(c);
            }
        }
    }
    prices
}

/// The prices that a reply to `PRICE_URL` gives; none where it is no document.
pub fn prices_from_reply(text: &str) -> (r: Rates)
    ensures
        match json::document(text@) {
            Some(doc) => forall|c: Currency| #[trigger] r.rate(c) == price_in(doc, c),
            None => r.empty(),
        },
{
    match json::parse(text) {
        Some(doc) => prices_in(&doc),
        None => Rates::new(),
    }
}

/// The prices that came of asking for them: those of the reply, and none where
/// there was no reply.
pub fn prices_received(reply: Option<&str>) -> (r: Rates)
    ensures
        match reply {
            Some(text) => match json::document(text@) {
                Some(doc) => forall|c: Currency| #[trigger] r.rate(c) == price_in(doc, c),
                None => r.empty(),
            },
            None => r.empty(),
        },
{
    match reply {
        Some(text) => prices_from_reply(text),
        None => Rates::new(),
    }
}

/// The closing price, as text, of one entry of a document of monthly prices.
pub open spec fn close_of(entry: JsonView) -> Option<Seq<char>> {
    match entry.element(4) {
        Some(v) => v.string(),
        None => None,
    }
}

/// The first and the last closing price of a document of monthly prices, as
/// texts, where it has at least two entries and both prices are texts.
pub open spec fn closes(doc: JsonView) -> Option<(Seq<char>, Seq<char>)> {
    match doc.elements() {
        Some(entries) => if entries.len() >= 2 {
            match (close_of(entries.first()), close_of(entries.last())) {
                (Some(first), Some(last)) => Some((first, last)),
                _ => None,
            }
        } else {
            None
        },
        None => None,
    }
}

/// The closing price, as text, of one entry of a document of monthly prices.
fn close_text(entry: &Json) -> (r: Option<String>)
    ensures
        match r {
            Some(s) => close_of(entry.view()) == Some(s@),
            None => close_of(entry.view()) is None,
        },
{
    match entry.at(4) {
        Some(v) => match v.as_text() {
            Some(s) => Some(s.clone()),
            None => None,
        },
        None => None,
    }
}

/// A power that remains to be taken: `base` to the power `exponent`.
#[derive(Clone, Copy, Debug, PartialEq, Eq, Structural)]
pub struct Power {
    pub base: Double,
    pub exponent: Double,
}

/// The power that turns the first and last price of four years into the growth
/// of one year: the fourth root of their ratio.
pub open spec fn growth_power(first: Option<Double>, last: Option<Double>) -> Option<Power> {
    match (first, last) {
        (Some(first), Some(last)) => if double::whole(0).below(first) {
            Some(Power { base: last.quotient(first), exponent: double::ratio(1, 4) })
        } else {
            None
        },
        _ => None,
    }
}

/// The power that turns the first and last price of four years, where both
/// could be read and the first is positive, into the growth of one year.
pub fn yearly_growth(first: Option<Double>, last: Option<Double>) -> (r: Option<Power>)
    ensures
        r == growth_power(first, last),
{
    match (first, last) {
        (Some(first), Some(last)) => if Double::from_count(0).lt(first) {
            Some(Power { base: last.over(first), exponent: Double::fraction(1, 4) })
        } else {
            None
        },
        _ => None,
    }
}

/// The power that turns a document of monthly prices into the growth of one
/// year.
pub open spec fn growth_in(doc: JsonView) -> Option<Power> {
    match closes(doc) {
        Some((first, last)) => growth_power(reading::number_in(first), reading::number_in(last)),
        None => None,
    }
}

/// The power that turns a document of monthly prices into the growth of one
/// year, where its first and last closing price can be read and the first is
/// positive.
pub fn price_growth_in(doc: &Json) -> (r: Option<Power>)
    ensures
        r == growth_in(doc.view()),
{
    match doc.as_array() {
        Some(entries) => {
            let n = entries.len();
            if n < 2 {
                return None;
            }
            match (close_text(&entries[0]), close_text(&entries[n - 1])) {
                (Some(first), Some(last)) => yearly_growth(
                    reading::read_number(first.as_str()),
                    reading::read_number(last.as_str()),
                ),
                _ => None,
            }
        },
        None => None,
    }
}

/// The power that turns a reply to `KLINES_URL` into the growth of one year.
pub fn price_growth_from_reply(text: &str) -> (r: Option<Power>)
    ensures
        r == (match json::document(text@) {
            Some(doc) => growth_in(doc),
            None => None,
        }),
{
    match json::parse(text) {
        Some(doc) => price_growth_in(&doc),
        None => None,
    }
}

/// The rate of change that belongs to a growth factor.
pub fn rate_of_growth(growth: Double) -> (r: Double)
    ensures
        r == growth.difference(double::whole(1)),
{
    growth.minus(Double::from_count(1))
}

/// The reading of one entry of a document of yearly inflation.
pub open spec fn reading_of(entry: JsonView) -> Option<Double> {
    match entry.member("value"@) {
        Some(v) => v.number(),
        None => None,
    }
}

/// The readings among some entries, in order.
pub open spec fn readings_among(entries: Seq<JsonView>) -> Seq<Double>
    decreases entries.len(),
{
    if entries.len() == 0 {
        Seq::empty()
    } else {
        let before = readings_among(entries.drop_last());
        match reading_of(entries.last()) {
            Some(x) => before.push(x),
            None => before,
        }
    }
}

/// The first four rates, or all where there are fewer.
pub open spec fn first_four(rates: Seq<Double>) -> Seq<Double> {
    if rates.len() > 4 {
        rates.take(4)
    } else {
        rates
    }
}

/// The readings of the last four reported years in a document of yearly
/// inflation, which has the entries in its second element, the latest one
/// first. Years without a reading are not reported, and are passed over.
pub open spec fn readings(doc: JsonView) -> Seq<Double> {
    match doc.element(1) {
        Some(second) => match second.elements() {
            Some(entries) => first_four(readings_among(entries)),
            None => Seq::empty(),
        },
        None => Seq::empty(),
    }
}

/// The readings of the last four reported years in a document of yearly
/// inflation; of all reported years where there are fewer.
pub fn readings_in(doc: &Json) -> (r: Vec<Double>)
    ensures
        r@ == readings(doc.view()),
{
    let mut vals: Vec<Double> = Vec::new();
    if let Some(second) = doc.at(1) {
        if let Some(entries) = second.as_array() {
            let ghost all = second.view()->Array_0;
            let mut i: usize = 0;
            while i < entries.len() && vals.len() < 4
                invariant
                    i <= entries.len(),
                    vals.len() <= 4,
                    *second == Json::Array(*entries),
                    all == second.view()->Array_0,
                    vals@ == readings_among(all.take(i as int)),
                decreases entries.len() - i,
            {
                proof {
                    let upto = all.take(i + 1);
                    assert(upto.drop_last() =~= all.take(i as int));
                    assert(upto.last() == entries@[i as int].view());
                }
                if let Some(v) = entries[i].get("value") {
                    if let Some(x) = v.as_number() {
                        vals.push(x);
                    }
                }
                i = i + 1;
            }
            proof {
                lemma_readings_prefix(all, i as nat);
                if vals@.len() < 4 {
                    assert(all.take(i as int) =~= all);
                }
                assert(first_four(readings_among(all)) =~= vals@);
            }
        }
    }
    vals
}

/// The readings of the first entries come first among the readings of all.
proof fn lemma_readings_prefix(entries: Seq<JsonView>, i: nat)
    requires
        i <= entries.len(),
    ensures
        readings_among(entries.take(i as int)).is_prefix_of(readings_among(entries)),
    decreases entries.len(),
{
    if i < entries.len() {
        lemma_readings_prefix(entries.drop_last(), i);
        assert(entries.drop_last().take(i as int) =~= entries.take(i as int));
    } else {
        assert(entries.take(i as int) =~= entries);
    }
}

/// The readings of the last four reported years in a reply to an inflation
/// request.
pub fn readings_from_reply(text: &str) -> (r: Vec<Double>)
    ensures
        r@ == (match json::document(text@) {
            Some(doc) => readings(doc),
            None => Seq::empty(),
        }),
{
    match json::parse(text) {
        Some(doc) => readings_in(&doc),
        None => Vec::new(),
    }
}

/// What one grows to over years with these rates, in percent.
pub open spec fn compounded(rates: Seq<Double>) -> Double
    decreases rates.len(),
{
    if rates.len() == 0 {
        double::whole(1)
    } else {
        compounded(rates.drop_last()).product(
            double::whole(1).sum(rates.last().quotient(double::whole(100))),
        )
    }
}

/// The power that turns rates, in percent, into the growth of an average year:
/// the root of what they compound to, of a degree that is their number.
pub open spec fn average_power(rates: Seq<Double>) -> Option<Power> {
    if rates.len() == 0 {
        None
    } else {
        Some(
            Power {
                base: compounded(rates),
                exponent: double::whole(1).quotient(double::whole(rates.len())),
            },
        )
    }
}

/// The power that turns rates, in percent, into the growth of an average year.
pub fn average_growth(rates: &Vec<Double>) -> (r: Option<Power>)
    ensures
        r == average_power(rates@),
{
    if rates.len() == 0 {
        return None;
    }
    let one = Double::from_count(1);
    let hundred = Double::from_count(100);
    let mut base = one;
    let mut i: usize = 0;
    while i < rates.len()
        invariant
            i <= rates.len(),
            one == double::whole(1),
            hundred == double::whole(100),
            base == compounded(rates@.take(i as int)),
        decreases rates.len() - i,
    {
        proof {
            let upto = rates@.take(i + 1);
            assert(upto.drop_last() =~= rates@.take(i as int));
            assert(upto.last() == rates@[i as int]);
        }
        base = base.times(one.plus(rates[i].over(hundred)));
        i = i + 1;
    }
    proof {
        assert(rates@.take(rates@.len() as int) =~= rates@);
    }
    Some(Power { base, exponent: one.over(Double::from_count(rates.len() as u64)) })
}

/// The power that turns a reply to an inflation request into the growth of an
/// average year.
pub fn inflation_from_reply(text: &str) -> (r: Option<Power>)
    ensures
        r == (match json::document(text@) {
            Some(doc) => average_power(readings(doc)),
            None => None,
        }),
{
    average_growth(&readings_from_reply(text))
}

/// What is known of inflation and of the growth of the price of a bitcoin.
#[derive(Clone, Copy, Debug, PartialEq, Eq, Structural)]
pub struct MacroData {
    pub inflation: Rates,
    pub btc_cagr: Double,
}

impl MacroData {
    /// Nothing known: no inflation, and no growth.
    pub fn new() -> (r: MacroData)
        ensures
            r.inflation.empty(),
            r.btc_cagr == double::whole(0),
    {
        MacroData { inflation: Rates::new(), btc_cagr: Double::from_count(0) }
    }

    /// Notes the growth of the price of a bitcoin in one year, as a factor.
    pub fn note_price_growth(&mut self, growth: Double)
        ensures
            *final(self) == (MacroData {
                btc_cagr: growth.difference(double::whole(1)),
                ..*old(self)
            }),
    {
        self.btc_cagr = rate_of_growth(growth);
    }

    /// Takes in what came of asking for the prices of four years: the growth in
    /// one year, as a factor, or nothing, which changes nothing.
    pub fn take_price_growth(&mut self, growth: Option<Double>)
        ensures
            growth is None ==> *final(self) == *old(self),
            growth matches Some(g) ==> *final(self) == (MacroData {
                btc_cagr: g.difference(double::whole(1)),
                ..*old(self)
            }),
    {
        if let Some(g) = growth {
            self.note_price_growth(g);
        }
    }

    /// Notes the growth of consumer prices in an average year, as a factor.
    pub fn note_inflation(&mut self, c: Currency, growth: Double)
        ensures
            final(self).inflation.rate(c) == Some(growth.difference(double::whole(1))),
            forall|other: Currency|
                other != c ==> #[trigger] final(self).inflation.rate(other)
                    == old(self).inflation.rate(other),
            final(self).btc_cagr == old(self).btc_cagr,
    {
        self.inflation.insert(c, rate_of_growth(growth));
    }

    /// Takes in what came of asking for inflation: the growth of consumer
    /// prices in an average year, as a factor, or nothing, which changes
    /// nothing.
    pub fn take_inflation(&mut self, c: Currency, growth: Option<Double>)
        ensures
            growth is None ==> *final(self) == *old(self),
            growth matches Some(g) ==> final(self).inflation.rate(c) == Some(
                g.difference(double::whole(1)),
            ),
            forall|other: Currency|
                other != c ==> #[trigger] final(self).inflation.rate(other)
                    == old(self).inflation.rate(other),
            final(self).btc_cagr == old(self).btc_cagr,
    {
        if let Some(g) = growth {
            self.note_inflation(c, g);
        }
    }
}

/// An average is taken over at most four years.
pub proof fn law_at_most_four_readings(doc: JsonView)
    ensures
        readings(doc).len() <= 4,
{
}

/// Where at least four years are reported, the average is over the last four
/// of them, whatever years without a reading stand between.
pub proof fn law_last_four_reported_years_count(doc: JsonView, entries: Seq<JsonView>)
    requires
        doc.element(1) == Some(JsonView::Array(entries)),
        readings_among(entries).len() >= 4,
    ensures
        readings(doc) == readings_among(entries).take(4),
        readings(doc).len() == 4,
{
    assert(readings_among(entries).take(4) =~= readings(doc));
}

/// Years before the last four reported ones do not count.
pub proof fn law_older_years_do_not_count(
    doc: JsonView,
    longer: JsonView,
    entries: Seq<JsonView>,
    older: Seq<JsonView>,
)
    requires
        doc.element(1) == Some(JsonView::Array(entries)),
        longer.element(1) == Some(JsonView::Array(entries + older)),
        readings_among(entries).len() >= 4,
    ensures
        readings(longer) == readings(doc),
        average_power(readings(longer)) == average_power(readings(doc)),
{
    lemma_readings_prefix(entries + older, entries.len());
    assert((entries + older).take(entries.len() as int) =~= entries);
    assert(readings(longer) =~= readings(doc));
}

/// Growth depends on the first and the last closing price alone, whatever
/// stands between them.
pub proof fn law_growth_depends_on_first_and_last_close(a: Seq<JsonView>, b: Seq<JsonView>)
    requires
        a.len() >= 2,
        b.len() >= 2,
        close_of(a.first()) == close_of(b.first()),
        close_of(a.last()) == close_of(b.last()),
    ensures
        growth_in(JsonView::Array(a)) == growth_in(JsonView::Array(b)),
{
}

/// The codes of currencies, with commas between them.
pub open spec fn listed(currencies: Seq<Currency>) -> Seq<char>
    decreases currencies.len(),
{
    if currencies.len() == 0 {
        Seq::empty()
    } else if currencies.len() == 1 {
        currencies[0].code_text()
    } else {
        listed(currencies.drop_last()) + ","@ + currencies.last().code_text()
    }
}

/// The currencies that prices are asked for in are the supported ones, in the
/// order in which they are offered.
pub proof fn law_prices_are_asked_for_in_the_supported_currencies()
    ensures
        PRICE_URL@
            == "https://api.coingecko.com/api/v3/simple/price?ids=bitcoin&vs_currencies="@
            + listed(currency::supported()),
{
    reveal_strlit("https://api.coingecko.com/api/v3/simple/price?ids=bitcoin&vs_currencies=");
    reveal_strlit(
        "https://api.coingecko.com/api/v3/simple/price?ids=bitcoin&vs_currencies=usd,gbp,eur,jpy,cad,aud,chf",
    );
    reveal_strlit(",");
    currency::reveal_codes();
    reveal_with_fuel(listed, 8);
    assert(PRICE_URL@
        =~= "https://api.coingecko.com/api/v3/simple/price?ids=bitcoin&vs_currencies="@ + listed(
        currency::supported(),
    ));
}

/// Where a reply gives a price in each currency that was asked for, every
/// currency that can be selected has a price.
pub proof fn law_complete_reply_prices_every_currency(doc: JsonView, prices: Rates)
    requires
        forall|c: Currency| #[trigger] prices.rate(c) == price_in(doc, c),
        forall|i: int|
            0 <= i < currency::supported().len() ==> price_in(
                doc,
                #[trigger] currency::supported()[i],
            ) is Some,
    ensures
        forall|c: Currency| #[trigger] prices.rate(c) is Some,
{
    assert forall|c: Currency| #[trigger] prices.rate(c) is Some by {
        currency::law_every_currency_is_offered_once(c);
    }
}

} // verus!
