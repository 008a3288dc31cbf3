//! What the operations promise, in terms of what goes in and what comes out.

use crate::budget::{DisplayMode, Expense, ExpenseApp, ExpenseView};
use crate::currency::Currency;
use crate::double::Double;
use crate::json::{Json, JsonView};
use crate::numbers::{correctly_rounded, shows};
use crate::pie::{Slice, SliceColor};
use crate::rates::Rates;
use crate::report::{Projection, Row};
use crate::{
    budget, currency, decimal, double, json, laws, market, naturals, numbers, pie, proportions,
    reading, report, rounding,
};
use vstd::arithmetic::power2::*;
use vstd::prelude::*;

verus! {

/// Whether the first member called `key` is at place `j`, and is `value`.
pub open spec fn given_at(
    members: Seq<(Seq<char>, JsonView)>,
    key: Seq<char>,
    value: JsonView,
    j: int,
) -> bool {
    &&& 0 <= j < members.len()
    &&& members[j].0 == key
    &&& members[j].1 == value
    &&& forall|i: int| 0 <= i < j ==> (#[trigger] members[i]).0 != key
}

/// Whether a document is an object whose first member called `key` is `value`.
pub open spec fn gives(doc: JsonView, key: Seq<char>, value: JsonView) -> bool {
    doc matches JsonView::Object(members) && exists|j: int| #[trigger]
        given_at(members, key, value, j)
}

/// Looking up a name finds the first member of that name.
proof fn lemma_found(members: Seq<(Seq<char>, JsonView)>, key: Seq<char>) -> (j: int)
    requires
        json::lookup(members, key) is Some,
    ensures
        given_at(members, key, json::lookup(members, key)->0, j),
    decreases members.len(),
{
    if members[0].0 == key {
        0
    } else {
        let rest = members.drop_first();
        let j = lemma_found(rest, key);
        assert forall|i: int| 0 <= i < j + 1 implies (#[trigger] members[i]).0 != key by {
            if i > 0 {
                assert(rest[i - 1] == members[i]);
            }
        }
        assert(members[j + 1] == rest[j]);
        j + 1
    }
}

/// The first member of a name is found.
proof fn lemma_finds(members: Seq<(Seq<char>, JsonView)>, key: Seq<char>, value: JsonView, j: int)
    requires
        given_at(members, key, value, j),
    ensures
        json::lookup(members, key) == Some(value),
    decreases j,
{
    if j > 0 {
        let rest = members.drop_first();
        assert(members[0].0 != key);
        assert forall|i: int| 0 <= i < j - 1 implies (#[trigger] rest[i]).0 != key by {
            assert(rest[i] == members[i + 1]);
        }
        assert(rest[j - 1] == members[j]);
        lemma_finds(rest, key, value, j - 1);
    }
}

/// A member of a document is the value of the first member of that name.
pub proof fn law_members_are_those_of_the_name(doc: JsonView, key: Seq<char>, value: JsonView)
    ensures
        doc.member(key) == Some(value) <==> gives(doc, key, value),
{
    if let JsonView::Object(members) = doc {
        if doc.member(key) == Some(value) {
            let j = lemma_found(members, key);
            assert(given_at(members, key, value, j));
        }
        if gives(doc, key, value) {
            let j = choose|j: int| #[trigger] given_at(members, key, value, j);
            lemma_finds(members, key, value, j);
        }
    }
}

/// Elements, texts and numbers of a document are those that it was made of.
pub proof fn law_parts_of_documents(items: Seq<JsonView>, i: int, s: Seq<char>, bits: u64)
    ensures
        JsonView::Array(items).elements() == Some(items),
        0 <= i < items.len() ==> JsonView::Array(items).element(i) == Some(items[i]),
        !(0 <= i < items.len()) ==> JsonView::Array(items).element(i) is None,
        JsonView::Text(s).string() == Some(s),
        JsonView::Number(Some(bits)).number() == Some(Double { bits }),
{
}

/// Only arrays have elements, only texts are texts, only numbers are numbers.
pub proof fn law_only_such_documents_have_parts(doc: JsonView, i: int)
    ensures
        doc.elements() is Some ==> doc is Array,
        doc.element(i) is Some ==> doc is Array,
        doc.string() is Some ==> doc is Text,
        doc.number() is Some ==> doc matches JsonView::Number(Some(_)),
        doc.member("value"@) is Some ==> doc is Object,
{
}

/// The view of a document has the document's parts, each in its place.
pub proof fn law_views_of_documents(doc: Json)
    ensures
        doc is Null <==> doc.view() is Null,
        doc matches Json::Bool(b) ==> doc.view() == JsonView::Bool(b),
        doc matches Json::Number(n) ==> doc.view() == JsonView::Number(n),
        doc matches Json::Text(s) ==> doc.view() == JsonView::Text(s@),
        doc matches Json::Array(items) ==> doc.view() is Array && doc.view()->Array_0.len()
            == items@.len() && forall|i: int|
            0 <= i < items@.len() ==> #[trigger] doc.view()->Array_0[i] == items@[i].view(),
        doc matches Json::Object(members) ==> doc.view() is Object && doc.view()->Object_0.len()
            == members@.len() && forall|i: int|
            0 <= i < members@.len() ==> #[trigger] doc.view()->Object_0[i] == (
                members@[i].0@,
                members@[i].1.view(),
            ),
{
}

/// The texts that belong to the currencies.
pub proof fn law_texts_of_currencies()
    ensures
        currency::supported() == seq![
            Currency::Usd,
            Currency::Gbp,
            Currency::Eur,
            Currency::Jpy,
            Currency::Cad,
            Currency::Aud,
            Currency::Chf,
        ],
        Currency::Usd.code_text() == "usd"@ && Currency::Usd.label_text() == "USD"@,
        Currency::Gbp.code_text() == "gbp"@ && Currency::Gbp.label_text() == "GBP"@,
        Currency::Eur.code_text() == "eur"@ && Currency::Eur.label_text() == "EUR"@,
        Currency::Jpy.code_text() == "jpy"@ && Currency::Jpy.label_text() == "JPY"@,
        Currency::Cad.code_text() == "cad"@ && Currency::Cad.label_text() == "CAD"@,
        Currency::Aud.code_text() == "aud"@ && Currency::Aud.label_text() == "AUD"@,
        Currency::Chf.code_text() == "chf"@ && Currency::Chf.label_text() == "CHF"@,
        market::inflation_url_text(Currency::Usd)
            == "https://api.worldbank.org/v2/country/US/indicator/FP.CPI.TOTL.ZG?format=json"@,
        market::inflation_url_text(Currency::Gbp)
            == "https://api.worldbank.org/v2/country/GB/indicator/FP.CPI.TOTL.ZG?format=json"@,
        market::inflation_url_text(Currency::Eur)
            == "https://api.worldbank.org/v2/country/EU/indicator/FP.CPI.TOTL.ZG?format=json"@,
        market::inflation_url_text(Currency::Jpy)
            == "https://api.worldbank.org/v2/country/JP/indicator/FP.CPI.TOTL.ZG?format=json"@,
        market::inflation_url_text(Currency::Cad)
            == "https://api.worldbank.org/v2/country/CA/indicator/FP.CPI.TOTL.ZG?format=json"@,
        market::inflation_url_text(Currency::Aud)
            == "https://api.worldbank.org/v2/country/AU/indicator/FP.CPI.TOTL.ZG?format=json"@,
        market::inflation_url_text(Currency::Chf)
            == "https://api.worldbank.org/v2/country/CH/indicator/FP.CPI.TOTL.ZG?format=json"@,
{
    currency::reveal_codes();
    reveal_strlit("USD");
    reveal_strlit("GBP");
    reveal_strlit("EUR");
    reveal_strlit("JPY");
    reveal_strlit("CAD");
    reveal_strlit("AUD");
    reveal_strlit("CHF");
    assert(Currency::Usd.label_text() =~= "USD"@);
    assert(Currency::Gbp.label_text() =~= "GBP"@);
    assert(Currency::Eur.label_text() =~= "EUR"@);
    assert(Currency::Jpy.label_text() =~= "JPY"@);
    assert(Currency::Cad.label_text() =~= "CAD"@);
    assert(Currency::Aud.label_text() =~= "AUD"@);
    assert(Currency::Chf.label_text() =~= "CHF"@);
    reveal_strlit("US");
    reveal_strlit("GB");
    reveal_strlit("EU");
    reveal_strlit("JP");
    reveal_strlit("CA");
    reveal_strlit("AU");
    reveal_strlit("CH");
    reveal_strlit("https://api.worldbank.org/v2/country/");
    reveal_strlit("/indicator/FP.CPI.TOTL.ZG?format=json");
    reveal_strlit("https://api.worldbank.org/v2/country/US/indicator/FP.CPI.TOTL.ZG?format=json");
    reveal_strlit("https://api.worldbank.org/v2/country/GB/indicator/FP.CPI.TOTL.ZG?format=json");
    reveal_strlit("https://api.worldbank.org/v2/country/EU/indicator/FP.CPI.TOTL.ZG?format=json");
    reveal_strlit("https://api.worldbank.org/v2/country/JP/indicator/FP.CPI.TOTL.ZG?format=json");
    reveal_strlit("https://api.worldbank.org/v2/country/CA/indicator/FP.CPI.TOTL.ZG?format=json");
    reveal_strlit("https://api.worldbank.org/v2/country/AU/indicator/FP.CPI.TOTL.ZG?format=json");
    reveal_strlit("https://api.worldbank.org/v2/country/CH/indicator/FP.CPI.TOTL.ZG?format=json");
    assert(market::inflation_url_text(Currency::Usd)
        =~= "https://api.worldbank.org/v2/country/US/indicator/FP.CPI.TOTL.ZG?format=json"@);
    assert(market::inflation_url_text(Currency::Gbp)
        =~= "https://api.worldbank.org/v2/country/GB/indicator/FP.CPI.TOTL.ZG?format=json"@);
    assert(market::inflation_url_text(Currency::Eur)
        =~= "https://api.worldbank.org/v2/country/EU/indicator/FP.CPI.TOTL.ZG?format=json"@);
    assert(market::inflation_url_text(Currency::Jpy)
        =~= "https://api.worldbank.org/v2/country/JP/indicator/FP.CPI.TOTL.ZG?format=json"@);
    assert(market::inflation_url_text(Currency::Cad)
        =~= "https://api.worldbank.org/v2/country/CA/indicator/FP.CPI.TOTL.ZG?format=json"@);
    assert(market::inflation_url_text(Currency::Aud)
        =~= "https://api.worldbank.org/v2/country/AU/indicator/FP.CPI.TOTL.ZG?format=json"@);
    assert(market::inflation_url_text(Currency::Chf)
        =~= "https://api.worldbank.org/v2/country/CH/indicator/FP.CPI.TOTL.ZG?format=json"@);
}

/// Each currency has its own place in a table, and an empty table has none
/// filled.
pub proof fn law_rates_have_their_places(r: Rates)
    ensures
        r.rate(Currency::Usd) == r.usd,
        r.rate(Currency::Gbp) == r.gbp,
        r.rate(Currency::Eur) == r.eur,
        r.rate(Currency::Jpy) == r.jpy,
        r.rate(Currency::Cad) == r.cad,
        r.rate(Currency::Aud) == r.aud,
        r.rate(Currency::Chf) == r.chf,
        r.empty() <==> (r.usd is None && r.gbp is None && r.eur is None && r.jpy is None
            && r.cad is None && r.aud is None && r.chf is None),
{
    assert(r.rate(Currency::Usd) == r.usd);
    assert(r.rate(Currency::Gbp) == r.gbp);
    assert(r.rate(Currency::Eur) == r.eur);
    assert(r.rate(Currency::Jpy) == r.jpy);
    assert(r.rate(Currency::Cad) == r.cad);
    assert(r.rate(Currency::Aud) == r.aud);
    assert(r.rate(Currency::Chf) == r.chf);
}

/// The price in a currency is, bit for bit, the number that the member of that
/// currency's code has in the member `bitcoin`, and there is none otherwise.
pub proof fn law_prices_are_the_numbers_given(doc: JsonView, c: Currency, bits: u64)
    ensures
        market::price_in(doc, c) == Some(Double { bits }) <==> exists|btc: JsonView|
            gives(doc, "bitcoin"@, btc) && #[trigger] gives(
                btc,
                c.code_text(),
                JsonView::Number(Some(bits)),
            ),
{
    let number = JsonView::Number(Some(bits));
    if let Some(btc) = doc.member("bitcoin"@) {
        law_members_are_those_of_the_name(doc, "bitcoin"@, btc);
        if let Some(v) = btc.member(c.code_text()) {
            law_members_are_those_of_the_name(btc, c.code_text(), v);
        }
        law_members_are_those_of_the_name(btc, c.code_text(), number);
    }
    if exists|btc: JsonView|
        gives(doc, "bitcoin"@, btc) && #[trigger] gives(btc, c.code_text(), number) {
        let btc = choose|btc: JsonView|
            gives(doc, "bitcoin"@, btc) && #[trigger] gives(btc, c.code_text(), number);
        law_members_are_those_of_the_name(doc, "bitcoin"@, btc);
        law_members_are_those_of_the_name(btc, c.code_text(), number);
    }
}

/// Whether an entry of a document of monthly prices has `text` in its fifth
/// field, the one of the closing price, whatever other fields it has.
pub open spec fn closes_at(entry: JsonView, text: Seq<char>) -> bool {
    entry matches JsonView::Array(fields) && fields.len() > 4 && fields[4] == JsonView::Text(text)
}

/// Growth is the fourth root of the last closing price by the first one, where
/// both are numbers and the first is positive, and there is none otherwise.
pub proof fn law_growth_is_that_of_the_closing_prices(
    entries: Seq<JsonView>,
    first: Seq<char>,
    last: Seq<char>,
)
    requires
        entries.len() >= 2,
        closes_at(entries[0], first),
        closes_at(entries[entries.len() - 1], last),
    ensures
        ({
            let growth = market::growth_in(JsonView::Array(entries));
            let from = reading::number_in(first);
            let to = reading::number_in(last);
            &&& growth is Some <==> from is Some && to is Some && !from->0.nan() && from->0.value()
                > 0
            &&& growth is Some ==> growth->0.base == to->0.quotient(from->0) && growth->0.exponent.finite()
                && growth->0.exponent.value() * 4 == pow2(1074)
        }),
{
    laws::lemma_zero();
    lemma_quarter();
}

/// One fourth is held exactly.
proof fn lemma_quarter()
    ensures
        double::ratio(1, 4).finite(),
        double::ratio(1, 4).value() * 4 == pow2(1074),
{
    let one = pow2(1074);
    laws::law_whole_numbers_are_exact(1);
    laws::law_whole_numbers_are_exact(4);
    lemma_pow2_pos(1074);
    lemma_pow2_adds(2, 1072);
    lemma_pow2_pos(1072);
    lemma2_to64();
    let m = rounding::lemma_representable(1, 1072);
    let d = rounding::steps(double::whole(4).magnitude());
    assert(1 * pow2(1072) == pow2(1072));
    assert(1 * one == one);
    assert(d == 4 * one);
    assert(one * one == pow2(1072) * (4 * one)) by (nonlinear_arith)
        requires
            one == 4 * pow2(1072),
    ;
    rounding::lemma_nearest_exact(m, d);
}

/// Growth needs an array of at least two entries, of which the first and the
/// last are arrays with a text in the field of the closing price.
pub proof fn law_growth_needs_two_closing_prices(doc: JsonView)
    requires
        market::growth_in(doc) is Some,
    ensures
        doc matches JsonView::Array(entries) && entries.len() >= 2 && (exists|first: Seq<char>|
            #[trigger] closes_at(entries[0], first)) && exists|last: Seq<char>| #[trigger]
            closes_at(entries.last(), last),
{
    if let JsonView::Array(entries) = doc {
        let first = market::close_of(entries[0])->0;
        let last = market::close_of(entries[entries.len() - 1])->0;
        assert(closes_at(entries[0], first));
        assert(closes_at(entries.last(), last));
    }
}

/// Whether an entry of a document of yearly inflation reports the number with
/// these bits.
pub open spec fn reports(entry: JsonView, bits: u64) -> bool {
    gives(entry, "value"@, JsonView::Number(Some(bits)))
}

/// Whether the entries at these places, and no others, report these numbers.
pub open spec fn reported(entries: Seq<JsonView>, places: Seq<int>, bits: Seq<u64>) -> bool {
    &&& places.len() == bits.len()
    &&& forall|j: int, k: int|
        0 <= j < k < places.len() ==> #[trigger] places[j] < #[trigger] places[k]
    &&& forall|k: int|
        0 <= k < places.len() ==> 0 <= #[trigger] places[k] < entries.len() && reports(
            entries[places[k]],
            bits[k],
        )
    &&& forall|i: int, b: u64|
        0 <= i < entries.len() && #[trigger] reports(entries[i], b) ==> places.contains(i)
}

/// The reading of an entry is the number that it reports.
proof fn lemma_reading_of(entry: JsonView, bits: u64)
    ensures
        market::reading_of(entry) == Some(Double { bits }) <==> reports(entry, bits),
{
    let number = JsonView::Number(Some(bits));
    law_members_are_those_of_the_name(entry, "value"@, number);
    if let Some(v) = entry.member("value"@) {
        law_members_are_those_of_the_name(entry, "value"@, v);
    }
}

/// The readings among entries are the numbers that they report.
proof fn lemma_readings_among(entries: Seq<JsonView>, places: Seq<int>, bits: Seq<u64>)
    requires
        reported(entries, places, bits),
    ensures
        market::readings_among(entries) == bits.map_values(|b: u64| Double { bits: b }),
    decreases entries.len(),
{
    let numbers = bits.map_values(|b: u64| Double { bits: b });
    if entries.len() == 0 {
        if places.len() > 0 {
            assert(0 <= places[0] < entries.len());
        }
        assert(numbers =~= Seq::<Double>::empty());
    } else {
        let end = entries.len() - 1;
        let front = entries.drop_last();
        if let Some(x) = market::reading_of(entries.last()) {
            lemma_reading_of(entries[end], x.bits);
            assert(places.contains(end));
            let at = choose|k: int| 0 <= k < places.len() && places[k] == end;
            let last = places.len() - 1;
            if at < last {
                assert(places[at] < places[last]);
            }
            lemma_reading_of(entries[end], bits[last]);
            let p = places.drop_last();
            let b = bits.drop_last();
            assert forall|k: int| 0 <= k < p.len() implies 0 <= #[trigger] p[k] < front.len()
                && reports(front[p[k]], b[k]) by {
                assert(places[k] < places[last]);
                assert(front[p[k]] == entries[places[k]]);
            }
            assert forall|i: int, n: u64|
                0 <= i < front.len() && #[trigger] reports(front[i], n) implies p.contains(i) by {
                assert(front[i] == entries[i]);
                let k = choose|k: int| 0 <= k < places.len() && places[k] == i;
                assert(p[k] == i);
            }
            lemma_readings_among(front, p, b);
            assert(numbers =~= b.map_values(|b: u64| Double { bits: b }).push(x));
        } else {
            assert forall|k: int| 0 <= k < places.len() implies 0 <= #[trigger] places[k]
                < front.len() && reports(front[places[k]], bits[k]) by {
                lemma_reading_of(entries[places[k]], bits[k]);
                assert(front[places[k]] == entries[places[k]]);
            }
            assert forall|i: int, n: u64|
                0 <= i < front.len() && #[trigger] reports(front[i], n) implies places.contains(
                i,
            ) by {
                assert(front[i] == entries[i]);
            }
            lemma_readings_among(front, places, bits);
        }
    }
}

/// The readings are, bit for bit, the first four numbers that the entries in the
/// second element of a document report, or all where there are fewer.
pub proof fn law_readings_are_the_reported_numbers(
    items: Seq<JsonView>,
    entries: Seq<JsonView>,
    places: Seq<int>,
    bits: Seq<u64>,
)
    requires
        items.len() > 1,
        items[1] == JsonView::Array(entries),
        reported(entries, places, bits),
    ensures
        ({
            let r = market::readings(JsonView::Array(items));
            &&& r.len() == (if bits.len() < 4 {
                bits.len()
            } else {
                4
            })
            &&& forall|k: int| 0 <= k < r.len() ==> (#[trigger] r[k]).bits == bits[k]
        }),
{
    lemma_readings_among(entries, places, bits);
}

/// Every reading is, bit for bit, the number that some entry in the second
/// element of the document reports.
pub proof fn law_every_reading_is_reported(doc: JsonView, k: int)
    requires
        0 <= k < market::readings(doc).len(),
    ensures
        doc is Array,
        doc->Array_0.len() > 1,
        doc->Array_0[1] is Array,
        exists|i: int|
            0 <= i < doc->Array_0[1]->Array_0.len() && reports(
                #[trigger] doc->Array_0[1]->Array_0[i],
                market::readings(doc)[k].bits,
            ),
{
    if let JsonView::Array(items) = doc {
        if items.len() > 1 {
            if let JsonView::Array(entries) = items[1] {
                lemma_reading_is_reported(entries, k);
            }
        }
    }
}

/// A reading among entries is reported by one of them.
proof fn lemma_reading_is_reported(entries: Seq<JsonView>, k: int)
    requires
        0 <= k < market::readings_among(entries).len(),
    ensures
        exists|i: int|
            0 <= i < entries.len() && reports(
                #[trigger] entries[i],
                market::readings_among(entries)[k].bits,
            ),
    decreases entries.len(),
{
    let front = entries.drop_last();
    let x = market::readings_among(entries)[k];
    if k < market::readings_among(front).len() {
        lemma_reading_is_reported(front, k);
        let i = choose|i: int| 0 <= i < front.len() && reports(#[trigger] front[i], x.bits);
        assert(entries[i] == front[i]);
    } else {
        lemma_reading_of(entries.last(), x.bits);
        assert(reports(entries[entries.len() - 1], x.bits));
    }
}

/// Four entries that each report a number are read as these four numbers.
pub proof fn law_four_reported_years_are_read(items: Seq<JsonView>, entries: Seq<JsonView>, b: Seq<u64>)
    requires
        items.len() > 1,
        items[1] == JsonView::Array(entries),
        entries.len() == 4,
        b.len() == 4,
        forall|i: int| 0 <= i < 4 ==> reports(#[trigger] entries[i], b[i]),
    ensures
        market::readings(JsonView::Array(items)) == seq![
            Double { bits: b[0] },
            Double { bits: b[1] },
            Double { bits: b[2] },
            Double { bits: b[3] },
        ],
{
    let places: Seq<int> = seq![0, 1, 2, 3];
    assert forall|k: int| 0 <= k < places.len() implies 0 <= #[trigger] places[k] < entries.len()
        && reports(entries[places[k]], b[k]) by {
        assert(places[k] == k);
        assert(reports(entries[k], b[k]));
    }
    assert forall|i: int, n: u64|
        0 <= i < entries.len() && #[trigger] reports(entries[i], n) implies places.contains(i) by {
        assert(places[i] == i);
    }
    law_readings_are_the_reported_numbers(items, entries, places, b);
    assert(market::readings(JsonView::Array(items)) =~= seq![
        Double { bits: b[0] },
        Double { bits: b[1] },
        Double { bits: b[2] },
        Double { bits: b[3] },
    ]);
}

/// One more year multiplies what the years before compound to by one and its
/// rate, which is in percent.
pub proof fn law_each_year_compounds(rates: Seq<Double>, rate: Double)
    ensures
        ({
            let year = double::whole(1).sum(rate.quotient(double::whole(100)));
            let all = market::average_power(rates.push(rate));
            &&& market::average_power(Seq::empty()) is None
            &&& all is Some
            &&& rates.len() == 0 ==> all->0.base == double::whole(1).product(year)
            &&& rates.len() > 0 ==> market::average_power(rates) is Some && all->0.base
                == market::average_power(rates)->0.base.product(year)
        }),
{
    let all = rates.push(rate);
    assert(all.drop_last() =~= rates);
    if rates.len() == 0 {
        assert(market::compounded(rates) == double::whole(1));
    }
}

/// An average is a root of a degree that is the number of the years.
pub proof fn law_average_takes_the_root_of_the_years(rates: Seq<Double>)
    requires
        0 < rates.len() < 0x20_0000_0000_0000,
    ensures
        market::average_power(rates) is Some,
        correctly_rounded(
            market::average_power(rates)->0.exponent,
            pow2(1074) as int,
            rates.len(),
        ),
{
    numbers::law_fractions_are_correctly_rounded(1, rates.len());
    assert(1 * pow2(1074) == pow2(1074));
}

/// One and a rate in percent are near one and a hundredth of the rate.
pub proof fn law_yearly_factor_is_near(rate: Double)
    requires
        rate.finite(),
        double::whole(1).sum(rate.quotient(double::whole(100))).finite(),
    ensures
        ({
            let year = double::whole(1).sum(rate.quotient(double::whole(100))).value();
            let one = pow2(1074);
            rounding::PRECISION * vstd::math::abs(100 * year - (100 * one + rate.value())) <= 101
                * one + 3 * vstd::math::abs(rate.value())
        }),
{
    let u = rounding::PRECISION as int;
    let one = pow2(1074) as int;
    let hundred = double::whole(100);
    let q = rate.quotient(hundred);
    let year = double::whole(1).sum(q);
    let r = rate.value();
    let size = rounding::steps(rate.magnitude()) as int;
    laws::law_whole_numbers_are_exact(1);
    laws::law_whole_numbers_are_exact(100);
    proportions::lemma_one();
    assert(hundred.value() > 0) by (nonlinear_arith)
        requires
            hundred.value() == 100 * one,
            one > 0,
    ;
    laws::lemma_quotient_value(rate, hundred);
    assert(q.finite());
    laws::lemma_infinite_bounds(q);
    let den = (100 * one) as nat;
    rounding::lemma_nearest_error_at_most((size * one) as nat, den);
    let p = rounding::steps(q.magnitude()) as int;
    assert((-size) * one == -(size * one)) by (nonlinear_arith);
    assert(size * one >= 0) by (nonlinear_arith)
        requires
            size >= 0,
            one > 0,
    ;
    assert(p == rounding::steps(rounding::nearest((size * one) as nat, den)));
    let gap = vstd::math::abs(100 * p - size);
    assert(vstd::math::abs(p * (100 * one) - size * one) == gap * one) by (nonlinear_arith)
        requires
            gap == vstd::math::abs(100 * p - size),
            one > 0,
    ;
    assert(u * gap <= size + 100 * u) by (nonlinear_arith)
        requires
            u * (gap * one) <= size * one + u * (100 * one),
            one > 0,
    ;
    assert(vstd::math::abs(100 * q.value() - r) == gap) by {
        if size == 0 {
            assert(rounding::nearest(0, den) == 0) by {
                rounding::lemma_nearest_exact(0, den);
                assert(0 * den == 0) by (nonlinear_arith);
            }
            assert(0 * one == 0) by (nonlinear_arith);
        }
    }
    laws::lemma_sum_value(double::whole(1), q);
    laws::lemma_infinite_bounds(year);
    let n = one + q.value();
    rounding::lemma_nearest_error_whole(vstd::math::abs(n));
    let slip = vstd::math::abs(year.value() - n);
    assert(u * slip <= vstd::math::abs(n));
    let total = vstd::math::abs(100 * year.value() - (100 * one + r));
    assert(total <= 100 * slip + gap);
    assert(u * total <= 100 * (u * slip) + u * gap) by (nonlinear_arith)
        requires
            total <= 100 * slip + gap,
            u > 0,
    ;
    assert(gap <= size + 100) by (nonlinear_arith)
        requires
            u * gap <= size + 100 * u,
            u >= 1,
            size >= 0,
            gap >= 0,
    ;
    assert(100 * vstd::math::abs(n) <= 100 * one + size + gap);
    lemma2_to64_rest();
    lemma_pow2_strictly_increases(63, 1074);
}

/// The views of the parts of a budget hold what these hold.
pub proof fn law_views_of_parts(
    expenses: Seq<Expense>,
    slices: Seq<Slice>,
    row: Row,
    projection: Projection,
    i: int,
)
    ensures
        budget::plan(expenses).len() == expenses.len(),
        0 <= i < expenses.len() ==> budget::plan(expenses)[i].name == expenses[i].name@
            && budget::plan(expenses)[i].amount == expenses[i].amount,
        pie::shown(slices).len() == slices.len(),
        0 <= i < slices.len() ==> pie::shown(slices)[i].share == slices[i].share && pie::shown(
            slices,
        )[i].color == slices[i].color && pie::shown(slices)[i].caption == slices[i].caption@
            && pie::shown(slices)[i].inside == slices[i].inside,
        row@.name == row.name@ && row@.fiat == row.fiat@ && row@.hard == row.hard@,
        projection@.years == projection.years@ && projection@.fiat == projection.fiat@
            && projection@.btc == projection.btc@,
{
}

/// The amounts that are treated as none, assumed where unknown, and shown inside
/// a slice: one millionth, three hundredths, one tenth.
pub proof fn law_constants()
    ensures
        correctly_rounded(budget::negligible(), pow2(1074) as int, 1_000_000),
        correctly_rounded(budget::assumed_inflation(), (3 * pow2(1074)) as int, 100),
        correctly_rounded(double::ratio(1, 10), pow2(1074) as int, 10),
        budget::REFRESH_NANOS == 60 * 60 * 1_000_000_000,
        DisplayMode::BTC.name_text() == "BTC"@,
        DisplayMode::SATS.name_text() == "SATS"@,
{
    numbers::law_fractions_are_correctly_rounded(1, 1_000_000);
    numbers::law_fractions_are_correctly_rounded(3, 100);
    numbers::law_fractions_are_correctly_rounded(1, 10);
    assert(1 * pow2(1074) == pow2(1074));
}

/// The price is that in the selected currency, and no other price changes it;
/// it is zero where unknown.
pub proof fn law_price_is_that_in_the_selected_currency(app: ExpenseApp, other: ExpenseApp)
    ensures
        app.btc_prices.rate(app.selected_currency) matches Some(p) ==> app.price() == p,
        app.btc_prices.rate(app.selected_currency) is None ==> app.price().bits == 0,
        app.btc_prices.rate(app.selected_currency) == other.btc_prices.rate(
            other.selected_currency,
        ) ==> app.price() == other.price(),
{
    laws::lemma_zero();
}

/// Money is worth its quotient by the price in the selected currency, and
/// nothing where that is unknown or negligible.
pub proof fn law_money_is_worth_its_quotient(app: ExpenseApp, fiat: Double)
    ensures
        app.btc_prices.rate(app.selected_currency) matches Some(p) ==> {
            &&& p.nan() || p.value() > budget::negligible().value() ==> budget::worth(
                fiat,
                app.price(),
            ) == fiat.quotient(p)
            &&& !p.nan() && p.value() <= budget::negligible().value() ==> budget::worth(
                fiat,
                app.price(),
            ).bits == 0
        },
        app.btc_prices.rate(app.selected_currency) is None ==> budget::worth(
            fiat,
            app.price(),
        ).bits == 0,
{
    laws::lemma_zero();
    laws::lemma_negligible();
}

/// What money is worth is the number nearest to the exact quotient by the price
/// in the selected currency.
pub proof fn law_worth_is_precise(app: ExpenseApp, fiat: Double, p: Double)
    requires
        app.btc_prices.rate(app.selected_currency) == Some(p),
        p.finite(),
        p.value() > budget::negligible().value(),
        fiat.finite(),
    ensures
        correctly_rounded(
            budget::worth(fiat, app.price()),
            fiat.value() * pow2(1074),
            p.value() as nat,
        ),
{
    law_money_is_worth_its_quotient(app, fiat);
    laws::lemma_zero();
    laws::lemma_negligible();
    numbers::law_arithmetic_is_correctly_rounded(0, fiat, p);
}

/// Inflation is what is known of the currency, and three percent where nothing
/// is.
pub proof fn law_inflation_is_that_of_the_currency(app: ExpenseApp, c: Currency)
    ensures
        app.inflation_rates.rate(c) matches Some(x) ==> app.inflation(c) == x,
        app.inflation_rates.rate(c) is None ==> correctly_rounded(
            app.inflation(c),
            (3 * pow2(1074)) as int,
            100,
        ),
{
    law_constants();
}

/// One more expense adds its amount to what is spent, whatever the budget.
pub proof fn law_each_expense_adds_its_amount(a: ExpenseApp, b: ExpenseApp, e: ExpenseView)
    ensures
        budget::plan(a.expenses@).len() == 0 ==> a.spending().bits == 0x8000_0000_0000_0000,
        budget::plan(b.expenses@) == budget::plan(a.expenses@).push(e) ==> b.spending()
            == a.spending().sum(e.amount),
{
    let p = budget::plan(a.expenses@);
    assert(p.push(e).drop_last() =~= p);
}

/// One more entry adds its amount to a sum.
pub proof fn law_each_entry_adds_its_amount(p: Seq<ExpenseView>, e: ExpenseView)
    ensures
        budget::total(Seq::empty()).bits == 0x8000_0000_0000_0000,
        budget::total(p.push(e)) == budget::total(p).sum(e.amount),
{
    assert(p.push(e).drop_last() =~= p);
}

/// The exact sum of the magnitudes of the amounts, in steps.
pub open spec fn exact_size(data: Seq<ExpenseView>) -> int
    decreases data.len(),
{
    if data.len() == 0 {
        0
    } else {
        exact_size(data.drop_last()) + vstd::math::abs(data.last().amount.value())
    }
}

/// Whether all amounts are finite.
pub open spec fn all_finite(data: Seq<ExpenseView>) -> bool {
    forall|i: int| 0 <= i < data.len() ==> (#[trigger] data[i]).amount.finite()
}

/// A sum is within two parts in 2^53 for each amount of the exact sum.
pub proof fn law_sum_is_near_the_exact_sum(data: Seq<ExpenseView>)
    requires
        all_finite(data),
        budget::total(data).finite(),
        2 * data.len() <= rounding::PRECISION,
    ensures
        rounding::PRECISION * vstd::math::abs(
            budget::total(data).value() - proportions::exact_total(data),
        ) <= 2 * data.len() * exact_size(data),
        vstd::math::abs(proportions::exact_total(data)) <= exact_size(data),
    decreases data.len(),
{
    if data.len() > 0 {
        let p = data.drop_last();
        let a = data.last().amount;
        assert(data[data.len() - 1].amount == a);
        assert forall|i: int| 0 <= i < p.len() implies (#[trigger] p[i]).amount.finite() by {
            assert(p[i] == data[i]);
        }
        let before = budget::total(p);
        assert(before.finite());
        law_sum_is_near_the_exact_sum(p);
        let n = data.len() as int;
        let u = rounding::PRECISION as int;
        let t = before.value();
        let e = proportions::exact_total(p);
        let size = exact_size(p);
        let all = exact_size(data);
        let x = vstd::math::abs(t - e);
        let sum = budget::total(data).value();
        laws::lemma_sum_value(before, a);
        laws::lemma_infinite_bounds(budget::total(data));
        rounding::lemma_nearest_error_whole(vstd::math::abs(t + a.value()));
        let y = vstd::math::abs(sum - (t + a.value()));
        assert(u * y <= vstd::math::abs(t + a.value()));
        assert(x <= size) by (nonlinear_arith)
            requires
                u * x <= 2 * (n - 1) * size,
                2 * n <= u,
                size >= 0,
                u > 0,
                n >= 1,
        ;
        let z = vstd::math::abs(sum - proportions::exact_total(data));
        assert(u * z <= u * x + u * y) by (nonlinear_arith)
            requires
                z <= x + y,
                u > 0,
        ;
        assert(2 * (n - 1) * size + 2 * all <= 2 * n * all) by (nonlinear_arith)
            requires
                size <= all,
                n >= 1,
        ;
    }
}

/// What is spent is near the exact sum of the planned amounts, also where that
/// exceeds the budget.
pub proof fn law_spending_is_near_the_exact_sum(app: ExpenseApp)
    requires
        all_finite(budget::plan(app.expenses@)),
        app.spending().finite(),
        2 * app.expenses@.len() <= rounding::PRECISION,
    ensures
        rounding::PRECISION * vstd::math::abs(
            app.spending().value() - proportions::exact_total(budget::plan(app.expenses@)),
        ) <= 2 * app.expenses@.len() * exact_size(budget::plan(app.expenses@)),
{
    law_sum_is_near_the_exact_sum(budget::plan(app.expenses@));
}

/// What is left is the budget without what is spent, where that is positive, and
/// zero otherwise.
pub proof fn law_left_is_the_budget_without_spending(app: ExpenseApp)
    ensures
        ({
            let rest = app.total_budget.difference(app.spending());
            &&& !rest.nan() && rest.value() > 0 ==> app.left() == rest
            &&& rest.nan() || rest.value() <= 0 ==> app.left().bits == 0
        }),
{
    laws::lemma_zero();
}

/// What is added is an expense of nothing called `New`, after all others; what
/// is deleted is the last one.
pub proof fn law_plans_change_at_the_end(p: Seq<ExpenseView>)
    ensures
        budget::with_new(p).len() == p.len() + 1,
        budget::with_new(p).take(p.len() as int) == p,
        budget::with_new(p)[p.len() as int].name == "New"@,
        budget::with_new(p)[p.len() as int].amount.bits == 0,
        p.len() == 0 ==> budget::without_last(p).len() == 0,
        p.len() > 0 ==> budget::without_last(p) == p.take(p.len() - 1),
{
    laws::lemma_zero();
    assert(budget::with_new(p).take(p.len() as int) =~= p);
    if p.len() > 0 {
        assert(budget::without_last(p) =~= p.take(p.len() - 1));
    }
}

/// Prices are asked for where none is known and none is awaited; inflation and
/// growth where they never came or came more than an hour ago, and are not
/// awaited. What is asked for is awaited from then on, and nothing else changes.
pub proof fn law_frames_ask_for_what_is_due(app: ExpenseApp, now: u128)
    ensures
        app.wf() <==> (app.macro_loading <==> app.macro_awaited),
        app.due(now).prices <==> !app.prices_awaited && (forall|c: Currency| #[trigger]
            app.btc_prices.rate(c) is None),
        app.due(now).macro_data <==> !app.macro_awaited && !app.macro_loading && (
        app.last_macro_refresh is None || now - app.last_macro_refresh->0 > 3_600_000_000_000),
        app.begun(now).prices_awaited <==> app.prices_awaited || app.due(now).prices,
        app.begun(now).macro_awaited <==> app.macro_awaited || app.due(now).macro_data,
        app.begun(now).macro_loading <==> app.macro_loading || app.due(now).macro_data,
        app.begun(now).total_budget == app.total_budget,
        app.begun(now).expenses == app.expenses,
        app.begun(now).btc_prices == app.btc_prices,
        app.begun(now).selected_currency == app.selected_currency,
        app.begun(now).inflation_rates == app.inflation_rates,
        app.begun(now).btc_cagr_4y == app.btc_cagr_4y,
        app.begun(now).last_macro_refresh == app.last_macro_refresh,
        app.begun(now).display_mode == app.display_mode,
{
}

/// Awaited prices replace all that were known, and are awaited no more; prices
/// that are not awaited change nothing.
pub proof fn law_prices_are_taken_as_they_come(app: ExpenseApp, prices: Rates)
    ensures
        app.prices_awaited ==> app.priced(prices).btc_prices == prices && !app.priced(
            prices,
        ).prices_awaited,
        !app.prices_awaited ==> app.priced(prices) == app,
        app.priced(prices).total_budget == app.total_budget,
        app.priced(prices).expenses == app.expenses,
        app.priced(prices).selected_currency == app.selected_currency,
        app.priced(prices).inflation_rates == app.inflation_rates,
        app.priced(prices).btc_cagr_4y == app.btc_cagr_4y,
        app.priced(prices).macro_awaited == app.macro_awaited,
        app.priced(prices).last_macro_refresh == app.last_macro_refresh,
        app.priced(prices).macro_loading == app.macro_loading,
        app.priced(prices).display_mode == app.display_mode,
{
}

/// Awaited inflation and growth replace what was known, with the time at which
/// they came, and are awaited no more; what is not awaited changes nothing.
pub proof fn law_macro_data_is_taken_as_it_comes(
    app: ExpenseApp,
    inflation: Rates,
    btc_cagr: Double,
    now: u128,
)
    ensures
        ({
            let after = app.informed(inflation, btc_cagr, now);
            &&& app.macro_awaited ==> after.inflation_rates == inflation && after.btc_cagr_4y
                == btc_cagr && after.last_macro_refresh == Some(now) && !after.macro_awaited
                && !after.macro_loading
            &&& !app.macro_awaited ==> after == app
            &&& after.total_budget == app.total_budget
            &&& after.expenses == app.expenses
            &&& after.btc_prices == app.btc_prices
            &&& after.selected_currency == app.selected_currency
            &&& after.prices_awaited == app.prices_awaited
            &&& after.display_mode == app.display_mode
        }),
{
}

/// A text that shows an amount in a currency: the amount with two decimals, and
/// the code in capitals.
pub open spec fn shows_money(text: Seq<char>, amount: Double, code: Seq<char>) -> bool {
    exists|number: Seq<char>|
        text == #[trigger] (number + " "@ + code) && shows(number, amount, 2)
}

/// Amounts of money are shown with two decimals and the currency.
pub proof fn law_money_is_shown(amount: Double)
    requires
        amount.finite(),
    ensures
        shows_money(report::fiat_text(amount, Currency::Usd), amount, "USD"@),
        shows_money(report::fiat_text(amount, Currency::Gbp), amount, "GBP"@),
        shows_money(report::fiat_text(amount, Currency::Eur), amount, "EUR"@),
        shows_money(report::fiat_text(amount, Currency::Jpy), amount, "JPY"@),
        shows_money(report::fiat_text(amount, Currency::Cad), amount, "CAD"@),
        shows_money(report::fiat_text(amount, Currency::Aud), amount, "AUD"@),
        shows_money(report::fiat_text(amount, Currency::Chf), amount, "CHF"@),
{
    let number = decimal::fixed_text(amount, 2);
    law_texts_of_currencies();
    numbers::law_fixed_notation_denotes(amount, 2);
    assert(report::fiat_text(amount, Currency::Usd) == number + " "@ + "USD"@);
    assert(report::fiat_text(amount, Currency::Gbp) == number + " "@ + "GBP"@);
    assert(report::fiat_text(amount, Currency::Eur) == number + " "@ + "EUR"@);
    assert(report::fiat_text(amount, Currency::Jpy) == number + " "@ + "JPY"@);
    assert(report::fiat_text(amount, Currency::Cad) == number + " "@ + "CAD"@);
    assert(report::fiat_text(amount, Currency::Aud) == number + " "@ + "AUD"@);
    assert(report::fiat_text(amount, Currency::Chf) == number + " "@ + "CHF"@);
}

/// Rates are shown in percent, with two decimals: the number nearest to a
/// hundred times the rate.
pub proof fn law_rates_are_shown_in_percent(rate: Double)
    requires
        rate.finite(),
        rate.product(double::whole(100)).finite(),
    ensures
        exists|percent: Double, number: Seq<char>|
            correctly_rounded(percent, rate.value() * 100, 1) && percent.negative()
                == rate.negative() && #[trigger] shows(number, percent, 2)
                && report::percent_text(rate) == number + "%"@,
{
    let percent = rate.product(double::whole(100));
    numbers::law_multiples_are_correctly_rounded(rate, 100);
    numbers::law_fixed_notation_denotes(percent, 2);
    assert(shows(decimal::fixed_text(percent, 2), percent, 2));
}

/// Bitcoin is shown with eight decimals, or as the whole number of satoshis, a
/// hundred million to the bitcoin, without their fraction.
pub proof fn law_bitcoin_is_shown(btc: Double)
    ensures
        btc.finite() ==> exists|number: Seq<char>| #[trigger]
            shows(number, btc, 8) && budget::hard_text(btc, DisplayMode::BTC) == number + " BTC"@,
        btc.nan() ==> budget::hard_text(btc, DisplayMode::BTC) == "NaN BTC"@,
        exists|sats: nat|
            {
                let exact = btc.product(double::whole(100_000_000));
                &&& budget::hard_text(btc, DisplayMode::SATS) == #[trigger] decimal::numeral(sats)
                    + " SATS"@
                &&& sats <= u64::MAX
                &&& exact.nan() || exact.value() < 0 ==> sats == 0
                &&& !exact.nan() && exact.value() >= 0 ==> sats * pow2(1074) <= exact.value()
                &&& !exact.nan() && exact.value() >= 0 && sats < u64::MAX ==> exact.value() < (sats
                    + 1) * pow2(1074)
            },
        btc.finite() ==> correctly_rounded(
            btc.product(double::whole(100_000_000)),
            btc.value() * 100_000_000,
            1,
        ),
{
    numbers::law_fixed_notation_denotes(btc, 8);
    if btc.finite() {
        assert(shows(decimal::fixed_text(btc, 8), btc, 8));
        numbers::law_multiples_are_correctly_rounded(btc, 100_000_000);
    }
    reveal_strlit("NaN");
    reveal_strlit(" BTC");
    reveal_strlit("NaN BTC");
    assert("NaN"@ + " BTC"@ =~= "NaN BTC"@);
    let exact = btc.product(double::whole(100_000_000));
    numbers::law_integer_part_drops_the_fraction(exact);
    let sats = exact.integer_part();
    assert(budget::hard_text(btc, DisplayMode::SATS) == decimal::numeral(sats) + " SATS"@);
}

/// A line of the summary shows the name, the amount in the selected currency,
/// and what that is worth in the selected unit.
pub proof fn law_lines_show_their_amounts(app: ExpenseApp, name: Seq<char>, amount: Double)
    ensures
        app.row_of(name, amount).name == name,
        amount.finite() ==> shows_money(
            app.row_of(name, amount).fiat,
            amount,
            app.selected_currency.label_text(),
        ),
        app.row_of(name, amount).hard == budget::hard_text(
            budget::worth(amount, app.price()),
            app.display_mode,
        ),
{
    numbers::law_fixed_notation_denotes(amount, 2);
    let number = decimal::fixed_text(amount, 2);
    assert(app.row_of(name, amount).fiat == number + " "@ + app.selected_currency.label_text());
}

/// The heading shows the price in the selected currency without its fraction.
pub proof fn law_heading_shows_the_price(app: ExpenseApp, p: Double)
    requires
        app.btc_prices.rate(app.selected_currency) == Some(p),
        !p.nan(),
        p.value() >= 0,
    ensures
        exists|whole: nat|
            app.price_heading_text() == "BTC Price: "@ + #[trigger] decimal::numeral(whole) + " "@
                + app.selected_currency.label_text() && whole <= u64::MAX && whole * pow2(1074)
                <= p.value() && (whole < u64::MAX ==> p.value() < (whole + 1) * pow2(1074)),
{
    numbers::law_integer_part_drops_the_fraction(p);
    let whole = p.integer_part();
    assert(app.price_heading_text() == "BTC Price: "@ + decimal::numeral(whole) + " "@
        + app.selected_currency.label_text());
}

/// Without a price, or with one that is not a positive number, the heading shows
/// zero.
pub proof fn law_heading_without_a_price_shows_zero(app: ExpenseApp)
    requires
        app.btc_prices.rate(app.selected_currency) matches Some(p) ==> p.nan() || p.value() < 0,
    ensures
        app.price_heading_text() == "BTC Price: 0 "@ + app.selected_currency.label_text(),
{
    laws::lemma_zero();
    numbers::law_integer_part_drops_the_fraction(app.price());
    lemma_pow2_pos(1074);
    let k = app.price().integer_part();
    if app.btc_prices.rate(app.selected_currency) is None {
        assert(k == 0) by (nonlinear_arith)
            requires
                k * pow2(1074) <= 0,
                pow2(1074) > 0,
        ;
    }
    reveal_strlit("BTC Price: ");
    reveal_strlit(" ");
    reveal_strlit("BTC Price: 0 ");
    assert(decimal::numeral(0) =~= seq!['0']);
    assert(app.price_heading_text() =~= "BTC Price: 0 "@ + app.selected_currency.label_text());
}

/// Years are counted in English.
pub proof fn law_years_are_counted(y: nat)
    ensures
        report::horizon() == seq![1u32, 4, 5, 10, 15, 20, 25, 30],
        y == 1 ==> report::years_text(y) == "1 Year"@,
        y > 1 ==> report::years_text(y) == decimal::numeral(y) + " Years"@,
        y == 0 ==> report::years_text(y) == "0 Year"@,
{
    reveal_strlit(" Year");
    reveal_strlit(" Years");
    reveal_strlit("1 Year");
    reveal_strlit("0 Year");
    reveal_strlit("s");
    reveal_strlit("");
    if y == 1 {
        assert(report::years_text(1) =~= "1 Year"@);
    } else if y > 1 {
        assert(report::years_text(y) =~= decimal::numeral(y) + " Years"@);
    } else {
        assert(report::years_text(0) =~= "0 Year"@);
    }
}

/// The caption of a slice is its label and, in brackets, the whole number of
/// percent nearest to a hundred times its share.
pub proof fn law_captions_show_the_percentage(label: Seq<char>, share: Double)
    requires
        share.finite(),
        share.product(double::whole(100)).finite(),
    ensures
        exists|percent: Double, number: Seq<char>|
            correctly_rounded(percent, share.value() * 100, 1) && percent.negative()
                == share.negative() && #[trigger] shows(number, percent, 0) && pie::caption_text(
                label,
                share,
            ) == label + " ("@ + number + "%)"@,
{
    let percent = share.product(double::whole(100));
    numbers::law_multiples_are_correctly_rounded(share, 100);
    numbers::law_fixed_notation_denotes(percent, 0);
    assert(shows(decimal::fixed_text(percent, 0), percent, 0));
}

/// What is not a number, or out of range, is shown so.
pub proof fn law_special_numbers_are_shown(label: Seq<char>, x: Double, c: Currency)
    ensures
        x.nan() ==> pie::caption_text(label, x) == label + " (NaN%)"@,
        x.nan() ==> report::percent_text(x) == "NaN%"@,
        x.nan() ==> report::fiat_text(x, c) == "NaN "@ + c.label_text(),
        !x.nan() && !x.negative() && !x.product(double::whole(100)).finite() ==> pie::caption_text(
            label,
            x,
        ) == label + " (inf%)"@ && report::percent_text(x) == "inf%"@,
        !x.nan() && x.negative() && !x.product(double::whole(100)).finite() ==> pie::caption_text(
            label,
            x,
        ) == label + " (-inf%)"@ && report::percent_text(x) == "-inf%"@,
        x.infinite() && !x.negative() ==> report::fiat_text(x, c) == "inf "@ + c.label_text()
            && budget::hard_text(x, DisplayMode::BTC) == "inf BTC"@,
        x.infinite() && x.negative() ==> report::fiat_text(x, c) == "-inf "@ + c.label_text()
            && budget::hard_text(x, DisplayMode::BTC) == "-inf BTC"@,
{
    reveal_strlit(" (");
    reveal_strlit("NaN");
    reveal_strlit("inf");
    reveal_strlit("-");
    reveal_strlit("%)");
    reveal_strlit("%");
    reveal_strlit(" ");
    reveal_strlit(" BTC");
    reveal_strlit(" (NaN%)");
    reveal_strlit("NaN%");
    reveal_strlit("NaN ");
    reveal_strlit(" (inf%)");
    reveal_strlit("inf%");
    reveal_strlit("inf ");
    reveal_strlit("inf BTC");
    reveal_strlit(" (-inf%)");
    reveal_strlit("-inf%");
    reveal_strlit("-inf ");
    reveal_strlit("-inf BTC");
    laws::law_whole_numbers_are_exact(100);
    lemma_pow2_pos(1074);
    numbers::law_products_of_special_numbers(x, double::whole(100));
    if x.nan() {
        assert(pie::caption_text(label, x) =~= label + " (NaN%)"@);
        assert(report::percent_text(x) =~= "NaN%"@);
        assert(report::fiat_text(x, c) =~= "NaN "@ + c.label_text());
    } else if !x.product(double::whole(100)).finite() {
        assert(x.product(double::whole(100)).infinite());
        if x.negative() {
            assert(pie::caption_text(label, x) =~= label + " (-inf%)"@);
            assert(report::percent_text(x) =~= "-inf%"@);
        } else {
            assert(pie::caption_text(label, x) =~= label + " (inf%)"@);
            assert(report::percent_text(x) =~= "inf%"@);
        }
    }
    if x.infinite() {
        if x.negative() {
            assert(report::fiat_text(x, c) =~= "-inf "@ + c.label_text());
            assert(budget::hard_text(x, DisplayMode::BTC) =~= "-inf BTC"@);
        } else {
            assert(report::fiat_text(x, c) =~= "inf "@ + c.label_text());
            assert(budget::hard_text(x, DisplayMode::BTC) =~= "inf BTC"@);
        }
    }
}

/// How many percent a share is captioned with.
spec fn percent_of(share: Double) -> nat {
    decimal::scaled(share.product(double::whole(100)), 0)
}

/// What a share is captioned with, and how near that is.
proof fn lemma_percent(label: Seq<char>, share: Double)
    requires
        share.finite(),
        !share.negative(),
        share.product(double::whole(100)).finite(),
    ensures
        pie::caption_text(label, share) == label + " ("@ + decimal::numeral(percent_of(share))
            + "%)"@,
        2 * rounding::PRECISION * vstd::math::abs(
            percent_of(share) * pow2(1074) - 100 * share.value(),
        ) <= rounding::PRECISION * pow2(1074) + 200 * share.value(),
{
    let u = rounding::PRECISION as int;
    let one = pow2(1074);
    let hundred = double::whole(100);
    let x = share.product(hundred);
    let v = share.value();
    let p = percent_of(share);
    laws::law_whole_numbers_are_exact(100);
    lemma_pow2_pos(1074);
    assert(naturals::pow10(0) == 1);
    assert(p / 1 == p);
    assert(!x.negative());
    // A hundred times the share, rounded.
    assert(v * (100 * one) == (v * 100) * one) by (nonlinear_arith);
    assert(1 * one == one);
    rounding::lemma_nearest_scale((v * 100) as nat, 1, one);
    rounding::lemma_nearest_error_whole((v * 100) as nat);
    assert(rounding::steps(x.magnitude()) == rounding::steps(rounding::nearest((v * 100) as nat, 1)));
    laws::law_shown_amount_is_nearest(x, 0);
    assert(rounding::steps(x.magnitude()) * 1 == rounding::steps(x.magnitude()));
    let f = vstd::math::abs(p * one - x.value());
    let g = vstd::math::abs(x.value() - 100 * v);
    let h = vstd::math::abs(p * one - 100 * v);
    assert(2 * f <= one);
    assert(u * g <= 100 * v);
    assert(2 * u * h <= u * (2 * f) + 2 * (u * g)) by (nonlinear_arith)
        requires
            h <= f + g,
            u > 0,
    ;
    assert(u * (2 * f) <= u * one) by (nonlinear_arith)
        requires
            2 * f <= one,
            u > 0,
    ;
}

/// The caption of a share that is not negative is its label and, in brackets, a
/// whole number of percent within half of one, and the rounding of a product,
/// of a hundred times the share.
pub proof fn law_captions_are_near_the_percentage(label: Seq<char>, share: Double)
    requires
        share.finite(),
        !share.negative(),
        share.product(double::whole(100)).finite(),
    ensures
        exists|p: nat|
            pie::caption_text(label, share) == label + " ("@ + #[trigger] decimal::numeral(p)
                + "%)"@ && 2 * rounding::PRECISION * vstd::math::abs(
                p * pow2(1074) - 100 * share.value(),
            ) <= rounding::PRECISION * pow2(1074) + 200 * share.value(),
{
    lemma_percent(label, share);
}

/// A greater share is captioned with no smaller percentage.
pub proof fn law_captions_are_ordered_as_the_shares(
    label: Seq<char>,
    share: Double,
    other_label: Seq<char>,
    other: Double,
)
    requires
        share.finite(),
        other.finite(),
        !share.negative(),
        share.at_most(other),
        other.product(double::whole(100)).finite(),
        !other.negative(),
    ensures
        exists|p: nat, q: nat|
            p <= q && pie::caption_text(label, share) == label + " ("@ + #[trigger] decimal::numeral(
                p,
            ) + "%)"@ && pie::caption_text(other_label, other) == other_label + " ("@
                + #[trigger] decimal::numeral(q) + "%)"@,
{
    let hundred = double::whole(100);
    laws::law_whole_numbers_are_exact(100);
    lemma_pow2_pos(1074);
    assert(hundred.value() > 0) by (nonlinear_arith)
        requires
            hundred.value() == 100 * pow2(1074),
            pow2(1074) > 0,
    ;
    laws::law_product_is_monotone(share, other, hundred);
    laws::lemma_infinite_bounds(share.product(hundred));
    laws::lemma_infinite_bounds(other.product(hundred));
    laws::lemma_scaled_order(share.product(hundred), other.product(hundred), 0);
    lemma_percent(label, share);
    lemma_percent(other_label, other);
    assert(percent_of(share) <= percent_of(other));
}

/// The colour of a slice: orange for what remains, and else the colour whose
/// turn it is at the place of the entry.
pub open spec fn colored(color: SliceColor, label: Seq<char>, place: int) -> bool {
    &&& label == "Remaining"@ ==> color == SliceColor::Orange
    &&& label != "Remaining"@ ==> {
        &&& place % 6 == 0 ==> color == SliceColor::LightRed
        &&& place % 6 == 1 ==> color == SliceColor::LightGreen
        &&& place % 6 == 2 ==> color == SliceColor::LightBlue
        &&& place % 6 == 3 ==> color == SliceColor::Yellow
        &&& place % 6 == 4 ==> color == SliceColor::Red
        &&& place % 6 == 5 ==> color == SliceColor::Blue
    }
}

/// Whether the entries at these places, and no others, are not negligible.
pub open spec fn weighty(data: Seq<ExpenseView>, places: Seq<int>) -> bool {
    &&& forall|j: int, k: int|
        0 <= j < k < places.len() ==> #[trigger] places[j] < #[trigger] places[k]
    &&& forall|k: int|
        0 <= k < places.len() ==> 0 <= #[trigger] places[k] < data.len()
            && !data[places[k]].amount.at_most(budget::negligible())
    &&& forall|i: int|
        0 <= i < data.len() && !(#[trigger] data[i]).amount.at_most(budget::negligible())
            ==> places.contains(i)
}

/// Whether a slice is that of the entry at a place: its share is the amount by
/// the whole, and its colour, its caption and where that stands go by the place,
/// the name and the share.
pub open spec fn slice_for(
    slice: pie::SliceView,
    entry: ExpenseView,
    place: int,
    whole: Double,
) -> bool {
    &&& slice.share == entry.amount.quotient(whole)
    &&& colored(slice.color, entry.name, place)
    &&& slice.caption == pie::caption_text(entry.name, slice.share)
    &&& slice.inside <==> double::ratio(1, 10).below(slice.share)
}

/// Slices are those of the entries that are not negligible, in order.
proof fn lemma_slices(data: Seq<ExpenseView>, places: Seq<int>, whole: Double)
    requires
        weighty(data, places),
    ensures
        pie::slices(data, whole).len() == places.len(),
        forall|k: int|
            0 <= k < places.len() ==> slice_for(
                #[trigger] pie::slices(data, whole)[k],
                data[places[k]],
                places[k],
                whole,
            ),
    decreases data.len(),
{
    if data.len() == 0 {
        if places.len() > 0 {
            assert(0 <= places[0] < data.len());
        }
    } else {
        let end = data.len() - 1;
        let front = data.drop_last();
        let all = pie::slices(data, whole);
        if data[end].amount.at_most(budget::negligible()) {
            assert forall|k: int| 0 <= k < places.len() implies 0 <= #[trigger] places[k]
                < front.len() && !front[places[k]].amount.at_most(budget::negligible()) by {
                assert(places[k] != end);
            }
            assert forall|i: int|
                0 <= i < front.len() && !(#[trigger] front[i]).amount.at_most(
                    budget::negligible(),
                ) implies places.contains(i) by {
                assert(front[i] == data[i]);
            }
            lemma_slices(front, places, whole);
            assert forall|k: int| 0 <= k < places.len() implies slice_for(
                #[trigger] all[k],
                data[places[k]],
                places[k],
                whole,
            ) by {
                assert(0 <= places[k] < front.len());
                assert(front[places[k]] == data[places[k]]);
            }
        } else {
            assert(places.contains(end));
            let at = choose|k: int| 0 <= k < places.len() && places[k] == end;
            let last = places.len() - 1;
            if at < last {
                assert(places[at] < places[last]);
            }
            let p = places.drop_last();
            assert forall|k: int| 0 <= k < p.len() implies 0 <= #[trigger] p[k] < front.len()
                && !front[p[k]].amount.at_most(budget::negligible()) by {
                assert(places[k] < places[last]);
                assert(front[p[k]] == data[places[k]]);
            }
            assert forall|i: int|
                0 <= i < front.len() && !(#[trigger] front[i]).amount.at_most(
                    budget::negligible(),
                ) implies p.contains(i) by {
                assert(front[i] == data[i]);
                let k = choose|k: int| 0 <= k < places.len() && places[k] == i;
                assert(p[k] == i);
            }
            lemma_slices(front, p, whole);
            assert forall|k: int| 0 <= k < places.len() implies slice_for(
                #[trigger] all[k],
                data[places[k]],
                places[k],
                whole,
            ) by {
                if k < p.len() {
                    assert(all[k] == pie::slices(front, whole)[k]);
                    assert(p[k] == places[k]);
                    assert(0 <= p[k] < front.len());
                    assert(front[p[k]] == data[places[k]]);
                }
            }
        }
    }
}

/// The pie has a slice for each entry that is not negligible, in order, and none
/// where the whole is negligible.
pub proof fn law_pie_has_a_slice_for_each_entry(data: Seq<ExpenseView>, places: Seq<int>)
    requires
        weighty(data, places),
    ensures
        budget::total(data).at_most(budget::negligible()) ==> pie::pie_of(data).len() == 0,
        !budget::total(data).at_most(budget::negligible()) ==> {
            &&& pie::pie_of(data).len() == places.len()
            &&& forall|k: int|
                0 <= k < places.len() ==> slice_for(
                    #[trigger] pie::pie_of(data)[k],
                    data[places[k]],
                    places[k],
                    budget::total(data),
                )
        },
{
    lemma_slices(data, places, budget::total(data));
}

/// The pie of a budget has an entry for each expense and, where something is
/// left that is not negligible, one more for that.
pub proof fn law_pie_has_an_entry_for_what_remains(app: ExpenseApp)
    ensures
        ({
            let p = budget::plan(app.expenses@);
            let data = pie::entries(p, app.left());
            &&& data.take(p.len() as int) == p
            &&& app.left().value() > budget::negligible().value() ==> data.len() == p.len() + 1
                && data[p.len() as int].name == "Remaining"@ && data[p.len() as int].amount
                == app.left()
            &&& app.left().value() <= budget::negligible().value() ==> data.len() == p.len()
        }),
{
    let p = budget::plan(app.expenses@);
    laws::law_left_over_is_never_negative(app.total_budget, app.spending());
    laws::lemma_negligible();
    assert(pie::entries(p, app.left()).take(p.len() as int) =~= p);
}

} // verus!
