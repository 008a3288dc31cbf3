//! The currencies a budget can be kept in.

use vstd::prelude::*;

verus! {

/// A fiat currency.
#[derive(Clone, Copy, Debug, PartialEq, Eq, Structural)]
pub enum Currency {
    Usd,
    Gbp,
    Eur,
    Jpy,
    Cad,
    Aud,
    Chf,
}

/// The supported currencies, in the order in which they are offered.
pub open spec fn supported() -> Seq<Currency> {
    seq![
        Currency::Usd,
        Currency::Gbp,
        Currency::Eur,
        Currency::Jpy,
        Currency::Cad,
        Currency::Aud,
        Currency::Chf,
    ]
}

/// The upper case of an ASCII letter; any other character as it is.
pub open spec fn ascii_upper(c: char) -> char {
    if 'a' <= c && c <= 'z' {
        (c as int - 32) as char
    } else {
        c
    }
}

impl Currency {
    /// The lower case code under which price services know the currency.
    pub open spec fn code_text(self) -> Seq<char> {
        match self {
            Currency::Usd => "usd"@,
            Currency::Gbp => "gbp"@,
            Currency::Eur => "eur"@,
            Currency::Jpy => "jpy"@,
            Currency::Cad => "cad"@,
            Currency::Aud => "aud"@,
            Currency::Chf => "chf"@,
        }
    }

    /// The code in upper case.
    pub open spec fn label_text(self) -> Seq<char> {
        self.code_text().map_values(|c: char| ascii_upper(c))
    }

    /// The country, or union of countries, whose consumer prices the currency
    /// is measured by.
    pub open spec fn country_text(self) -> Seq<char> {
        match self {
            Currency::Usd => "US"@,
            Currency::Gbp => "GB"@,
            Currency::Eur => "EU"@,
            Currency::Jpy => "JP"@,
            Currency::Cad => "CA"@,
            Currency::Aud => "AU"@,
            Currency::Chf => "CH"@,
        }
    }

    /// The supported currencies, in the order in which they are offered.
    pub fn all() -> (r: Vec<Currency>)
        ensures
            r@ == supported(),
    {
        let r: Vec<Currency> = vec![
            Currency::Usd,
            Currency::Gbp,
            Currency::Eur,
            Currency::Jpy,
            Currency::Cad,
            Currency::Aud,
            Currency::Chf,
        ];
        proof {
            assert(r@ =~= supported());
        }
        r
    }

    /// The lower case code under which price services know the currency.
    pub fn code(self) -> (r: &'static str)
        ensures
            r@ == self.code_text(),
    {
        match self {
            Currency::Usd => "usd",
            Currency::Gbp => "gbp",
            Currency::Eur => "eur",
            Currency::Jpy => "jpy",
            Currency::Cad => "cad",
            Currency::Aud => "aud",
            Currency::Chf => "chf",
        }
    }

    /// The code in upper case.
    pub fn label(self) -> (r: &'static str)
        ensures
            r@ == self.label_text(),
    {
        proof {
            reveal_codes();
            reveal_strlit("USD");
            reveal_strlit("GBP");
            reveal_strlit("EUR");
            reveal_strlit("JPY");
            reveal_strlit("CAD");
            reveal_strlit("AUD");
            reveal_strlit("CHF");
        }
        let r = match self {
            Currency::Usd => "USD",
            Currency::Gbp => "GBP",
            Currency::Eur => "EUR",
            Currency::Jpy => "JPY",
            Currency::Cad => "CAD",
            Currency::Aud => "AUD",
            Currency::Chf => "CHF",
        };
        proof {
            assert(r@ =~= self.label_text());
        }
        r
    }

    /// The country, or union of countries, whose consumer prices the currency
    /// is measured by.
    pub fn country(self) -> (r: &'static str)
        ensures
            r@ == self.country_text(),
    {
        match self {
            Currency::Usd => "US",
            Currency::Gbp => "GB",
            Currency::Eur => "EU",
            Currency::Jpy => "JP",
            Currency::Cad => "CA",
            Currency::Aud => "AU",
            Currency::Chf => "CH",
        }
    }
}

/// What the codes hold.
pub(crate) proof fn reveal_codes()
    ensures
        "usd"@ =~= seq!['u', 's', 'd'],
        "gbp"@ =~= seq!['g', 'b', 'p'],
        "eur"@ =~= seq!['e', 'u', 'r'],
        "jpy"@ =~= seq!['j', 'p', 'y'],
        "cad"@ =~= seq!['c', 'a', 'd'],
        "aud"@ =~= seq!['a', 'u', 'd'],
        "chf"@ =~= seq!['c', 'h', 'f'],
{
    reveal_strlit("usd");
    reveal_strlit("gbp");
    reveal_strlit("eur");
    reveal_strlit("jpy");
    reveal_strlit("cad");
    reveal_strlit("aud");
    reveal_strlit("chf");
}

/// No two currencies share a code.
pub proof fn law_codes_are_distinct(a: Currency, b: Currency)
    requires
        a.code_text() == b.code_text(),
    ensures
        a == b,
{
    reveal_codes();
    assert(a.code_text()[0] == b.code_text()[0]);
    assert(a.code_text()[1] == b.code_text()[1]);
}

/// Every currency is offered, and none twice.
pub proof fn law_every_currency_is_offered_once(c: Currency)
    ensures
        exists|i: int| 0 <= i < supported().len() && supported()[i] == c,
        forall|i: int, j: int|
            0 <= i < j < supported().len() ==> supported()[i] != supported()[j],
{
    let s = supported();
    assert(s[0] == Currency::Usd && s[1] == Currency::Gbp && s[2] == Currency::Eur && s[3]
        == Currency::Jpy && s[4] == Currency::Cad && s[5] == Currency::Aud && s[6]
        == Currency::Chf);
}

} // verus!
