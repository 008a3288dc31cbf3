//! Tables with a number for some of the currencies.

use crate::currency::Currency;
use crate::double::Double;
use vstd::prelude::*;

verus! {

/// A number for each of some currencies.
#[derive(Clone, Copy, Debug, PartialEq, Eq, Structural)]
pub struct Rates {
    pub usd: Option<Double>,
    pub gbp: Option<Double>,
    pub eur: Option<Double>,
    pub jpy: Option<Double>,
    pub cad: Option<Double>,
    pub aud: Option<Double>,
    pub chf: Option<Double>,
}

impl Rates {
    /// The number for `c`, if there is one.
    pub open spec fn rate(self, c: Currency) -> Option<Double> {
        match c {
            Currency::Usd => self.usd,
            Currency::Gbp => self.gbp,
            Currency::Eur => self.eur,
            Currency::Jpy => self.jpy,
            Currency::Cad => self.cad,
            Currency::Aud => self.aud,
            Currency::Chf => self.chf,
        }
    }

    /// Whether there is a number for no currency.
    pub open spec fn empty(self) -> bool {
        forall|c: Currency| #[trigger] self.rate(c) is None
    }

    /// A table without numbers.
    pub fn new() -> (r: Rates)
        ensures
            r.empty(),
    {
        Rates { usd: None, gbp: None, eur: None, jpy: None, cad: None, aud: None, chf: None }
    }

    /// The number for `c`, if there is one.
    pub fn get(&self, c: Currency) -> (r: Option<Double>)
        ensures
            r == self.rate(c),
    {
        match c {
            Currency::Usd => self.usd,
            Currency::Gbp => self.gbp,
            Currency::Eur => self.eur,
            Currency::Jpy => self.jpy,
            Currency::Cad => self.cad,
            Currency::Aud => self.aud,
            Currency::Chf => self.chf,
        }
    }

    /// Makes `x` the number for `c`.
    pub fn insert(&mut self, c: Currency, x: Double)
        ensures
            final(self).rate(c) == Some(x),
            forall|other: Currency|
                other != c ==> #[trigger] final(self).rate(other) == old(self).rate(other),
    {
        match c {
            Currency::Usd => {
                self.usd = Some(x);
            },
            Currency::Gbp => {
                self.gbp = Some(x);
            },
            Currency::Eur => {
                self.eur = Some(x);
            },
            Currency::Jpy => {
                self.jpy = Some(x);
            },
            Currency::Cad => {
                self.cad = Some(x);
            },
            Currency::Aud => {
                self.aud = Some(x);
            },
            Currency::Chf => {
                self.chf = Some(x);
            },
        }
    }

    /// Whether there is a number for no currency.
    pub fn is_empty(&self) -> (r: bool)
        ensures
            r == self.empty(),
    {
        proof {
            if !self.empty() {
                let c = choose|c: Currency| #[trigger] self.rate(c) is Some;
                assert(self.rate(c) is Some);
            }
            assert(self.rate(Currency::Usd) == self.usd);
            assert(self.rate(Currency::Gbp) == self.gbp);
            assert(self.rate(Currency::Eur) == self.eur);
            assert(self.rate(Currency::Jpy) == self.jpy);
            assert(self.rate(Currency::Cad) == self.cad);
            assert(self.rate(Currency::Aud) == self.aud);
            assert(self.rate(Currency::Chf) == self.chf);
        }
        self.usd.is_none() && self.gbp.is_none() && self.eur.is_none() && self.jpy.is_none()
            && self.cad.is_none() && self.aud.is_none() && self.chf.is_none()
    }
}

/// A table is determined by the numbers it has.
pub proof fn law_same_rates_same_table(a: Rates, b: Rates)
    requires
        forall|c: Currency| #[trigger] a.rate(c) == b.rate(c),
    ensures
        a == b,
{
    assert(a.rate(Currency::Usd) == b.rate(Currency::Usd));
    assert(a.rate(Currency::Gbp) == b.rate(Currency::Gbp));
    assert(a.rate(Currency::Eur) == b.rate(Currency::Eur));
    assert(a.rate(Currency::Jpy) == b.rate(Currency::Jpy));
    assert(a.rate(Currency::Cad) == b.rate(Currency::Cad));
    assert(a.rate(Currency::Aud) == b.rate(Currency::Aud));
    assert(a.rate(Currency::Chf) == b.rate(Currency::Chf));
}

} // verus!
