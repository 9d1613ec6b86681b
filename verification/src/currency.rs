//! The currencies a converter tool understands.

use vstd::prelude::*;

verus! {

/// A supported currency.
#[non_exhaustive]
#[derive(Clone, Copy, Debug, PartialEq, Eq, Structural)]
pub enum Currency {
    Uah,
    Usd,
    Eur,
}

impl Currency {
    /// The currency's ISO code.
    pub fn as_str(&self) -> (r: &'static str)
        ensures
            self is Uah ==> r@ == "UAH"@,
            self is Usd ==> r@ == "USD"@,
            self is Eur ==> r@ == "EUR"@,
    {
        match self {
            Currency::Uah => "UAH",
            Currency::Usd => "USD",
            Currency::Eur => "EUR",
        }
    }
}

} // verus!
