//! One coin: an amount of one denomination.
use crate::canonical::Entry;
use vstd::prelude::*;

verus! {

/// An amount of one denomination.
#[derive(Debug, PartialEq, Eq)]
pub struct Coin {
    pub denom: String,
    pub amount: u128,
}

impl View for Coin {
    type V = Entry;

    open spec fn view(&self) -> Entry {
        (self.denom@, self.amount)
    }
}

impl DeepView for Coin {
    type V = Entry;

    open spec fn deep_view(&self) -> Entry {
        (self.denom@, self.amount)
    }
}

impl Clone for Coin {
    fn clone(&self) -> (copy: Self)
        ensures
            copy == *self,
    {
        Coin { denom: self.denom.clone(), amount: self.amount }
    }
}

impl Coin {
    /// A coin of `amount` of the denomination `denom`.
    pub fn new(amount: u128, denom: &str) -> (coin: Coin)
        ensures
            coin@ == (denom@, amount),
    {
        Coin { denom: denom.to_owned(), amount }
    }
}

} // verus!
