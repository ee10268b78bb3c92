//! The errors of every conversion into a collection of coins.
use vstd::prelude::*;
use vstd::string::StringExecFns;

verus! {

/// Why an input could not be turned into a collection of coins.
#[derive(Debug, PartialEq, Eq)]
pub enum CoinsError {
    /// A denomination occurs more than once. The denomination is named where
    /// the repeated entry itself was seen, and absent where only the number of
    /// distinct denominations gave the repetition away.
    DuplicateDenomination { denomination: Option<String> },
    /// The text of an amount is not a decimal integer that fits in 128 bits.
    InvalidAmount { text: String },
    /// A token of a compact string holds no alphabetic character, so that no
    /// denomination begins in it.
    InvalidCoinFormat { text: String },
}

/// What a `CoinsError` says, with its strings as sequences of characters.
pub enum CoinsErrorView {
    DuplicateDenomination { denomination: Option<Seq<char>> },
    InvalidAmount { text: Seq<char> },
    InvalidCoinFormat { text: Seq<char> },
}

impl View for CoinsError {
    type V = CoinsErrorView;

    open spec fn view(&self) -> CoinsErrorView {
        match self {
            CoinsError::DuplicateDenomination { denomination: Some(d) } => {
                CoinsErrorView::DuplicateDenomination { denomination: Some(d@) }
            },
            CoinsError::DuplicateDenomination { denomination: None } => {
                CoinsErrorView::DuplicateDenomination { denomination: None }
            },
            CoinsError::InvalidAmount { text } => CoinsErrorView::InvalidAmount { text: text@ },
            CoinsError::InvalidCoinFormat { text } => {
                CoinsErrorView::InvalidCoinFormat { text: text@ }
            },
        }
    }
}

/// The message of an error: it names the offending denomination or text where
/// the error holds one.
pub open spec fn error_message(e: CoinsErrorView) -> Seq<char> {
    match e {
        CoinsErrorView::DuplicateDenomination { denomination: Some(d) } => {
            "failed to parse into Coins! duplicate denom: "@ + d
        },
        CoinsErrorView::DuplicateDenomination { denomination: None } => {
            "Error parsing into type cw_coins::Coins: duplicate denoms"@
        },
        CoinsErrorView::InvalidAmount { text } => {
            "failed to parse into Coins! invalid amount: "@ + text
        },
        CoinsErrorView::InvalidCoinFormat { text } => {
            "Error parsing into type cw_coins::Coin: Invalid coin string ("@ + text + ")"@
        },
    }
}

impl Clone for CoinsError {
    fn clone(&self) -> (copy: Self)
        ensures
            copy == *self,
    {
        match self {
            CoinsError::DuplicateDenomination { denomination: Some(d) } => {
                CoinsError::DuplicateDenomination { denomination: Some(d.clone()) }
            },
            CoinsError::DuplicateDenomination { denomination: None } => {
                CoinsError::DuplicateDenomination { denomination: None }
            },
            CoinsError::InvalidAmount { text } => CoinsError::InvalidAmount { text: text.clone() },
            CoinsError::InvalidCoinFormat { text } => {
                CoinsError::InvalidCoinFormat { text: text.clone() }
            },
        }
    }
}

impl CoinsError {
    /// Renders the error as a message for a person to read.
    pub fn to_string(&self) -> (message: String)
        ensures
            message@ == error_message(self@),
    {
        match self {
            CoinsError::DuplicateDenomination { denomination: Some(d) } => {
                String::from_str("failed to parse into Coins! duplicate denom: ").concat(
                    d.as_str(),
                )
            },
            CoinsError::DuplicateDenomination { denomination: None } => {
                String::from_str("Error parsing into type cw_coins::Coins: duplicate denoms")
            },
            CoinsError::InvalidAmount { text } => {
                String::from_str("failed to parse into Coins! invalid amount: ").concat(
                    text.as_str(),
                )
            },
            CoinsError::InvalidCoinFormat { text } => {
                String::from_str(
                    "Error parsing into type cw_coins::Coin: Invalid coin string (",
                ).concat(text.as_str()).concat(")")
            },
        }
    }
}

} // verus!
