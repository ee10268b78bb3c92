//! Amounts as text: which strings are amounts, what they are worth, and how an
//! amount is written.
use crate::error::{CoinsError, CoinsErrorView};
use cosmwasm_std::{StdError, Uint128};
use std::str::FromStr;
use vstd::prelude::*;

verus! {

/// Whether `c` is one of the ten decimal digits.
pub open spec fn is_digit(c: char) -> bool {
    '0' <= c && c <= '9'
}

/// The number that the decimal digit `c` stands for.
pub open spec fn digit_value(c: char) -> nat {
    (c as int - '0' as int) as nat
}

/// The decimal digit that stands for `d`, for `d` below ten.
pub open spec fn digit_char(d: nat) -> char {
    ('0' as int + d) as char
}

/// Whether every character of `s` is a decimal digit.
pub open spec fn all_digits(s: Seq<char>) -> bool {
    forall|i: int| 0 <= i < s.len() ==> is_digit(#[trigger] s[i])
}

/// The number that a string of decimal digits denotes, the empty string
/// denoting zero.
pub open spec fn decimal_value(digits: Seq<char>) -> nat
    decreases digits.len(),
{
    if digits.len() == 0 {
        0
    } else {
        decimal_value(digits.drop_last()) * 10 + digit_value(digits.last())
    }
}

/// The decimal digits of `n`, without leading zeros; zero is written `0`.
pub open spec fn decimal_digits(n: nat) -> Seq<char>
    decreases n,
{
    if n < 10 {
        seq![digit_char(n)]
    } else {
        decimal_digits(n / 10).push(digit_char(n % 10))
    }
}

/// The text of an amount without the plus sign that may stand before it.
pub open spec fn unsigned_part(text: Seq<char>) -> Seq<char> {
    if text.len() > 0 && text[0] == '+' {
        text.skip(1)
    } else {
        text
    }
}

/// Whether `text` is an amount: at least one decimal digit, after at most one
/// plus sign, denoting a number that fits in 128 bits.
pub open spec fn is_amount_text(text: Seq<char>) -> bool {
    let digits = unsigned_part(text);
    &&& digits.len() > 0
    &&& all_digits(digits)
    &&& decimal_value(digits) <= u128::MAX
}

/// The amount that `text` denotes, where it is an amount.
pub open spec fn amount_value(text: Seq<char>) -> nat {
    decimal_value(unsigned_part(text))
}

/// The error type of cosmwasm_std. Nothing is said of what an error holds.
#[verifier::external_type_specification]
#[verifier::external_body]
pub struct ExStdError(StdError);

/// Calls `Uint128::from_str` of cosmwasm_std, which parses its argument as a
/// `u128` does: the call succeeds exactly on an optional plus sign followed by
/// one or more decimal digits whose value fits in 128 bits, and then returns
/// that value.
#[verifier::external_body]
fn uint128_from_str(text: &str) -> (r: Result<u128, StdError>)
    ensures
        r is Ok <==> is_amount_text(text@),
        r matches Ok(v) ==> v == amount_value(text@),
{
    match Uint128::from_str(text) {
        Ok(amount) => Ok(amount.u128()),
        Err(e) => Err(e),
    }
}

/// Calls `to_string` on a `Uint128` of cosmwasm_std, which writes the number
/// as a `u128` is displayed: in decimal digits, without sign or leading zeros.
#[verifier::external_body]
pub(crate) fn uint128_to_string(amount: u128) -> (text: String)
    ensures
        text@ == decimal_digits(amount as nat),
{
    Uint128::new(amount).to_string()
}

/// Reads an amount from its text. A text that is no amount is refused with
/// the error that names it.
pub fn parse_amount(text: &str) -> (r: Result<u128, CoinsError>)
    ensures
        match r {
            Ok(v) => is_amount_text(text@) && v == amount_value(text@),
            Err(e) => !is_amount_text(text@) && e@ == (CoinsErrorView::InvalidAmount {
                text: text@,
            }),
        },
{
    match uint128_from_str(text) {
        Ok(v) => Ok(v),
        Err(_) => Err(CoinsError::InvalidAmount { text: text.to_owned() }),
    }
}

/// The digits of a number are digits, at least one of them, and denote the
/// number.
pub proof fn lemma_decimal_digits(n: nat)
    ensures
        decimal_digits(n).len() > 0,
        all_digits(decimal_digits(n)),
        decimal_value(decimal_digits(n)) == n,
    decreases n,
{
    let digits = decimal_digits(n);
    if n < 10 {
        assert(decimal_value(digits.drop_last()) == 0);
    } else {
        lemma_decimal_digits(n / 10);
        assert(digits.drop_last() =~= decimal_digits(n / 10));
    }
}

/// What is written for an amount reads back as that amount.
pub proof fn lemma_amount_round_trip(amount: u128)
    ensures
        is_amount_text(decimal_digits(amount as nat)),
        amount_value(decimal_digits(amount as nat)) == amount,
{
    lemma_decimal_digits(amount as nat);
}

} // verus!
