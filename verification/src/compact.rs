//! The compact string format: tokens joined by commas, each token the decimal
//! digits of an amount followed by a denomination, as in `12345uatom,7ibc/AB`.
use crate::amount::{amount_value, decimal_digits, is_amount_text};
use crate::canonical::{pinpointed_outcome, Entry};
use crate::error::CoinsErrorView;
use vstd::prelude::*;

verus! {

/// What `char::is_alphabetic` of std says of a character beyond ASCII: whether
/// it has the property Alphabetic of Unicode.
pub uninterp spec fn unicode_alphabetic(c: char) -> bool;

/// Whether `c` is one of the letters of ASCII.
pub open spec fn is_ascii_letter(c: char) -> bool {
    ('a' <= c && c <= 'z') || ('A' <= c && c <= 'Z')
}

/// Whether `c` is alphabetic: within ASCII the letters are, and beyond ASCII
/// the characters that Unicode calls so.
pub open spec fn is_alphabetic(c: char) -> bool {
    if c <= '\x7f' {
        is_ascii_letter(c)
    } else {
        unicode_alphabetic(c)
    }
}

/// Whether `i` is where the first comma of `s` stands, or the length of `s`
/// where `s` holds no comma.
pub open spec fn is_first_comma(s: Seq<char>, i: int) -> bool {
    &&& 0 <= i <= s.len()
    &&& forall|j: int| 0 <= j < i ==> s[j] != ','
    &&& i < s.len() ==> s[i] == ','
}

/// Where the first comma of `s` stands, or the length of `s` where `s` holds
/// no comma.
pub open spec fn first_comma(s: Seq<char>) -> int {
    choose|i: int| is_first_comma(s, i)
}

/// The tokens of `s`: what stands between its commas, before the first and
/// after the last. A string without a comma is one token, the empty string
/// too.
pub open spec fn split_tokens(s: Seq<char>) -> Seq<Seq<char>>
    decreases s.len(),
{
    let i = first_comma(s);
    if 0 <= i < s.len() {
        seq![s.take(i)] + split_tokens(s.skip(i + 1))
    } else {
        seq![s]
    }
}

/// The tokens joined by commas.
pub open spec fn join_tokens(tokens: Seq<Seq<char>>) -> Seq<char>
    decreases tokens.len(),
{
    if tokens.len() == 0 {
        Seq::<char>::empty()
    } else if tokens.len() == 1 {
        tokens[0]
    } else {
        tokens[0] + seq![','] + join_tokens(tokens.skip(1))
    }
}

/// Whether `i` is where the first alphabetic character of `token` stands, or
/// the length of `token` where it holds none.
pub open spec fn is_denom_start(token: Seq<char>, i: int) -> bool {
    &&& 0 <= i <= token.len()
    &&& forall|j: int| 0 <= j < i ==> !is_alphabetic(#[trigger] token[j])
    &&& i < token.len() ==> is_alphabetic(token[i])
}

/// Where the denomination of `token` begins: at its first alphabetic
/// character. It is the length of `token` where no character is alphabetic.
pub open spec fn denom_start(token: Seq<char>) -> int {
    choose|i: int| is_denom_start(token, i)
}

/// What one token stands for: the text before its first alphabetic character
/// is the amount, the rest the denomination. A token without an alphabetic
/// character has no denomination, which is an error of the format; a text
/// before it that is no amount is an error of the amount.
pub open spec fn parse_coin_spec(token: Seq<char>) -> Result<Entry, CoinsErrorView> {
    let i = denom_start(token);
    if !(0 <= i < token.len()) {
        Err(CoinsErrorView::InvalidCoinFormat { text: token })
    } else if !is_amount_text(token.take(i)) {
        Err(CoinsErrorView::InvalidAmount { text: token.take(i) })
    } else {
        Ok((token.skip(i), amount_value(token.take(i)) as u128))
    }
}

/// What the tokens stand for, in their order; the error of the first token
/// that stands for nothing.
pub open spec fn parse_tokens(tokens: Seq<Seq<char>>) -> Result<Seq<Entry>, CoinsErrorView>
    decreases tokens.len(),
{
    if tokens.len() == 0 {
        Ok(Seq::<Entry>::empty())
    } else {
        match parse_tokens(tokens.drop_last()) {
            Err(e) => Err(e),
            Ok(pairs) => match parse_coin_spec(tokens.last()) {
                Err(e) => Err(e),
                Ok(pair) => Ok(pairs.push(pair)),
            },
        }
    }
}

/// Whether `r` is what a compact string is turned into: the error of its
/// first token that stands for nothing, or else what the pairs that its
/// tokens stand for are turned into, taken in one by one.
pub open spec fn parse_outcome(s: Seq<char>, r: Result<Seq<Entry>, CoinsErrorView>) -> bool {
    match parse_tokens(split_tokens(s)) {
        Err(e) => r == Err::<Seq<Entry>, CoinsErrorView>(e),
        Ok(pairs) => pinpointed_outcome(pairs, r),
    }
}

/// The token of one entry: the decimal digits of the amount, then the
/// denomination.
pub open spec fn render_entry(entry: Entry) -> Seq<char> {
    decimal_digits(entry.1 as nat) + entry.0
}

/// The compact string of the entries: their tokens in the order of the
/// entries, joined by commas. That of no entry is the empty string.
pub open spec fn render(entries: Seq<Entry>) -> Seq<char> {
    join_tokens(entries.map_values(|e: Entry| render_entry(e)))
}

/// The first comma of a string stands where one says it does.
pub proof fn lemma_first_comma(s: Seq<char>, i: int)
    requires
        is_first_comma(s, i),
    ensures
        first_comma(s) == i,
{
}

/// The denomination of a token begins where one says it does.
pub proof fn lemma_denom_start(token: Seq<char>, i: int)
    requires
        is_denom_start(token, i),
    ensures
        denom_start(token) == i,
{
}

/// Joining one more token puts a comma before it, unless it is the first.
pub proof fn lemma_join_push(tokens: Seq<Seq<char>>, token: Seq<char>)
    ensures
        join_tokens(tokens.push(token)) == if tokens.len() == 0 {
            token
        } else {
            join_tokens(tokens) + seq![','] + token
        },
    decreases tokens.len(),
{
    let all = tokens.push(token);
    if tokens.len() == 1 {
        assert(join_tokens(all.skip(1)) == token);
    } else if tokens.len() > 1 {
        lemma_join_push(tokens.skip(1), token);
        assert(all.skip(1) =~= tokens.skip(1).push(token));
    }
}

/// Once a token stands for nothing, the tokens after it do not matter.
pub proof fn lemma_parse_tokens_error(tokens: Seq<Seq<char>>, more: Seq<Seq<char>>)
    requires
        parse_tokens(tokens) is Err,
    ensures
        parse_tokens(tokens + more) == parse_tokens(tokens),
    decreases more.len(),
{
    if more.len() == 0 {
        assert(tokens + more =~= tokens);
    } else {
        lemma_parse_tokens_error(tokens, more.drop_last());
        assert((tokens + more).drop_last() =~= tokens + more.drop_last());
    }
}

} // verus!
