//! Reading coins from text in the compact string format.
use crate::amount::parse_amount;
use crate::canonical::Entry;
use crate::coin::Coin;
use crate::compact::{
    is_alphabetic, is_ascii_letter, is_first_comma, lemma_denom_start, lemma_first_comma,
    lemma_parse_tokens_error, parse_coin_spec, parse_tokens, split_tokens, unicode_alphabetic,
};
use crate::error::{CoinsError, CoinsErrorView};
use vstd::prelude::*;

verus! {

/// Calls `char::is_alphabetic` of std, which tells whether a character has the
/// property Alphabetic of Unicode. Within ASCII those are the letters.
#[verifier::external_body]
fn char_is_alphabetic(c: char) -> (r: bool)
    ensures
        c <= '\x7f' ==> r == is_ascii_letter(c),
        c > '\x7f' ==> r == unicode_alphabetic(c),
{
    c.is_alphabetic()
}

/// Calls `String::push` of std, which appends the character to the string.
#[verifier::external_body]
fn push_char(s: &mut String, c: char)
    ensures
        final(s)@ == old(s)@.push(c),
{
    s.push(c)
}

/// The string of the characters that `chars` holds from `from` up to `to`.
fn string_of(chars: &Vec<char>, from: usize, to: usize) -> (s: String)
    requires
        from <= to <= chars.len(),
    ensures
        s@ == chars@.subrange(from as int, to as int),
{
    let mut s = String::new();
    let mut i: usize = from;
    while i < to
        invariant
            from <= i <= to <= chars.len(),
            s@ == chars@.subrange(from as int, i as int),
        decreases to - i,
    {
        push_char(&mut s, chars[i]);
        assert(chars@.subrange(from as int, i + 1) =~= chars@.subrange(from as int, i as int).push(
            chars[i as int],
        ));
        i += 1;
    }
    s
}

/// The characters of a string.
fn chars_of(s: &str) -> (chars: Vec<char>)
    ensures
        chars@ == s@,
{
    let mut chars: Vec<char> = Vec::new();
    for c in it: s.chars()
        invariant
            it.seq() == s@,
            chars@ == it.seq().take(it.index() as int),
    {
        chars.push(c);
    }
    chars
}

/// Reads the token that `chars` holds from `from` up to `to`.
fn parse_token(chars: &Vec<char>, from: usize, to: usize) -> (r: Result<
    Coin,
    CoinsError,
>)
    requires
        from <= to <= chars.len(),
    ensures
        match parse_coin_spec(chars@.subrange(from as int, to as int)) {
            Ok(entry) => r matches Ok(coin) && coin@ == entry,
            Err(error) => r matches Err(e) && e@ == error,
        },
{
    let ghost token = chars@.subrange(from as int, to as int);
    let mut i: usize = from;
    while i < to && !char_is_alphabetic(chars[i])
        invariant
            from <= i <= to <= chars.len(),
            token == chars@.subrange(from as int, to as int),
            forall|j: int| 0 <= j < i - from ==> !is_alphabetic(#[trigger] token[j]),
        decreases to - i,
    {
        i += 1;
    }
    proof {
        lemma_denom_start(token, i - from);
    }
    if i == to {
        return Err(CoinsError::InvalidCoinFormat { text: string_of(chars, from, to) });
    }
    let amount_text = string_of(chars, from, i);
    assert(amount_text@ =~= token.take(i - from));
    match parse_amount(amount_text.as_str()) {
        Err(e) => Err(e),
        Ok(amount) => {
            let denom = string_of(chars, i, to);
            assert(denom@ =~= token.skip(i - from));
            Ok(Coin { denom, amount })
        },
    }
}

/// Reads one coin from a token of a compact string, such as `12345uatom`: the
/// text before the first alphabetic character is the amount, the text from
/// that character on the denomination.
pub fn parse_coin_str(s: &str) -> (r: Result<(String, u128), CoinsError>)
    ensures
        match parse_coin_spec(s@) {
            Ok(entry) => r matches Ok(pair) && pair.0@ == entry.0 && pair.1 == entry.1,
            Err(error) => r matches Err(e) && e@ == error,
        },
{
    let chars = chars_of(s);
    assert(chars@.subrange(0, chars.len() as int) =~= s@);
    match parse_token(&chars, 0, chars.len()) {
        Ok(coin) => Ok((coin.denom, coin.amount)),
        Err(e) => Err(e),
    }
}

/// Where the next comma of `chars` stands from `from` on, or the length of
/// `chars` where none follows.
fn find_comma(chars: &Vec<char>, from: usize) -> (at: usize)
    requires
        from <= chars.len(),
    ensures
        from <= at <= chars.len(),
        is_first_comma(chars@.skip(from as int), at - from),
{
    let mut at: usize = from;
    while at < chars.len() && chars[at] != ','
        invariant
            from <= at <= chars.len(),
            forall|j: int| from <= j < at ==> chars[j] != ',',
        decreases chars.len() - at,
    {
        at += 1;
    }
    at
}

/// Reads the coins that the tokens of a compact string stand for, in the
/// order of the tokens, up to the first token that stands for none.
pub(crate) fn parse_coins(s: &str) -> (r: Result<Vec<Coin>, CoinsError>)
    ensures
        match parse_tokens(split_tokens(s@)) {
            Ok(pairs) => r matches Ok(coins) && coins.deep_view() == pairs,
            Err(error) => r matches Err(e) && e@ == error,
        },
{
    let chars = chars_of(s);
    let mut coins: Vec<Coin> = Vec::new();
    let ghost mut done: Seq<Seq<char>> = Seq::empty();
    let mut from: usize = 0;
    assert(s@.skip(0) =~= s@);
    assert(coins.deep_view() =~= Seq::<Entry>::empty());
    loop
        invariant
            chars@ == s@,
            from <= chars.len(),
            split_tokens(s@) == done + split_tokens(s@.skip(from as int)),
            parse_tokens(done) == Ok::<Seq<Entry>, CoinsErrorView>(coins.deep_view()),
        decreases chars.len() - from,
    {
        let to = find_comma(&chars, from);
        let ghost rest = s@.skip(from as int);
        let ghost token = s@.subrange(from as int, to as int);
        let ghost pairs = coins.deep_view();
        let ghost tail = if to < chars.len() {
            split_tokens(s@.skip(to + 1))
        } else {
            Seq::<Seq<char>>::empty()
        };
        proof {
            lemma_first_comma(rest, to - from);
            assert(rest.take(to - from) =~= token);
            if to < chars.len() {
                assert(rest.skip(to - from + 1) =~= s@.skip(to + 1));
            }
            assert(split_tokens(s@) =~= done.push(token) + tail);
            assert(done.push(token).drop_last() =~= done);
        }
        match parse_token(&chars, from, to) {
            Err(e) => {
                proof {
                    lemma_parse_tokens_error(done.push(token), tail);
                }
                return Err(e);
            },
            Ok(coin) => {
                coins.push(coin);
                assert(coins.deep_view() =~= pairs.push(coin@));
            },
        }
        proof {
            done = done.push(token);
        }
        if to == chars.len() {
            return Ok(coins);
        }
        from = to + 1;
    }
}

} // verus!
