//! The collection of coins, and its conversions from and to lists of coins,
//! compact strings and structured documents.
use crate::amount::{decimal_digits, uint128_to_string};
use crate::builder::CoinsBuilder;
use crate::canonical::{
    distinct_denoms, first_repeated, holds_exactly, is_canonical, lemma_absent_denom,
    lemma_distinct_push, lemma_first_repeated_stays, lemma_same_entries_has_denom,
    lemma_same_entries_push, list_outcome, pinpointed_outcome, same_entries, Entry,
};
use crate::coin::Coin;
use crate::compact::{join_tokens, lemma_join_push, parse_outcome, render, render_entry};
use crate::document::{
    decode_outcome, decode_spec, encode_spec, lemma_decode_error, visit_entry_spec,
};
use crate::error::{CoinsError, CoinsErrorView};
use crate::helpers::parse_coins;
use std::str::FromStr;
use vstd::prelude::*;
use vstd::std_specs::cmp::PartialEqSpecImpl;
use vstd::std_specs::convert::TryFromSpecImpl;
use vstd::string::StringExecFns;

verus! {

/// What a conversion gives, as the entries of the collection or the content of
/// the error.
pub open spec fn outcome_view(r: Result<Coins, CoinsError>) -> Result<Seq<Entry>, CoinsErrorView> {
    match r {
        Ok(coins) => Ok(coins@),
        Err(e) => Err(e@),
    }
}

/// A collection of coins that holds every denomination at most once and lists
/// its entries in ascending order of their denominations. It does not change
/// once it is made.
#[derive(Debug)]
pub struct Coins {
    entries: Vec<Coin>,
}

impl View for Coins {
    type V = Seq<Entry>;

    /// The entries, in the order in which the collection lists them.
    closed spec fn view(&self) -> Seq<Entry> {
        self.entries.deep_view()
    }
}

impl Coins {
    #[verifier::type_invariant]
    spec fn canonical(self) -> bool {
        is_canonical(self.entries.deep_view())
    }

    /// The collection of entries that are in canonical order already.
    pub(crate) fn from_canonical(entries: Vec<Coin>) -> (coins: Coins)
        requires
            is_canonical(entries.deep_view()),
        ensures
            coins@ == entries.deep_view(),
    {
        Coins { entries }
    }

    /// The empty collection.
    pub fn new() -> (coins: Coins)
        ensures
            coins@ == Seq::<Entry>::empty(),
    {
        Coins { entries: Vec::new() }
    }

    /// Gathers a list of coins by number: every coin is put into a map in
    /// turn, a later amount of a denomination replacing an earlier one, and
    /// denominations repeat exactly if the map ends up smaller than the list.
    fn collect_counting(coins: Vec<Coin>) -> (r: Result<Coins, CoinsError>)
        ensures
            list_outcome(coins.deep_view(), outcome_view(r)),
    {
        let count = coins.len();
        let ghost pairs = coins.deep_view();
        let mut builder = CoinsBuilder::new();
        for coin in it: coins.into_iter()
            invariant
                it.seq().len() == count,
                pairs == it.seq().map_values(|c: Coin| c@),
                is_canonical(builder@),
                builder@.len() <= it.index(),
                distinct_denoms(pairs.take(it.index() as int)) ==> builder@.len() == it.index()
                    && same_entries(builder@, pairs.take(it.index() as int)),
                !distinct_denoms(pairs.take(it.index() as int)) ==> builder@.len() < it.index(),
        {
            let ghost seen = pairs.take(it.index() as int);
            let ghost before = builder@;
            proof {
                assert(pairs.take(it.index() + 1) =~= seen.push(coin@));
                lemma_distinct_push(seen, coin@);
                if distinct_denoms(seen) {
                    lemma_same_entries_has_denom(before, seen, coin.denom@);
                }
            }
            let fresh = builder.insert(coin.denom, coin.amount);
            proof {
                if distinct_denoms(seen) && fresh {
                    lemma_absent_denom(before, coin.denom@);
                    lemma_same_entries_push(before, builder@, seen, coin@);
                }
            }
        }
        assert(pairs.take(count as int) =~= pairs);
        if builder.len() != count {
            return Err(CoinsError::DuplicateDenomination { denomination: None });
        }
        Ok(builder.finish())
    }

    /// Gathers coins one by one, each against the denominations seen before
    /// it: the first coin whose denomination was seen ends the gathering with
    /// the error that names the denomination.
    fn collect_pinpointing(coins: Vec<Coin>) -> (r: Result<Coins, CoinsError>)
        ensures
            pinpointed_outcome(coins.deep_view(), outcome_view(r)),
    {
        let ghost pairs = coins.deep_view();
        let mut builder = CoinsBuilder::new();
        for coin in it: coins.into_iter()
            invariant
                pairs == coins.deep_view(),
                pairs == it.seq().map_values(|c: Coin| c@),
                first_repeated(pairs.take(it.index() as int)) is None,
                holds_exactly(builder@, pairs.take(it.index() as int)),
        {
            let ghost i = it.index() as int;
            let ghost seen = pairs.take(i);
            let ghost before = builder@;
            proof {
                assert(pairs.take(i + 1).drop_last() =~= seen);
                lemma_same_entries_has_denom(before, seen, coin.denom@);
            }
            if builder.contains(coin.denom.as_str()) {
                proof {
                    assert(pairs =~= pairs.take(i + 1) + pairs.skip(i + 1));
                    lemma_first_repeated_stays(pairs.take(i + 1), pairs.skip(i + 1));
                }
                return Err(CoinsError::DuplicateDenomination { denomination: Some(coin.denom) });
            }
            builder.insert(coin.denom, coin.amount);
            proof {
                lemma_absent_denom(before, coin.denom@);
                lemma_same_entries_push(before, builder@, seen, coin@);
            }
        }
        assert(pairs.take(pairs.len() as int) =~= pairs);
        Ok(builder.finish())
    }

    /// Reads a collection from a compact string such as
    /// `12345uatom,69420ibc/1234ABCD`. The string is split at its commas and
    /// every token read as one coin; only then are the coins gathered, one by
    /// one, so that a token that stands for no coin is found before a
    /// denomination that repeats. The empty string is one empty token, and so
    /// no collection.
    pub fn from_str(s: &str) -> (r: Result<Coins, CoinsError>)
        ensures
            parse_outcome(s@, outcome_view(r)),
    {
        match parse_coins(s) {
            Ok(coins) => Coins::collect_pinpointing(coins),
            Err(e) => Err(e),
        }
    }

    /// Writes the collection as a compact string: the tokens of its entries
    /// in ascending order of the denominations, joined by commas. The empty
    /// collection gives the empty string.
    pub fn to_string(&self) -> (text: String)
        ensures
            text@ == render(self@),
            is_canonical(self@),
    {
        proof {
            use_type_invariant(self);
        }
        let ghost tokens = self@.map_values(|e: Entry| render_entry(e));
        let mut text = String::new();
        let mut i: usize = 0;
        while i < self.entries.len()
            invariant
                i <= self.entries.len(),
                tokens == self.entries.deep_view().map_values(|e: Entry| render_entry(e)),
                text@ == join_tokens(tokens.take(i as int)),
            decreases self.entries.len() - i,
        {
            proof {
                reveal_strlit(",");
                lemma_join_push(tokens.take(i as int), tokens[i as int]);
                assert(tokens.take(i + 1) =~= tokens.take(i as int).push(tokens[i as int]));
            }
            if i > 0 {
                text.append(",");
            }
            let amount = uint128_to_string(self.entries[i].amount);
            text.append(amount.as_str());
            text.append(self.entries[i].denom.as_str());
            i += 1;
        }
        assert(tokens.take(i as int) =~= tokens);
        text
    }

    /// Reads a collection from the entries of a structured document, each a
    /// denomination with the text of its amount, in the order in which the
    /// document declares them. The first entry whose denomination an earlier
    /// entry had, or whose amount is no amount, ends the reading with its
    /// error.
    pub fn decode(fields: Vec<(String, String)>) -> (r: Result<Coins, CoinsError>)
        ensures
            decode_outcome(fields.deep_view(), outcome_view(r)),
    {
        let ghost all = fields.deep_view();
        let mut builder = CoinsBuilder::new();
        let ghost mut seen: Seq<Entry> = Seq::empty();
        for field in it: fields.into_iter()
            invariant
                all == fields.deep_view(),
                all == it.seq().map_values(|f: (String, String)| f.deep_view()),
                decode_spec(all.take(it.index() as int)) == Ok::<Seq<Entry>, CoinsErrorView>(seen),
                holds_exactly(builder@, seen),
        {
            let ghost i = it.index() as int;
            let ghost before = builder@;
            let ghost step = visit_entry_spec(seen, all[i].0, all[i].1);
            proof {
                assert(all.take(i + 1).drop_last() =~= all.take(i));
                lemma_same_entries_has_denom(before, seen, field.0@);
            }
            match builder.visit_entry(field.0, field.1.as_str()) {
                Err(e) => {
                    proof {
                        assert(all =~= all.take(i + 1) + all.skip(i + 1));
                        lemma_decode_error(all.take(i + 1), all.skip(i + 1));
                    }
                    return Err(e);
                },
                Ok(()) => {
                    proof {
                        lemma_same_entries_push(before, builder@, seen, step->Ok_0);
                        seen = seen.push(step->Ok_0);
                    }
                },
            }
        }
        assert(all.take(all.len() as int) =~= all);
        Ok(builder.finish())
    }

    /// Writes the collection as the entries of a structured document: the
    /// denominations in ascending order, each with its amount in decimal
    /// digits.
    pub fn encode(&self) -> (fields: Vec<(String, String)>)
        ensures
            fields.deep_view() == encode_spec(self@),
            is_canonical(self@),
    {
        proof {
            use_type_invariant(self);
        }
        let mut fields: Vec<(String, String)> = Vec::new();
        let mut i: usize = 0;
        while i < self.entries.len()
            invariant
                i <= self.entries.len(),
                fields.len() == i,
                forall|k: int|
                    0 <= k < i ==> (#[trigger] fields[k]).deep_view() == (
                        self.entries[k].denom@,
                        decimal_digits(self.entries[k].amount as nat),
                    ),
            decreases self.entries.len() - i,
        {
            let amount = uint128_to_string(self.entries[i].amount);
            fields.push((self.entries[i].denom.clone(), amount));
            i += 1;
        }
        fields
    }

    /// The number of denominations held.
    pub fn len(&self) -> (n: usize)
        ensures
            n == self@.len(),
    {
        self.entries.len()
    }

    /// Tells whether the collection holds no coin.
    pub fn is_empty(&self) -> (empty: bool)
        ensures
            empty == (self@.len() == 0),
    {
        self.entries.len() == 0
    }

    /// The coins held, in ascending order of their denominations.
    pub fn to_vec(&self) -> (coins: Vec<Coin>)
        ensures
            coins.deep_view() == self@,
            is_canonical(self@),
    {
        proof {
            use_type_invariant(self);
        }
        let mut coins: Vec<Coin> = Vec::new();
        let mut i: usize = 0;
        while i < self.entries.len()
            invariant
                i <= self.entries.len(),
                coins.len() == i,
                forall|k: int| 0 <= k < i ==> coins[k] == self.entries[k],
            decreases self.entries.len() - i,
        {
            coins.push(self.entries[i].clone());
            i += 1;
        }
        coins
    }

    /// The coins held, in ascending order of their denominations; the
    /// collection is used up.
    pub fn into_vec(self) -> (coins: Vec<Coin>)
        ensures
            coins.deep_view() == self@,
            is_canonical(self@),
    {
        proof {
            use_type_invariant(&self);
        }
        self.entries
    }
}

impl TryFrom<Vec<Coin>> for Coins {
    type Error = CoinsError;

    /// The collection of the given coins, in whatever order they come. It is
    /// made exactly if no denomination occurs twice among them; the error
    /// names no denomination, for the repetition is found by number only.
    fn try_from(coins: Vec<Coin>) -> (r: Result<Coins, CoinsError>)
        ensures
            list_outcome(coins.deep_view(), outcome_view(r)),
    {
        Coins::collect_counting(coins)
    }
}

// The conversion states its result in its own contract, as a relation between
// the list and the entries of the collection: no function of the list gives the
// collection itself, whose entries do not determine the vector that holds them.
impl TryFromSpecImpl<Vec<Coin>> for Coins {
    open spec fn obeys_try_from_spec() -> bool {
        false
    }

    open spec fn try_from_spec(coins: Vec<Coin>) -> Result<Coins, CoinsError> {
        arbitrary()
    }
}

impl<'a> TryFrom<&'a [Coin]> for Coins {
    type Error = CoinsError;

    /// The collection of the given coins, as for a vector of them.
    fn try_from(coins: &'a [Coin]) -> (r: Result<Coins, CoinsError>)
        ensures
            list_outcome(coins.deep_view(), outcome_view(r)),
    {
        let mut owned: Vec<Coin> = Vec::new();
        let mut i: usize = 0;
        while i < coins.len()
            invariant
                i <= coins.len(),
                owned.len() == i,
                forall|k: int| 0 <= k < i ==> owned[k] == coins[k],
            decreases coins.len() - i,
        {
            owned.push(coins[i].clone());
            i += 1;
        }
        assert(owned.deep_view() =~= coins.deep_view());
        Coins::collect_counting(owned)
    }
}

impl<'a> TryFromSpecImpl<&'a [Coin]> for Coins {
    open spec fn obeys_try_from_spec() -> bool {
        false
    }

    open spec fn try_from_spec(coins: &'a [Coin]) -> Result<Coins, CoinsError> {
        arbitrary()
    }
}

impl FromStr for Coins {
    type Err = CoinsError;

    /// Reads a collection from a compact string.
    fn from_str(s: &str) -> (r: Result<Coins, CoinsError>)
        ensures
            parse_outcome(s@, outcome_view(r)),
    {
        Coins::from_str(s)
    }
}

impl Clone for Coins {
    fn clone(&self) -> (copy: Coins)
        ensures
            copy@ == self@,
    {
        proof {
            use_type_invariant(self);
        }
        Coins { entries: self.to_vec() }
    }
}

impl Default for Coins {
    /// The empty collection.
    fn default() -> (coins: Coins)
        ensures
            coins@ == Seq::<Entry>::empty(),
    {
        Coins::new()
    }
}

impl PartialEq for Coins {
    /// Two collections are equal exactly if they list the same entries.
    fn eq(&self, other: &Coins) -> (equal: bool) {
        if self.entries.len() != other.entries.len() {
            assert(self@.len() != other@.len());
            return false;
        }
        let mut i: usize = 0;
        while i < self.entries.len()
            invariant
                i <= self.entries.len(),
                self.entries.len() == other.entries.len(),
                forall|k: int| 0 <= k < i ==> self.entries[k]@ == other.entries[k]@,
            decreases self.entries.len() - i,
        {
            if !(self.entries[i].denom == other.entries[i].denom) || self.entries[i].amount
                != other.entries[i].amount {
                assert(self@[i as int] != other@[i as int]);
                return false;
            }
            i += 1;
        }
        assert(self@ =~= other@);
        true
    }
}

impl PartialEqSpecImpl for Coins {
    open spec fn obeys_eq_spec() -> bool {
        true
    }

    open spec fn eq_spec(&self, other: &Coins) -> bool {
        self@ == other@
    }
}

} // verus!
