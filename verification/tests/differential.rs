use cosmwasm_std::Uint128;
use cw_coins::helpers::parse_coin_str;
use cw_coins::{Coin, Coins, CoinsError};
use std::collections::BTreeMap;
use std::str::FromStr;

/// A small generator of numbers that gives the same sequence on every run.
struct Numbers(u64);

impl Numbers {
    fn next(&mut self) -> u64 {
        self.0 = self.0.wrapping_mul(6364136223846793005).wrapping_add(1442695040888963407);
        self.0 >> 33
    }

    fn below(&mut self, bound: usize) -> usize {
        (self.next() % bound as u64) as usize
    }

    fn text(&mut self, alphabet: &[char], longest: usize) -> String {
        let len = self.below(longest + 1);
        (0..len).map(|_| alphabet[self.below(alphabet.len())]).collect()
    }
}

/// Whether a denomination can be written into a compact string and found
/// there again.
fn is_plain(denom: &str) -> bool {
    denom.chars().next().map_or(false, char::is_alphabetic) && !denom.contains(',')
}

#[test]
fn collections_agree_with_a_sorted_map() {
    let alphabet = ['a', 'b', 'Z', '/', '1', ',', 'é', '日'];
    let mut numbers = Numbers(7);
    for _ in 0..2000 {
        let count = numbers.below(7);
        let list: Vec<Coin> = (0..count)
            .map(|_| {
                let denom = numbers.text(&alphabet, 3);
                Coin::new(numbers.next() as u128, &denom)
            })
            .collect();
        let map: BTreeMap<String, u128> =
            list.iter().map(|coin| (coin.denom.clone(), coin.amount)).collect();

        let outcome = Coins::try_from(list.clone());
        if map.len() != list.len() {
            assert_eq!(
                outcome.unwrap_err(),
                CoinsError::DuplicateDenomination { denomination: None }
            );
            continue;
        }
        let coins = outcome.unwrap();
        assert_eq!(Coins::try_from(list.as_slice()).unwrap(), coins);
        assert_eq!(coins.len(), map.len());
        assert_eq!(coins.is_empty(), map.is_empty());

        // the entries come out as a sorted map lists them
        let sorted: Vec<Coin> =
            map.iter().map(|(denom, amount)| Coin::new(*amount, denom)).collect();
        assert_eq!(coins.to_vec(), sorted);
        let text =
            map.iter().map(|(denom, amount)| format!("{}{}", amount, denom)).collect::<Vec<_>>();
        assert_eq!(coins.to_string(), text.join(","));
        let fields: Vec<(String, String)> =
            map.iter().map(|(denom, amount)| (denom.clone(), amount.to_string())).collect();
        assert_eq!(coins.encode(), fields);

        // and what is written reads back
        assert_eq!(Coins::decode(coins.encode()).unwrap(), coins);
        if !map.is_empty() && map.keys().all(|denom| is_plain(denom)) {
            assert_eq!(Coins::from_str(&coins.to_string()).unwrap(), coins);
        }
    }
}

#[test]
fn documents_agree_with_a_seen_set() {
    let alphabet = ['a', 'b', 'c'];
    let digits = ['0', '1', '9', 'x', '+'];
    let mut numbers = Numbers(11);
    for _ in 0..2000 {
        let count = numbers.below(5);
        let fields: Vec<(String, String)> = (0..count)
            .map(|_| (numbers.text(&alphabet, 2), numbers.text(&digits, 3)))
            .collect();

        let mut seen: BTreeMap<String, u128> = BTreeMap::new();
        let mut expected = Ok(());
        for (denom, amount) in &fields {
            if seen.contains_key(denom) {
                expected =
                    Err(CoinsError::DuplicateDenomination { denomination: Some(denom.clone()) });
                break;
            }
            match Uint128::from_str(amount) {
                Ok(value) => seen.insert(denom.clone(), value.u128()),
                Err(_) => {
                    expected = Err(CoinsError::InvalidAmount { text: amount.clone() });
                    break;
                }
            };
        }

        match (Coins::decode(fields), expected) {
            (Ok(coins), Ok(())) => {
                let sorted: Vec<Coin> =
                    seen.iter().map(|(denom, amount)| Coin::new(*amount, denom)).collect();
                assert_eq!(coins.into_vec(), sorted);
            }
            (Err(found), Err(error)) => assert_eq!(found, error),
            (found, expected) => panic!("found {:?} where {:?} was expected", found, expected),
        }
    }
}

#[test]
fn tokens_agree_with_a_scan_for_the_first_letter() {
    let alphabet = ['0', '1', '9', 'a', 'Z', '/', '+', ' '];
    let mut numbers = Numbers(13);
    for _ in 0..5000 {
        let token = numbers.text(&alphabet, 6);
        let found = parse_coin_str(&token);
        match token.find(|c: char| c.is_alphabetic()) {
            None => {
                assert_eq!(found, Err(CoinsError::InvalidCoinFormat { text: token.clone() }))
            }
            Some(at) => match Uint128::from_str(&token[..at]) {
                Ok(amount) => assert_eq!(found, Ok((token[at..].to_string(), amount.u128()))),
                Err(_) => assert_eq!(
                    found,
                    Err(CoinsError::InvalidAmount { text: token[..at].to_string() })
                ),
            },
        }
    }
}

#[test]
fn compact_strings_agree_with_split_and_scan() {
    let alphabet = ['1', '2', 'a', 'b', ',', ','];
    let mut numbers = Numbers(17);
    for _ in 0..5000 {
        let text = numbers.text(&alphabet, 9);
        let mut pairs = Vec::new();
        let mut expected = Ok(());
        for token in text.split(',') {
            match parse_coin_str(token) {
                Ok(pair) => pairs.push(pair),
                Err(e) => {
                    expected = Err(e);
                    break;
                }
            }
        }
        let mut seen: BTreeMap<String, u128> = BTreeMap::new();
        if expected.is_ok() {
            for (denom, amount) in &pairs {
                if seen.insert(denom.clone(), *amount).is_some() {
                    expected = Err(CoinsError::DuplicateDenomination {
                        denomination: Some(denom.clone()),
                    });
                    break;
                }
            }
        }
        match (Coins::from_str(&text), expected) {
            (Ok(coins), Ok(())) => {
                let sorted: Vec<Coin> =
                    seen.iter().map(|(denom, amount)| Coin::new(*amount, denom)).collect();
                assert_eq!(coins.into_vec(), sorted);
            }
            (Err(found), Err(error)) => assert_eq!(found, error),
            (found, expected) => panic!("found {:?} where {:?} was expected", found, expected),
        }
    }
}
