use cw_coins::amount::parse_amount;
use cw_coins::helpers::parse_coin_str;
use cw_coins::order::denom_precedes;
use cw_coins::{Coin, Coins, CoinsBuilder, CoinsError};

fn pairs(list: &[(&str, u128)]) -> Vec<Coin> {
    list.iter().map(|(denom, amount)| Coin::new(*amount, denom)).collect()
}

fn fields(list: &[(&str, &str)]) -> Vec<(String, String)> {
    list.iter().map(|(denom, amount)| (denom.to_string(), amount.to_string())).collect()
}

struct Entries(Vec<(String, String)>);

struct EntriesVisitor;

impl<'de> serde::de::Visitor<'de> for EntriesVisitor {
    type Value = Entries;

    fn expecting(&self, f: &mut std::fmt::Formatter) -> std::fmt::Result {
        f.write_str("a map with string keys and string values")
    }

    fn visit_map<M>(self, mut access: M) -> Result<Entries, M::Error>
    where
        M: serde::de::MapAccess<'de>,
    {
        let mut entries = Vec::new();
        while let Some(entry) = access.next_entry::<String, String>()? {
            entries.push(entry);
        }
        Ok(Entries(entries))
    }
}

impl<'de> serde::de::Deserialize<'de> for Entries {
    fn deserialize<D>(deserializer: D) -> Result<Entries, D::Error>
    where
        D: serde::de::Deserializer<'de>,
    {
        deserializer.deserialize_map(EntriesVisitor)
    }
}

fn entries_of_json(text: &str) -> Vec<(String, String)> {
    serde_json::from_str::<Entries>(text).unwrap().0
}

fn three() -> Coins {
    Coins::try_from(pairs(&[
        ("uatom", 12345),
        ("ibc/1234ABCD", 69420),
        ("factory/osmo1234abcd/subdenom", 88888),
    ]))
    .unwrap()
}

#[test]
fn compact_round_trip() {
    let coins = three();
    assert_eq!(Coins::from_str(&coins.to_string()).unwrap(), coins);

    let one = Coins::try_from(pairs(&[("uatom", 0)])).unwrap();
    assert_eq!(one.to_string(), "0uatom");
    assert_eq!(Coins::from_str("0uatom").unwrap(), one);
}

#[test]
fn document_round_trip() {
    let coins = three();
    assert_eq!(Coins::decode(coins.encode()).unwrap(), coins);

    let empty = Coins::new();
    assert_eq!(empty.encode(), Vec::<(String, String)>::new());
    assert_eq!(Coins::decode(Vec::new()).unwrap(), empty);
}

#[test]
fn empty_collection_renders_as_empty_string_which_is_no_collection() {
    assert_eq!(Coins::new().to_string(), "");
    assert_eq!(
        Coins::from_str("").unwrap_err(),
        CoinsError::InvalidCoinFormat { text: String::new() }
    );
}

#[test]
fn empty_list_is_the_empty_collection() {
    let coins = Coins::try_from(Vec::<Coin>::new()).unwrap();
    assert_eq!(coins, Coins::new());
    assert_eq!(coins, Coins::default());
    assert_eq!(coins.len(), 0);
    assert!(coins.is_empty());
    assert_eq!(coins.to_vec(), Vec::<Coin>::new());
}

#[test]
fn order_of_a_list_does_not_matter() {
    let a = Coins::try_from(pairs(&[("a", 1), ("b", 2)])).unwrap();
    let b = Coins::try_from(pairs(&[("b", 2), ("a", 1)])).unwrap();
    assert_eq!(a, b);
    assert_ne!(a, Coins::try_from(pairs(&[("a", 2), ("b", 1)])).unwrap());
    assert_ne!(a, Coins::try_from(pairs(&[("a", 1)])).unwrap());
}

#[test]
fn order_of_tokens_does_not_matter() {
    let a = Coins::from_str("1a,2b,3c").unwrap();
    assert_eq!(Coins::from_str("3c,1a,2b").unwrap(), a);
    assert_eq!(Coins::from_str("2b,3c,1a").unwrap(), a);
    assert_eq!(a.to_string(), "1a,2b,3c");
}

#[test]
fn order_of_document_entries_does_not_matter() {
    let a = Coins::decode(fields(&[("a", "1"), ("b", "2"), ("c", "3")])).unwrap();
    let b = Coins::decode(fields(&[("c", "3"), ("a", "1"), ("b", "2")])).unwrap();
    assert_eq!(a, b);
    assert_eq!(b.encode(), fields(&[("a", "1"), ("b", "2"), ("c", "3")]));
}

#[test]
fn outputs_list_denominations_in_ascending_byte_order() {
    // upper case comes before lower case, a prefix before what it begins,
    // and every character of ASCII before any character beyond it
    let coins =
        Coins::try_from(pairs(&[("zz", 1), ("é", 2), ("ab", 3), ("B", 4), ("abc", 5), ("a", 6)]))
            .unwrap();
    let denoms: Vec<String> = coins.to_vec().into_iter().map(|c| c.denom).collect();
    assert_eq!(denoms, vec!["B", "a", "ab", "abc", "zz", "é"]);
    assert_eq!(coins.to_string(), "4B,6a,3ab,5abc,1zz,2é");
    assert_eq!(
        coins.encode(),
        fields(&[("B", "4"), ("a", "6"), ("ab", "3"), ("abc", "5"), ("zz", "1"), ("é", "2")])
    );
    assert_eq!(coins.clone().into_vec(), coins.to_vec());
}

#[test]
fn order_of_denominations() {
    assert!(denom_precedes("a", "b"));
    assert!(!denom_precedes("b", "a"));
    assert!(!denom_precedes("a", "a"));
    assert!(denom_precedes("", "a"));
    assert!(!denom_precedes("", ""));
    assert!(denom_precedes("ibc", "ibc/1"));
    assert!(denom_precedes("Z", "a"));
    assert!(denom_precedes("z", "é"));
    assert!(denom_precedes("é", "日"));
}

#[test]
fn duplicate_in_a_list_is_rejected() {
    let err = Coins::try_from(pairs(&[("a", 1), ("b", 2), ("a", 1)])).unwrap_err();
    assert_eq!(err, CoinsError::DuplicateDenomination { denomination: None });
    let err = Coins::try_from(pairs(&[("a", 1), ("a", 7)]).as_slice()).unwrap_err();
    assert_eq!(err, CoinsError::DuplicateDenomination { denomination: None });
}

#[test]
fn duplicate_in_a_compact_string_is_rejected() {
    let err = Coins::from_str("1uatom,2uosmo,3uatom").unwrap_err();
    assert_eq!(err, CoinsError::DuplicateDenomination { denomination: Some("uatom".to_string()) });
    // the first denomination to repeat is named
    let err = Coins::from_str("1a,2b,3c,4b,5a").unwrap_err();
    assert_eq!(err, CoinsError::DuplicateDenomination { denomination: Some("b".to_string()) });
    // a token that stands for nothing is found first, wherever it stands
    let err = Coins::from_str("1uatom,2uatom,x").unwrap_err();
    assert_eq!(err, CoinsError::InvalidAmount { text: String::new() });
}

#[test]
fn duplicate_in_a_document_is_rejected_and_named() {
    let err = Coins::decode(fields(&[("a", "1"), ("b", "2"), ("b", "3"), ("a", "4")])).unwrap_err();
    assert_eq!(err, CoinsError::DuplicateDenomination { denomination: Some("b".to_string()) });
    // the repeated denomination is refused before its amount is read
    let err = Coins::decode(fields(&[("a", "1"), ("a", "ngmi")])).unwrap_err();
    assert_eq!(err, CoinsError::DuplicateDenomination { denomination: Some("a".to_string()) });
    // an amount that is none is found first where it stands first
    let err = Coins::decode(fields(&[("a", "x"), ("a", "1")])).unwrap_err();
    assert_eq!(err, CoinsError::InvalidAmount { text: "x".to_string() });
}

#[test]
fn invalid_amount_is_rejected_and_named() {
    let err = parse_coin_str("12.5uatom").unwrap_err();
    assert_eq!(err, CoinsError::InvalidAmount { text: "12.5".to_string() });
    let err = parse_coin_str("-1uatom").unwrap_err();
    assert_eq!(err, CoinsError::InvalidAmount { text: "-1".to_string() });
    let err = Coins::from_str("1a, 2b").unwrap_err();
    assert_eq!(err, CoinsError::InvalidAmount { text: " 2".to_string() });
    let err = Coins::decode(fields(&[("a", "")])).unwrap_err();
    assert_eq!(err, CoinsError::InvalidAmount { text: String::new() });
    let err = Coins::decode(fields(&[("a", "1"), ("b", "two")])).unwrap_err();
    assert_eq!(err, CoinsError::InvalidAmount { text: "two".to_string() });
}

#[test]
fn amounts_fill_128_bits_and_no_more() {
    let max = "340282366920938463463374607431768211455";
    assert_eq!(parse_amount(max).unwrap(), u128::MAX);
    let most = Coins::try_from(pairs(&[("uatom", u128::MAX)])).unwrap();
    assert_eq!(most.to_string(), format!("{}uatom", max));
    assert_eq!(most.encode(), fields(&[("uatom", max)]));
    let over = "340282366920938463463374607431768211456";
    assert_eq!(parse_amount(over).unwrap_err(), CoinsError::InvalidAmount { text: over.to_string() });
    let (denom, amount) = parse_coin_str(&format!("{}uatom", max)).unwrap();
    assert_eq!((denom.as_str(), amount), ("uatom", u128::MAX));
    let err = parse_coin_str(&format!("{}uatom", over)).unwrap_err();
    assert_eq!(err, CoinsError::InvalidAmount { text: over.to_string() });
}

#[test]
fn amounts_as_text() {
    assert_eq!(parse_amount("12345").unwrap(), 12345);
    assert_eq!(parse_amount("0").unwrap(), 0);
    assert_eq!(parse_amount("007").unwrap(), 7);
    assert_eq!(parse_amount("+42").unwrap(), 42);
    assert!(parse_amount("").is_err());
    assert!(parse_amount("+").is_err());
    assert!(parse_amount("++1").is_err());
    assert!(parse_amount("1 ").is_err());
    assert!(parse_amount("١٢").is_err());
    let coins = Coins::try_from(pairs(&[("a", 12345), ("b", 0), ("c", 1000)])).unwrap();
    assert_eq!(coins.encode(), fields(&[("a", "12345"), ("b", "0"), ("c", "1000")]));
    assert_eq!(coins.to_string(), "12345a,0b,1000c");
}

#[test]
fn token_without_denomination_is_rejected() {
    let err = Coins::from_str("69420").unwrap_err();
    assert_eq!(err, CoinsError::InvalidCoinFormat { text: "69420".to_string() });
    let err = Coins::from_str("1uatom,,2uosmo").unwrap_err();
    assert_eq!(err, CoinsError::InvalidCoinFormat { text: String::new() });
    let err = Coins::from_str("1uatom,").unwrap_err();
    assert_eq!(err, CoinsError::InvalidCoinFormat { text: String::new() });
    let err = parse_coin_str("12/34").unwrap_err();
    assert_eq!(err, CoinsError::InvalidCoinFormat { text: "12/34".to_string() });
    let err = Coins::from_str("ngmi").unwrap_err();
    assert_eq!(err, CoinsError::InvalidAmount { text: String::new() });
}

#[test]
fn denomination_begins_at_the_first_alphabetic_character() {
    assert_eq!(parse_coin_str("5a1b").unwrap(), ("a1b".to_string(), 5));
    assert_eq!(parse_coin_str("12日本").unwrap(), ("日本".to_string(), 12));
    assert_eq!(parse_coin_str("7Éire").unwrap(), ("Éire".to_string(), 7));
    // what stands before the first alphabetic character is the amount, digits or not
    let err = parse_coin_str("5€uro").unwrap_err();
    assert_eq!(err, CoinsError::InvalidAmount { text: "5€".to_string() });
    let err = parse_coin_str("12/ibc").unwrap_err();
    assert_eq!(err, CoinsError::InvalidAmount { text: "12/".to_string() });
    assert_eq!(parse_coin_str("+3x").unwrap(), ("x".to_string(), 3));
}

#[test]
fn document_in_json() {
    // the entries of a JSON object as the text declares them, a repeated key too
    let text = r#"{"uatom":"1","ibc/1":"2","uatom":"3"}"#;
    let value: Vec<(String, String)> = entries_of_json(text);
    assert_eq!(value, fields(&[("uatom", "1"), ("ibc/1", "2"), ("uatom", "3")]));
    let err = Coins::decode(value).unwrap_err();
    assert_eq!(err, CoinsError::DuplicateDenomination { denomination: Some("uatom".to_string()) });

    let coins = Coins::decode(entries_of_json(r#"{"uatom":"1","ibc/1":"2"}"#)).unwrap();
    assert_eq!(coins.encode(), fields(&[("ibc/1", "2"), ("uatom", "1")]));
}

#[test]
fn builder_works_as_a_map() {
    let mut builder = CoinsBuilder::new();
    assert_eq!(builder.len(), 0);
    assert!(!builder.contains("uatom"));
    assert!(builder.insert("uatom".to_string(), 1));
    assert!(builder.insert("ibc/1".to_string(), 2));
    assert!(builder.contains("uatom"));
    assert!(!builder.contains("uato"));
    assert!(!builder.insert("uatom".to_string(), 3));
    assert_eq!(builder.len(), 2);
    assert_eq!(builder.finish().into_vec(), vec![Coin::new(2, "ibc/1"), Coin::new(3, "uatom")]);
}

#[test]
fn builder_reads_a_document_entry_by_entry() {
    let mut builder = CoinsBuilder::new();
    assert_eq!(builder.visit_entry("b".to_string(), "2"), Ok(()));
    assert_eq!(builder.visit_entry("a".to_string(), "1"), Ok(()));
    assert_eq!(
        builder.visit_entry("b".to_string(), "x"),
        Err(CoinsError::DuplicateDenomination { denomination: Some("b".to_string()) })
    );
    assert_eq!(
        builder.visit_entry("c".to_string(), "x"),
        Err(CoinsError::InvalidAmount { text: "x".to_string() })
    );
    // an entry that was refused left nothing behind
    assert_eq!(builder.len(), 2);
    assert_eq!(builder.finish().to_string(), "1a,2b");
}

#[test]
fn error_messages() {
    assert_eq!(
        CoinsError::DuplicateDenomination { denomination: None }.to_string(),
        "Error parsing into type cw_coins::Coins: duplicate denoms"
    );
    assert_eq!(
        CoinsError::DuplicateDenomination { denomination: Some("uatom".to_string()) }.to_string(),
        "failed to parse into Coins! duplicate denom: uatom"
    );
    assert_eq!(
        CoinsError::InvalidAmount { text: "ngmi".to_string() }.to_string(),
        "failed to parse into Coins! invalid amount: ngmi"
    );
    assert_eq!(
        CoinsError::InvalidCoinFormat { text: "69420".to_string() }.to_string(),
        "Error parsing into type cw_coins::Coin: Invalid coin string (69420)"
    );
    let err = CoinsError::InvalidAmount { text: "x".to_string() };
    assert_eq!(err.clone(), err);
}

#[test]
fn scenario_pairs_to_compact_string() {
    let coins = three();
    assert_eq!(
        coins.to_string(),
        "88888factory/osmo1234abcd/subdenom,69420ibc/1234ABCD,12345uatom"
    );
    assert_eq!(coins.len(), 3);
    assert!(!coins.is_empty());
}

#[test]
fn parsing_through_the_trait() {
    let coins: Coins = "2b,1a".parse().unwrap();
    assert_eq!(coins.to_string(), "1a,2b");
    let coin = Coin::new(5, "x");
    assert_eq!(coin.clone(), coin);
    assert_eq!((coin.denom.as_str(), coin.amount), ("x", 5));
}
