use cosmwasm_std::{StdError, Uint128};
use cw_coins::helpers::parse_coin_str;
use cw_coins::{Coin, Coins, CoinsBuilder, CoinsError};
use serde::de::{Deserialize, Deserializer, MapAccess, Visitor};
use serde::ser::{Serialize, SerializeMap, Serializer};
use std::fmt;
use std::str::FromStr;

/// A collection as serde reads and writes it: read entry by entry, in the
/// order in which the text declares the entries, and written as a map from
/// denomination to the decimal digits of the amount.
#[derive(Debug)]
struct Json(Coins);

struct JsonVisitor;

impl<'de> Visitor<'de> for JsonVisitor {
    type Value = Json;

    fn expecting(&self, f: &mut fmt::Formatter) -> fmt::Result {
        f.write_str("a map with non-duplicating string keys and stringified 128-bit unsigned integer values")
    }

    fn visit_map<M>(self, mut access: M) -> Result<Json, M::Error>
    where
        M: MapAccess<'de>,
    {
        let mut builder = CoinsBuilder::new();
        while let Some((denom, amount_str)) = access.next_entry::<String, String>()? {
            builder
                .visit_entry(denom, &amount_str)
                .map_err(|e| serde::de::Error::custom(e.to_string()))?;
        }
        Ok(Json(builder.finish()))
    }
}

impl<'de> Deserialize<'de> for Json {
    fn deserialize<D>(deserializer: D) -> Result<Json, D::Error>
    where
        D: Deserializer<'de>,
    {
        deserializer.deserialize_map(JsonVisitor)
    }
}

impl Serialize for Json {
    fn serialize<S>(&self, serializer: S) -> Result<S::Ok, S::Error>
    where
        S: Serializer,
    {
        let fields = self.0.encode();
        let mut map = serializer.serialize_map(Some(fields.len()))?;
        for (denom, amount) in &fields {
            map.serialize_entry(denom, amount)?;
        }
        map.end()
    }
}

/// Sort a Vec<Coin> by denom alphabetically
fn sort_by_denom(vec: &mut Vec<Coin>) {
    vec.sort_by(|a, b| a.denom.cmp(&b.denom));
}

/// Returns a mockup Vec<Coin>. In this example, the coins are not in order
fn mock_vec() -> Vec<Coin> {
    vec![
        Coin::new(12345, "uatom"),
        Coin::new(69420, "ibc/1234ABCD"),
        Coin::new(88888, "factory/osmo1234abcd/subdenom"),
    ]
}

/// Return a mockup Coins that contains the same coins as in `mock_vec`
fn mock_coins() -> Coins {
    let mut map = CoinsBuilder::new();

    map.insert("uatom".to_string(), 12345);
    map.insert("ibc/1234ABCD".to_string(), 69420);
    map.insert("factory/osmo1234abcd/subdenom".to_string(), 88888);

    map.finish()
}

#[test]
fn casting_vec() {
    let mut vec = mock_vec();
    let coins = mock_coins();

    // &[Coin] --> Coins
    assert_eq!(Coins::try_from(vec.as_slice()).unwrap(), coins);
    // Vec<Coin> --> Coins
    assert_eq!(Coins::try_from(vec.clone()).unwrap(), coins);

    sort_by_denom(&mut vec);

    // &Coins --> Vec<Coins>
    // NOTE: the returned vec should be sorted
    assert_eq!((&coins).to_vec(), vec);
    // Coins --> Vec<Coins>
    // NOTE: the returned vec should be sorted
    assert_eq!(coins.into_vec(), vec);
}

#[test]
fn casting_str() {
    // not in order
    let s1 = "88888factory/osmo1234abcd/subdenom,12345uatom,69420ibc/1234ABCD";
    // in order
    let s2 = "88888factory/osmo1234abcd/subdenom,69420ibc/1234ABCD,12345uatom";

    let coins = mock_coins();

    // &str --> Coins
    // NOTE: should generate the same Coins, regardless of input order
    assert_eq!(Coins::from_str(s1).unwrap(), coins);
    assert_eq!(Coins::from_str(s2).unwrap(), coins);

    // Coins --> String
    // NOTE: the generated string should be sorted
    assert_eq!(coins.to_string(), s2);
}

#[test]
fn serde() {
    // not in order, with indentation
    let s1 = r#"{
        "uatom": "12345",
        "factory/osmo1234abcd/subdenom": "88888",
        "ibc/1234ABCD": "69420"
    }"#;
    // in order, no indentation
    let s2 = r#"{"factory/osmo1234abcd/subdenom":"88888","ibc/1234ABCD":"69420","uatom":"12345"}"#;

    let coins = mock_coins();

    // &str --> Coins
    // NOTE: should generate the same Coins, regardless of input order or indentation
    assert_eq!(serde_json::from_str::<Json>(s1).unwrap().0, coins);
    assert_eq!(serde_json::from_str::<Json>(s2).unwrap().0, coins);

    // Coins --> String
    // NOTE: the generated string should be sorted
    assert_eq!(serde_json::to_string(&Json(coins)).unwrap(), s2);
}

#[test]
fn handling_duplicates() {
    // a JSON string that contains a duplicate coin denom; should fail
    let s = r#"{
        "uatom": "67890",
        "factory/osmo1234abcd/subdenom": "88888",
        "uatom": "12345",
        "ibc/1234ABCD": "69420"
    }"#;

    let err = serde_json::from_str::<Json>(s).unwrap_err();
    assert!(err.to_string().contains("failed to parse into Coins! duplicate denom: uatom"));

    // same with Vec<Coin>
    let mut vec = mock_vec();
    vec.push(Coin::new(67890, "uatom"));

    let err = Coins::try_from(vec).unwrap_err();
    assert_eq!(err.to_string(), "Error parsing into type cw_coins::Coins: duplicate denoms");
}

#[test]
fn handling_invalid_amount() {
    // a JSON string that contains an invalid coin amount; should fail
    let s = r#"{
        "uatom": "67890",
        "factory/osmo1234abcd/subdenom": "ngmi",
        "ibc/1234ABCD": "69420"
    }"#;

    let err = serde_json::from_str::<Json>(s).unwrap_err();
    assert!(err.to_string().contains("failed to parse into Coins! invalid amount: ngmi"));
}

#[test]
fn length() {
    let coins = Coins::new();
    assert_eq!(coins.len(), 0);
    assert_eq!(coins.is_empty(), true);

    let coins = mock_coins();
    assert_eq!(coins.len(), 3);
    assert_eq!(coins.is_empty(), false);
}

#[test]
fn parsing_coin() {
    let (denom, amount) = parse_coin_str("12345uatom").unwrap();
    assert_eq!(denom, "uatom".to_string());
    assert_eq!(amount, Uint128::new(12345).u128());

    let (denom, amount) = parse_coin_str("69420ibc/1234ABCD").unwrap();
    assert_eq!(denom, "ibc/1234ABCD".to_string());
    assert_eq!(amount, Uint128::new(69420).u128());

    let (denom, amount) = parse_coin_str("88888factory/osmo1234abcd/subdenom").unwrap();
    assert_eq!(denom, "factory/osmo1234abcd/subdenom");
    assert_eq!(amount, Uint128::new(88888).u128());

    // the amount of this token is the empty text, of which the parser of
    // amounts says that it is empty
    let err = parse_coin_str("ngmi").unwrap_err();
    assert_eq!(err, CoinsError::InvalidAmount { text: String::new() });
    assert_eq!(
        Uint128::from_str("").unwrap_err(),
        StdError::generic_err("Parsing u128: cannot parse integer from empty string")
    );

    let err = parse_coin_str("69420").unwrap_err();
    assert_eq!(err, CoinsError::InvalidCoinFormat { text: "69420".to_string() });
    assert!(err.to_string().contains("Invalid coin string (69420)"));
}
