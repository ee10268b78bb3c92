//! A canonical collection of coins: a mapping from denomination to amount that
//! holds every denomination at most once and always lists its entries in
//! ascending byte order of the denominations.
//!
//! A collection is made from a list of coins, from a compact string such as
//! `12345uatom,69420ibc/1234ABCD` or from the entries of a structured
//! document, and is written back as any of the three. Whatever the order of
//! the input, what is written is the same; an input that names a denomination
//! twice is refused.
//!
//! To the verifier a collection is the sequence of its entries, each a
//! denomination with its amount ([`canonical`]). The rules of the two text
//! formats are stated over such sequences ([`compact`], [`document`]), the
//! conversions are proved to follow them ([`coins`], [`builder`],
//! [`helpers`]), and [`laws`] proves what holds of the conversions together.
//! Amounts are read and written by cosmwasm_std ([`amount`]), and
//! denominations are ordered by their bytes ([`order`]).
pub mod amount;
pub mod builder;
pub mod canonical;
pub mod coin;
pub mod coins;
pub mod compact;
pub mod document;
pub mod error;
pub mod helpers;
pub mod laws;
pub mod order;

pub use crate::builder::CoinsBuilder;
pub use crate::coin::Coin;
pub use crate::coins::Coins;
pub use crate::error::CoinsError;
