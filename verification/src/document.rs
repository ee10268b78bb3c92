//! The structured document of a collection: entries of a denomination and the
//! text of its amount, in the order in which the document declares them.
use crate::amount::{amount_value, decimal_digits, is_amount_text};
use crate::canonical::{has_denom, holds_exactly, Entry};
use crate::error::CoinsErrorView;
use vstd::prelude::*;

verus! {

/// One entry of a structured document: the denomination, and the text of the
/// amount.
pub type Field = (Seq<char>, Seq<char>);

/// What one entry of a structured document does to the entries read so far:
/// the denomination must be new, and the text of its amount must be an amount.
pub open spec fn visit_entry_spec(
    seen: Seq<Entry>,
    denom: Seq<char>,
    amount_text: Seq<char>,
) -> Result<Entry, CoinsErrorView> {
    if has_denom(seen, denom) {
        Err(CoinsErrorView::DuplicateDenomination { denomination: Some(denom) })
    } else if !is_amount_text(amount_text) {
        Err(CoinsErrorView::InvalidAmount { text: amount_text })
    } else {
        Ok((denom, amount_value(amount_text) as u128))
    }
}

/// What the entries of a structured document stand for, taken in the order in
/// which the document declares them; the error of the first entry that is
/// refused.
pub open spec fn decode_spec(fields: Seq<Field>) -> Result<Seq<Entry>, CoinsErrorView>
    decreases fields.len(),
{
    if fields.len() == 0 {
        Ok(Seq::<Entry>::empty())
    } else {
        match decode_spec(fields.drop_last()) {
            Err(e) => Err(e),
            Ok(seen) => match visit_entry_spec(seen, fields.last().0, fields.last().1) {
                Err(e) => Err(e),
                Ok(entry) => Ok(seen.push(entry)),
            },
        }
    }
}

/// Whether `r` is what a structured document is turned into: the error of its
/// first entry that is refused, or else the canonical sequence of exactly the
/// entries that it declares.
pub open spec fn decode_outcome(fields: Seq<Field>, r: Result<Seq<Entry>, CoinsErrorView>) -> bool {
    match decode_spec(fields) {
        Err(e) => r == Err::<Seq<Entry>, CoinsErrorView>(e),
        Ok(pairs) => r matches Ok(entries) && holds_exactly(entries, pairs),
    }
}

/// The entries of the structured document of a collection: those of the
/// collection in their order, each amount in decimal digits.
pub open spec fn encode_spec(entries: Seq<Entry>) -> Seq<Field> {
    entries.map_values(|e: Entry| (e.0, decimal_digits(e.1 as nat)))
}

/// Once an entry of a document is refused, the entries after it do not matter.
pub proof fn lemma_decode_error(fields: Seq<Field>, more: Seq<Field>)
    requires
        decode_spec(fields) is Err,
    ensures
        decode_spec(fields + more) == decode_spec(fields),
    decreases more.len(),
{
    if more.len() == 0 {
        assert(fields + more =~= fields);
    } else {
        lemma_decode_error(fields, more.drop_last());
        assert((fields + more).drop_last() =~= fields + more.drop_last());
    }
}

} // verus!
