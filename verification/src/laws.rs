//! What holds of the conversions taken together: that a collection read back
//! from what was written of it is the same collection, that the order of an
//! input does not matter, and which inputs are refused.
use crate::amount::{
    amount_value, decimal_digits, is_amount_text, is_digit, lemma_amount_round_trip,
    lemma_decimal_digits,
};
use crate::canonical::{
    distinct_denoms, first_repeated, has_denom, is_canonical, lemma_canonical_distinct,
    lemma_canonical_unique, lemma_distinct_push, lemma_first_repeated_none,
    lemma_first_repeated_stays, list_outcome, same_entries, Entry,
};
use crate::compact::{
    is_alphabetic, is_denom_start, join_tokens, lemma_denom_start, lemma_first_comma,
    parse_coin_spec, parse_outcome, parse_tokens, render, render_entry, split_tokens,
};
use crate::document::{decode_outcome, decode_spec, encode_spec, lemma_decode_error, Field};
use crate::error::CoinsErrorView;
use vstd::prelude::*;

verus! {

/// Whether a denomination can stand in a compact string: it begins with an
/// alphabetic character, so that it begins where the token expects it, and it
/// holds no comma, which would end the token.
pub open spec fn is_plain_denom(denom: Seq<char>) -> bool {
    &&& denom.len() > 0
    &&& is_alphabetic(denom[0])
    &&& forall|i: int| 0 <= i < denom.len() ==> denom[i] != ','
}

/// The pairs that the entries of a document stand for where all of them are
/// accepted: each denomination with the amount that its text denotes.
pub open spec fn field_values(fields: Seq<Field>) -> Seq<Entry> {
    fields.map_values(|f: Field| (f.0, amount_value(f.1) as u128))
}

/// What one of two sequences holds that hold the same items equally often, the
/// other holds too.
pub proof fn lemma_rearranged_contains<A>(a: Seq<A>, b: Seq<A>, x: A)
    requires
        a.to_multiset() == b.to_multiset(),
        a.contains(x),
    ensures
        b.contains(x),
{
    a.to_multiset_ensures();
    b.to_multiset_ensures();
    assert(b.to_multiset().count(x) > 0);
}

/// Two sequences that hold the same items equally often still do so after a
/// function was applied to every item.
pub proof fn lemma_map_rearranged<A, B>(a: Seq<A>, b: Seq<A>, f: spec_fn(A) -> B)
    requires
        a.to_multiset() == b.to_multiset(),
    ensures
        a.map_values(f).to_multiset() == b.map_values(f).to_multiset(),
    decreases a.len(),
{
    broadcast use vstd::seq_lib::group_to_multiset_ensures;

    a.to_multiset_ensures();
    b.to_multiset_ensures();
    if a.len() > 0 {
        // The last item of `a` is taken out of both, wherever it stands in `b`.
        let x = a.last();
        lemma_rearranged_contains(a, b, x);
        let j = choose|j: int| 0 <= j < b.len() && b[j] == x;
        let a1 = a.drop_last();
        let b1 = b.remove(j);
        assert(a =~= a1.push(x));
        assert(a1.to_multiset() =~= a.to_multiset().remove(x)) by {
            a1.to_multiset_ensures();
        }
        lemma_map_rearranged(a1, b1, f);
        assert(a.map_values(f) =~= a1.map_values(f).push(f(x)));
        assert(b.map_values(f) =~= b1.map_values(f).insert(j, f(x)));
        vstd::seq_lib::to_multiset_insert(b1.map_values(f), j, f(x));
        a1.map_values(f).to_multiset_ensures();
    }
}

/// Two sequences that hold the same pairs equally often hold the same
/// entries, and denominations repeat in both or in neither.
pub proof fn lemma_rearranged_pairs(a: Seq<Entry>, b: Seq<Entry>)
    requires
        a.to_multiset() == b.to_multiset(),
    ensures
        same_entries(a, b),
        distinct_denoms(a) <==> distinct_denoms(b),
{
    assert forall|e: Entry| a.contains(e) <==> b.contains(e) by {
        if a.contains(e) {
            lemma_rearranged_contains(a, b, e);
        }
        if b.contains(e) {
            lemma_rearranged_contains(b, a, e);
        }
    }
    if distinct_denoms(a) {
        lemma_rearranged_distinct(a, b);
    }
    if distinct_denoms(b) {
        lemma_rearranged_distinct(b, a);
    }
}

proof fn lemma_rearranged_distinct(a: Seq<Entry>, b: Seq<Entry>)
    requires
        a.to_multiset() == b.to_multiset(),
        distinct_denoms(a),
    ensures
        distinct_denoms(b),
{
    a.to_multiset_ensures();
    b.to_multiset_ensures();
    assert(a.no_duplicates()) by {
        assert forall|i: int, j: int| 0 <= i < a.len() && 0 <= j < a.len() && i != j implies a[i]
            != a[j] by {
            if j < i {
                assert(a[j].0 != a[i].0);
            }
        }
    }
    a.lemma_multiset_has_no_duplicates();
    b.lemma_multiset_has_no_duplicates_conv();
    assert forall|i: int, j: int| 0 <= i < j < b.len() implies #[trigger] b[i].0
        != #[trigger] b[j].0 by {
        lemma_rearranged_contains(b, a, b[i]);
        lemma_rearranged_contains(b, a, b[j]);
    }
}

/// A list of pairs is turned into one thing only: into the same collection,
/// or into the same error, whoever does it.
pub proof fn law_list_determined(
    pairs: Seq<Entry>,
    r1: Result<Seq<Entry>, CoinsErrorView>,
    r2: Result<Seq<Entry>, CoinsErrorView>,
)
    requires
        list_outcome(pairs, r1),
        list_outcome(pairs, r2),
    ensures
        r1 == r2,
{
    if distinct_denoms(pairs) {
        lemma_canonical_unique(r1->Ok_0, r2->Ok_0);
    }
}

/// A compact string is turned into one thing only.
pub proof fn law_compact_determined(
    s: Seq<char>,
    r1: Result<Seq<Entry>, CoinsErrorView>,
    r2: Result<Seq<Entry>, CoinsErrorView>,
)
    requires
        parse_outcome(s, r1),
        parse_outcome(s, r2),
    ensures
        r1 == r2,
{
    if r1 is Ok {
        lemma_canonical_unique(r1->Ok_0, r2->Ok_0);
    }
}

/// A structured document is turned into one thing only.
pub proof fn law_document_determined(
    fields: Seq<Field>,
    r1: Result<Seq<Entry>, CoinsErrorView>,
    r2: Result<Seq<Entry>, CoinsErrorView>,
)
    requires
        decode_outcome(fields, r1),
        decode_outcome(fields, r2),
    ensures
        r1 == r2,
{
    if r1 is Ok {
        lemma_canonical_unique(r1->Ok_0, r2->Ok_0);
    }
}

/// The order of a list of pairs does not matter: two lists that hold the same
/// pairs equally often are turned into equal collections, or both into the
/// error that denominations repeat.
pub proof fn law_list_order_independent(
    a: Seq<Entry>,
    b: Seq<Entry>,
    ra: Result<Seq<Entry>, CoinsErrorView>,
    rb: Result<Seq<Entry>, CoinsErrorView>,
)
    requires
        a.to_multiset() == b.to_multiset(),
        list_outcome(a, ra),
        list_outcome(b, rb),
    ensures
        ra == rb,
{
    lemma_rearranged_pairs(a, b);
    if distinct_denoms(a) {
        lemma_canonical_unique(ra->Ok_0, rb->Ok_0);
    }
}

/// A list in which a denomination occurs twice, with whatever amounts, is
/// refused with the error that denominations repeat.
pub proof fn law_list_duplicate_rejected(
    pairs: Seq<Entry>,
    i: int,
    j: int,
    r: Result<Seq<Entry>, CoinsErrorView>,
)
    requires
        0 <= i < j < pairs.len(),
        pairs[i].0 == pairs[j].0,
        list_outcome(pairs, r),
    ensures
        r == Err::<Seq<Entry>, CoinsErrorView>(
            CoinsErrorView::DuplicateDenomination { denomination: None },
        ),
{
}

/// Tokens that stand for a pair each stand for the sequence of those pairs.
pub proof fn lemma_parse_tokens_ok(tokens: Seq<Seq<char>>, pairs: Seq<Entry>)
    requires
        tokens.len() == pairs.len(),
        forall|i: int|
            0 <= i < tokens.len() ==> parse_coin_spec(#[trigger] tokens[i]) == Ok::<
                Entry,
                CoinsErrorView,
            >(pairs[i]),
    ensures
        parse_tokens(tokens) == Ok::<Seq<Entry>, CoinsErrorView>(pairs),
    decreases tokens.len(),
{
    if tokens.len() == 0 {
        assert(pairs =~= Seq::<Entry>::empty());
    } else {
        lemma_parse_tokens_ok(tokens.drop_last(), pairs.drop_last());
        assert(pairs =~= pairs.drop_last().push(pairs.last()));
    }
}

/// Where tokens stand for pairs, every token stands for its pair.
pub proof fn lemma_parse_tokens_each(tokens: Seq<Seq<char>>)
    requires
        parse_tokens(tokens) is Ok,
    ensures
        parse_tokens(tokens)->Ok_0.len() == tokens.len(),
        forall|i: int|
            0 <= i < tokens.len() ==> parse_coin_spec(#[trigger] tokens[i]) == Ok::<
                Entry,
                CoinsErrorView,
            >(parse_tokens(tokens)->Ok_0[i]),
    decreases tokens.len(),
{
    if tokens.len() > 0 {
        lemma_parse_tokens_each(tokens.drop_last());
        let pairs = parse_tokens(tokens)->Ok_0;
        assert forall|i: int| 0 <= i < tokens.len() implies parse_coin_spec(#[trigger] tokens[i])
            == Ok::<Entry, CoinsErrorView>(pairs[i]) by {
            if i < tokens.len() - 1 {
                assert(tokens.drop_last()[i] == tokens[i]);
            }
        }
    }
}

/// Tokens without a comma, joined by commas and split at the commas again,
/// are the same tokens.
pub proof fn lemma_split_join(tokens: Seq<Seq<char>>)
    requires
        tokens.len() >= 1,
        forall|i: int, j: int|
            0 <= i < tokens.len() && 0 <= j < tokens[i].len() ==> tokens[i][j] != ',',
    ensures
        split_tokens(join_tokens(tokens)) == tokens,
    decreases tokens.len(),
{
    let joined = join_tokens(tokens);
    let first = tokens[0];
    if tokens.len() == 1 {
        lemma_first_comma(joined, joined.len() as int);
    } else {
        let rest = tokens.skip(1);
        lemma_split_join(rest);
        lemma_first_comma(joined, first.len() as int);
        assert(joined.take(first.len() as int) =~= first);
        assert(joined.skip(first.len() as int + 1) =~= join_tokens(rest));
    }
}

/// The token of an entry whose denomination can stand in a compact string
/// holds no comma, and stands for that entry.
pub proof fn lemma_parse_rendered_entry(entry: Entry)
    requires
        is_plain_denom(entry.0),
    ensures
        parse_coin_spec(render_entry(entry)) == Ok::<Entry, CoinsErrorView>(entry),
        forall|j: int| 0 <= j < render_entry(entry).len() ==> render_entry(entry)[j] != ',',
{
    let digits = decimal_digits(entry.1 as nat);
    let token = render_entry(entry);
    let k = digits.len() as int;
    lemma_decimal_digits(entry.1 as nat);
    lemma_amount_round_trip(entry.1);
    // The digits are neither alphabetic nor commas, and the denomination
    // begins right after them.
    assert(forall|j: int| 0 <= j < k ==> is_digit(#[trigger] token[j]));
    lemma_denom_start(token, k);
    assert(token.take(k) =~= digits);
    assert(token.skip(k) =~= entry.0);
}

/// A collection written as a compact string and read back is the same
/// collection, where it holds at least one coin and every denomination can
/// stand in a compact string.
pub proof fn law_compact_round_trip(entries: Seq<Entry>, r: Result<Seq<Entry>, CoinsErrorView>)
    requires
        is_canonical(entries),
        entries.len() >= 1,
        forall|i: int| 0 <= i < entries.len() ==> is_plain_denom(#[trigger] entries[i].0),
        parse_outcome(render(entries), r),
    ensures
        r == Ok::<Seq<Entry>, CoinsErrorView>(entries),
{
    let tokens = entries.map_values(|e: Entry| render_entry(e));
    assert forall|i: int| 0 <= i < tokens.len() implies parse_coin_spec(#[trigger] tokens[i])
        == Ok::<Entry, CoinsErrorView>(entries[i]) && (forall|j: int|
        0 <= j < tokens[i].len() ==> tokens[i][j] != ',') by {
        lemma_parse_rendered_entry(entries[i]);
    }
    lemma_split_join(tokens);
    lemma_parse_tokens_ok(tokens, entries);
    lemma_canonical_distinct(entries);
    lemma_first_repeated_none(entries);
    lemma_canonical_unique(r->Ok_0, entries);
}

/// The order of the tokens of a compact string does not matter: where one
/// string is read as a collection, a string with the same tokens in another
/// order is read as an equal collection.
pub proof fn law_compact_order_independent(
    s1: Seq<char>,
    s2: Seq<char>,
    r1: Result<Seq<Entry>, CoinsErrorView>,
    r2: Result<Seq<Entry>, CoinsErrorView>,
)
    requires
        split_tokens(s1).to_multiset() == split_tokens(s2).to_multiset(),
        parse_outcome(s1, r1),
        parse_outcome(s2, r2),
        r1 is Ok,
    ensures
        r2 == r1,
{
    let t1 = split_tokens(s1);
    let t2 = split_tokens(s2);
    let f = |t: Seq<char>| parse_coin_spec(t)->Ok_0;
    t1.to_multiset_ensures();
    t2.to_multiset_ensures();
    lemma_parse_tokens_each(t1);
    let pairs1 = parse_tokens(t1)->Ok_0;
    assert(pairs1 =~= t1.map_values(f));
    let pairs2 = t2.map_values(f);
    assert forall|i: int| 0 <= i < t2.len() implies parse_coin_spec(#[trigger] t2[i]) == Ok::<
        Entry,
        CoinsErrorView,
    >(pairs2[i]) by {
        lemma_rearranged_contains(t2, t1, t2[i]);
    }
    lemma_parse_tokens_ok(t2, pairs2);
    lemma_map_rearranged(t1, t2, f);
    lemma_rearranged_pairs(pairs1, pairs2);
    lemma_first_repeated_none(pairs1);
    lemma_first_repeated_none(pairs2);
    lemma_canonical_unique(r1->Ok_0, r2->Ok_0);
}

/// The first pair whose denomination an earlier pair had is the first to
/// repeat.
pub proof fn lemma_first_repeated_at(pairs: Seq<Entry>, i: int, j: int)
    requires
        0 <= i < j < pairs.len(),
        pairs[i].0 == pairs[j].0,
        distinct_denoms(pairs.take(j)),
    ensures
        first_repeated(pairs) == Some(pairs[j].0),
{
    let head = pairs.take(j);
    let upto = pairs.take(j + 1);
    lemma_first_repeated_none(head);
    assert(head[i].0 == pairs[j].0);
    assert(upto.drop_last() =~= head);
    assert(pairs =~= upto + pairs.skip(j + 1));
    lemma_first_repeated_stays(upto, pairs.skip(j + 1));
}

/// A compact string whose tokens all stand for a coin is refused where a
/// token stands for a coin of a denomination that an earlier token had,
/// whatever the amounts of the two, with the error that names the first
/// denomination to repeat so.
pub proof fn law_compact_duplicate_rejected(
    s: Seq<char>,
    i: int,
    j: int,
    r: Result<Seq<Entry>, CoinsErrorView>,
)
    requires
        parse_tokens(split_tokens(s)) is Ok,
        0 <= i < j < parse_tokens(split_tokens(s))->Ok_0.len(),
        parse_tokens(split_tokens(s))->Ok_0[i].0 == parse_tokens(split_tokens(s))->Ok_0[j].0,
        distinct_denoms(parse_tokens(split_tokens(s))->Ok_0.take(j)),
        parse_outcome(s, r),
    ensures
        r == Err::<Seq<Entry>, CoinsErrorView>(
            CoinsErrorView::DuplicateDenomination {
                denomination: Some(parse_tokens(split_tokens(s))->Ok_0[j].0),
            },
        ),
{
    lemma_first_repeated_at(parse_tokens(split_tokens(s))->Ok_0, i, j);
}

/// The entries of a document are all accepted exactly if no denomination
/// occurs twice among them and the text of every amount is an amount; they
/// then stand for their denominations with the amounts that the texts denote.
pub proof fn lemma_decode_ok(fields: Seq<Field>)
    ensures
        decode_spec(fields) is Ok <==> (distinct_denoms(field_values(fields)) && forall|i: int|
            0 <= i < fields.len() ==> is_amount_text(#[trigger] fields[i].1)),
        decode_spec(fields) is Ok ==> decode_spec(fields)->Ok_0 == field_values(fields),
    decreases fields.len(),
{
    if fields.len() > 0 {
        let head = fields.drop_last();
        let last = fields.last();
        let value = (last.0, amount_value(last.1) as u128);
        lemma_decode_ok(head);
        lemma_distinct_push(field_values(head), value);
        assert(field_values(fields) =~= field_values(head).push(value));
        assert(forall|i: int| 0 <= i < head.len() ==> head[i] == fields[i]);
    }
}

/// A collection written as a structured document and read back is the same
/// collection.
pub proof fn law_document_round_trip(entries: Seq<Entry>, r: Result<Seq<Entry>, CoinsErrorView>)
    requires
        is_canonical(entries),
        decode_outcome(encode_spec(entries), r),
    ensures
        r == Ok::<Seq<Entry>, CoinsErrorView>(entries),
{
    let fields = encode_spec(entries);
    lemma_canonical_distinct(entries);
    assert forall|i: int| 0 <= i < fields.len() implies is_amount_text(#[trigger] fields[i].1)
        && amount_value(fields[i].1) == entries[i].1 by {
        lemma_amount_round_trip(entries[i].1);
    }
    assert(field_values(fields) =~= entries);
    lemma_decode_ok(fields);
    lemma_canonical_unique(r->Ok_0, entries);
}

/// The order of the entries of a document does not matter: where one
/// document is read as a collection, a document with the same entries in
/// another order is read as an equal collection.
pub proof fn law_document_order_independent(
    f1: Seq<Field>,
    f2: Seq<Field>,
    r1: Result<Seq<Entry>, CoinsErrorView>,
    r2: Result<Seq<Entry>, CoinsErrorView>,
)
    requires
        f1.to_multiset() == f2.to_multiset(),
        decode_outcome(f1, r1),
        decode_outcome(f2, r2),
        r1 is Ok,
    ensures
        r2 == r1,
{
    f1.to_multiset_ensures();
    f2.to_multiset_ensures();
    lemma_decode_ok(f1);
    lemma_decode_ok(f2);
    lemma_map_rearranged(f1, f2, |f: Field| (f.0, amount_value(f.1) as u128));
    lemma_rearranged_pairs(field_values(f1), field_values(f2));
    assert forall|i: int| 0 <= i < f2.len() implies is_amount_text(#[trigger] f2[i].1) by {
        lemma_rearranged_contains(f2, f1, f2[i]);
    }
    lemma_canonical_unique(r1->Ok_0, r2->Ok_0);
}

/// The first entry of a document whose denomination an earlier entry had is
/// refused, whatever the amounts of the two, with the error that names the
/// denomination, where the entries before it are accepted.
pub proof fn law_document_duplicate_rejected(fields: Seq<Field>, i: int, j: int)
    requires
        0 <= i < j < fields.len(),
        fields[i].0 == fields[j].0,
        decode_spec(fields.take(j)) is Ok,
    ensures
        decode_spec(fields) == Err::<Seq<Entry>, CoinsErrorView>(
            CoinsErrorView::DuplicateDenomination { denomination: Some(fields[j].0) },
        ),
{
    let head = fields.take(j);
    let upto = fields.take(j + 1);
    lemma_decode_ok(head);
    let seen = decode_spec(head)->Ok_0;
    assert(seen[i].0 == fields[j].0);
    assert(upto.drop_last() =~= head);
    assert(fields =~= upto + fields.skip(j + 1));
    lemma_decode_error(upto, fields.skip(j + 1));
}

/// An entry of a document whose denomination is new and whose amount is no
/// amount is refused with the error that names the text of the amount, where
/// the entries before it are accepted.
pub proof fn law_document_invalid_amount_rejected(fields: Seq<Field>, j: int)
    requires
        0 <= j < fields.len(),
        decode_spec(fields.take(j)) is Ok,
        forall|i: int| 0 <= i < j ==> (#[trigger] fields[i]).0 != fields[j].0,
        !is_amount_text(fields[j].1),
    ensures
        decode_spec(fields) == Err::<Seq<Entry>, CoinsErrorView>(
            CoinsErrorView::InvalidAmount { text: fields[j].1 },
        ),
{
    let head = fields.take(j);
    let upto = fields.take(j + 1);
    lemma_decode_ok(head);
    let seen = decode_spec(head)->Ok_0;
    assert(!has_denom(seen, fields[j].0));
    assert(upto.drop_last() =~= head);
    assert(fields =~= upto + fields.skip(j + 1));
    lemma_decode_error(upto, fields.skip(j + 1));
}

/// A token whose text before the denomination is no amount is refused with
/// the error that names that text.
pub proof fn law_token_invalid_amount_rejected(token: Seq<char>, i: int)
    requires
        is_denom_start(token, i),
        i < token.len(),
        !is_amount_text(token.take(i)),
    ensures
        parse_coin_spec(token) == Err::<Entry, CoinsErrorView>(
            CoinsErrorView::InvalidAmount { text: token.take(i) },
        ),
{
    lemma_denom_start(token, i);
}

} // verus!
