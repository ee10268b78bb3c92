//! Sequences of entries, and the canonical ones among them: those that list
//! their denominations in strictly ascending order.
use crate::error::CoinsErrorView;
use crate::order::{denom_lt, lemma_denom_lt_asymmetric, lemma_denom_lt_transitive};
use vstd::prelude::*;

verus! {

/// A denomination with its amount.
pub type Entry = (Seq<char>, u128);

/// Whether `entries` lists its denominations in strictly ascending order.
pub open spec fn is_canonical(entries: Seq<Entry>) -> bool {
    forall|i: int, j: int|
        0 <= i < j < entries.len() ==> denom_lt(#[trigger] entries[i].0, #[trigger] entries[j].0)
}

/// Whether no denomination occurs twice in `pairs`.
pub open spec fn distinct_denoms(pairs: Seq<Entry>) -> bool {
    forall|i: int, j: int|
        0 <= i < j < pairs.len() ==> #[trigger] pairs[i].0 != #[trigger] pairs[j].0
}

/// Whether some entry of `entries` has the denomination `denom`.
pub open spec fn has_denom(entries: Seq<Entry>, denom: Seq<char>) -> bool {
    exists|i: int| 0 <= i < entries.len() && (#[trigger] entries[i]).0 == denom
}

/// Whether `a` and `b` hold the same entries, in whatever order.
pub open spec fn same_entries(a: Seq<Entry>, b: Seq<Entry>) -> bool {
    forall|e: Entry| a.contains(e) <==> b.contains(e)
}

/// Whether `entries` is the canonical sequence of exactly the given pairs: it
/// is in canonical order, as long as the list of the pairs, and holds the same
/// entries.
pub open spec fn holds_exactly(entries: Seq<Entry>, pairs: Seq<Entry>) -> bool {
    &&& is_canonical(entries)
    &&& entries.len() == pairs.len()
    &&& same_entries(entries, pairs)
}

/// The denomination of the first pair whose denomination an earlier pair had;
/// none where no denomination occurs twice.
pub open spec fn first_repeated(pairs: Seq<Entry>) -> Option<Seq<char>>
    decreases pairs.len(),
{
    if pairs.len() == 0 {
        None
    } else {
        match first_repeated(pairs.drop_last()) {
            Some(denom) => Some(denom),
            None => if has_denom(pairs.drop_last(), pairs.last().0) {
                Some(pairs.last().0)
            } else {
                None
            },
        }
    }
}

/// Whether `r` is what a list of pairs is turned into: where no denomination
/// occurs twice, the canonical sequence of exactly those pairs; otherwise the
/// error that denominations repeat, which names none of them.
pub open spec fn list_outcome(pairs: Seq<Entry>, r: Result<Seq<Entry>, CoinsErrorView>) -> bool {
    if distinct_denoms(pairs) {
        r matches Ok(entries) && holds_exactly(entries, pairs)
    } else {
        r == Err::<Seq<Entry>, CoinsErrorView>(
            CoinsErrorView::DuplicateDenomination { denomination: None },
        )
    }
}

/// Whether `r` is what pairs are turned into that are taken in one by one:
/// where no denomination occurs twice, the canonical sequence of exactly those
/// pairs; otherwise the error that names the first denomination that repeats.
pub open spec fn pinpointed_outcome(
    pairs: Seq<Entry>,
    r: Result<Seq<Entry>, CoinsErrorView>,
) -> bool {
    match first_repeated(pairs) {
        Some(denom) => r == Err::<Seq<Entry>, CoinsErrorView>(
            CoinsErrorView::DuplicateDenomination { denomination: Some(denom) },
        ),
        None => r matches Ok(entries) && holds_exactly(entries, pairs),
    }
}

/// Sequences that hold the same entries hold the same denominations.
pub proof fn lemma_same_entries_has_denom(a: Seq<Entry>, b: Seq<Entry>, denom: Seq<char>)
    requires
        same_entries(a, b),
    ensures
        has_denom(a, denom) <==> has_denom(b, denom),
{
    if has_denom(a, denom) {
        let i = choose|i: int| 0 <= i < a.len() && (#[trigger] a[i]).0 == denom;
        assert(a.contains(a[i]));
        let j = choose|j: int| 0 <= j < b.len() && b[j] == a[i];
        assert(b[j].0 == denom);
    }
    if has_denom(b, denom) {
        let i = choose|i: int| 0 <= i < b.len() && (#[trigger] b[i]).0 == denom;
        assert(b.contains(b[i]));
        let j = choose|j: int| 0 <= j < a.len() && a[j] == b[i];
        assert(a[j].0 == denom);
    }
}

/// No entry has a denomination that is not among the entries.
pub proof fn lemma_absent_denom(entries: Seq<Entry>, denom: Seq<char>)
    requires
        !has_denom(entries, denom),
    ensures
        forall|e: Entry| entries.contains(e) ==> e.0 != denom,
{
    assert forall|e: Entry| entries.contains(e) implies e.0 != denom by {
        let k = choose|k: int| 0 <= k < entries.len() && entries[k] == e;
        assert(entries[k].0 != denom);
    }
}

/// Where `after` holds what `before` holds and one entry more, and `before`
/// holds what `seen` holds, `after` holds what `seen` holds with that entry at
/// its end.
pub proof fn lemma_same_entries_push(
    before: Seq<Entry>,
    after: Seq<Entry>,
    seen: Seq<Entry>,
    entry: Entry,
)
    requires
        same_entries(before, seen),
        forall|e: Entry| after.contains(e) <==> (e == entry || before.contains(e)),
    ensures
        same_entries(after, seen.push(entry)),
{
    let next = seen.push(entry);
    assert forall|e: Entry| after.contains(e) <==> next.contains(e) by {
        if seen.contains(e) {
            let m = choose|m: int| 0 <= m < seen.len() && seen[m] == e;
            assert(next[m] == e);
        }
        if next.contains(e) {
            let m = choose|m: int| 0 <= m < next.len() && next[m] == e;
            if m < seen.len() {
                assert(seen[m] == e);
            }
        }
        if e == entry {
            assert(next[seen.len() as int] == e);
        }
    }
}

/// One more pair keeps the denominations distinct exactly if its own is new.
pub proof fn lemma_distinct_push(seen: Seq<Entry>, entry: Entry)
    ensures
        distinct_denoms(seen.push(entry)) <==> (distinct_denoms(seen) && !has_denom(seen, entry.0)),
{
    let next = seen.push(entry);
    let n = seen.len() as int;
    if distinct_denoms(next) {
        assert forall|i: int, j: int| 0 <= i < j < seen.len() implies #[trigger] seen[i].0
            != #[trigger] seen[j].0 by {
            assert(next[i].0 != next[j].0);
        }
        if has_denom(seen, entry.0) {
            let k = choose|k: int| 0 <= k < seen.len() && (#[trigger] seen[k]).0 == entry.0;
            assert(next[k].0 == next[n].0);
        }
    }
    if distinct_denoms(seen) && !has_denom(seen, entry.0) {
        assert forall|i: int, j: int| 0 <= i < j < next.len() implies #[trigger] next[i].0
            != #[trigger] next[j].0 by {
            assert(next[i] == seen[i]);
            if j < n {
                assert(next[j] == seen[j]);
            }
        }
    }
}

/// No denomination is the first to repeat exactly if none occurs twice.
pub proof fn lemma_first_repeated_none(pairs: Seq<Entry>)
    ensures
        first_repeated(pairs) is None <==> distinct_denoms(pairs),
    decreases pairs.len(),
{
    if pairs.len() > 0 {
        lemma_first_repeated_none(pairs.drop_last());
        lemma_distinct_push(pairs.drop_last(), pairs.last());
        assert(pairs =~= pairs.drop_last().push(pairs.last()));
    }
}

/// Once a denomination has repeated, the pairs after it do not matter.
pub proof fn lemma_first_repeated_stays(pairs: Seq<Entry>, more: Seq<Entry>)
    requires
        first_repeated(pairs) is Some,
    ensures
        first_repeated(pairs + more) == first_repeated(pairs),
    decreases more.len(),
{
    if more.len() == 0 {
        assert(pairs + more =~= pairs);
    } else {
        lemma_first_repeated_stays(pairs, more.drop_last());
        assert((pairs + more).drop_last() =~= pairs + more.drop_last());
    }
}

/// A canonical sequence holds no denomination twice.
pub proof fn lemma_canonical_distinct(entries: Seq<Entry>)
    requires
        is_canonical(entries),
    ensures
        distinct_denoms(entries),
{
    assert forall|i: int, j: int| 0 <= i < j < entries.len() implies #[trigger] entries[i].0
        != #[trigger] entries[j].0 by {
        lemma_denom_lt_asymmetric(entries[i].0, entries[j].0);
    }
}

/// Two canonical sequences that hold the same entries are the same sequence.
pub proof fn lemma_canonical_unique(a: Seq<Entry>, b: Seq<Entry>)
    requires
        is_canonical(a),
        is_canonical(b),
        same_entries(a, b),
    ensures
        a == b,
    decreases a.len(),
{
    if a.len() == 0 || b.len() == 0 {
        // Neither holds an entry, for the other would hold it too.
        if a.len() > 0 {
            assert(a.contains(a[0]));
        }
        if b.len() > 0 {
            assert(b.contains(b[0]));
        }
        assert(a =~= b);
    } else {
        // The first entry of each is the least of all, so the two agree on it.
        assert(a.contains(a[0]) && b.contains(b[0]));
        let j = choose|j: int| 0 <= j < b.len() && b[j] == a[0];
        let i = choose|i: int| 0 <= i < a.len() && a[i] == b[0];
        if j > 0 {
            // b[0] comes before b[j], which is a[0], which does not come after a[i].
            if i > 0 {
                lemma_denom_lt_transitive(b[0].0, a[0].0, a[i].0);
            }
            lemma_denom_lt_asymmetric(b[0].0, b[j].0);
        }
        assert(a[0] == b[0]);
        let ra = a.skip(1);
        let rb = b.skip(1);
        assert forall|e: Entry| ra.contains(e) <==> rb.contains(e) by {
            if ra.contains(e) {
                // It stands in `a` after the first, so is not the first of `b`.
                let k = choose|k: int| 0 <= k < ra.len() && ra[k] == e;
                assert(a.contains(e));
                lemma_denom_lt_asymmetric(a[0].0, a[k + 1].0);
                let m = choose|m: int| 0 <= m < b.len() && b[m] == e;
                assert(rb[m - 1] == e);
            }
            if rb.contains(e) {
                let k = choose|k: int| 0 <= k < rb.len() && rb[k] == e;
                assert(b.contains(e));
                lemma_denom_lt_asymmetric(b[0].0, b[k + 1].0);
                let m = choose|m: int| 0 <= m < a.len() && a[m] == e;
                assert(ra[m - 1] == e);
            }
        }
        lemma_canonical_unique(ra, rb);
        assert(a =~= seq![a[0]] + ra);
        assert(b =~= seq![b[0]] + rb);
    }
}

} // verus!
