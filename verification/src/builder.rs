//! A collection of coins under construction: the one place where entries are
//! put in order and where a repeated denomination is noticed.
use crate::amount::parse_amount;
use crate::canonical::{
    has_denom, is_canonical, lemma_absent_denom, lemma_canonical_distinct, Entry,
};
use crate::coin::Coin;
use crate::coins::Coins;
use crate::document::visit_entry_spec;
use crate::error::CoinsError;
use crate::order::{
    denom_lt, denom_precedes, lemma_denom_lt_irreflexive, lemma_denom_lt_total,
    lemma_denom_lt_transitive,
};
use vstd::prelude::*;

verus! {

/// The entries gathered so far, kept in canonical order.
pub struct CoinsBuilder {
    entries: Vec<Coin>,
}

impl View for CoinsBuilder {
    type V = Seq<Entry>;

    /// The entries gathered, in ascending order of their denominations.
    closed spec fn view(&self) -> Seq<Entry> {
        self.entries.deep_view()
    }
}

/// The place of `denom` among canonical entries: every entry before it comes
/// before `denom`, and no entry from it on does.
fn find_slot(entries: &Vec<Coin>, denom: &str) -> (slot: usize)
    requires
        is_canonical(entries.deep_view()),
    ensures
        slot <= entries.len(),
        forall|i: int| 0 <= i < slot ==> denom_lt(#[trigger] entries[i].denom@, denom@),
        forall|i: int| slot <= i < entries.len() ==> !denom_lt(#[trigger] entries[i].denom@, denom@),
{
    let ghost all = entries.deep_view();
    let mut lo: usize = 0;
    let mut hi: usize = entries.len();
    while lo < hi
        invariant
            lo <= hi <= entries.len(),
            all == entries.deep_view(),
            is_canonical(all),
            forall|i: int| 0 <= i < lo ==> denom_lt(#[trigger] entries[i].denom@, denom@),
            forall|i: int| hi <= i < entries.len() ==> !denom_lt(#[trigger] entries[i].denom@, denom@),
        decreases hi - lo,
    {
        let mid = lo + (hi - lo) / 2;
        if denom_precedes(entries[mid].denom.as_str(), denom) {
            assert forall|i: int| 0 <= i < mid + 1 implies denom_lt(
                #[trigger] entries[i].denom@,
                denom@,
            ) by {
                if i < mid {
                    assert(denom_lt(all[i].0, all[mid as int].0));
                    lemma_denom_lt_transitive(entries[i].denom@, entries[mid as int].denom@, denom@);
                }
            }
            lo = mid + 1;
        } else {
            assert forall|i: int| mid <= i < entries.len() implies !denom_lt(
                #[trigger] entries[i].denom@,
                denom@,
            ) by {
                if i > mid && denom_lt(entries[i].denom@, denom@) {
                    assert(denom_lt(all[mid as int].0, all[i].0));
                    lemma_denom_lt_transitive(entries[mid as int].denom@, entries[i].denom@, denom@);
                }
            }
            hi = mid;
        }
    }
    lo
}

/// Where `slot` is the place of `denom` among canonical entries, `denom` is
/// among them exactly if the entry at `slot` has it.
proof fn lemma_slot_decides(entries: Seq<Entry>, denom: Seq<char>, slot: int)
    requires
        is_canonical(entries),
        0 <= slot <= entries.len(),
        forall|i: int| 0 <= i < slot ==> denom_lt(#[trigger] entries[i].0, denom),
        forall|i: int| slot <= i < entries.len() ==> !denom_lt(#[trigger] entries[i].0, denom),
    ensures
        has_denom(entries, denom) <==> (slot < entries.len() && entries[slot].0 == denom),
        !has_denom(entries, denom) ==> forall|i: int|
            slot <= i < entries.len() ==> denom_lt(denom, #[trigger] entries[i].0),
{
    if slot < entries.len() && entries[slot].0 == denom {
        assert(has_denom(entries, denom));
    } else {
        assert forall|i: int| 0 <= i < entries.len() implies (#[trigger] entries[i]).0
            != denom by {
            lemma_denom_lt_irreflexive(denom);
            if i > slot {
                lemma_denom_lt_total(entries[slot].0, denom);
                assert(denom_lt(entries[slot].0, entries[i].0));
                if entries[i].0 == denom {
                    lemma_denom_lt_transitive(denom, entries[slot].0, denom);
                }
            }
        }
        assert forall|i: int| slot <= i < entries.len() implies denom_lt(
            denom,
            #[trigger] entries[i].0,
        ) by {
            lemma_denom_lt_total(entries[i].0, denom);
        }
    }
}

/// Puts an entry into canonical entries: a new denomination is added in its
/// place, the amount of one that is there already is replaced. Returns whether
/// the denomination was new.
fn upsert(entries: &mut Vec<Coin>, denom: String, amount: u128) -> (fresh: bool)
    requires
        is_canonical(old(entries).deep_view()),
    ensures
        fresh == !has_denom(old(entries).deep_view(), denom@),
        is_canonical(final(entries).deep_view()),
        forall|e: Entry|
            final(entries).deep_view().contains(e) <==> (e == (denom@, amount) || (old(
                entries,
            ).deep_view().contains(e) && e.0 != denom@)),
        final(entries).deep_view().len() == old(entries).deep_view().len() + (if fresh {
            1int
        } else {
            0int
        }),
{
    let ghost before = entries.deep_view();
    let ghost added: Entry = (denom@, amount);
    let slot = find_slot(entries, denom.as_str());
    proof {
        lemma_slot_decides(before, denom@, slot as int);
    }
    if slot < entries.len() && entries[slot].denom == denom {
        entries.set(slot, Coin { denom, amount });
        proof {
            let after = entries.deep_view();
            assert(after =~= before.update(slot as int, added));
            assert forall|i: int, j: int| 0 <= i < j < after.len() implies denom_lt(
                #[trigger] after[i].0,
                #[trigger] after[j].0,
            ) by {
                assert(denom_lt(before[i].0, before[j].0));
            }
            assert forall|e: Entry| after.contains(e) <==> (e == added || (before.contains(e)
                && e.0 != added.0)) by {
                if after.contains(e) {
                    let k = choose|k: int| 0 <= k < after.len() && after[k] == e;
                    if k != slot {
                        assert(before[k] == e);
                        lemma_canonical_distinct(before);
                        assert(before[k].0 != before[slot as int].0);
                    }
                }
                if e == added {
                    assert(after[slot as int] == e);
                }
                if before.contains(e) && e.0 != added.0 {
                    let k = choose|k: int| 0 <= k < before.len() && before[k] == e;
                    assert(after[k] == e);
                }
            }
        }
        false
    } else {
        entries.insert(slot, Coin { denom, amount });
        proof {
            let after = entries.deep_view();
            assert(after =~= before.insert(slot as int, added));
            assert forall|i: int, j: int| 0 <= i < j < after.len() implies denom_lt(
                #[trigger] after[i].0,
                #[trigger] after[j].0,
            ) by {
                if j < slot {
                    assert(denom_lt(before[i].0, before[j].0));
                } else if j == slot {
                    assert(denom_lt(before[i].0, added.0));
                } else if i < slot {
                    assert(denom_lt(before[i].0, before[j - 1].0));
                } else if i == slot {
                    assert(denom_lt(added.0, before[j - 1].0));
                } else {
                    assert(denom_lt(before[i - 1].0, before[j - 1].0));
                }
            }
            assert forall|e: Entry| after.contains(e) <==> (e == added || (before.contains(e)
                && e.0 != added.0)) by {
                if after.contains(e) {
                    let k = choose|k: int| 0 <= k < after.len() && after[k] == e;
                    if k < slot {
                        assert(before[k] == e);
                    } else if k > slot {
                        assert(before[k - 1] == e);
                    }
                }
                if e == added {
                    assert(after[slot as int] == e);
                }
                if before.contains(e) && e.0 != added.0 {
                    let k = choose|k: int| 0 <= k < before.len() && before[k] == e;
                    if k < slot {
                        assert(after[k] == e);
                    } else {
                        assert(after[k + 1] == e);
                    }
                }
            }
        }
        true
    }
}

impl CoinsBuilder {
    #[verifier::type_invariant]
    spec fn canonical(self) -> bool {
        is_canonical(self.entries.deep_view())
    }

    /// A builder that holds no entry yet.
    pub fn new() -> (builder: CoinsBuilder)
        ensures
            builder@ == Seq::<Entry>::empty(),
    {
        CoinsBuilder { entries: Vec::new() }
    }

    /// The number of entries gathered so far.
    pub fn len(&self) -> (n: usize)
        ensures
            n == self@.len(),
            is_canonical(self@),
    {
        proof {
            use_type_invariant(self);
        }
        self.entries.len()
    }

    /// Tells whether an entry of the denomination `denom` was gathered.
    pub fn contains(&self, denom: &str) -> (found: bool)
        ensures
            found == has_denom(self@, denom@),
    {
        proof {
            use_type_invariant(self);
        }
        let slot = find_slot(&self.entries, denom);
        proof {
            lemma_slot_decides(self.entries.deep_view(), denom@, slot as int);
            if slot < self.entries.len() {
                lemma_denom_lt_total(self.entries[slot as int].denom@, denom@);
                lemma_denom_lt_irreflexive(denom@);
            }
        }
        slot < self.entries.len() && !denom_precedes(denom, self.entries[slot].denom.as_str())
    }

    /// Puts the amount of a denomination into the collection, as a map does:
    /// an entry of a new denomination is added, and the amount of a
    /// denomination that is already there is replaced. Returns whether the
    /// denomination was new.
    pub fn insert(&mut self, denom: String, amount: u128) -> (fresh: bool)
        ensures
            fresh == !has_denom(old(self)@, denom@),
            is_canonical(final(self)@),
            forall|e: Entry|
                final(self)@.contains(e) <==> (e == (denom@, amount) || (old(self)@.contains(e)
                    && e.0 != denom@)),
            final(self)@.len() == old(self)@.len() + (if fresh {
                1int
            } else {
                0int
            }),
    {
        proof {
            use_type_invariant(&*self);
        }
        // The entries are taken out while they change; the empty vector that
        // stands in for them is canonical too.
        let mut entries: Vec<Coin> = Vec::new();
        std::mem::swap(&mut self.entries, &mut entries);
        let fresh = upsert(&mut entries, denom, amount);
        std::mem::swap(&mut self.entries, &mut entries);
        fresh
    }

    /// Takes in one entry of a structured document, in the order in which the
    /// document declares its entries. A denomination that an earlier entry
    /// had is refused, whatever its amount; then the text of the amount is
    /// read. On an error nothing is added.
    pub fn visit_entry(&mut self, denom: String, amount_text: &str) -> (r: Result<(), CoinsError>)
        ensures
            is_canonical(final(self)@),
            match visit_entry_spec(old(self)@, denom@, amount_text@) {
                Ok(entry) => {
                    &&& r is Ok
                    &&& final(self)@.len() == old(self)@.len() + 1
                    &&& forall|e: Entry|
                        final(self)@.contains(e) <==> (e == entry || old(self)@.contains(e))
                },
                Err(error) => {
                    &&& r matches Err(e)
                    &&& e@ == error
                    &&& final(self)@ == old(self)@
                },
            },
    {
        proof {
            use_type_invariant(&*self);
        }
        if self.contains(denom.as_str()) {
            return Err(CoinsError::DuplicateDenomination { denomination: Some(denom) });
        }
        match parse_amount(amount_text) {
            Err(e) => Err(e),
            Ok(amount) => {
                let ghost before = self@;
                proof {
                    lemma_absent_denom(before, denom@);
                }
                self.insert(denom, amount);
                Ok(())
            },
        }
    }

    /// The collection of the entries gathered.
    pub fn finish(self) -> (coins: Coins)
        ensures
            coins@ == self@,
            is_canonical(coins@),
    {
        proof {
            use_type_invariant(&self);
        }
        Coins::from_canonical(self.entries)
    }
}

} // verus!
