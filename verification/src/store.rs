//! The store itself: an association list from keys to their histories, kept
//! free of repeated keys and of empty histories.

use crate::model::{
    has_ordinal, is_first_at, lemma_value_at_first, lookup_at, lookup_first, lookup_last,
    well_formed, with_added, with_added_many, with_appended, with_appended_all, with_set,
    with_set_if_absent, with_set_if_absent_many, with_set_many, without_prefix, Contents, History,
};
use crate::scalar::{big_int_copy, big_int_sum, big_int_value, optional_value, values_of};
use crate::text::starts_with;
use substreams::scalar::BigInt;
use vstd::prelude::*;

verus! {

/// One key with its versions, oldest first.
#[derive(Debug)]
struct Slot {
    key: String,
    versions: Vec<(u64, BigInt)>,
}

/// An in-memory store that keeps, for every key written, the history of its
/// values by ordinal.
#[derive(Debug)]
pub struct MockStore {
    slots: Vec<Slot>,
}

/// The history that a list of versions stands for.
spec fn history_of(versions: Seq<(u64, BigInt)>) -> History {
    versions.map_values(|e: (u64, BigInt)| (e.0, big_int_value(e.1)))
}

/// Slot `i` is the slot of `key`.
spec fn holds_key(slots: Seq<Slot>, key: Seq<char>, i: int) -> bool {
    0 <= i < slots.len() && slots[i].key@ == key
}

/// No key has two slots, and no slot is without a version.
spec fn slots_valid(slots: Seq<Slot>) -> bool {
    &&& forall|i: int, j: int|
        0 <= i < j < slots.len() ==> (#[trigger] slots[i]).key@ != (#[trigger] slots[j]).key@
    &&& forall|i: int| 0 <= i < slots.len() ==> (#[trigger] slots[i]).versions@.len() > 0
}

/// The contents that a list of slots stands for.
spec fn contents_of(slots: Seq<Slot>) -> Contents {
    Map::new(
        |k: Seq<char>| exists|i: int| holds_key(slots, k, i),
        |k: Seq<char>| history_of(slots[choose|i: int| holds_key(slots, k, i)].versions@),
    )
}

/// The slot of a key is where the contents have the key's history from.
proof fn lemma_slot_is_history(slots: Seq<Slot>, i: int)
    requires
        slots_valid(slots),
        0 <= i < slots.len(),
    ensures
        contents_of(slots).contains_key(slots[i].key@),
        contents_of(slots)[slots[i].key@] == history_of(slots[i].versions@),
{
    assert(holds_key(slots, slots[i].key@, i));
}

/// A key without a slot is absent from the contents.
proof fn lemma_no_slot_is_absent(slots: Seq<Slot>, key: Seq<char>)
    requires
        forall|i: int| !holds_key(slots, key, i),
    ensures
        !contents_of(slots).contains_key(key),
{
}

/// A new slot for an absent key inserts the key with its history.
proof fn lemma_push_slot(slots: Seq<Slot>, slot: Slot)
    requires
        slots_valid(slots),
        slot.versions@.len() > 0,
        forall|i: int| !holds_key(slots, slot.key@, i),
    ensures
        slots_valid(slots.push(slot)),
        contents_of(slots.push(slot)) == contents_of(slots).insert(
            slot.key@,
            history_of(slot.versions@),
        ),
{
    let after = slots.push(slot);
    assert forall|i: int, j: int| 0 <= i < j < after.len() implies (#[trigger] after[i]).key@ != (
    #[trigger] after[j]).key@ by {
        if j == slots.len() {
            assert(!holds_key(slots, slot.key@, i));
        } else {
            assert(slots[i].key@ != slots[j].key@);
        }
    }
    assert(slots_valid(after));
    let want = contents_of(slots).insert(slot.key@, history_of(slot.versions@));
    assert forall|k: Seq<char>| contents_of(after).contains_key(k) <==> want.contains_key(k) by {
        if contents_of(after).contains_key(k) {
            let i = choose|i: int| holds_key(after, k, i);
            if i < slots.len() {
                assert(holds_key(slots, k, i));
            }
        }
        if want.contains_key(k) {
            if k == slot.key@ {
                assert(holds_key(after, k, slots.len() as int));
            } else {
                let i = choose|i: int| holds_key(slots, k, i);
                assert(holds_key(after, k, i));
            }
        }
    }
    assert forall|k: Seq<char>| contents_of(after).contains_key(k) implies contents_of(after)[k]
        == want[k] by {
        let i = choose|i: int| holds_key(after, k, i);
        lemma_slot_is_history(after, i);
        if i < slots.len() {
            lemma_slot_is_history(slots, i);
            assert(!holds_key(slots, slot.key@, i));
        }
    }
    assert(contents_of(after) =~= want);
}

/// New versions in the slot of a key insert the key with its new history.
proof fn lemma_update_slot(slots: Seq<Slot>, i: int, slot: Slot)
    requires
        slots_valid(slots),
        0 <= i < slots.len(),
        slot.key@ == slots[i].key@,
        slot.versions@.len() > 0,
    ensures
        slots_valid(slots.update(i, slot)),
        contents_of(slots.update(i, slot)) == contents_of(slots).insert(
            slot.key@,
            history_of(slot.versions@),
        ),
{
    let after = slots.update(i, slot);
    assert forall|a: int, b: int| 0 <= a < b < after.len() implies (#[trigger] after[a]).key@ != (
    #[trigger] after[b]).key@ by {
        assert(slots[a].key@ != slots[b].key@);
    }
    assert(slots_valid(after));
    let want = contents_of(slots).insert(slot.key@, history_of(slot.versions@));
    assert forall|k: Seq<char>| contents_of(after).contains_key(k) <==> want.contains_key(k) by {
        if contents_of(after).contains_key(k) {
            let j = choose|j: int| holds_key(after, k, j);
            if j != i {
                assert(holds_key(slots, k, j));
            }
        }
        if want.contains_key(k) {
            if k == slot.key@ {
                assert(holds_key(after, k, i));
            } else {
                let j = choose|j: int| holds_key(slots, k, j);
                assert(holds_key(after, k, j));
            }
        }
    }
    assert forall|k: Seq<char>| contents_of(after).contains_key(k) implies contents_of(after)[k]
        == want[k] by {
        let j = choose|j: int| holds_key(after, k, j);
        lemma_slot_is_history(after, j);
        if j != i {
            lemma_slot_is_history(slots, j);
        }
    }
    assert(contents_of(after) =~= want);
}

/// Valid slots stand for well-formed contents.
proof fn lemma_contents_well_formed(slots: Seq<Slot>)
    requires
        slots_valid(slots),
    ensures
        well_formed(contents_of(slots)),
{
    assert forall|k: Seq<char>| #[trigger] contents_of(slots).contains_key(k) implies contents_of(
        slots,
    )[k].len() > 0 by {
        let i = choose|i: int| holds_key(slots, k, i);
        lemma_slot_is_history(slots, i);
    }
}

/// Filling the place of a slot with the last slot removes that slot's key and
/// nothing else.
proof fn lemma_swap_remove_slot(slots: Seq<Slot>, i: int)
    requires
        slots_valid(slots),
        0 <= i < slots.len(),
    ensures
        slots_valid(slots.update(i, slots.last()).drop_last()),
        contents_of(slots.update(i, slots.last()).drop_last()) == contents_of(slots).remove(
            slots[i].key@,
        ),
{
    let after = slots.update(i, slots.last()).drop_last();
    let last = slots.len() - 1;
    assert forall|a: int, b: int| 0 <= a < b < after.len() implies (#[trigger] after[a]).key@ != (
    #[trigger] after[b]).key@ by {
        let from_a = if a == i { last } else { a };
        let from_b = if b == i { last } else { b };
        assert(after[a] == slots[from_a]);
        assert(after[b] == slots[from_b]);
        if from_a < from_b {
            assert(slots[from_a].key@ != slots[from_b].key@);
        } else {
            assert(slots[from_b].key@ != slots[from_a].key@);
        }
    }
    assert(slots_valid(after));
    let want = contents_of(slots).remove(slots[i].key@);
    assert forall|k: Seq<char>| contents_of(after).contains_key(k) <==> want.contains_key(k) by {
        if contents_of(after).contains_key(k) {
            let a = choose|a: int| holds_key(after, k, a);
            let from_a = if a == i { last } else { a };
            assert(holds_key(slots, k, from_a));
            if from_a < i {
                assert(slots[from_a].key@ != slots[i].key@);
            } else {
                assert(slots[i].key@ != slots[from_a].key@);
            }
        }
        if want.contains_key(k) {
            let b = choose|b: int| holds_key(slots, k, b);
            if b == last {
                assert(holds_key(after, k, i));
            } else {
                assert(holds_key(after, k, b));
            }
        }
    }
    assert forall|k: Seq<char>| contents_of(after).contains_key(k) implies contents_of(after)[k]
        == want[k] by {
        let a = choose|a: int| holds_key(after, k, a);
        let from_a = if a == i { last } else { a };
        lemma_slot_is_history(after, a);
        lemma_slot_is_history(slots, from_a);
    }
    assert(contents_of(after) =~= want);
}

/// Finds the oldest version written at `ord`.
fn first_version_at(versions: &Vec<(u64, BigInt)>, ord: u64) -> (r: Option<usize>)
    ensures
        match r {
            Some(i) => is_first_at(history_of(versions@), ord, i as int),
            None => !has_ordinal(history_of(versions@), ord),
        },
{
    let mut i: usize = 0;
    while i < versions.len()
        invariant
            i <= versions.len(),
            forall|j: int| 0 <= j < i ==> (#[trigger] history_of(versions@)[j]).0 != ord,
        decreases versions.len() - i,
    {
        if versions[i].0 == ord {
            return Some(i);
        }
        i += 1;
    }
    None
}

/// Finds the slot of a key.
fn position(slots: &Vec<Slot>, key: &str) -> (r: Option<usize>)
    ensures
        match r {
            Some(i) => holds_key(slots@, key@, i as int),
            None => forall|i: int| !holds_key(slots@, key@, i),
        },
{
    let wanted = key.to_owned();
    let mut i: usize = 0;
    while i < slots.len()
        invariant
            i <= slots.len(),
            wanted@ == key@,
            forall|j: int| 0 <= j < i ==> !holds_key(slots@, key@, j),
        decreases slots.len() - i,
    {
        if slots[i].key == wanted {
            return Some(i);
        }
        i += 1;
    }
    None
}

impl View for MockStore {
    type V = Contents;

    closed spec fn view(&self) -> Contents {
        contents_of(self.slots@)
    }
}

impl MockStore {
    #[verifier::type_invariant]
    spec fn valid(self) -> bool {
        slots_valid(self.slots@)
    }

    /// Creates a store without any key.
    pub fn new() -> (store: Self)
        ensures
            store@ == Map::<Seq<char>, History>::empty(),
            well_formed(store@),
    {
        MockStore { slots: Vec::new() }
    }

    /// Returns the value recorded under `key` at exactly `ord`: the oldest
    /// one where several versions carry that ordinal, and nothing where the
    /// key is absent or has no version there.
    pub fn get_at(&self, ord: u64, key: &str) -> (r: Option<BigInt>)
        ensures
            optional_value(r) == lookup_at(self@, ord, key@),
    {
        proof {
            use_type_invariant(self);
        }
        match position(&self.slots, key) {
            Some(i) => {
                proof {
                    lemma_slot_is_history(self.slots@, i as int);
                }
                let versions = &self.slots[i].versions;
                match first_version_at(versions, ord) {
                    Some(j) => {
                        proof {
                            lemma_value_at_first(history_of(versions@), ord, j as int);
                        }
                        Some(big_int_copy(&versions[j].1))
                    },
                    None => None,
                }
            },
            None => {
                proof {
                    lemma_no_slot_is_absent(self.slots@, key@);
                }
                None
            },
        }
    }

    /// Returns the latest value recorded under `key`, or nothing for a key
    /// without history.
    pub fn get_last(&self, key: &str) -> (r: Option<BigInt>)
        ensures
            optional_value(r) == lookup_last(self@, key@),
    {
        proof {
            use_type_invariant(self);
        }
        match position(&self.slots, key) {
            Some(i) => {
                proof {
                    lemma_slot_is_history(self.slots@, i as int);
                }
                let versions = &self.slots[i].versions;
                Some(big_int_copy(&versions[versions.len() - 1].1))
            },
            None => {
                proof {
                    lemma_no_slot_is_absent(self.slots@, key@);
                }
                None
            },
        }
    }

    /// Returns the earliest value recorded under `key`, or nothing for a key
    /// without history.
    pub fn get_first(&self, key: &str) -> (r: Option<BigInt>)
        ensures
            optional_value(r) == lookup_first(self@, key@),
    {
        proof {
            use_type_invariant(self);
        }
        match position(&self.slots, key) {
            Some(i) => {
                proof {
                    lemma_slot_is_history(self.slots@, i as int);
                }
                Some(big_int_copy(&self.slots[i].versions[0].1))
            },
            None => {
                proof {
                    lemma_no_slot_is_absent(self.slots@, key@);
                }
                None
            },
        }
    }

    /// Tells whether `key` has a version written at exactly `ord`.
    pub fn has_at(&self, ord: u64, key: &str) -> (r: bool)
        ensures
            r == lookup_at(self@, ord, key@).is_some(),
    {
        proof {
            use_type_invariant(self);
        }
        match position(&self.slots, key) {
            Some(i) => {
                proof {
                    lemma_slot_is_history(self.slots@, i as int);
                }
                first_version_at(&self.slots[i].versions, ord).is_some()
            },
            None => {
                proof {
                    lemma_no_slot_is_absent(self.slots@, key@);
                }
                false
            },
        }
    }

    /// Tells whether `key` has a latest value, that is, any history at all.
    pub fn has_last(&self, key: &str) -> (r: bool)
        ensures
            r == lookup_last(self@, key@).is_some(),
    {
        self.get_last(key).is_some()
    }

    /// Tells whether `key` has an earliest value, that is, any history at all.
    pub fn has_first(&self, key: &str) -> (r: bool)
        ensures
            r == lookup_first(self@, key@).is_some(),
    {
        self.get_first(key).is_some()
    }

    /// Replaces the whole history of `key` by the single version
    /// `(ord, value)`.
    pub fn set(&mut self, ord: u64, key: &str, value: &BigInt)
        ensures
            final(self)@ == with_set(old(self)@, ord, key@, big_int_value(*value)),
            well_formed(final(self)@),
    {
        let mut slots = self.take_slots();
        let versions = vec![(ord, big_int_copy(value))];
        assert(history_of(versions@) =~= seq![(ord, big_int_value(*value))]);
        match position(&slots, key) {
            Some(i) => {
                slots[i].versions = versions;
                proof {
                    let before = old(self).slots@;
                    lemma_update_slot(before, i as int, slots@[i as int]);
                    assert(slots@ =~= before.update(i as int, slots@[i as int]));
                }
            },
            None => {
                let slot = Slot { key: key.to_owned(), versions };
                proof {
                    lemma_push_slot(slots@, slot);
                }
                slots.push(slot);
            },
        }
        proof {
            lemma_contents_well_formed(slots@);
        }
        self.slots = slots;
    }

    /// Sets each key of `keys` in turn to the single version `(ord, value)`.
    pub fn set_many(&mut self, ord: u64, keys: &Vec<String>, value: &BigInt)
        ensures
            final(self)@ == with_set_many(
                old(self)@,
                ord,
                keys.deep_view(),
                big_int_value(*value),
            ),
            well_formed(final(self)@),
    {
        proof {
            use_type_invariant(&*self);
            lemma_contents_well_formed(self.slots@);
        }
        let mut i: usize = 0;
        while i < keys.len()
            invariant
                i <= keys.len(),
                well_formed(self@),
                self@ == with_set_many(
                    old(self)@,
                    ord,
                    keys.deep_view().take(i as int),
                    big_int_value(*value),
                ),
            decreases keys.len() - i,
        {
            self.set(ord, keys[i].as_str(), value);
            proof {
                let done = keys.deep_view().take(i + 1);
                assert(done.drop_last() =~= keys.deep_view().take(i as int));
            }
            i += 1;
        }
        assert(keys.deep_view().take(i as int) =~= keys.deep_view());
    }

    /// Appends the running sum under `key` at `ord`: the latest value plus
    /// `value`, or `value` itself for a key without history.
    pub fn add(&mut self, ord: u64, key: &str, value: BigInt)
        ensures
            final(self)@ == with_added(old(self)@, ord, key@, big_int_value(value)),
            well_formed(final(self)@),
    {
        let mut slots = self.take_slots();
        match position(&slots, key) {
            Some(i) => {
                proof {
                    lemma_slot_is_history(slots@, i as int);
                }
                let n: usize = slots[i].versions.len();
                let latest = big_int_copy(&slots[i].versions[n - 1].1);
                let total = big_int_sum(latest, value);
                slots[i].versions.push((ord, total));
                proof {
                    let before = old(self).slots@;
                    lemma_update_slot(before, i as int, slots@[i as int]);
                    assert(slots@ =~= before.update(i as int, slots@[i as int]));
                    assert(history_of(slots@[i as int].versions@) =~= history_of(
                        before[i as int].versions@,
                    ).push((ord, big_int_value(total))));
                }
            },
            None => {
                proof {
                    lemma_no_slot_is_absent(slots@, key@);
                }
                let slot = Slot { key: key.to_owned(), versions: vec![(ord, value)] };
                proof {
                    lemma_push_slot(slots@, slot);
                    assert(history_of(slot.versions@) =~= seq![(ord, big_int_value(value))]);
                }
                slots.push(slot);
            },
        }
        proof {
            lemma_contents_well_formed(slots@);
        }
        self.slots = slots;
    }

    /// Adds `value` to each key of `keys` in turn.
    pub fn add_many(&mut self, ord: u64, keys: &Vec<String>, value: BigInt)
        ensures
            final(self)@ == with_added_many(
                old(self)@,
                ord,
                keys.deep_view(),
                big_int_value(value),
            ),
            well_formed(final(self)@),
    {
        proof {
            use_type_invariant(&*self);
            lemma_contents_well_formed(self.slots@);
        }
        let mut i: usize = 0;
        while i < keys.len()
            invariant
                i <= keys.len(),
                well_formed(self@),
                self@ == with_added_many(
                    old(self)@,
                    ord,
                    keys.deep_view().take(i as int),
                    big_int_value(value),
                ),
            decreases keys.len() - i,
        {
            self.add(ord, keys[i].as_str(), big_int_copy(&value));
            proof {
                let done = keys.deep_view().take(i + 1);
                assert(done.drop_last() =~= keys.deep_view().take(i as int));
            }
            i += 1;
        }
        assert(keys.deep_view().take(i as int) =~= keys.deep_view());
    }

    /// Accumulates under `key` as `add` does; the sum discipline keeps its
    /// own name.
    pub fn sum(&mut self, ord: u64, key: &str, value: BigInt)
        ensures
            final(self)@ == with_added(old(self)@, ord, key@, big_int_value(value)),
            well_formed(final(self)@),
    {
        self.add(ord, key, value);
    }

    /// Puts `(ord, item)` behind the versions of `key`, without summing.
    pub fn append(&mut self, ord: u64, key: &str, item: BigInt)
        ensures
            final(self)@ == with_appended(old(self)@, ord, key@, big_int_value(item)),
            well_formed(final(self)@),
    {
        let mut slots = self.take_slots();
        match position(&slots, key) {
            Some(i) => {
                proof {
                    lemma_slot_is_history(slots@, i as int);
                }
                slots[i].versions.push((ord, item));
                proof {
                    let before = old(self).slots@;
                    lemma_update_slot(before, i as int, slots@[i as int]);
                    assert(slots@ =~= before.update(i as int, slots@[i as int]));
                    assert(history_of(slots@[i as int].versions@) =~= history_of(
                        before[i as int].versions@,
                    ).push((ord, big_int_value(item))));
                }
            },
            None => {
                proof {
                    lemma_no_slot_is_absent(slots@, key@);
                }
                let slot = Slot { key: key.to_owned(), versions: vec![(ord, item)] };
                proof {
                    lemma_push_slot(slots@, slot);
                    assert(history_of(slot.versions@) =~= seq![(ord, big_int_value(item))]);
                }
                slots.push(slot);
            },
        }
        proof {
            lemma_contents_well_formed(slots@);
        }
        self.slots = slots;
    }

    /// Appends each item of `items` in turn to `key`, all at `ord`.
    pub fn append_all(&mut self, ord: u64, key: &str, items: Vec<BigInt>)
        ensures
            final(self)@ == with_appended_all(old(self)@, ord, key@, values_of(items@)),
            well_formed(final(self)@),
    {
        proof {
            use_type_invariant(&*self);
            lemma_contents_well_formed(self.slots@);
        }
        let mut i: usize = 0;
        while i < items.len()
            invariant
                i <= items.len(),
                well_formed(self@),
                self@ == with_appended_all(old(self)@, ord, key@, values_of(items@).take(i as int)),
            decreases items.len() - i,
        {
            self.append(ord, key, big_int_copy(&items[i]));
            proof {
                let done = values_of(items@).take(i + 1);
                assert(done.drop_last() =~= values_of(items@).take(i as int));
            }
            i += 1;
        }
        assert(values_of(items@).take(i as int) =~= values_of(items@));
    }

    /// Gives `key` the single version `(ord, value)` if it has no history,
    /// and leaves it alone otherwise.
    pub fn set_if_not_exists(&mut self, ord: u64, key: &str, value: &BigInt)
        ensures
            final(self)@ == with_set_if_absent(old(self)@, ord, key@, big_int_value(*value)),
            well_formed(final(self)@),
    {
        let mut slots = self.take_slots();
        match position(&slots, key) {
            Some(i) => {
                proof {
                    lemma_slot_is_history(slots@, i as int);
                }
            },
            None => {
                proof {
                    lemma_no_slot_is_absent(slots@, key@);
                }
                let slot = Slot { key: key.to_owned(), versions: vec![(ord, big_int_copy(value))] };
                proof {
                    lemma_push_slot(slots@, slot);
                    assert(history_of(slot.versions@) =~= seq![(ord, big_int_value(*value))]);
                }
                slots.push(slot);
            },
        }
        proof {
            lemma_contents_well_formed(slots@);
        }
        self.slots = slots;
    }

    /// Applies `set_if_not_exists` to each key of `keys` in turn.
    pub fn set_if_not_exists_many(&mut self, ord: u64, keys: &Vec<String>, value: &BigInt)
        ensures
            final(self)@ == with_set_if_absent_many(
                old(self)@,
                ord,
                keys.deep_view(),
                big_int_value(*value),
            ),
            well_formed(final(self)@),
    {
        proof {
            use_type_invariant(&*self);
            lemma_contents_well_formed(self.slots@);
        }
        let mut i: usize = 0;
        while i < keys.len()
            invariant
                i <= keys.len(),
                well_formed(self@),
                self@ == with_set_if_absent_many(
                    old(self)@,
                    ord,
                    keys.deep_view().take(i as int),
                    big_int_value(*value),
                ),
            decreases keys.len() - i,
        {
            self.set_if_not_exists(ord, keys[i].as_str(), value);
            proof {
                let done = keys.deep_view().take(i + 1);
                assert(done.drop_last() =~= keys.deep_view().take(i as int));
            }
            i += 1;
        }
        assert(keys.deep_view().take(i as int) =~= keys.deep_view());
    }

    /// Removes every key that starts with `prefix`, whatever its ordinals,
    /// and keeps every other key with its history. The ordinal is part of the
    /// interface and decides nothing.
    pub fn delete_prefix(&mut self, _ord: i64, prefix: &String)
        ensures
            final(self)@ == without_prefix(old(self)@, prefix@),
            well_formed(final(self)@),
    {
        let mut slots = self.take_slots();
        let mut i: usize = 0;
        while i < slots.len()
            invariant
                i <= slots.len(),
                slots_valid(slots@),
                without_prefix(contents_of(slots@), prefix@) == without_prefix(
                    old(self)@,
                    prefix@,
                ),
                forall|j: int| 0 <= j < i ==> !prefix@.is_prefix_of((#[trigger] slots@[j]).key@),
            decreases slots.len() - i,
        {
            if starts_with(slots[i].key.as_str(), prefix.as_str()) {
                proof {
                    lemma_swap_remove_slot(slots@, i as int);
                    assert(without_prefix(
                        contents_of(slots@).remove(slots@[i as int].key@),
                        prefix@,
                    ) =~= without_prefix(contents_of(slots@), prefix@));
                }
                slots.swap_remove(i);
            } else {
                i += 1;
            }
        }
        proof {
            assert forall|k: Seq<char>| #[trigger]
                contents_of(slots@).contains_key(k) implies !prefix@.is_prefix_of(k) by {
                let j = choose|j: int| holds_key(slots@, k, j);
                assert(!prefix@.is_prefix_of(slots@[j].key@));
            }
            assert(contents_of(slots@) =~= without_prefix(contents_of(slots@), prefix@));
            lemma_contents_well_formed(slots@);
        }
        self.slots = slots;
    }

    /// Moves the slots out and leaves the store empty, so that they can be
    /// worked on and put back.
    fn take_slots(&mut self) -> (slots: Vec<Slot>)
        ensures
            slots == old(self).slots,
            slots_valid(slots@),
            final(self).slots@.len() == 0,
    {
        proof {
            use_type_invariant(&*self);
        }
        let mut slots: Vec<Slot> = Vec::new();
        std::mem::swap(&mut slots, &mut self.slots);
        slots
    }
}

} // verus!
