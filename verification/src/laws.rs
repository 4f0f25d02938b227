//! What holds of the store's operations taken together, stated over the
//! model and proved from its definitions.

use crate::model::{
    ascending, first_position, has_ordinal, is_first_at, lemma_first_position,
    lemma_value_at_first, lookup_at, lookup_first, lookup_last, value_at, well_formed,
    with_added, with_added_many, with_appended, with_appended_all, with_set, with_set_if_absent,
    with_set_if_absent_many, with_set_many, without_prefix, Contents, History,
};
use vstd::prelude::*;

verus! {

/// A key without history yields nothing: no value at any ordinal, no
/// earliest and no latest value.
pub proof fn lemma_absent_key_reads_nothing(m: Contents, ord: u64, key: Seq<char>)
    requires
        !m.contains_key(key),
    ensures
        lookup_at(m, ord, key).is_none(),
        lookup_first(m, key).is_none(),
        lookup_last(m, key).is_none(),
{
}

/// A store without any key yields nothing for every key.
pub proof fn lemma_empty_reads_nothing(ord: u64, key: Seq<char>)
    ensures
        lookup_at(Map::<Seq<char>, History>::empty(), ord, key).is_none(),
        lookup_first(Map::<Seq<char>, History>::empty(), key).is_none(),
        lookup_last(Map::<Seq<char>, History>::empty(), key).is_none(),
{
}

/// `other` has the same history, or the same lack of one, in both contents.
pub open spec fn same_at(before: Contents, after: Contents, other: Seq<char>) -> bool {
    &&& after.contains_key(other) == before.contains_key(other)
    &&& after.contains_key(other) ==> after[other] == before[other]
}

/// A write to one key leaves every other key as it was: a key that was
/// never written stays without history, whatever is written elsewhere.
pub proof fn lemma_write_leaves_other_keys(
    m: Contents,
    ord: u64,
    key: Seq<char>,
    v: int,
    other: Seq<char>,
)
    requires
        other != key,
    ensures
        same_at(m, with_set(m, ord, key, v), other),
        same_at(m, with_added(m, ord, key, v), other),
        same_at(m, with_appended(m, ord, key, v), other),
        same_at(m, with_set_if_absent(m, ord, key, v), other),
{
}

/// A write to a list of keys leaves every key outside the list as it was.
pub proof fn lemma_write_many_leaves_other_keys(
    m: Contents,
    ord: u64,
    keys: Seq<Seq<char>>,
    v: int,
    other: Seq<char>,
)
    requires
        !keys.contains(other),
    ensures
        same_at(m, with_set_many(m, ord, keys, v), other),
        same_at(m, with_added_many(m, ord, keys, v), other),
        same_at(m, with_set_if_absent_many(m, ord, keys, v), other),
    decreases keys.len(),
{
    if keys.len() > 0 {
        let rest = keys.drop_last();
        assert forall|i: int| 0 <= i < rest.len() implies rest[i] != other by {
            assert(keys[i] == rest[i]);
        }
        assert(keys.last() == keys[keys.len() - 1]);
        lemma_write_many_leaves_other_keys(m, ord, rest, v, other);
        lemma_write_leaves_other_keys(with_set_many(m, ord, rest, v), ord, keys.last(), v, other);
        lemma_write_leaves_other_keys(with_added_many(m, ord, rest, v), ord, keys.last(), v, other);
        lemma_write_leaves_other_keys(
            with_set_if_absent_many(m, ord, rest, v),
            ord,
            keys.last(),
            v,
            other,
        );
    }
}

/// Appending a list of items to one key leaves every other key as it was.
pub proof fn lemma_append_all_leaves_other_keys(
    m: Contents,
    ord: u64,
    key: Seq<char>,
    items: Seq<int>,
    other: Seq<char>,
)
    requires
        other != key,
    ensures
        same_at(m, with_appended_all(m, ord, key, items), other),
    decreases items.len(),
{
    if items.len() > 0 {
        lemma_append_all_leaves_other_keys(m, ord, key, items.drop_last(), other);
    }
}

/// After setting a list of keys, every key of the list has exactly the
/// version that was set.
pub proof fn lemma_set_many_sets_each(
    m: Contents,
    ord: u64,
    keys: Seq<Seq<char>>,
    v: int,
    key: Seq<char>,
)
    requires
        keys.contains(key),
    ensures
        with_set_many(m, ord, keys, v).contains_key(key),
        with_set_many(m, ord, keys, v)[key] == seq![(ord, v)],
    decreases keys.len(),
{
    if keys.last() != key {
        let i = choose|i: int| 0 <= i < keys.len() && keys[i] == key;
        assert(keys.drop_last()[i] == key);
        lemma_set_many_sets_each(m, ord, keys.drop_last(), v, key);
    }
}

/// After setting a list of keys where absent, every key of the list that
/// had a history has kept it, and every other key of the list has exactly
/// the version that was set.
pub proof fn lemma_set_if_absent_many_fills_each(
    m: Contents,
    ord: u64,
    keys: Seq<Seq<char>>,
    v: int,
    key: Seq<char>,
)
    requires
        keys.contains(key),
    ensures
        with_set_if_absent_many(m, ord, keys, v).contains_key(key),
        with_set_if_absent_many(m, ord, keys, v)[key] == if m.contains_key(key) {
            m[key]
        } else {
            seq![(ord, v)]
        },
    decreases keys.len(),
{
    let rest = keys.drop_last();
    if rest.contains(key) {
        lemma_set_if_absent_many_fills_each(m, ord, rest, v, key);
    } else {
        let i = choose|i: int| 0 <= i < keys.len() && keys[i] == key;
        if i < rest.len() {
            assert(rest[i] == key);
        }
        assert(keys.last() == key);
        lemma_write_many_leaves_other_keys(m, ord, rest, v, key);
    }
}

/// Adding to a list of keys without repetition leaves each key of the list
/// as a single add to that key alone would.
pub proof fn lemma_add_many_adds_each(
    m: Contents,
    ord: u64,
    keys: Seq<Seq<char>>,
    v: int,
    key: Seq<char>,
)
    requires
        keys.no_duplicates(),
        keys.contains(key),
    ensures
        with_added_many(m, ord, keys, v).contains_key(key),
        with_added_many(m, ord, keys, v)[key] == with_added(m, ord, key, v)[key],
    decreases keys.len(),
{
    let rest = keys.drop_last();
    let i = choose|i: int| 0 <= i < keys.len() && keys[i] == key;
    if keys.last() == key {
        assert forall|j: int| 0 <= j < rest.len() implies rest[j] != key by {
            assert(keys[j] == rest[j]);
        }
        lemma_write_many_leaves_other_keys(m, ord, rest, v, key);
    } else {
        assert(rest[i] == key);
        assert forall|a: int, b: int| 0 <= a < rest.len() && 0 <= b < rest.len() && a != b implies rest[a]
            != rest[b] by {
            assert(keys[a] == rest[a] && keys[b] == rest[b]);
        }
        lemma_add_many_adds_each(m, ord, rest, v, key);
    }
}

/// Appending a list of items puts them behind the versions of the key, in
/// order and all at the same ordinal; an empty list changes nothing.
pub proof fn lemma_append_all_appends_in_order(
    m: Contents,
    ord: u64,
    key: Seq<char>,
    items: Seq<int>,
)
    ensures
        items.len() == 0 ==> with_appended_all(m, ord, key, items) == m,
        items.len() > 0 ==> with_appended_all(m, ord, key, items).contains_key(key),
        items.len() > 0 ==> with_appended_all(m, ord, key, items)[key] == (if m.contains_key(key) {
            m[key]
        } else {
            Seq::<(u64, int)>::empty()
        }) + Seq::new(items.len(), |i: int| (ord, items[i])),
    decreases items.len(),
{
    if items.len() > 0 {
        let rest = items.drop_last();
        lemma_append_all_appends_in_order(m, ord, key, rest);
        let base = if m.contains_key(key) {
            m[key]
        } else {
            Seq::<(u64, int)>::empty()
        };
        let want = base + Seq::new(items.len(), |i: int| (ord, items[i]));
        let got = with_appended_all(m, ord, key, items)[key];
        if rest.len() == 0 {
            assert(got =~= want);
        } else {
            let before = base + Seq::new(rest.len(), |i: int| (ord, rest[i]));
            assert(got == before.push((ord, items.last())));
            assert(before.push((ord, items.last())) =~= want);
        }
    }
}

/// After a set, the key has exactly the version that was set: it is the
/// value at that ordinal, the earliest and the latest value, and no other
/// ordinal has a value, so that what the key held before cannot be reached.
pub proof fn lemma_set_then_get(m: Contents, ord: u64, key: Seq<char>, v: int)
    ensures
        with_set(m, ord, key, v)[key] == seq![(ord, v)],
        lookup_at(with_set(m, ord, key, v), ord, key) == Some(v),
        lookup_first(with_set(m, ord, key, v), key) == Some(v),
        lookup_last(with_set(m, ord, key, v), key) == Some(v),
        forall|other: u64|
            other != ord ==> (#[trigger] lookup_at(with_set(m, ord, key, v), other, key)).is_none(),
{
    let h: History = seq![(ord, v)];
    assert(is_first_at(h, ord, 0));
    lemma_value_at_first(h, ord, 0);
    assert forall|other: u64| other != ord implies (#[trigger] lookup_at(
        with_set(m, ord, key, v),
        other,
        key,
    )).is_none() by {
        assert(!has_ordinal(h, other));
    }
}

/// The latest value after an add is the latest value before it plus the
/// amount added, or the amount alone for a key without history.
pub proof fn lemma_add_accumulates(m: Contents, ord: u64, key: Seq<char>, v: int)
    ensures
        lookup_last(with_added(m, ord, key, v), key) == Some(
            match lookup_last(m, key) {
                Some(latest) => latest + v,
                None => v,
            },
        ),
{
}

/// Two adds in a row to a key without history leave the sum as the latest
/// value and the first amount as the value at the first ordinal.
pub proof fn lemma_add_twice(m: Contents, o1: u64, o2: u64, key: Seq<char>, v1: int, v2: int)
    requires
        !m.contains_key(key),
    ensures
        lookup_last(with_added(with_added(m, o1, key, v1), o2, key, v2), key) == Some(v1 + v2),
        lookup_at(with_added(with_added(m, o1, key, v1), o2, key, v2), o1, key) == Some(v1),
        lookup_first(with_added(with_added(m, o1, key, v1), o2, key, v2), key) == Some(v1),
{
    let after = with_added(with_added(m, o1, key, v1), o2, key, v2);
    let h: History = seq![(o1, v1)].push((o2, v1 + v2));
    assert(after[key] =~= h);
    assert(is_first_at(h, o1, 0));
    lemma_value_at_first(h, o1, 0);
}

/// Histories only grow at the end: an add or an append leaves the value at
/// every ordinal that already had one, and at every ordinal other than its
/// own, what it was.
pub proof fn lemma_growth_keeps_recorded_versions(
    m: Contents,
    ord: u64,
    later: u64,
    key: Seq<char>,
    v: int,
)
    requires
        m.contains_key(key),
        ord != later || lookup_at(m, ord, key).is_some(),
    ensures
        lookup_at(with_added(m, later, key, v), ord, key) == lookup_at(m, ord, key),
        lookup_at(with_appended(m, later, key, v), ord, key) == lookup_at(m, ord, key),
{
    lemma_push_keeps_other_ordinals(m[key], ord, (later, m[key].last().1 + v));
    lemma_push_keeps_other_ordinals(m[key], ord, (later, v));
}

/// A version put behind a history does not change what the history holds
/// at `ord`, unless it is the first version with that ordinal.
proof fn lemma_push_keeps_other_ordinals(h: History, ord: u64, e: (u64, int))
    requires
        e.0 != ord || has_ordinal(h, ord),
    ensures
        value_at(h.push(e), ord) == value_at(h, ord),
{
    let grown = h.push(e);
    if has_ordinal(h, ord) {
        lemma_first_position(h, ord);
        let f = first_position(h, ord);
        assert(grown[f] == h[f]);
        assert forall|j: int| 0 <= j < f implies (#[trigger] grown[j]).0 != ord by {
            assert(grown[j] == h[j]);
        }
        assert(is_first_at(grown, ord, f));
        lemma_value_at_first(grown, ord, f);
    } else {
        if has_ordinal(grown, ord) {
            let i = choose|i: int| 0 <= i < grown.len() && (#[trigger] grown[i]).0 == ord;
            assert(i < h.len());
            assert(h[i] == grown[i]);
            assert(has_ordinal(h, ord));
        }
    }
}

/// Setting a key that is already there changes nothing, so a second
/// set-if-absent in a row never does anything.
pub proof fn lemma_set_if_absent_on_present(m: Contents, ord: u64, key: Seq<char>, v: int)
    requires
        m.contains_key(key),
    ensures
        with_set_if_absent(m, ord, key, v) == m,
{
}

/// Two set-if-absent in a row on a key without history leave the first
/// value as the only one.
pub proof fn lemma_set_if_absent_twice(
    m: Contents,
    o1: u64,
    o2: u64,
    key: Seq<char>,
    v1: int,
    v2: int,
)
    requires
        !m.contains_key(key),
    ensures
        with_set_if_absent(with_set_if_absent(m, o1, key, v1), o2, key, v2) == with_set_if_absent(
            m,
            o1,
            key,
            v1,
        ),
        lookup_last(with_set_if_absent(with_set_if_absent(m, o1, key, v1), o2, key, v2), key)
            == Some(v1),
{
}

/// Deleting a prefix removes every key that starts with it and leaves every
/// other key with the history it had.
pub proof fn lemma_delete_prefix(m: Contents, prefix: Seq<char>, key: Seq<char>)
    ensures
        prefix.is_prefix_of(key) ==> !without_prefix(m, prefix).contains_key(key),
        !prefix.is_prefix_of(key) ==> same_at(m, without_prefix(m, prefix), key),
{
}

/// Deleting a prefix that no key starts with changes nothing.
pub proof fn lemma_delete_prefix_without_match(m: Contents, prefix: Seq<char>)
    requires
        forall|k: Seq<char>| #[trigger] m.contains_key(k) ==> !prefix.is_prefix_of(k),
    ensures
        without_prefix(m, prefix) == m,
{
    assert(without_prefix(m, prefix) =~= m);
}

/// Adding to a list of two keys is adding to the first and then to the
/// second.
pub proof fn lemma_add_many_pair(m: Contents, ord: u64, k1: Seq<char>, k2: Seq<char>, v: int)
    ensures
        with_added_many(m, ord, seq![k1, k2], v) == with_added(
            with_added(m, ord, k1, v),
            ord,
            k2,
            v,
        ),
{
    let both = seq![k1, k2];
    let one = seq![k1];
    assert(both.drop_last() =~= one);
    assert(one.drop_last() =~= Seq::<Seq<char>>::empty());
    assert(with_added_many(m, ord, Seq::<Seq<char>>::empty(), v) == m);
    assert(with_added_many(m, ord, one, v) == with_added(m, ord, k1, v));
}

/// Adding to a longer list is adding to the list and then to the key that
/// was put behind it.
pub proof fn lemma_add_many_push(
    m: Contents,
    ord: u64,
    keys: Seq<Seq<char>>,
    key: Seq<char>,
    v: int,
)
    ensures
        with_added_many(m, ord, keys.push(key), v) == with_added(
            with_added_many(m, ord, keys, v),
            ord,
            key,
            v,
        ),
{
    assert(keys.push(key).drop_last() =~= keys);
}

/// Adds to two different keys do not depend on each other: either order
/// leaves the same contents, and each key ends as if it alone had been
/// written.
pub proof fn lemma_add_commutes(
    m: Contents,
    o1: u64,
    o2: u64,
    k1: Seq<char>,
    k2: Seq<char>,
    v1: int,
    v2: int,
)
    requires
        k1 != k2,
    ensures
        with_added(with_added(m, o1, k1, v1), o2, k2, v2) == with_added(
            with_added(m, o2, k2, v2),
            o1,
            k1,
            v1,
        ),
        with_added(with_added(m, o1, k1, v1), o2, k2, v2)[k1] == with_added(m, o1, k1, v1)[k1],
        with_added(with_added(m, o1, k1, v1), o2, k2, v2)[k2] == with_added(m, o2, k2, v2)[k2],
{
    assert(with_added(with_added(m, o1, k1, v1), o2, k2, v2) =~= with_added(
        with_added(m, o2, k2, v2),
        o1,
        k1,
        v1,
    ));
}

/// The latest value is read from the contents and the key alone: two
/// answers to the same question about the same contents are the same.
pub proof fn lemma_get_last_repeats(
    m: Contents,
    key: Seq<char>,
    first: Option<int>,
    second: Option<int>,
)
    requires
        first == lookup_last(m, key),
        second == lookup_last(m, key),
    ensures
        first == second,
{
}

/// Every write keeps the contents well formed: a key that is present
/// always has at least one version.
pub proof fn lemma_writes_keep_well_formed(m: Contents, ord: u64, key: Seq<char>, v: int)
    requires
        well_formed(m),
    ensures
        well_formed(with_set(m, ord, key, v)),
        well_formed(with_added(m, ord, key, v)),
        well_formed(with_appended(m, ord, key, v)),
        well_formed(with_set_if_absent(m, ord, key, v)),
{
}

/// Deleting a prefix keeps the contents well formed.
pub proof fn lemma_delete_prefix_keeps_well_formed(m: Contents, prefix: Seq<char>)
    requires
        well_formed(m),
    ensures
        well_formed(without_prefix(m, prefix)),
{
}

/// A write with an ordinal that is not below the latest one keeps the
/// ordinals of the key's history from decreasing.
pub proof fn lemma_writes_in_order_stay_ascending(m: Contents, ord: u64, key: Seq<char>, v: int)
    requires
        m.contains_key(key) ==> ascending(m[key]) && m[key].len() > 0 && m[key].last().0 <= ord,
    ensures
        ascending(with_set(m, ord, key, v)[key]),
        ascending(with_added(m, ord, key, v)[key]),
        ascending(with_appended(m, ord, key, v)[key]),
        ascending(with_set_if_absent(m, ord, key, v)[key]),
{
    if m.contains_key(key) {
        let h = m[key];
        let last = h.len() - 1;
        assert forall|e: (u64, int)| ascending(#[trigger] h.push(e)) || e.0 != ord by {
            if e.0 == ord {
                let grown = h.push(e);
                assert forall|i: int, j: int| 0 <= i <= j < grown.len() implies (
                #[trigger] grown[i]).0 <= (#[trigger] grown[j]).0 by {
                    if j < h.len() {
                        assert(h[i].0 <= h[j].0);
                    } else if i < h.len() {
                        assert(h[i].0 <= h[last].0);
                    }
                }
            }
        }
        assert(ascending(h.push((ord, h.last().1 + v))));
        assert(ascending(h.push((ord, v))));
    }
}

} // verus!
