//! The mathematical model of the store: what it holds, what each operation
//! makes of it, and what each query reads from it.

use vstd::prelude::*;

verus! {

/// The versions of one key, oldest first: the ordinal of each write and the
/// value that the write left.
pub type History = Seq<(u64, int)>;

/// What a store holds: the history of every key that has one.
pub type Contents = Map<Seq<char>, History>;

/// Every key that is present has at least one version.
pub open spec fn well_formed(m: Contents) -> bool {
    forall|k: Seq<char>| #[trigger] m.contains_key(k) ==> m[k].len() > 0
}

/// The ordinals of a history never decrease from one version to the next.
pub open spec fn ascending(h: History) -> bool {
    forall|i: int, j: int| 0 <= i <= j < h.len() ==> (#[trigger] h[i]).0 <= (#[trigger] h[j]).0
}

/// Some version of the history was written at `ord`.
pub open spec fn has_ordinal(h: History, ord: u64) -> bool {
    exists|i: int| 0 <= i < h.len() && (#[trigger] h[i]).0 == ord
}

/// Position `i` holds the oldest version written at `ord`.
pub open spec fn is_first_at(h: History, ord: u64, i: int) -> bool {
    &&& 0 <= i < h.len()
    &&& h[i].0 == ord
    &&& forall|j: int| 0 <= j < i ==> (#[trigger] h[j]).0 != ord
}

/// The position of the oldest version written at `ord`, where there is one.
pub open spec fn first_position(h: History, ord: u64) -> int {
    choose|i: int| is_first_at(h, ord, i)
}

/// The value of the oldest version written at exactly `ord`.
pub open spec fn value_at(h: History, ord: u64) -> Option<int> {
    if has_ordinal(h, ord) {
        Some(h[first_position(h, ord)].1)
    } else {
        None
    }
}

/// The value recorded under `key` at exactly `ord`.
pub open spec fn lookup_at(m: Contents, ord: u64, key: Seq<char>) -> Option<int> {
    if m.contains_key(key) {
        value_at(m[key], ord)
    } else {
        None
    }
}

/// The earliest value recorded under `key`.
pub open spec fn lookup_first(m: Contents, key: Seq<char>) -> Option<int> {
    if m.contains_key(key) {
        Some(m[key].first().1)
    } else {
        None
    }
}

/// The latest value recorded under `key`.
pub open spec fn lookup_last(m: Contents, key: Seq<char>) -> Option<int> {
    if m.contains_key(key) {
        Some(m[key].last().1)
    } else {
        None
    }
}

/// Setting a key discards its versions and leaves the single entry `(ord, v)`.
pub open spec fn with_set(m: Contents, ord: u64, key: Seq<char>, v: int) -> Contents {
    m.insert(key, seq![(ord, v)])
}

/// Adding to a key appends the running sum: the latest value plus `v`, or `v`
/// alone for a key without history.
pub open spec fn with_added(m: Contents, ord: u64, key: Seq<char>, v: int) -> Contents {
    if m.contains_key(key) {
        m.insert(key, m[key].push((ord, m[key].last().1 + v)))
    } else {
        m.insert(key, seq![(ord, v)])
    }
}

/// Appending to a key puts `(ord, v)` behind its versions, as it is.
pub open spec fn with_appended(m: Contents, ord: u64, key: Seq<char>, v: int) -> Contents {
    if m.contains_key(key) {
        m.insert(key, m[key].push((ord, v)))
    } else {
        m.insert(key, seq![(ord, v)])
    }
}

/// Setting a key only if it is absent leaves a present key as it is.
pub open spec fn with_set_if_absent(m: Contents, ord: u64, key: Seq<char>, v: int) -> Contents {
    if m.contains_key(key) {
        m
    } else {
        m.insert(key, seq![(ord, v)])
    }
}

/// Deleting a prefix drops every key that starts with it and keeps the rest.
pub open spec fn without_prefix(m: Contents, prefix: Seq<char>) -> Contents {
    Map::new(|k: Seq<char>| m.contains_key(k) && !prefix.is_prefix_of(k), |k: Seq<char>| m[k])
}

/// Setting each key of a list in turn, all to `(ord, v)`.
pub open spec fn with_set_many(m: Contents, ord: u64, keys: Seq<Seq<char>>, v: int) -> Contents
    decreases keys.len(),
{
    if keys.len() == 0 {
        m
    } else {
        with_set(with_set_many(m, ord, keys.drop_last(), v), ord, keys.last(), v)
    }
}

/// Adding `v` to each key of a list in turn.
pub open spec fn with_added_many(m: Contents, ord: u64, keys: Seq<Seq<char>>, v: int) -> Contents
    decreases keys.len(),
{
    if keys.len() == 0 {
        m
    } else {
        with_added(with_added_many(m, ord, keys.drop_last(), v), ord, keys.last(), v)
    }
}

/// Setting each absent key of a list in turn, all to `(ord, v)`.
pub open spec fn with_set_if_absent_many(
    m: Contents,
    ord: u64,
    keys: Seq<Seq<char>>,
    v: int,
) -> Contents
    decreases keys.len(),
{
    if keys.len() == 0 {
        m
    } else {
        with_set_if_absent(
            with_set_if_absent_many(m, ord, keys.drop_last(), v),
            ord,
            keys.last(),
            v,
        )
    }
}

/// Appending each item of a list in turn to one key, all at `ord`.
pub open spec fn with_appended_all(m: Contents, ord: u64, key: Seq<char>, items: Seq<int>) -> Contents
    decreases items.len(),
{
    if items.len() == 0 {
        m
    } else {
        with_appended(with_appended_all(m, ord, key, items.drop_last()), ord, key, items.last())
    }
}

/// Among the versions written at one ordinal, only one position is the oldest.
pub proof fn lemma_first_at_unique(h: History, ord: u64, i: int, j: int)
    requires
        is_first_at(h, ord, i),
        is_first_at(h, ord, j),
    ensures
        i == j,
{
    if i < j {
        assert(h[i].0 != ord);
    } else if j < i {
        assert(h[j].0 != ord);
    }
}

/// A history with a version at `ord` has an oldest such version, and
/// `first_position` is where it stands.
pub proof fn lemma_first_position(h: History, ord: u64)
    requires
        has_ordinal(h, ord),
    ensures
        is_first_at(h, ord, first_position(h, ord)),
{
    let k = choose|i: int| 0 <= i < h.len() && (#[trigger] h[i]).0 == ord;
    lemma_oldest_exists(h, ord, k);
}

proof fn lemma_oldest_exists(h: History, ord: u64, k: int)
    requires
        0 <= k < h.len(),
        h[k].0 == ord,
    ensures
        exists|i: int| is_first_at(h, ord, i),
    decreases k,
{
    if is_first_at(h, ord, k) {
    } else {
        let j = choose|j: int| 0 <= j < k && (#[trigger] h[j]).0 == ord;
        lemma_oldest_exists(h, ord, j);
    }
}

/// Where position `i` holds the oldest version written at `ord`, `value_at`
/// is the value found there.
pub proof fn lemma_value_at_first(h: History, ord: u64, i: int)
    requires
        is_first_at(h, ord, i),
    ensures
        value_at(h, ord) == Some(h[i].1),
{
    assert(has_ordinal(h, ord));
    lemma_first_position(h, ord);
    lemma_first_at_unique(h, ord, i, first_position(h, ord));
}

} // verus!
