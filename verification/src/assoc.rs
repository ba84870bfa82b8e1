//! Association lists: the mathematical model of an insertion-ordered map.
//!
//! An ordered map from names to values is modelled as a sequence of
//! `(name, value)` pairs in which no name occurs twice. The functions here say
//! what looking a name up, putting a pair and removing a pair do to such a
//! sequence, and the lemmas state how these operations interact.

use vstd::prelude::*;

verus! {

/// The pairs of an ordered map whose values have type `T`.
pub type Entries<T> = Seq<(Seq<char>, T)>;

/// `key` is the name of some pair of `entries`.
pub open spec fn has_key<T>(entries: Entries<T>, key: Seq<char>) -> bool {
    exists|i: int| 0 <= i < entries.len() && (#[trigger] entries[i]).0 == key
}

/// A position at which `key` stands in `entries`, where there is one.
pub open spec fn index_of<T>(entries: Entries<T>, key: Seq<char>) -> int {
    choose|i: int| 0 <= i < entries.len() && (#[trigger] entries[i]).0 == key
}

/// The value stored under `key`, if any.
pub open spec fn lookup<T>(entries: Entries<T>, key: Seq<char>) -> Option<T> {
    if has_key(entries, key) {
        Some(entries[index_of(entries, key)].1)
    } else {
        None
    }
}

/// No name occurs in two pairs.
pub open spec fn distinct_keys<T>(entries: Entries<T>) -> bool {
    forall|i: int, j: int|
        0 <= i < j < entries.len() ==> (#[trigger] entries[i]).0 != (#[trigger] entries[j]).0
}

/// Storing `value` under `key`: an existing pair keeps its place and gets the
/// new value, a new pair goes last.
pub open spec fn put<T>(entries: Entries<T>, key: Seq<char>, value: T) -> Entries<T> {
    if has_key(entries, key) {
        entries.update(index_of(entries, key), (key, value))
    } else {
        entries.push((key, value))
    }
}

/// Removing the pair of `key`: the last pair takes its place.
pub open spec fn swap_remove<T>(entries: Entries<T>, key: Seq<char>) -> Entries<T> {
    if has_key(entries, key) {
        entries.update(index_of(entries, key), entries.last()).drop_last()
    } else {
        entries
    }
}

/// The names of `entries`, in order.
pub open spec fn keys<T>(entries: Entries<T>) -> Seq<Seq<char>> {
    Seq::new(entries.len(), |i: int| entries[i].0)
}

/// `left` and `right` hold the same names at the same places.
pub open spec fn same_keys<T, U>(left: Entries<T>, right: Entries<U>) -> bool {
    &&& left.len() == right.len()
    &&& forall|i: int| 0 <= i < left.len() ==> (#[trigger] left[i]).0 == right[i].0
}

/// In a list with distinct names, the position of a name is the one place
/// where it stands.
pub proof fn lemma_index_of<T>(entries: Entries<T>, i: int)
    requires
        distinct_keys(entries),
        0 <= i < entries.len(),
    ensures
        has_key(entries, entries[i].0),
        index_of(entries, entries[i].0) == i,
        lookup(entries, entries[i].0) == Some(entries[i].1),
{
    let key = entries[i].0;
    assert(entries[i].0 == key);
    let j = index_of(entries, key);
    assert(0 <= j < entries.len() && entries[j].0 == key);
    if j < i {
        assert(entries[j].0 != entries[i].0);
    } else if i < j {
        assert(entries[i].0 != entries[j].0);
    }
}

/// A name that is present stands at its position.
pub proof fn lemma_has_key<T>(entries: Entries<T>, key: Seq<char>)
    requires
        has_key(entries, key),
    ensures
        0 <= index_of(entries, key) < entries.len(),
        entries[index_of(entries, key)].0 == key,
{
}

/// A name that is absent stands nowhere.
pub proof fn lemma_absent<T>(entries: Entries<T>, key: Seq<char>)
    requires
        !has_key(entries, key),
    ensures
        forall|i: int| 0 <= i < entries.len() ==> (#[trigger] entries[i]).0 != key,
{
}

/// Putting a pair keeps the names distinct, keeps every other name's value
/// and gives `key` the new value.
pub proof fn lemma_put<T>(entries: Entries<T>, key: Seq<char>, value: T)
    requires
        distinct_keys(entries),
    ensures
        distinct_keys(put(entries, key, value)),
        lookup(put(entries, key, value), key) == Some(value),
        has_key(put(entries, key, value), key),
        forall|other: Seq<char>|
            #![trigger has_key(put(entries, key, value), other)]
            #![trigger has_key(entries, other)]
            other != key ==> has_key(put(entries, key, value), other) == has_key(entries, other),
        forall|other: Seq<char>|
            #![trigger lookup(put(entries, key, value), other)]
            #![trigger lookup(entries, other)]
            other != key ==> lookup(put(entries, key, value), other) == lookup(entries, other),
        has_key(entries, key) ==> keys(put(entries, key, value)) == keys(entries),
        !has_key(entries, key) ==> keys(put(entries, key, value)) == keys(entries).push(key),
{
    let after = put(entries, key, value);
    if has_key(entries, key) {
        let p = index_of(entries, key);
        lemma_has_key(entries, key);
        assert(after.len() == entries.len());
        assert forall|i: int| 0 <= i < after.len() implies (#[trigger] after[i]).0 == entries[i].0 by {}
        assert(distinct_keys(after)) by {
            assert forall|i: int, j: int| 0 <= i < j < after.len() implies (#[trigger] after[i]).0
                != (#[trigger] after[j]).0 by {
                assert(entries[i].0 != entries[j].0);
            }
        }
        assert(after[p].0 == key);
        lemma_index_of(after, p);
        assert forall|other: Seq<char>| other != key implies has_key(after, other) == has_key(
            entries,
            other,
        ) && lookup(after, other) == lookup(entries, other) by {
            lemma_put_other_present(entries, key, value, other);
        }
        assert(keys(after) =~= keys(entries));
    } else {
        lemma_absent(entries, key);
        let p = entries.len() as int;
        assert(after.len() == entries.len() + 1);
        assert(after[p] == (key, value));
        assert(distinct_keys(after)) by {
            assert forall|i: int, j: int| 0 <= i < j < after.len() implies (#[trigger] after[i]).0
                != (#[trigger] after[j]).0 by {
                if j < entries.len() {
                    assert(entries[i].0 != entries[j].0);
                } else {
                    assert(after[i] == entries[i]);
                    assert(entries[i].0 != key);
                }
            }
        }
        lemma_index_of(after, p);
        assert forall|other: Seq<char>| other != key implies has_key(after, other) == has_key(
            entries,
            other,
        ) && lookup(after, other) == lookup(entries, other) by {
            lemma_put_other_absent(entries, key, value, other);
        }
        assert(keys(after) =~= keys(entries).push(key));
    }
}

proof fn lemma_put_other_present<T>(
    entries: Entries<T>,
    key: Seq<char>,
    value: T,
    other: Seq<char>,
)
    requires
        distinct_keys(entries),
        has_key(entries, key),
        other != key,
    ensures
        has_key(put(entries, key, value), other) == has_key(entries, other),
        lookup(put(entries, key, value), other) == lookup(entries, other),
{
    let after = put(entries, key, value);
    let p = index_of(entries, key);
    lemma_has_key(entries, key);
    assert forall|i: int| 0 <= i < after.len() implies (#[trigger] after[i]).0 == entries[i].0 by {}
    assert(distinct_keys(after)) by {
        assert forall|i: int, j: int| 0 <= i < j < after.len() implies (#[trigger] after[i]).0 != (
        #[trigger] after[j]).0 by {
            assert(entries[i].0 != entries[j].0);
        }
    }
    if has_key(entries, other) {
        let q = index_of(entries, other);
        lemma_has_key(entries, other);
        assert(after[q].0 == other);
        lemma_index_of(after, q);
        assert(after[q] == entries[q]);
    } else {
        lemma_absent(entries, other);
        if has_key(after, other) {
            lemma_has_key(after, other);
            let q = index_of(after, other);
            assert(entries[q].0 == other);
        }
    }
}

proof fn lemma_put_other_absent<T>(
    entries: Entries<T>,
    key: Seq<char>,
    value: T,
    other: Seq<char>,
)
    requires
        distinct_keys(entries),
        !has_key(entries, key),
        other != key,
    ensures
        has_key(put(entries, key, value), other) == has_key(entries, other),
        lookup(put(entries, key, value), other) == lookup(entries, other),
{
    let after = put(entries, key, value);
    lemma_absent(entries, key);
    assert(distinct_keys(after)) by {
        assert forall|i: int, j: int| 0 <= i < j < after.len() implies (#[trigger] after[i]).0 != (
        #[trigger] after[j]).0 by {
            if j < entries.len() {
                assert(entries[i].0 != entries[j].0);
            } else {
                assert(after[i] == entries[i]);
                assert(entries[i].0 != key);
            }
        }
    }
    if has_key(entries, other) {
        let q = index_of(entries, other);
        lemma_has_key(entries, other);
        assert(after[q] == entries[q]);
        lemma_index_of(after, q);
    } else {
        lemma_absent(entries, other);
        if has_key(after, other) {
            lemma_has_key(after, other);
            let q = index_of(after, other);
            if q < entries.len() {
                assert(after[q] == entries[q]);
                assert(entries[q].0 == other);
            }
        }
    }
}

/// Removing a pair keeps the names distinct, drops `key` and keeps every other
/// name's value.
pub proof fn lemma_swap_remove<T>(entries: Entries<T>, key: Seq<char>)
    requires
        distinct_keys(entries),
    ensures
        distinct_keys(swap_remove(entries, key)),
        !has_key(swap_remove(entries, key), key),
        forall|other: Seq<char>|
            #![trigger has_key(swap_remove(entries, key), other)]
            #![trigger has_key(entries, other)]
            other != key ==> has_key(swap_remove(entries, key), other) == has_key(entries, other),
        forall|other: Seq<char>|
            #![trigger lookup(swap_remove(entries, key), other)]
            #![trigger lookup(entries, other)]
            other != key ==> lookup(swap_remove(entries, key), other) == lookup(entries, other),
        has_key(entries, key) ==> swap_remove(entries, key).len() == entries.len() - 1,
{
    let after = swap_remove(entries, key);
    if has_key(entries, key) {
        let p = index_of(entries, key);
        let last = entries.len() - 1;
        lemma_has_key(entries, key);
        assert forall|i: int| 0 <= i < after.len() implies (#[trigger] after[i]) == (if i == p {
            entries[last]
        } else {
            entries[i]
        }) by {}
        assert(distinct_keys(after)) by {
            assert forall|i: int, j: int| 0 <= i < j < after.len() implies (#[trigger] after[i]).0
                != (#[trigger] after[j]).0 by {
                let si = if i == p { last } else { i };
                let sj = if j == p { last } else { j };
                if si < sj {
                    assert(entries[si].0 != entries[sj].0);
                } else {
                    assert(entries[sj].0 != entries[si].0);
                }
            }
        }
        if has_key(after, key) {
            lemma_has_key(after, key);
            let q = index_of(after, key);
            let sq = if q == p { last } else { q };
            assert(entries[sq].0 == key);
            lemma_index_of(entries, sq);
        }
        assert forall|other: Seq<char>| other != key implies has_key(after, other) == has_key(
            entries,
            other,
        ) && lookup(after, other) == lookup(entries, other) by {
            if has_key(entries, other) {
                lemma_has_key(entries, other);
                let q = index_of(entries, other);
                let t = if q == last { p } else { q };
                assert(after[t] == entries[q]);
                lemma_index_of(after, t);
            } else {
                lemma_absent(entries, other);
                if has_key(after, other) {
                    lemma_has_key(after, other);
                    let q = index_of(after, other);
                    let sq = if q == p { last } else { q };
                    assert(entries[sq].0 == other);
                }
            }
        }
    }
}

/// Of two values put under one name, the second is the one that stays.
pub proof fn lemma_put_twice<T>(entries: Entries<T>, key: Seq<char>, first: T, second: T)
    requires
        distinct_keys(entries),
    ensures
        put(put(entries, key, first), key, second) == put(entries, key, second),
{
    let between = put(entries, key, first);
    lemma_put(entries, key, first);
    if has_key(entries, key) {
        lemma_has_key(entries, key);
        let p = index_of(entries, key);
        assert(between[p].0 == key);
        lemma_index_of(between, p);
    } else {
        let p = entries.len() as int;
        assert(between[p] == (key, first));
        lemma_index_of(between, p);
    }
    assert(put(between, key, second) =~= put(entries, key, second));
}

/// Two lists with the same names at the same places agree on where each name
/// stands.
pub proof fn lemma_same_keys<T, U>(left: Entries<T>, right: Entries<U>, key: Seq<char>)
    requires
        same_keys(left, right),
        distinct_keys(left),
    ensures
        distinct_keys(right),
        has_key(right, key) == has_key(left, key),
        has_key(left, key) ==> index_of(right, key) == index_of(left, key),
        keys(right) == keys(left),
{
    assert forall|i: int, j: int| 0 <= i < j < right.len() implies (#[trigger] right[i]).0 != (
    #[trigger] right[j]).0 by {
        assert(left[i].0 != left[j].0);
    }
    if has_key(left, key) {
        lemma_has_key(left, key);
        let p = index_of(left, key);
        assert(right[p].0 == key);
        lemma_index_of(right, p);
    }
    if has_key(right, key) {
        lemma_has_key(right, key);
        let p = index_of(right, key);
        assert(left[p].0 == key);
    }
    assert(keys(right) =~= keys(left));
}

} // verus!
