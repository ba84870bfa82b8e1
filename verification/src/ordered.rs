//! An insertion-ordered map from names to values.
//!
//! The order and the hashing are those of `indexmap::IndexMap`: the map keeps
//! one `IndexMap<String, usize>` that sends each name to the cell in which its
//! value lies, so that what is said of `IndexMap` is said once, of one type,
//! whatever the values of a map are. What `IndexMap` does is stated, not
//! proved, in the contracts of the few functions at the top of this file;
//! everything else is verified against them. A cell is filled when a value
//! comes in and emptied when the value leaves; cells are not used again.

use crate::assoc::{
    distinct_keys, has_key, index_of, keys, lemma_has_key, lemma_index_of, lemma_put,
    lemma_swap_remove, lookup, put, swap_remove, Entries,
};
use indexmap::IndexMap;
use vstd::prelude::*;

verus! {

#[verifier::external_type_specification]
#[verifier::external_body]
#[verifier::reject_recursive_types(K)]
#[verifier::reject_recursive_types(V)]
#[verifier::reject_recursive_types(S)]
pub struct ExIndexMap<K, V, S>(IndexMap<K, V, S>);

/// The pairs that an `IndexMap<String, usize>` holds, in its order.
pub uninterp spec fn index_entries(index: IndexMap<String, usize>) -> Seq<(Seq<char>, usize)>;

/// `IndexMap::new`: a map without pairs.
#[verifier::external_body]
fn index_new() -> (index: IndexMap<String, usize>)
    ensures
        index_entries(index) == Seq::<(Seq<char>, usize)>::empty(),
{
    IndexMap::new()
}

/// `IndexMap::len`: the number of pairs.
#[verifier::external_body]
fn index_len(index: &IndexMap<String, usize>) -> (n: usize)
    ensures
        n == index_entries(*index).len(),
{
    index.len()
}

/// `IndexMap::get_index`: the pair at a position of the order, or nothing
/// beyond the last one.
#[verifier::external_body]
fn index_at(index: &IndexMap<String, usize>, position: usize) -> (pair: Option<(&String, usize)>)
    ensures
        position >= index_entries(*index).len() ==> pair is None,
        position < index_entries(*index).len() ==> pair is Some && pair.unwrap().0@
            == index_entries(*index)[position as int].0 && pair.unwrap().1 == index_entries(
            *index,
        )[position as int].1,
{
    index.get_index(position).map(|(name, cell)| (name, *cell))
}

/// `IndexMap::get`: the value stored under a name, if the name is present.
#[verifier::external_body]
fn index_get(index: &IndexMap<String, usize>, name: &str) -> (cell: Option<usize>)
    ensures
        cell == lookup(index_entries(*index), name@),
{
    index.get(name).copied()
}

/// `IndexMap::insert`: a name that is present keeps its place and gets the new
/// value, a new name goes last; the value that was there before is returned.
#[verifier::external_body]
fn index_insert(index: &mut IndexMap<String, usize>, name: String, cell: usize) -> (before: Option<
    usize,
>)
    ensures
        index_entries(*final(index)) == put(index_entries(*old(index)), name@, cell),
        before == lookup(index_entries(*old(index)), name@),
{
    index.insert(name, cell)
}

/// `IndexMap::swap_remove`: the pair of a name leaves and the last pair takes
/// its place; the value that was there is returned.
#[verifier::external_body]
fn index_swap_remove(index: &mut IndexMap<String, usize>, name: &str) -> (before: Option<usize>)
    ensures
        index_entries(*final(index)) == swap_remove(index_entries(*old(index)), name@),
        before == lookup(index_entries(*old(index)), name@),
{
    index.swap_remove(name)
}

/// An insertion-ordered map from names to values of type `V`.
///
/// Its view is the sequence of its `(name, value)` pairs in order; no name
/// occurs twice in it.
#[derive(Debug)]
pub struct OrderedMap<V> {
    index: IndexMap<String, usize>,
    cells: Vec<Option<V>>,
}

/// Every name points to a filled cell of its own.
spec fn cells_match<V>(index: Seq<(Seq<char>, usize)>, cells: Seq<Option<V>>) -> bool {
    &&& distinct_keys(index)
    &&& forall|i: int|
        0 <= i < index.len() ==> (#[trigger] index[i]).1 < cells.len() && cells[index[i].1 as int]
            is Some
    &&& forall|i: int, j: int|
        0 <= i < j < index.len() ==> (#[trigger] index[i]).1 != (#[trigger] index[j]).1
}

/// The pairs that an index and its cells stand for.
spec fn pairs_of<V>(index: Seq<(Seq<char>, usize)>, cells: Seq<Option<V>>) -> Entries<
    V,
> {
    Seq::new(index.len(), |i: int| (index[i].0, cells[index[i].1 as int].unwrap()))
}

impl<V> View for OrderedMap<V> {
    type V = Seq<(Seq<char>, V)>;

    closed spec fn view(&self) -> Seq<(Seq<char>, V)> {
        pairs_of(index_entries(self.index), self.cells@)
    }
}

proof fn lemma_pairs_keys<V>(index: Seq<(Seq<char>, usize)>, cells: Seq<Option<V>>, key: Seq<char>)
    requires
        cells_match(index, cells),
    ensures
        distinct_keys(pairs_of(index, cells)),
        has_key(pairs_of(index, cells), key) == has_key(index, key),
        has_key(index, key) ==> index_of(pairs_of(index, cells), key) == index_of(index, key),
        lookup(pairs_of(index, cells), key) == match lookup(index, key) {
            Some(cell) => cells[cell as int],
            None => None,
        },
{
    let pairs = pairs_of(index, cells);
    assert forall|i: int| 0 <= i < index.len() implies (#[trigger] pairs[i]).0 == index[i].0 by {}
    assert forall|i: int, j: int| 0 <= i < j < pairs.len() implies (#[trigger] pairs[i]).0 != (
    #[trigger] pairs[j]).0 by {
        assert(index[i].0 != index[j].0);
    }
    if has_key(index, key) {
        lemma_has_key(index, key);
        let p = index_of(index, key);
        assert(pairs[p].0 == key);
        lemma_index_of(pairs, p);
    }
    if has_key(pairs, key) {
        lemma_has_key(pairs, key);
        let p = index_of(pairs, key);
        assert(index[p].0 == key);
    }
}

impl<V: Clone> Clone for OrderedMap<V> {
    /// A map with the same names in the same order, each with a copy of its
    /// value.
    fn clone(&self) -> (copy: Self)
        ensures
            keys(copy@) == keys(self@),
            forall|i: int| 0 <= i < self@.len() ==> cloned(self@[i].1, #[trigger] copy@[i].1),
    {
        let mut copy: OrderedMap<V> = OrderedMap::new();
        let count = self.len();
        let mut position: usize = 0;
        assert(keys(copy@) =~= keys(self@).subrange(0, 0));
        while position < count
            invariant
                position <= count,
                count == self@.len(),
                distinct_keys(self@),
                copy@.len() == position,
                keys(copy@) == keys(self@).subrange(0, position as int),
                forall|i: int| 0 <= i < position ==> cloned(self@[i].1, #[trigger] copy@[i].1),
            decreases count - position,
        {
            let ghost reached = copy@;
            match self.get_index(position) {
                Some((name, value)) => {
                    proof {
                        if has_key(reached, name@) {
                            lemma_has_key(reached, name@);
                            let p = index_of(reached, name@);
                            assert(keys(reached)[p] == keys(self@)[p]);
                            assert(self@[p].0 != self@[position as int].0);
                        }
                    }
                    copy.insert(name.clone(), value.clone());
                    assert(keys(copy@) =~= keys(self@).subrange(0, position + 1));
                },
                None => {},
            }
            position = position + 1;
        }
        assert(keys(self@).subrange(0, position as int) =~= keys(self@));
        copy
    }
}

impl<V> OrderedMap<V> {
    #[verifier::type_invariant]
    spec fn well_formed(&self) -> bool {
        cells_match(index_entries(self.index), self.cells@)
    }

    /// A map without pairs.
    pub fn new() -> (map: Self)
        ensures
            map@ == Seq::<(Seq<char>, V)>::empty(),
    {
        let map = OrderedMap { index: index_new(), cells: Vec::new() };
        assert(map@ =~= Seq::<(Seq<char>, V)>::empty());
        map
    }

    /// The number of pairs.
    pub fn len(&self) -> (n: usize)
        ensures
            n == self@.len(),
            distinct_keys(self@),
    {
        proof {
            use_type_invariant(self);
            lemma_pairs_keys(index_entries(self.index), self.cells@, Seq::empty());
        }
        index_len(&self.index)
    }

    /// Whether the map holds no pair.
    pub fn is_empty(&self) -> (empty: bool)
        ensures
            empty == (self@.len() == 0),
    {
        index_len(&self.index) == 0
    }

    /// The value stored under `name`, if any.
    pub fn get(&self, name: &str) -> (value: Option<&V>)
        ensures
            distinct_keys(self@),
            match value {
                Some(found) => lookup(self@, name@) == Some(*found),
                None => lookup(self@, name@) is None,
            },
    {
        proof {
            use_type_invariant(self);
            lemma_pairs_keys(index_entries(self.index), self.cells@, name@);
            if has_key(index_entries(self.index), name@) {
                lemma_has_key(index_entries(self.index), name@);
            }
        }
        match index_get(&self.index, name) {
            Some(cell) => self.cells[cell].as_ref(),
            None => None,
        }
    }

    /// The pair at `position` of the order, or nothing beyond the last pair.
    pub fn get_index(&self, position: usize) -> (pair: Option<(&String, &V)>)
        ensures
            distinct_keys(self@),
            position >= self@.len() ==> pair is None,
            position < self@.len() ==> pair is Some && pair.unwrap().0@ == self@[position as int].0
                && *pair.unwrap().1 == self@[position as int].1,
    {
        proof {
            use_type_invariant(self);
            lemma_pairs_keys(index_entries(self.index), self.cells@, Seq::empty());
        }
        match index_at(&self.index, position) {
            Some((name, cell)) => {
                match self.cells[cell].as_ref() {
                    Some(value) => Some((name, value)),
                    None => None,
                }
            },
            None => None,
        }
    }

    /// Stores `value` under `name` and returns the value that was there: a
    /// name that is present keeps its place, a new name goes last.
    pub fn insert(&mut self, name: String, value: V) -> (before: Option<V>)
        ensures
            final(self)@ == put(old(self)@, name@, value),
            before == lookup(old(self)@, name@),
            distinct_keys(old(self)@),
            distinct_keys(final(self)@),
    {
        // the map is taken apart and put together again at the end: index and cells
        // change one after the other, and in between they do not match
        let mut taken = Self::new();
        core::mem::swap(self, &mut taken);
        proof {
            use_type_invariant(&taken);
        }
        let OrderedMap { mut index, mut cells } = taken;
        let ghost index0 = index_entries(index);
        let ghost cells0 = cells@;
        let ghost key = name@;
        let cell = cells.len();
        cells.push(Some(value));
        let ghost cells1 = cells@;
        proof {
            assert(cells_match(index0, cells1));
            assert(pairs_of(index0, cells1) =~= pairs_of(index0, cells0));
            lemma_pairs_keys(index0, cells0, key);
            lemma_put(index0, key, cell);
            lemma_put(pairs_of(index0, cells0), key, value);
        }
        let replaced = index_insert(&mut index, name, cell);
        let ghost index1 = index_entries(index);
        proof {
            if has_key(index0, key) {
                lemma_has_key(index0, key);
                let p = index_of(index0, key);
                assert forall|i: int| 0 <= i < index1.len() implies (#[trigger] index1[i]).1
                    < cells1.len() && cells1[index1[i].1 as int] is Some by {
                    if i != p {
                        assert(index1[i] == index0[i]);
                    }
                }
                assert forall|i: int, j: int| 0 <= i < j < index1.len() implies (
                #[trigger] index1[i]).1 != (#[trigger] index1[j]).1 by {
                    if i != p {
                        assert(index1[i] == index0[i]);
                    }
                    if j != p {
                        assert(index1[j] == index0[j]);
                    }
                }
            } else {
                assert forall|i: int| 0 <= i < index1.len() implies (#[trigger] index1[i]).1
                    < cells1.len() && cells1[index1[i].1 as int] is Some by {
                    if i < index0.len() {
                        assert(index1[i] == index0[i]);
                    }
                }
                assert forall|i: int, j: int| 0 <= i < j < index1.len() implies (
                #[trigger] index1[i]).1 != (#[trigger] index1[j]).1 by {
                    assert(index1[i] == index0[i]);
                    if j < index0.len() {
                        assert(index1[j] == index0[j]);
                    }
                }
            }
            assert(cells_match(index1, cells1));
            assert(pairs_of(index1, cells1) =~= put(pairs_of(index0, cells0), key, value));
        }
        match replaced {
            Some(stale) => {
                cells.push(None);
                let before = cells.swap_remove(stale);
                proof {
                    let cells2 = cells@;
                    lemma_has_key(index0, key);
                    let p = index_of(index0, key);
                    assert(index0[p].1 == stale);
                    assert forall|i: int| 0 <= i < index1.len() implies (#[trigger] index1[i]).1
                        != stale by {
                        if i != p {
                            assert(index1[i] == index0[i]);
                            if i < p {
                                assert(index0[i].1 != index0[p].1);
                            } else {
                                assert(index0[p].1 != index0[i].1);
                            }
                        }
                    }
                    assert(cells_match(index1, cells2));
                    assert(pairs_of(index1, cells2) =~= pairs_of(index1, cells1));
                }
                *self = OrderedMap { index, cells };
                before
            },
            None => {
                *self = OrderedMap { index, cells };
                None
            },
        }
    }

    /// The pairs in order, handed over to the caller.
    pub fn into_entries(self) -> (pairs: Vec<(String, V)>)
        ensures
            distinct_keys(self@),
            pairs@.len() == self@.len(),
            forall|i: int|
                0 <= i < pairs@.len() ==> (#[trigger] pairs@[i]).0@ == self@[i].0 && pairs@[i].1
                    == self@[i].1,
    {
        proof {
            use_type_invariant(&self);
            lemma_pairs_keys(index_entries(self.index), self.cells@, Seq::empty());
        }
        let ghost all = self@;
        let OrderedMap { index, mut cells } = self;
        let ghost index0 = index_entries(index);
        let ghost cells0 = cells@;
        let count = index_len(&index);
        let mut pairs: Vec<(String, V)> = Vec::new();
        let mut position: usize = 0;
        while position < count
            invariant
                count == index0.len(),
                index0 == index_entries(index),
                cells_match(index0, cells0),
                all == pairs_of(index0, cells0),
                position <= count,
                cells@.len() == cells0.len(),
                forall|j: int|
                    position <= j < index0.len() ==> cells@[(#[trigger] index0[j]).1 as int]
                        == cells0[index0[j].1 as int],
                pairs@.len() == position,
                forall|i: int|
                    0 <= i < position ==> (#[trigger] pairs@[i]).0@ == all[i].0 && pairs@[i].1
                        == all[i].1,
            decreases count - position,
        {
            match index_at(&index, position) {
                Some((name, cell)) => {
                    assert(index0[position as int].1 == cell);
                    let ghost before = cells@;
                    cells.push(None);
                    let taken = cells.swap_remove(cell);
                    proof {
                        assert forall|j: int| position < j < index0.len() implies cells@[(
                        #[trigger] index0[j]).1 as int] == cells0[index0[j].1 as int] by {
                            assert(index0[position as int].1 != index0[j].1);
                            assert(before[index0[j].1 as int] == cells0[index0[j].1 as int]);
                        }
                    }
                    match taken {
                        Some(value) => {
                            pairs.push((name.clone(), value));
                        },
                        None => {},
                    }
                },
                None => {},
            }
            position = position + 1;
        }
        pairs
    }

    /// Removes the pair of `name` and returns its value; the last pair takes
    /// the place of the one that left.
    pub fn swap_remove(&mut self, name: &str) -> (before: Option<V>)
        ensures
            final(self)@ == swap_remove(old(self)@, name@),
            before == lookup(old(self)@, name@),
            distinct_keys(old(self)@),
            distinct_keys(final(self)@),
    {
        // the map is taken apart and put together again at the end: index and cells
        // change one after the other, and in between they do not match
        let mut taken = Self::new();
        core::mem::swap(self, &mut taken);
        proof {
            use_type_invariant(&taken);
        }
        let OrderedMap { mut index, mut cells } = taken;
        let ghost index0 = index_entries(index);
        let ghost cells0 = cells@;
        proof {
            lemma_pairs_keys(index0, cells0, name@);
            lemma_swap_remove(index0, name@);
            lemma_swap_remove(pairs_of(index0, cells0), name@);
        }
        let removed = index_swap_remove(&mut index, name);
        let ghost index1 = index_entries(index);
        proof {
            if has_key(index0, name@) {
                lemma_has_key(index0, name@);
                let p = index_of(index0, name@);
                let last = index0.len() - 1;
                assert forall|i: int| 0 <= i < index1.len() implies (#[trigger] index1[i]) == (if i
                    == p {
                    index0[last]
                } else {
                    index0[i]
                }) by {}
                assert forall|i: int| 0 <= i < index1.len() implies (#[trigger] index1[i]).1
                    < cells0.len() && cells0[index1[i].1 as int] is Some && index1[i].1
                    != index0[p].1 by {
                    let s = if i == p { last } else { i };
                    assert(index1[i] == index0[s]);
                    if s < p {
                        assert(index0[s].1 != index0[p].1);
                    } else {
                        assert(index0[p].1 != index0[s].1);
                    }
                }
                assert forall|i: int, j: int| 0 <= i < j < index1.len() implies (
                #[trigger] index1[i]).1 != (#[trigger] index1[j]).1 by {
                    let si = if i == p { last } else { i };
                    let sj = if j == p { last } else { j };
                    assert(index1[i] == index0[si]);
                    assert(index1[j] == index0[sj]);
                    if si < sj {
                        assert(index0[si].1 != index0[sj].1);
                    } else {
                        assert(index0[sj].1 != index0[si].1);
                    }
                }
            }
            assert(cells_match(index1, cells0));
            assert(pairs_of(index1, cells0) =~= swap_remove(pairs_of(index0, cells0), name@));
        }
        match removed {
            Some(cell) => {
                cells.push(None);
                let before = cells.swap_remove(cell);
                proof {
                    let cells2 = cells@;
                    assert(cells_match(index1, cells2));
                    assert(pairs_of(index1, cells2) =~= pairs_of(index1, cells0));
                }
                *self = OrderedMap { index, cells };
                before
            },
            None => {
                *self = OrderedMap { index, cells };
                None
            },
        }
    }
}

} // verus!
