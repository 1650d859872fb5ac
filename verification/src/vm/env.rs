//! Tables of named values, kept in dictionary order of their names.

use vstd::prelude::*;
use crate::text::{
    bytes_eq, bytes_less, lemma_precedes_irreflexive, lemma_precedes_total,
    lemma_precedes_transitive, precedes, to_vec,
};

verus! {

/// Whether some entry of `entries` is called `key`.
pub open spec fn has_key<T>(entries: Seq<(Seq<u8>, T)>, key: Seq<u8>) -> bool {
    exists|i: int| 0 <= i < entries.len() && (#[trigger] entries[i]).0 == key
}

/// The index of an entry of `entries` that is called `key`.
pub open spec fn key_index<T>(entries: Seq<(Seq<u8>, T)>, key: Seq<u8>) -> int {
    choose|i: int| 0 <= i < entries.len() && (#[trigger] entries[i]).0 == key
}

/// The mapping from names to values that `entries` lists.
pub open spec fn entries_map<T>(entries: Seq<(Seq<u8>, T)>) -> Map<Seq<u8>, T> {
    Map::new(|key: Seq<u8>| has_key(entries, key), |key: Seq<u8>| entries[key_index(entries, key)].1)
}

/// Whether the names of `entries` stand in strictly rising dictionary order.
pub open spec fn sorted<T>(entries: Seq<(Seq<u8>, T)>) -> bool {
    forall|i: int, j: int|
        0 <= i < j < entries.len() ==> precedes((#[trigger] entries[i]).0, (#[trigger] entries[j]).0)
}

/// In a sorted listing a name occurs once, so the mapping holds the value
/// that stands beside it.
pub proof fn lemma_map_at<T>(entries: Seq<(Seq<u8>, T)>, i: int)
    requires
        sorted(entries),
        0 <= i < entries.len(),
    ensures
        entries_map(entries).contains_key(entries[i].0),
        entries_map(entries)[entries[i].0] == entries[i].1,
        key_index(entries, entries[i].0) == i,
{
    let key = entries[i].0;
    let j = key_index(entries, key);
    lemma_precedes_irreflexive(key, 0);
    if j < i {
        assert(precedes(entries[j].0, entries[i].0));
    } else if i < j {
        assert(precedes(entries[i].0, entries[j].0));
    }
}

/// A sorted listing is determined by the mapping it lists.
pub proof fn lemma_sorted_unique<T>(first: Seq<(Seq<u8>, T)>, second: Seq<(Seq<u8>, T)>)
    requires
        sorted(first),
        sorted(second),
        entries_map(first) == entries_map(second),
    ensures
        first == second,
    decreases first.len(),
{
    if first.len() == 0 {
        if second.len() > 0 {
            lemma_map_at(second, 0);
            assert(has_key(first, second[0].0));
        }
        assert(first =~= second);
    } else if second.len() == 0 {
        lemma_map_at(first, 0);
        assert(has_key(second, first[0].0));
    } else {
        let n = first.len() - 1;
        let m = second.len() - 1;
        // The last names agree: each is the greatest name of the mapping.
        lemma_map_at(first, n);
        lemma_map_at(second, m);
        assert(has_key(second, first[n].0));
        assert(has_key(first, second[m].0));
        let j = key_index(second, first[n].0);
        let i = key_index(first, second[m].0);
        if j < m && i < n {
            assert(precedes(second[j].0, second[m].0));
            assert(precedes(first[i].0, first[n].0));
            lemma_precedes_transitive(first[n].0, second[m].0, first[n].0, 0);
            lemma_precedes_irreflexive(first[n].0, 0);
        } else if j < m {
            assert(precedes(second[j].0, second[m].0));
            lemma_precedes_irreflexive(first[n].0, 0);
        } else if i < n {
            assert(precedes(first[i].0, first[n].0));
            lemma_precedes_irreflexive(second[m].0, 0);
        }
        assert(first[n].0 == second[m].0);
        assert(first[n].1 == second[m].1);
        let a = first.drop_last();
        let b = second.drop_last();
        assert(sorted(a)) by {
            assert forall|x: int, y: int| 0 <= x < y < a.len() implies precedes(
                (#[trigger] a[x]).0,
                (#[trigger] a[y]).0,
            ) by {
                assert(precedes(first[x].0, first[y].0));
            }
        }
        assert(sorted(b)) by {
            assert forall|x: int, y: int| 0 <= x < y < b.len() implies precedes(
                (#[trigger] b[x]).0,
                (#[trigger] b[y]).0,
            ) by {
                assert(precedes(second[x].0, second[y].0));
            }
        }
        lemma_drop_last_map(first);
        lemma_drop_last_map(second);
        lemma_sorted_unique(a, b);
        assert(first =~= a.push(first[n]));
        assert(second =~= b.push(second[m]));
    }
}

/// Without its last entry a sorted listing lists the same mapping without
/// that entry's name.
pub proof fn lemma_drop_last_map<T>(entries: Seq<(Seq<u8>, T)>)
    requires
        sorted(entries),
        entries.len() > 0,
    ensures
        entries_map(entries.drop_last()) == entries_map(entries).remove(entries.last().0),
{
    let rest = entries.drop_last();
    let n = entries.len() - 1;
    let last = entries[n].0;
    lemma_precedes_irreflexive(last, 0);
    assert forall|key: Seq<u8>| has_key(rest, key) <==> (has_key(entries, key) && key != last) by {
        if has_key(rest, key) {
            let i = key_index(rest, key);
            assert(entries[i].0 == key);
            assert(precedes(entries[i].0, entries[n].0));
        }
        if has_key(entries, key) && key != last {
            let i = key_index(entries, key);
            assert(rest[i].0 == key);
        }
    }
    assert forall|key: Seq<u8>| has_key(rest, key) implies entries_map(rest)[key] == entries_map(
        entries,
    )[key] by {
        let i = key_index(rest, key);
        assert(sorted(rest)) by {
            assert forall|x: int, y: int| 0 <= x < y < rest.len() implies precedes(
                (#[trigger] rest[x]).0,
                (#[trigger] rest[y]).0,
            ) by {
                assert(precedes(entries[x].0, entries[y].0));
            }
        }
        lemma_map_at(rest, i);
        assert(entries[i].0 == key);
        lemma_map_at(entries, i);
    }
    assert(entries_map(rest) =~= entries_map(entries).remove(last));
}

/// A table of named values. Its entries stand in dictionary order of their
/// names, and no name occurs twice.
#[derive(Debug, PartialEq, Eq)]
pub struct Table<V> {
    entries: Vec<(Vec<u8>, V)>,
}

impl<V: DeepView> Table<V> {
    /// The entries in the order in which they stand.
    pub closed spec fn listing(&self) -> Seq<(Seq<u8>, V::V)> {
        Seq::new(self.entries@.len(), |i: int| (self.entries@[i].0@, self.entries@[i].1.deep_view()))
    }

    /// The mapping from names to values.
    pub open spec fn map(&self) -> Map<Seq<u8>, V::V> {
        entries_map(self.listing())
    }

    /// The names stand in strictly rising dictionary order.
    pub open spec fn wf(&self) -> bool {
        sorted(self.listing())
    }

    /// An empty table.
    pub fn new() -> (r: Self)
        ensures
            r.wf(),
            r.listing() == Seq::<(Seq<u8>, V::V)>::empty(),
            r.map() == Map::<Seq<u8>, V::V>::empty(),
    {
        let r = Table { entries: Vec::new() };
        assert(r.listing() =~= Seq::<(Seq<u8>, V::V)>::empty());
        assert(r.map() =~= Map::<Seq<u8>, V::V>::empty());
        r
    }

    /// The number of entries.
    pub fn len(&self) -> (n: usize)
        ensures
            n == self.listing().len(),
    {
        self.entries.len()
    }

    /// The name of the entry at `i`.
    pub fn name_at(&self, i: usize) -> (r: &Vec<u8>)
        requires
            i < self.listing().len(),
        ensures
            r@ == self.listing()[i as int].0,
    {
        &self.entries[i].0
    }

    /// The value of the entry at `i`.
    pub fn value_at(&self, i: usize) -> (r: &V)
        requires
            i < self.listing().len(),
        ensures
            r.deep_view() == self.listing()[i as int].1,
    {
        &self.entries[i].1
    }

    /// The index of the first entry whose name does not come before `key`.
    fn position(&self, key: &[u8]) -> (p: usize)
        ensures
            p <= self.listing().len(),
            forall|i: int| 0 <= i < p ==> precedes((#[trigger] self.listing()[i]).0, key@),
            p < self.listing().len() ==> !precedes(self.listing()[p as int].0, key@),
    {
        let mut p: usize = 0;
        while p < self.entries.len() && bytes_less(self.entries[p].0.as_slice(), key)
            invariant
                p <= self.entries@.len(),
                forall|i: int| 0 <= i < p ==> precedes((#[trigger] self.listing()[i]).0, key@),
            decreases self.entries@.len() - p,
        {
            p += 1;
        }
        p
    }

    /// The value called `key`, if there is one.
    pub fn get(&self, key: &[u8]) -> (r: Option<&V>)
        requires
            self.wf(),
        ensures
            match r {
                Some(value) => self.map().contains_key(key@) && self.map()[key@] == value.deep_view(),
                None => !self.map().contains_key(key@),
            },
    {
        let p = self.position(key);
        if p < self.entries.len() && bytes_eq(self.entries[p].0.as_slice(), key) {
            proof {
                lemma_map_at(self.listing(), p as int);
            }
            Some(&self.entries[p].1)
        } else {
            proof {
                self.lemma_absent(key@, p as int);
            }
            None
        }
    }

    /// A name that is not at the place where it would stand is nowhere.
    proof fn lemma_absent(&self, key: Seq<u8>, p: int)
        requires
            self.wf(),
            0 <= p <= self.listing().len(),
            forall|i: int| 0 <= i < p ==> precedes((#[trigger] self.listing()[i]).0, key),
            p < self.listing().len() ==> !precedes(self.listing()[p].0, key) && self.listing()[p].0
                != key,
        ensures
            !has_key(self.listing(), key),
            forall|i: int| p <= i < self.listing().len() ==> precedes(key, (#[trigger] self.listing()[i]).0),
    {
        let entries = self.listing();
        lemma_precedes_irreflexive(key, 0);
        if p < entries.len() {
            if !precedes(key, entries[p].0) {
                lemma_precedes_total(key, entries[p].0, 0);
            }
            assert forall|i: int| p <= i < entries.len() implies precedes(key, (#[trigger] entries[i]).0) by {
                if p < i {
                    assert(precedes(entries[p].0, entries[i].0));
                    lemma_precedes_transitive(key, entries[p].0, entries[i].0, 0);
                }
            }
        }
        if has_key(entries, key) {
            let i = key_index(entries, key);
            if i < p {
                assert(precedes(entries[i].0, key));
            } else {
                assert(precedes(key, entries[i].0));
            }
        }
    }

    /// Two tables that hold the same mapping list it in the same order.
    pub proof fn lemma_listing_unique(&self, other: &Self)
        requires
            self.wf(),
            other.wf(),
            self.map() == other.map(),
        ensures
            self.listing() == other.listing(),
    {
        lemma_sorted_unique(self.listing(), other.listing());
    }

    /// The order in which two names were bound leaves no trace: tables filled
    /// with the same bindings in either order list them alike.
    pub proof fn lemma_insertion_order(
        &self,
        other: &Self,
        start: Map<Seq<u8>, V::V>,
        a: Seq<u8>,
        x: V::V,
        b: Seq<u8>,
        y: V::V,
    )
        requires
            self.wf(),
            other.wf(),
            a != b,
            self.map() == start.insert(a, x).insert(b, y),
            other.map() == start.insert(b, y).insert(a, x),
        ensures
            self.listing() == other.listing(),
    {
        assert(start.insert(a, x).insert(b, y) =~= start.insert(b, y).insert(a, x));
        self.lemma_listing_unique(other);
    }

    /// A table with the names of this one, in the same order, and beside
    /// each name the value that stands at its place in `values`.
    pub fn with_values<W: DeepView>(&self, values: Vec<W>) -> (r: Table<W>)
        requires
            self.wf(),
            values@.len() == self.listing().len(),
        ensures
            r.wf(),
            r.listing().len() == self.listing().len(),
            forall|i: int|
                0 <= i < self.listing().len() ==> (#[trigger] r.listing()[i]).0 == self.listing()[i].0
                    && r.listing()[i].1 == values@[i].deep_view(),
    {
        let mut values = values;
        let ghost given = values@;
        let ghost total = self.entries@.len();
        let mut entries: Vec<(Vec<u8>, W)> = Vec::new();
        let mut n: usize = self.entries.len();
        while n > 0
            invariant
                n <= total,
                total == self.entries@.len(),
                given.len() == total,
                values@ == given.subrange(0, n as int),
                entries@.len() == total - n,
                forall|i: int|
                    0 <= i < entries@.len() ==> (#[trigger] entries@[i]).0@ == self.entries@[n + i].0@
                        && entries@[i].1 == given[n + i],
            decreases n,
        {
            let ghost before = entries@;
            n -= 1;
            if let Some(value) = values.pop() {
                entries.insert(0, (to_vec(self.entries[n].0.as_slice()), value));
            }
            assert(values@ =~= given.subrange(0, n as int));
            assert forall|i: int| 0 <= i < entries@.len() implies (#[trigger] entries@[i]).0@
                == self.entries@[n + i].0@ && entries@[i].1 == given[n + i] by {
                if i > 0 {
                    assert(entries@[i] == before[i - 1]);
                }
            }
        }
        let r = Table { entries };
        proof {
            let mine = self.listing();
            let theirs = r.listing();
            assert forall|i: int, j: int| 0 <= i < j < theirs.len() implies precedes(
                (#[trigger] theirs[i]).0,
                (#[trigger] theirs[j]).0,
            ) by {
                assert(precedes(mine[i].0, mine[j].0));
            }
        }
        r
    }

    /// Removes the entry called `key`, if there is one, and returns its value.
    pub fn remove(&mut self, key: &[u8]) -> (r: Option<V>)
        requires
            old(self).wf(),
        ensures
            final(self).wf(),
            final(self).map() == old(self).map().remove(key@),
            match r {
                Some(value) => old(self).map().contains_key(key@) && old(self).map()[key@]
                    == value.deep_view(),
                None => !old(self).map().contains_key(key@),
            },
    {
        let p = self.position(key);
        let ghost before = self.listing();
        if p < self.entries.len() && bytes_eq(self.entries[p].0.as_slice(), key) {
            proof {
                lemma_map_at(before, p as int);
                lemma_precedes_irreflexive(key@, 0);
            }
            let entry = self.entries.remove(p);
            proof {
                let after = self.listing();
                assert(after =~= before.remove(p as int));
                assert forall|i: int, j: int| 0 <= i < j < after.len() implies precedes(
                    (#[trigger] after[i]).0,
                    (#[trigger] after[j]).0,
                ) by {
                    let x = if i < p { i } else { i + 1 };
                    let y = if j < p { j } else { j + 1 };
                    assert(precedes(before[x].0, before[y].0));
                }
                assert forall|q: Seq<u8>| has_key(after, q) <==> (q != key@ && has_key(before, q)) by {
                    if has_key(after, q) {
                        let i = key_index(after, q);
                        let x = if i < p { i } else { i + 1 };
                        assert(before[x].0 == q);
                        if x < p {
                            assert(precedes(before[x].0, before[p as int].0));
                        } else {
                            assert(precedes(before[p as int].0, before[x].0));
                        }
                    }
                    if q != key@ && has_key(before, q) {
                        let i = key_index(before, q);
                        if i < p {
                            assert(after[i].0 == q);
                        } else {
                            assert(after[i - 1].0 == q);
                        }
                    }
                }
                assert forall|q: Seq<u8>| has_key(after, q) implies entries_map(after)[q]
                    == entries_map(before)[q] by {
                    let i = key_index(after, q);
                    let x = if i < p { i } else { i + 1 };
                    lemma_map_at(after, i);
                    assert(before[x].0 == q);
                    lemma_map_at(before, x);
                }
                assert(entries_map(after) =~= entries_map(before).remove(key@));
            }
            Some(entry.1)
        } else {
            proof {
                self.lemma_absent(key@, p as int);
                assert(entries_map(before) =~= entries_map(before).remove(key@));
            }
            None
        }
    }

    /// Binds `key` to `value`, in place of the value that `key` had, if any.
    pub fn insert(&mut self, key: Vec<u8>, value: V)
        requires
            old(self).wf(),
        ensures
            final(self).wf(),
            final(self).map() == old(self).map().insert(key@, value.deep_view()),
    {
        let p = self.position(key.as_slice());
        let ghost before = self.listing();
        let ghost entry = (key@, value.deep_view());
        if p < self.entries.len() && bytes_eq(self.entries[p].0.as_slice(), key.as_slice()) {
            self.entries[p] = (key, value);
            proof {
                let after = self.listing();
                assert(after =~= before.update(p as int, entry));
                assert forall|i: int, j: int| 0 <= i < j < after.len() implies precedes(
                    (#[trigger] after[i]).0,
                    (#[trigger] after[j]).0,
                ) by {
                    assert(precedes(before[i].0, before[j].0));
                }
                assert forall|q: Seq<u8>| has_key(after, q) <==> (q == key@ || has_key(before, q)) by {
                    if has_key(after, q) {
                        let i = key_index(after, q);
                        assert(before[i].0 == q);
                    }
                    if has_key(before, q) {
                        let i = key_index(before, q);
                        assert(after[i].0 == q);
                    }
                    if q == key@ {
                        assert(after[p as int].0 == q);
                    }
                }
                assert forall|q: Seq<u8>| has_key(after, q) implies entries_map(after)[q] == (if q
                    == key@ {
                    value.deep_view()
                } else {
                    entries_map(before)[q]
                }) by {
                    let i = key_index(after, q);
                    lemma_map_at(after, i);
                    if q != key@ {
                        assert(before[i].0 == q);
                        lemma_map_at(before, i);
                    } else {
                        lemma_map_at(after, p as int);
                    }
                }
                assert(entries_map(after) =~= entries_map(before).insert(key@, value.deep_view()));
            }
        } else {
            proof {
                self.lemma_absent(key@, p as int);
            }
            self.entries.insert(p, (key, value));
            proof {
                let after = self.listing();
                assert(after =~= before.insert(p as int, entry));
                assert forall|i: int, j: int| 0 <= i < j < after.len() implies precedes(
                    (#[trigger] after[i]).0,
                    (#[trigger] after[j]).0,
                ) by {
                    if j < p {
                        assert(precedes(before[i].0, before[j].0));
                    } else if j == p {
                        assert(precedes(before[i].0, key@));
                    } else if i < p {
                        assert(precedes(before[i].0, before[j - 1].0));
                    } else if i == p {
                        assert(precedes(key@, before[j - 1].0));
                    } else {
                        assert(precedes(before[i - 1].0, before[j - 1].0));
                    }
                }
                assert forall|q: Seq<u8>| has_key(after, q) <==> (q == key@ || has_key(before, q)) by {
                    if has_key(after, q) {
                        let i = key_index(after, q);
                        if i < p {
                            assert(before[i].0 == q);
                        } else if i > p {
                            assert(before[i - 1].0 == q);
                        }
                    }
                    if has_key(before, q) {
                        let i = key_index(before, q);
                        if i < p {
                            assert(after[i].0 == q);
                        } else {
                            assert(after[i + 1].0 == q);
                        }
                    }
                    if q == key@ {
                        assert(after[p as int].0 == q);
                    }
                }
                assert forall|q: Seq<u8>| has_key(after, q) implies entries_map(after)[q] == (if q
                    == key@ {
                    value.deep_view()
                } else {
                    entries_map(before)[q]
                }) by {
                    let i = key_index(after, q);
                    lemma_map_at(after, i);
                    if q != key@ {
                        if i < p {
                            assert(before[i].0 == q);
                            lemma_map_at(before, i);
                        } else {
                            assert(before[i - 1].0 == q);
                            lemma_map_at(before, i - 1);
                        }
                    } else {
                        lemma_map_at(after, p as int);
                    }
                }
                assert(entries_map(after) =~= entries_map(before).insert(key@, value.deep_view()));
            }
        }
    }
}

} // verus!
