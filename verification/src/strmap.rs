//! A small map from strings to values that keeps its entries in the order in
//! which their keys first arrived.

use crate::text::str_eq;
use vstd::prelude::*;

verus! {

/// No two entries share a key.
pub open spec fn keys_distinct<V>(pairs: Seq<(Seq<char>, V)>) -> bool {
    forall|i: int, j: int| 0 <= i < j < pairs.len() ==> pairs[i].0 != pairs[j].0
}

/// Some entry of `pairs` has the key `key`.
pub open spec fn has_key<V>(pairs: Seq<(Seq<char>, V)>, key: Seq<char>) -> bool {
    exists|i: int| 0 <= i < pairs.len() && (#[trigger] pairs[i]).0 == key
}

/// The place of an entry of `pairs` with the key `key`.
pub open spec fn place_of_key<V>(pairs: Seq<(Seq<char>, V)>, key: Seq<char>) -> int {
    choose|i: int| 0 <= i < pairs.len() && (#[trigger] pairs[i]).0 == key
}

/// The keys of `pairs`, in order.
pub open spec fn keys_of<V>(pairs: Seq<(Seq<char>, V)>) -> Seq<Seq<char>> {
    Seq::new(pairs.len(), |i: int| pairs[i].0)
}

/// `pairs` read as a map.
pub open spec fn as_map<V>(pairs: Seq<(Seq<char>, V)>) -> Map<Seq<char>, V> {
    Map::new(|k: Seq<char>| has_key(pairs, k), |k: Seq<char>| pairs[place_of_key(pairs, k)].1)
}

/// With distinct keys, the map holds each entry under its key.
pub proof fn lemma_as_map_entry<V>(pairs: Seq<(Seq<char>, V)>, i: int)
    requires
        keys_distinct(pairs),
        0 <= i < pairs.len(),
    ensures
        as_map(pairs).dom().contains(pairs[i].0),
        as_map(pairs)[pairs[i].0] == pairs[i].1,
        place_of_key(pairs, pairs[i].0) == i,
{
    let j = place_of_key(pairs, pairs[i].0);
    assert(0 <= j < pairs.len() && pairs[j].0 == pairs[i].0);
    if j < i {
        assert(pairs[j].0 != pairs[i].0);
    }
    if i < j {
        assert(pairs[i].0 != pairs[j].0);
    }
}

/// A map keyed by strings. Its entries keep the order in which their keys
/// were first inserted; no key occurs twice.
#[derive(Debug)]
pub struct StrMap<V> {
    entries: Vec<(String, V)>,
}

impl<V> StrMap<V> {
    /// The entries, each key by its characters, in insertion order.
    pub closed spec fn pairs(self) -> Seq<(Seq<char>, V)> {
        Seq::new(self.entries@.len(), |i: int| (self.entries@[i].0@, self.entries@[i].1))
    }

    /// What holds of every map: no key occurs twice.
    #[verifier::type_invariant]
    pub open spec fn wf(self) -> bool {
        keys_distinct(self.pairs())
    }

    /// The map from each key to its value.
    pub open spec fn view(self) -> Map<Seq<char>, V> {
        as_map(self.pairs())
    }

    /// A map without entries.
    pub fn new() -> (m: Self)
        ensures
            m.pairs() == Seq::<(Seq<char>, V)>::empty(),
    {
        StrMap { entries: Vec::new() }
    }

    /// The number of entries.
    pub fn len(&self) -> (n: usize)
        ensures
            n == self.pairs().len(),
    {
        self.entries.len()
    }

    /// The place of `key` among the entries, if it is there.
    pub fn position(&self, key: &str) -> (r: Option<usize>)
        ensures
            keys_distinct(self.pairs()),
            match r {
                Some(i) => i < self.pairs().len() && self.pairs()[i as int].0 == key@,
                None => !has_key(self.pairs(), key@),
            },
    {
        proof {
            use_type_invariant(self);
        }
        let mut i: usize = 0;
        while i < self.entries.len()
            invariant
                i <= self.entries.len(),
                keys_distinct(self.pairs()),
                forall|j: int| 0 <= j < i ==> (#[trigger] self.pairs()[j]).0 != key@,
            decreases self.entries.len() - i,
        {
            if str_eq(self.entries[i].0.as_str(), key) {
                return Some(i);
            }
            i = i + 1;
        }
        None
    }

    /// Whether `key` has an entry.
    pub fn contains_key(&self, key: &str) -> (b: bool)
        ensures
            b == self@.dom().contains(key@),
    {
        self.position(key).is_some()
    }

    /// The value stored under `key`.
    pub fn get(&self, key: &str) -> (r: Option<&V>)
        ensures
            match r {
                Some(v) => self@.dom().contains(key@) && *v == self@[key@],
                None => !self@.dom().contains(key@),
            },
    {
        match self.position(key) {
            Some(i) => {
                proof {
                    lemma_as_map_entry(self.pairs(), i as int);
                }
                Some(&self.entries[i].1)
            },
            None => None,
        }
    }

    /// The key of the entry at place `i`.
    pub fn key_at(&self, i: usize) -> (k: &String)
        requires
            i < self.pairs().len(),
        ensures
            k@ == self.pairs()[i as int].0,
    {
        &self.entries[i].0
    }

    /// The value of the entry at place `i`.
    pub fn value_at(&self, i: usize) -> (v: &V)
        requires
            i < self.pairs().len(),
        ensures
            *v == self.pairs()[i as int].1,
    {
        &self.entries[i].1
    }

    /// Puts `value` in place of the value of the entry at place `i`, and
    /// hands back the old value.
    pub fn replace_at(&mut self, i: usize, value: V) -> (previous: V)
        requires
            i < old(self).pairs().len(),
        ensures
            final(self).pairs() == old(self).pairs().update(
                i as int,
                (old(self).pairs()[i as int].0, value),
            ),
            previous == old(self).pairs()[i as int].1,
    {
        proof {
            use_type_invariant(&*self);
        }
        let mut value = value;
        let mut entries: Vec<(String, V)> = Vec::new();
        core::mem::swap(&mut entries, &mut self.entries);
        core::mem::swap(&mut value, &mut entries[i].1);
        proof {
            let before = old(self).pairs();
            let after = Seq::new(entries@.len(), |j: int| (entries@[j].0@, entries@[j].1));
            assert(after =~= before.update(i as int, (before[i as int].0, entries@[i as int].1)));
            assert forall|a: int, b: int| 0 <= a < b < after.len() implies after[a].0
                != after[b].0 by {
                assert(before[a].0 != before[b].0);
            }
        }
        core::mem::swap(&mut entries, &mut self.entries);
        value
    }

    /// Takes out the entry at place `i`, and hands back its value. The
    /// entries behind it move up by one place.
    pub fn remove_at(&mut self, i: usize) -> (previous: V)
        requires
            i < old(self).pairs().len(),
        ensures
            final(self).pairs() == old(self).pairs().remove(i as int),
            previous == old(self).pairs()[i as int].1,
    {
        proof {
            use_type_invariant(&*self);
        }
        let mut entries: Vec<(String, V)> = Vec::new();
        core::mem::swap(&mut entries, &mut self.entries);
        let (_, value) = entries.remove(i);
        proof {
            let before = old(self).pairs();
            let after = Seq::new(entries@.len(), |j: int| (entries@[j].0@, entries@[j].1));
            assert(after =~= before.remove(i as int));
            assert forall|a: int, b: int| 0 <= a < b < after.len() implies after[a].0
                != after[b].0 by {
                let a0 = if a < i {
                    a
                } else {
                    a + 1
                };
                let b0 = if b < i {
                    b
                } else {
                    b + 1
                };
                assert(before[a0].0 != before[b0].0);
            }
        }
        core::mem::swap(&mut entries, &mut self.entries);
        value
    }

    /// Stores `value` under `key`: in place of the old value where the key
    /// is present, else as a new last entry.
    pub fn insert(&mut self, key: String, value: V)
        ensures
            final(self).pairs() == spec_insert(old(self).pairs(), key@, value),
    {
        proof {
            use_type_invariant(&*self);
        }
        let found = self.position(key.as_str());
        let mut entries: Vec<(String, V)> = Vec::new();
        core::mem::swap(&mut entries, &mut self.entries);
        match found {
            Some(i) => {
                proof {
                    lemma_as_map_entry(old(self).pairs(), i as int);
                }
                entries.set(i, (key, value));
            },
            None => {
                entries.push((key, value));
            },
        }
        proof {
            let before = old(self).pairs();
            let after = Seq::new(entries@.len(), |i: int| (entries@[i].0@, entries@[i].1));
            assert(after =~= spec_insert(before, key@, value));
            lemma_insert_keeps_distinct(before, key@, value);
        }
        core::mem::swap(&mut entries, &mut self.entries);
    }
}

/// Storing a value keeps the keys distinct.
pub proof fn lemma_insert_keeps_distinct<V>(pairs: Seq<(Seq<char>, V)>, key: Seq<char>, value: V)
    requires
        keys_distinct(pairs),
    ensures
        keys_distinct(spec_insert(pairs, key, value)),
{
    let after = spec_insert(pairs, key, value);
    if has_key(pairs, key) {
        let p = place_of_key(pairs, key);
        assert forall|i: int, j: int| 0 <= i < j < after.len() implies after[i].0 != after[j].0 by {
            assert(pairs[i].0 != pairs[j].0);
        }
    } else {
        assert forall|i: int, j: int| 0 <= i < j < after.len() implies after[i].0 != after[j].0 by {
            if j < pairs.len() {
                assert(pairs[i].0 != pairs[j].0);
            } else {
                assert(pairs[i].0 != key);
            }
        }
    }
}

/// `pairs` after `value` has been stored under `key`.
pub open spec fn spec_insert<V>(pairs: Seq<(Seq<char>, V)>, key: Seq<char>, value: V) -> Seq<
    (Seq<char>, V),
> {
    if has_key(pairs, key) {
        pairs.update(place_of_key(pairs, key), (key, value))
    } else {
        pairs.push((key, value))
    }
}

/// Storing a value changes the map at that key and nowhere else.
pub proof fn lemma_insert_as_map<V>(pairs: Seq<(Seq<char>, V)>, key: Seq<char>, value: V)
    requires
        keys_distinct(pairs),
    ensures
        as_map(spec_insert(pairs, key, value)) == as_map(pairs).insert(key, value),
{
    let after = spec_insert(pairs, key, value);
    lemma_insert_keeps_distinct(pairs, key, value);
    assert forall|k: Seq<char>| has_key(after, k) <==> (k == key || has_key(pairs, k)) by {
        if has_key(after, k) {
            let i = choose|i: int| 0 <= i < after.len() && (#[trigger] after[i]).0 == k;
            if k != key {
                assert(pairs[i].0 == k);
            }
        }
        if has_key(pairs, k) {
            let i = choose|i: int| 0 <= i < pairs.len() && (#[trigger] pairs[i]).0 == k;
            assert(after[i].0 == k);
        }
        if k == key {
            if has_key(pairs, key) {
                assert(after[place_of_key(pairs, key)].0 == k);
            } else {
                assert(after[pairs.len() as int].0 == k);
            }
        }
    }
    assert forall|k: Seq<char>| has_key(after, k) implies as_map(after)[k] == as_map(pairs).insert(
        key,
        value,
    )[k] by {
        let i = choose|i: int| 0 <= i < after.len() && (#[trigger] after[i]).0 == k;
        lemma_as_map_entry(after, i);
        if k != key {
            assert(pairs[i].0 == k);
            lemma_as_map_entry(pairs, i);
        }
    }
    assert(as_map(after) =~= as_map(pairs).insert(key, value));
}

impl<V: Clone> Clone for StrMap<V> {
    /// A copy with the same keys in the same order, each value a clone of
    /// the value at its place.
    fn clone(&self) -> (copy: Self)
        ensures
            keys_of(copy.pairs()) == keys_of(self.pairs()),
            forall|i: int|
                0 <= i < self.pairs().len() ==> cloned(
                    (#[trigger] self.pairs()[i]).1,
                    copy.pairs()[i].1,
                ),
    {
        proof {
            use_type_invariant(self);
        }
        let mut entries: Vec<(String, V)> = Vec::new();
        let mut i: usize = 0;
        while i < self.entries.len()
            invariant
                i <= self.entries@.len(),
                entries@.len() == i,
                forall|j: int| 0 <= j < i ==> (#[trigger] entries@[j]).0@ == self.entries@[j].0@,
                forall|j: int| 0 <= j < i ==> cloned(self.entries@[j].1, (#[trigger] entries@[j]).1),
            decreases self.entries@.len() - i,
        {
            let key = self.entries[i].0.clone();
            let value = self.entries[i].1.clone();
            entries.push((key, value));
            i = i + 1;
        }
        proof {
            let made = Seq::new(entries@.len(), |i: int| (entries@[i].0@, entries@[i].1));
            assert forall|a: int, b: int| 0 <= a < b < made.len() implies made[a].0
                != made[b].0 by {
                assert(self.pairs()[a].0 != self.pairs()[b].0);
            }
        }
        let copy = StrMap { entries };
        assert(keys_of(copy.pairs()) =~= keys_of(self.pairs()));
        copy
    }
}

/// The entries with each value replaced by its view.
pub open spec fn viewed<V: View>(pairs: Seq<(Seq<char>, V)>) -> Seq<(Seq<char>, V::V)> {
    Seq::new(pairs.len(), |i: int| (pairs[i].0, pairs[i].1@))
}

/// Taking views keeps the keys, and so their places.
pub proof fn lemma_viewed<V: View>(pairs: Seq<(Seq<char>, V)>)
    requires
        keys_distinct(pairs),
    ensures
        keys_distinct(viewed(pairs)),
        forall|k: Seq<char>| has_key(pairs, k) <==> has_key(viewed(pairs), k),
        forall|k: Seq<char>|
            has_key(pairs, k) ==> place_of_key(pairs, k) == place_of_key(viewed(pairs), k),
        forall|k: Seq<char>|
            has_key(pairs, k) ==> as_map(viewed(pairs))[k] == (#[trigger] as_map(pairs)[k])@,
{
    let model = viewed(pairs);
    assert forall|i: int, j: int| 0 <= i < j < model.len() implies model[i].0 != model[j].0 by {
        assert(pairs[i].0 != pairs[j].0);
    }
    assert forall|k: Seq<char>| has_key(pairs, k) <==> has_key(model, k) by {
        if has_key(pairs, k) {
            let i = place_of_key(pairs, k);
            assert(model[i].0 == k);
        }
        if has_key(model, k) {
            let i = place_of_key(model, k);
            assert(pairs[i].0 == k);
        }
    }
    assert forall|k: Seq<char>| has_key(pairs, k) implies place_of_key(pairs, k) == place_of_key(
        model,
        k,
    ) && as_map(model)[k] == (#[trigger] as_map(pairs)[k])@ by {
        let i = place_of_key(pairs, k);
        assert(model[i].0 == k);
        lemma_as_map_entry(model, i);
    }
}

/// Storing a value and then taking views is taking views and then storing
/// the view of the value.
pub proof fn lemma_viewed_insert<V: View>(pairs: Seq<(Seq<char>, V)>, key: Seq<char>, value: V)
    requires
        keys_distinct(pairs),
    ensures
        viewed(spec_insert(pairs, key, value)) == spec_insert(viewed(pairs), key, value@),
        as_map(viewed(spec_insert(pairs, key, value))) == as_map(viewed(pairs)).insert(
            key,
            value@,
        ),
{
    lemma_viewed(pairs);
    assert(viewed(spec_insert(pairs, key, value)) =~= spec_insert(viewed(pairs), key, value@));
    lemma_insert_as_map(viewed(pairs), key, value@);
}

/// Taking out the entry of a key takes the key out of the map and leaves
/// the rest as it is.
pub proof fn lemma_remove_as_map<V>(pairs: Seq<(Seq<char>, V)>, i: int)
    requires
        keys_distinct(pairs),
        0 <= i < pairs.len(),
    ensures
        keys_distinct(pairs.remove(i)),
        as_map(pairs.remove(i)) == as_map(pairs).remove(pairs[i].0),
{
    let after = pairs.remove(i);
    assert forall|a: int, b: int| 0 <= a < b < after.len() implies after[a].0 != after[b].0 by {
        let a0 = if a < i {
            a
        } else {
            a + 1
        };
        let b0 = if b < i {
            b
        } else {
            b + 1
        };
        assert(pairs[a0].0 != pairs[b0].0);
    }
    assert forall|k: Seq<char>| has_key(after, k) <==> (k != pairs[i].0 && has_key(pairs, k)) by {
        if has_key(after, k) {
            let a = choose|a: int| 0 <= a < after.len() && (#[trigger] after[a]).0 == k;
            let a0 = if a < i {
                a
            } else {
                a + 1
            };
            assert(pairs[a0].0 == k);
            if a0 < i {
                assert(pairs[a0].0 != pairs[i].0);
            } else {
                assert(pairs[i].0 != pairs[a0].0);
            }
        }
        if k != pairs[i].0 && has_key(pairs, k) {
            let a0 = choose|a0: int| 0 <= a0 < pairs.len() && (#[trigger] pairs[a0]).0 == k;
            let a = if a0 < i {
                a0
            } else {
                a0 - 1
            };
            assert(after[a].0 == k);
        }
    }
    assert forall|k: Seq<char>| has_key(after, k) implies as_map(after)[k] == as_map(pairs).remove(
        pairs[i].0,
    )[k] by {
        let a = choose|a: int| 0 <= a < after.len() && (#[trigger] after[a]).0 == k;
        let a0 = if a < i {
            a
        } else {
            a + 1
        };
        lemma_as_map_entry(after, a);
        lemma_as_map_entry(pairs, a0);
    }
    assert(as_map(after) =~= as_map(pairs).remove(pairs[i].0));
}

} // verus!
