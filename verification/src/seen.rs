//! The items that a polling trigger has already seen, scope by scope.

use crate::strmap::{
    as_map, has_key, keys_distinct, lemma_as_map_entry, lemma_insert_as_map, place_of_key,
    spec_insert, StrMap,
};
use std::collections::HashSet;
use vstd::prelude::*;
use vstd::std_specs::iter::IteratorSpec;

verus! {

broadcast use vstd::std_specs::hash::group_hash_axioms;

/// The set under `scope`, or the empty set where the scope has none.
pub open spec fn seen_in(seen: Map<Seq<char>, Set<u64>>, scope: Seq<char>) -> Set<u64> {
    if seen.dom().contains(scope) {
        seen[scope]
    } else {
        Set::empty()
    }
}

/// The items of `current` that are new: not in `seen`, and not earlier in
/// `current`. They keep the order of `current`.
pub open spec fn spec_fresh(seen: Set<u64>, current: Seq<u64>) -> Seq<u64>
    decreases current.len(),
{
    if current.len() == 0 {
        Seq::empty()
    } else if seen.contains(current.last()) || current.drop_last().contains(current.last()) {
        spec_fresh(seen, current.drop_last())
    } else {
        spec_fresh(seen, current.drop_last()).push(current.last())
    }
}

/// The new items are distinct, come from `current`, and were not seen; and
/// every unseen item of `current` is among them.
pub proof fn lemma_fresh(seen: Set<u64>, current: Seq<u64>)
    ensures
        spec_fresh(seen, current).no_duplicates(),
        forall|x: u64|
            #![trigger spec_fresh(seen, current).contains(x)]
            spec_fresh(seen, current).contains(x) <==> current.contains(x) && !seen.contains(x),
    decreases current.len(),
{
    if current.len() > 0 {
        let front = current.drop_last();
        let last = current.last();
        lemma_fresh(seen, front);
        let before = spec_fresh(seen, front);
        let now = spec_fresh(seen, current);
        assert forall|x: u64| #![trigger now.contains(x)] now.contains(x) <==> current.contains(x)
            && !seen.contains(x) by {
            if now.contains(x) {
                let i = choose|i: int| 0 <= i < now.len() && now[i] == x;
                if i < before.len() {
                    assert(before[i] == x);
                    assert(before.contains(x));
                    let j = choose|j: int| 0 <= j < front.len() && front[j] == x;
                    assert(current[j] == x);
                } else {
                    assert(current[current.len() - 1] == x);
                }
            }
            if current.contains(x) && !seen.contains(x) {
                let j = choose|j: int| 0 <= j < current.len() && current[j] == x;
                if j < front.len() {
                    assert(front[j] == x);
                    assert(before.contains(x));
                    let i = choose|i: int| 0 <= i < before.len() && before[i] == x;
                    assert(now[i] == x);
                } else if front.contains(x) {
                    assert(before.contains(x));
                    let i = choose|i: int| 0 <= i < before.len() && before[i] == x;
                    assert(now[i] == x);
                } else {
                    assert(now[before.len() as int] == x);
                }
            }
        }
        if !(seen.contains(last) || front.contains(last)) {
            assert(!before.contains(last));
        }
    }
}

/// The sets of a map of hash sets.
pub open spec fn set_views(pairs: Seq<(Seq<char>, HashSet<u64>)>) -> Seq<(Seq<char>, Set<u64>)> {
    Seq::new(pairs.len(), |i: int| (pairs[i].0, pairs[i].1@))
}

/// Taking the sets of the hash sets keeps the keys, and so their places.
proof fn lemma_set_views(pairs: Seq<(Seq<char>, HashSet<u64>)>)
    requires
        keys_distinct(pairs),
    ensures
        keys_distinct(set_views(pairs)),
        forall|k: Seq<char>| has_key(pairs, k) <==> has_key(set_views(pairs), k),
        forall|k: Seq<char>|
            has_key(pairs, k) ==> place_of_key(pairs, k) == place_of_key(set_views(pairs), k),
{
    let model = set_views(pairs);
    assert forall|i: int, j: int| 0 <= i < j < model.len() implies model[i].0 != model[j].0 by {
        assert(pairs[i].0 != pairs[j].0);
    }
    assert forall|k: Seq<char>| has_key(pairs, k) <==> has_key(model, k) by {
        if has_key(pairs, k) {
            let i = place_of_key(pairs, k);
            assert(model[i].0 == k);
        }
        if has_key(model, k) {
            let i = place_of_key(model, k);
            assert(pairs[i].0 == k);
        }
    }
    assert forall|k: Seq<char>| has_key(pairs, k) implies place_of_key(pairs, k) == place_of_key(
        model,
        k,
    ) by {
        let i = place_of_key(pairs, k);
        assert(model[i].0 == k);
        lemma_as_map_entry(model, i);
    }
}

/// For every scope of a polling trigger, the identifiers of the items that
/// need no dispatch any more.
pub struct SeenSet {
    scopes: StrMap<HashSet<u64>>,
}

impl SeenSet {
    /// The seen items of each scope that has any record.
    pub closed spec fn view(&self) -> Map<Seq<char>, Set<u64>> {
        as_map(set_views(self.scopes.pairs()))
    }

    /// A record of nothing.
    pub fn new() -> (s: Self)
        ensures
            s@ == Map::<Seq<char>, Set<u64>>::empty(),
    {
        let s = SeenSet { scopes: StrMap::new() };
        assert(s@ =~= Map::<Seq<char>, Set<u64>>::empty()) by {
            assert(set_views(s.scopes.pairs()).len() == 0);
        }
        s
    }

    /// Whether the scope has a record, that is, was seeded or observed.
    pub fn is_seeded(&self, scope: &str) -> (b: bool)
        ensures
            b == self@.dom().contains(scope@),
    {
        proof {
            use_type_invariant(&self.scopes);
            lemma_set_views(self.scopes.pairs());
        }
        self.scopes.contains_key(scope)
    }

    /// Whether `item` was seen in `scope`.
    pub fn contains(&self, scope: &str, item: u64) -> (b: bool)
        ensures
            b == seen_in(self@, scope@).contains(item),
    {
        proof {
            use_type_invariant(&self.scopes);
            lemma_set_views(self.scopes.pairs());
        }
        match self.scopes.get(scope) {
            Some(set) => set.contains(&item),
            None => false,
        }
    }

    /// The items seen in `scope`, each once, in no particular order.
    pub fn items(&self, scope: &str) -> (list: Vec<u64>)
        ensures
            list@.no_duplicates(),
            list@.to_set() == seen_in(self@, scope@),
    {
        proof {
            use_type_invariant(&self.scopes);
            lemma_set_views(self.scopes.pairs());
        }
        let mut list: Vec<u64> = Vec::new();
        match self.scopes.get(scope) {
            Some(set) => {
                let ghost all = set.iter().remaining().unref();
                for x in it: set.iter()
                    invariant
                        all == it.seq().unref(),
                        list@ == all.take(it.index() as int),
                {
                    list.push(*x);
                }
                assert(list@ == all);
            },
            None => {
                assert(list@.to_set() =~= Set::<u64>::empty());
            },
        }
        list
    }

    /// Records `items` as all that was seen in `scope`, in place of any
    /// earlier record of that scope.
    pub fn seed(&mut self, scope: &str, items: &[u64])
        ensures
            final(self)@ == old(self)@.insert(scope@, items@.to_set()),
    {
        let mut set: HashSet<u64> = HashSet::new();
        let mut i: usize = 0;
        while i < items.len()
            invariant
                i <= items@.len(),
                set@ == items@.take(i as int).to_set(),
            decreases items@.len() - i,
        {
            set.insert(items[i]);
            assert(items@.take(i + 1) == items@.take(i as int).push(items@[i as int]));
            assert(items@.take(i + 1).to_set() =~= items@.take(i as int).to_set().insert(
                items@[i as int],
            )) by {
                vstd::seq_lib::lemma_seq_contains_after_push(
                    items@.take(i as int),
                    items@[i as int],
                    items@[i as int],
                );
                assert forall|x: u64|
                    items@.take(i + 1).contains(x) <==> items@.take(i as int).contains(x) || x
                        == items@[i as int] by {
                    vstd::seq_lib::lemma_seq_contains_after_push(
                        items@.take(i as int),
                        items@[i as int],
                        x,
                    );
                }
            }
            i = i + 1;
        }
        assert(items@.take(items@.len() as int) == items@);
        proof {
            use_type_invariant(&self.scopes);
            let pairs = self.scopes.pairs();
            lemma_set_views(pairs);
            lemma_insert_as_map(set_views(pairs), scope@, set@);
            assert(set_views(spec_insert(pairs, scope@, set)) =~= spec_insert(
                set_views(pairs),
                scope@,
                set@,
            ));
        }
        self.scopes.insert(scope.to_owned(), set);
    }

    /// Takes note of the items that `scope` holds now. The new ones among
    /// them are recorded as seen and handed back, in the order of
    /// `current`, for dispatch; a scope without a record gets one.
    pub fn observe(&mut self, scope: &str, current: &[u64]) -> (fresh: Vec<u64>)
        ensures
            fresh@ == spec_fresh(seen_in(old(self)@, scope@), current@),
            final(self)@ == old(self)@.insert(
                scope@,
                seen_in(old(self)@, scope@).union(current@.to_set()),
            ),
            forall|i: int|
                0 <= i < fresh@.len() ==> seen_in(final(self)@, scope@).contains(
                    #[trigger] fresh@[i],
                ),
    {
        proof {
            use_type_invariant(&self.scopes);
            lemma_set_views(self.scopes.pairs());
        }
        let ghost before = seen_in(self@, scope@);
        let found = self.scopes.position(scope);
        let mut set: HashSet<u64> = HashSet::new();
        match found {
            Some(i) => {
                proof {
                    lemma_as_map_entry(set_views(self.scopes.pairs()), i as int);
                }
                set = self.scopes.replace_at(i, set);
            },
            None => {},
        }
        assert(set@ == before);
        let mut fresh: Vec<u64> = Vec::new();
        let mut j: usize = 0;
        while j < current.len()
            invariant
                j <= current@.len(),
                set@ == before.union(current@.take(j as int).to_set()),
                fresh@ == spec_fresh(before, current@.take(j as int)),
            decreases current@.len() - j,
        {
            let x = current[j];
            proof {
                let front = current@.take(j as int);
                assert(current@.take(j + 1).drop_last() == front);
                assert(current@.take(j + 1).last() == x);
                assert(current@.take(j + 1) == front.push(x));
                assert forall|y: u64| current@.take(j + 1).contains(y) <==> front.contains(y) || y
                    == x by {
                    vstd::seq_lib::lemma_seq_contains_after_push(front, x, y);
                }
                assert(current@.take(j + 1).to_set() =~= front.to_set().insert(x));
            }
            if set.insert(x) {
                fresh.push(x);
            }
            assert(set@ =~= before.union(current@.take(j + 1).to_set()));
            j = j + 1;
        }
        assert(current@.take(current@.len() as int) == current@);
        proof {
            lemma_fresh(before, current@);
            let pairs = self.scopes.pairs();
            use_type_invariant(&self.scopes);
            lemma_set_views(pairs);
            lemma_insert_as_map(set_views(pairs), scope@, set@);
            assert(set_views(spec_insert(pairs, scope@, set)) =~= spec_insert(
                set_views(pairs),
                scope@,
                set@,
            ));
            assert(as_map(set_views(pairs)) =~= old(self)@.insert(scope@, Set::<u64>::empty())
                || as_map(set_views(pairs)) =~= old(self)@) by {
                match found {
                    Some(i) => {
                        let was = set_views(old(self).scopes.pairs());
                        let emptied = set_views(pairs);
                        assert(emptied =~= spec_insert(was, scope@, Set::<u64>::empty())) by {
                            lemma_as_map_entry(was, i as int);
                        }
                        lemma_insert_as_map(was, scope@, Set::<u64>::empty());
                    },
                    None => {},
                }
            }
        }
        self.scopes.insert(scope.to_owned(), set);
        assert(self@ =~= old(self)@.insert(scope@, before.union(current@.to_set())));
        assert forall|i: int| 0 <= i < fresh@.len() implies seen_in(self@, scope@).contains(
            #[trigger] fresh@[i],
        ) by {
            assert(fresh@.contains(fresh@[i]));
            assert(current@.contains(fresh@[i]));
        }
        fresh
    }
}

} // verus!
