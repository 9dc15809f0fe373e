//! Levels: groups of nodes that can run side by side.

use crate::graph::{
    is_adjacency, law_one_relation_per_pair, lemma_adjacency_as_map, lemma_topo_order_sound,
    parents_come_first, parents_of, spec_topo_order, strs, Adjacency, Direction,
};
use crate::strmap::{as_map, has_key, lemma_insert_as_map, place_of_key, StrMap};
use vstd::prelude::*;

verus! {

/// The neighbour lists of an adjacency as a map from id to ids.
pub open spec fn id_lists(pairs: Seq<(Seq<char>, Vec<String>)>) -> Map<Seq<char>, Seq<Seq<char>>> {
    Map::new(
        |k: Seq<char>| has_key(pairs, k),
        |k: Seq<char>| strs(pairs[place_of_key(pairs, k)].1@),
    )
}

/// The ids of each level.
pub open spec fn level_ids(levels: Seq<Vec<String>>) -> Seq<Seq<Seq<char>>> {
    Seq::new(levels.len(), |l: int| strs(levels[l]@))
}

/// The larger of two numbers.
pub open spec fn larger(a: nat, b: nat) -> nat {
    if a < b {
        b
    } else {
        a
    }
}

/// One more than the highest level among those of `ps` that have a level
/// in `levels`; zero where none has one.
pub open spec fn next_level(levels: Map<Seq<char>, nat>, ps: Seq<Seq<char>>) -> nat
    decreases ps.len(),
{
    if ps.len() == 0 {
        0
    } else if levels.dom().contains(ps.last()) {
        larger(next_level(levels, ps.drop_last()), levels[ps.last()] + 1)
    } else {
        next_level(levels, ps.drop_last())
    }
}

/// The level that `id` gets when the nodes before it have the levels
/// `levels`.
pub open spec fn level_for(
    levels: Map<Seq<char>, nat>,
    parents: Map<Seq<char>, Seq<Seq<char>>>,
    id: Seq<char>,
) -> nat {
    if parents.dom().contains(id) {
        next_level(levels, parents[id])
    } else {
        0
    }
}

/// The levels of the first `k` ids of `sorted`.
pub open spec fn levels_after(
    sorted: Seq<Seq<char>>,
    parents: Map<Seq<char>, Seq<Seq<char>>>,
    k: nat,
) -> Map<Seq<char>, nat>
    decreases k,
{
    if k == 0 {
        Map::empty()
    } else {
        let before = levels_after(sorted, parents, (k - 1) as nat);
        before.insert(sorted[k - 1], level_for(before, parents, sorted[k - 1]))
    }
}

/// The highest level given to any of the first `k` ids of `sorted`.
pub open spec fn top_level(
    sorted: Seq<Seq<char>>,
    parents: Map<Seq<char>, Seq<Seq<char>>>,
    k: nat,
) -> nat
    decreases k,
{
    if k == 0 {
        0
    } else {
        larger(
            top_level(sorted, parents, (k - 1) as nat),
            level_for(levels_after(sorted, parents, (k - 1) as nat), parents, sorted[k - 1]),
        )
    }
}

/// The ids among the first `k` of `sorted` whose level is `l`, in the order
/// of `sorted`.
pub open spec fn members(sorted: Seq<Seq<char>>, levels: Map<Seq<char>, nat>, l: nat, k: nat) -> Seq<
    Seq<char>,
>
    decreases k,
{
    if k == 0 {
        Seq::empty()
    } else if levels[sorted[k - 1]] == l {
        members(sorted, levels, l, (k - 1) as nat).push(sorted[k - 1])
    } else {
        members(sorted, levels, l, (k - 1) as nat)
    }
}

/// The levels of `sorted`: level `l` holds the ids whose level is `l`, in
/// the order of `sorted`. There is one level more than the highest level
/// given, so an empty `sorted` has the single level `[]`.
pub open spec fn spec_levels(sorted: Seq<Seq<char>>, parents: Map<Seq<char>, Seq<Seq<char>>>) -> Seq<
    Seq<Seq<char>>,
> {
    let levels = levels_after(sorted, parents, sorted.len());
    Seq::new(
        top_level(sorted, parents, sorted.len()) + 1,
        |l: int| members(sorted, levels, l as nat, sorted.len()),
    )
}

/// A map of machine integers as a map of natural numbers.
pub open spec fn as_nats(m: Map<Seq<char>, usize>) -> Map<Seq<char>, nat> {
    Map::new(|k: Seq<char>| m.dom().contains(k), |k: Seq<char>| m[k] as nat)
}

/// The next level is at most `bound` where every level is below `bound`.
proof fn lemma_next_level_bound(levels: Map<Seq<char>, nat>, ps: Seq<Seq<char>>, bound: nat)
    requires
        forall|id: Seq<char>| levels.dom().contains(id) ==> #[trigger] levels[id] < bound,
    ensures
        next_level(levels, ps) <= bound,
    decreases ps.len(),
{
    if ps.len() > 0 {
        lemma_next_level_bound(levels, ps.drop_last(), bound);
    }
}

/// After `k` ids, every level is below `k` and at most the top level, and
/// every one of those ids has a level.
pub proof fn lemma_levels_bound(
    sorted: Seq<Seq<char>>,
    parents: Map<Seq<char>, Seq<Seq<char>>>,
    k: nat,
)
    requires
        k <= sorted.len(),
    ensures
        forall|id: Seq<char>|
            levels_after(sorted, parents, k).dom().contains(id) ==> #[trigger] levels_after(
                sorted,
                parents,
                k,
            )[id] < k && levels_after(sorted, parents, k)[id] <= top_level(sorted, parents, k),
        forall|i: int|
            0 <= i < k ==> levels_after(sorted, parents, k).dom().contains(#[trigger] sorted[i]),
        k == 0 || top_level(sorted, parents, k) < k,
    decreases k,
{
    if k > 0 {
        lemma_levels_bound(sorted, parents, (k - 1) as nat);
        let before = levels_after(sorted, parents, (k - 1) as nat);
        if parents.dom().contains(sorted[k - 1]) {
            lemma_next_level_bound(before, parents[sorted[k - 1]], (k - 1) as nat);
        }
    }
}

/// Groups topologically sorted nodes into levels. A node's level is one more
/// than the highest level among its parents that were sorted before it, and
/// zero where there is none (a node without an entry in `parents` counts as
/// having no parents). Level `l` of the result holds the nodes of level `l`
/// in the order of `sorted`.
pub fn compute_levels(sorted: &[String], parents: &Adjacency) -> (levels: Vec<Vec<String>>)
    ensures
        level_ids(levels@) == spec_levels(strs(sorted@), id_lists(parents.pairs())),
{
    let ghost ids = strs(sorted@);
    let ghost pm = id_lists(parents.pairs());
    let mut node_level: StrMap<usize> = StrMap::new();
    let mut max_level: usize = 0;
    let mut k: usize = 0;
    assert(as_nats(node_level@) =~= levels_after(ids, pm, 0));
    while k < sorted.len()
        invariant
            k <= sorted@.len(),
            ids == strs(sorted@),
            pm == id_lists(parents.pairs()),
            as_nats(node_level@) == levels_after(ids, pm, k as nat),
            max_level == top_level(ids, pm, k as nat),
        decreases sorted@.len() - k,
    {
        let ghost before = levels_after(ids, pm, k as nat);
        proof {
            lemma_levels_bound(ids, pm, k as nat);
        }
        let key = &sorted[k];
        assert(key@ == ids[k as int]);
        let mut level: usize = 0;
        match parents.get(key.as_str()) {
            Some(pids) => {
                let ghost ps = strs(pids@);
                assert(ps == pm[key@]);
                let mut j: usize = 0;
                while j < pids.len()
                    invariant
                        j <= pids@.len(),
                        ps == strs(pids@),
                        as_nats(node_level@) == before,
                        forall|id: Seq<char>|
                            before.dom().contains(id) ==> #[trigger] before[id] < k,
                        level == next_level(before, ps.take(j as int)),
                        level <= k,
                    decreases pids@.len() - j,
                {
                    assert(ps.take(j + 1).drop_last() == ps.take(j as int));
                    assert(ps.take(j + 1).last() == pids@[j as int]@);
                    match node_level.get(pids[j].as_str()) {
                        Some(l) => {
                            assert(before.dom().contains(pids@[j as int]@));
                            assert(before[pids@[j as int]@] == *l);
                            if *l + 1 > level {
                                level = *l + 1;
                            }
                        },
                        None => {
                            assert(!before.dom().contains(pids@[j as int]@));
                        },
                    }
                    j = j + 1;
                }
                assert(ps.take(pids@.len() as int) == ps);
            },
            None => {},
        }
        assert(level == level_for(before, pm, ids[k as int]));
        proof {
            use_type_invariant(&node_level);
            lemma_insert_as_map(node_level.pairs(), key@, level);
        }
        node_level.insert(key.clone(), level);
        assert(as_nats(node_level@) =~= levels_after(ids, pm, (k + 1) as nat));
        if level > max_level {
            max_level = level;
        }
        k = k + 1;
    }
    let ghost last = levels_after(ids, pm, ids.len());
    proof {
        lemma_levels_bound(ids, pm, ids.len());
    }
    let mut levels: Vec<Vec<String>> = Vec::new();
    let mut l: usize = 0;
    while l <= max_level
        invariant
            l <= max_level + 1,
            max_level < usize::MAX,
            levels@.len() == l,
            forall|i: int| 0 <= i < l ==> (#[trigger] levels@[i])@.len() == 0,
        decreases max_level + 1 - l,
    {
        levels.push(Vec::new());
        l = l + 1;
    }
    let mut k: usize = 0;
    while k < sorted.len()
        invariant
            k <= sorted@.len(),
            ids == strs(sorted@),
            as_nats(node_level@) == last,
            forall|i: int| 0 <= i < ids.len() ==> last.dom().contains(#[trigger] ids[i]),
            forall|id: Seq<char>| last.dom().contains(id) ==> #[trigger] last[id] <= max_level,
            levels@.len() == max_level + 1,
            forall|i: int|
                0 <= i <= max_level ==> strs((#[trigger] levels@[i])@) == members(
                    ids,
                    last,
                    i as nat,
                    k as nat,
                ),
        decreases sorted@.len() - k,
    {
        let key = &sorted[k];
        assert(key@ == ids[k as int]);
        assert(last.dom().contains(ids[k as int]));
        match node_level.get(key.as_str()) {
            Some(level) => {
                let at: usize = *level;
                assert(last[key@] == at);
                let mut row: Vec<String> = Vec::new();
                core::mem::swap(&mut row, &mut levels[at]);
                row.push(key.clone());
                assert(strs(row@) =~= members(ids, last, at as nat, (k + 1) as nat));
                core::mem::swap(&mut row, &mut levels[at]);
            },
            None => {},
        }
        k = k + 1;
    }
    assert(level_ids(levels@) =~= spec_levels(ids, pm));
    levels
}

// ---------------------------------------------------------------------------
// Levels of a topological order
// ---------------------------------------------------------------------------

/// The parents of `id`: its list in `parents`, or none where it has no
/// entry.
pub open spec fn parent_list(parents: Map<Seq<char>, Seq<Seq<char>>>, id: Seq<char>) -> Seq<
    Seq<char>,
> {
    if parents.dom().contains(id) {
        parents[id]
    } else {
        Seq::empty()
    }
}

/// `sorted` is a topological order as far as it goes: every parent of an
/// id of `sorted` that stands in `sorted` at all stands before that id. A
/// parent that is not in `sorted` is passed over.
pub open spec fn parents_stand_before(
    sorted: Seq<Seq<char>>,
    parents: Map<Seq<char>, Seq<Seq<char>>>,
) -> bool {
    forall|k: int, j: int|
        0 <= k < sorted.len() && 0 <= j < parent_list(parents, sorted[k]).len() && sorted.contains(
            parent_list(parents, sorted[k])[j],
        ) ==> #[trigger] sorted.take(k).contains(parent_list(parents, sorted[k])[j])
}

/// The ids that have a level after `k` ids are the first `k` ids.
proof fn lemma_levels_dom(sorted: Seq<Seq<char>>, parents: Map<Seq<char>, Seq<Seq<char>>>, k: nat)
    requires
        k <= sorted.len(),
    ensures
        forall|id: Seq<char>|
            #![trigger levels_after(sorted, parents, k).dom().contains(id)]
            levels_after(sorted, parents, k).dom().contains(id) <==> sorted.take(k as int).contains(
                id,
            ),
    decreases k,
{
    if k > 0 {
        lemma_levels_dom(sorted, parents, (k - 1) as nat);
        let before = levels_after(sorted, parents, (k - 1) as nat);
        let now = levels_after(sorted, parents, k);
        let narrow = sorted.take(k - 1);
        let wide = sorted.take(k as int);
        assert forall|id: Seq<char>| #![trigger now.dom().contains(id)] now.dom().contains(id)
            <==> wide.contains(id) by {
            if before.dom().contains(id) {
                assert(narrow.contains(id));
                let a = choose|a: int| 0 <= a < narrow.len() && narrow[a] == id;
                assert(wide[a] == id);
            }
            if id == sorted[k - 1] {
                assert(wide[k - 1] == id);
            }
            if wide.contains(id) {
                let a = choose|a: int| 0 <= a < wide.len() && wide[a] == id;
                if a < k - 1 {
                    assert(narrow[a] == id);
                    assert(narrow.contains(id));
                }
            }
        }
    } else {
        assert(sorted.take(0).len() == 0);
    }
}

/// In an order without repeated ids, the level that the id at place `a` got
/// is the level it keeps.
proof fn lemma_level_stays(
    sorted: Seq<Seq<char>>,
    parents: Map<Seq<char>, Seq<Seq<char>>>,
    a: int,
    k: nat,
)
    requires
        sorted.no_duplicates(),
        0 <= a < k <= sorted.len(),
    ensures
        levels_after(sorted, parents, k).dom().contains(sorted[a]),
        levels_after(sorted, parents, k)[sorted[a]] == level_for(
            levels_after(sorted, parents, a as nat),
            parents,
            sorted[a],
        ),
    decreases k,
{
    if k > a + 1 {
        lemma_level_stays(sorted, parents, a, (k - 1) as nat);
        assert(sorted[a] != sorted[k - 1]);
    }
}

/// The next level depends only on the levels of the parents that have
/// one.
proof fn lemma_next_level_same(
    l1: Map<Seq<char>, nat>,
    l2: Map<Seq<char>, nat>,
    ps: Seq<Seq<char>>,
)
    requires
        forall|j: int|
            0 <= j < ps.len() ==> (l1.dom().contains(#[trigger] ps[j]) <==> l2.dom().contains(
                ps[j],
            )) && (l1.dom().contains(ps[j]) ==> l1[ps[j]] == l2[ps[j]]),
    ensures
        next_level(l1, ps) == next_level(l2, ps),
    decreases ps.len(),
{
    if ps.len() > 0 {
        let front = ps.drop_last();
        assert forall|j: int| 0 <= j < front.len() implies (l1.dom().contains(
            #[trigger] front[j],
        ) <==> l2.dom().contains(front[j])) && (l1.dom().contains(front[j]) ==> l1[front[j]]
            == l2[front[j]]) by {
            assert(front[j] == ps[j]);
        }
        lemma_next_level_same(l1, l2, front);
        assert(ps.last() == ps[ps.len() - 1]);
    }
}

/// The next level is above the level of every parent that has one, and
/// just above the level of one of them; it is zero where no parent has a
/// level.
proof fn lemma_next_level_is_highest(levels: Map<Seq<char>, nat>, ps: Seq<Seq<char>>)
    ensures
        forall|j: int|
            0 <= j < ps.len() && levels.dom().contains(#[trigger] ps[j]) ==> levels[ps[j]]
                < next_level(levels, ps),
        next_level(levels, ps) > 0 ==> exists|j: int|
            0 <= j < ps.len() && levels.dom().contains(#[trigger] ps[j]) && levels[ps[j]] + 1
                == next_level(levels, ps),
        next_level(levels, ps) == 0 ==> forall|j: int|
            0 <= j < ps.len() ==> !levels.dom().contains(#[trigger] ps[j]),
    decreases ps.len(),
{
    if ps.len() > 0 {
        let front = ps.drop_last();
        let last = ps[ps.len() - 1];
        lemma_next_level_is_highest(levels, front);
        assert forall|j: int|
            0 <= j < ps.len() && levels.dom().contains(#[trigger] ps[j]) implies levels[ps[j]]
            < next_level(levels, ps) by {
            if j < front.len() {
                assert(front[j] == ps[j]);
            }
        }
        if next_level(levels, ps) > 0 {
            if levels.dom().contains(last) && levels[last] + 1 == next_level(levels, ps) {
                assert(levels.dom().contains(ps[ps.len() - 1]) && levels[ps[ps.len() - 1]] + 1
                    == next_level(levels, ps));
            } else {
                let j = choose|j: int|
                    0 <= j < front.len() && levels.dom().contains(#[trigger] front[j])
                        && levels[front[j]] + 1 == next_level(levels, front);
                assert(front[j] == ps[j]);
                assert(levels.dom().contains(ps[j]) && levels[ps[j]] + 1 == next_level(
                    levels,
                    ps,
                ));
            }
        }
        if next_level(levels, ps) == 0 {
            assert forall|j: int| 0 <= j < ps.len() implies !levels.dom().contains(
                #[trigger] ps[j],
            ) by {
                if j < front.len() {
                    assert(front[j] == ps[j]);
                }
            }
        }
    }
}

/// An id of level `l` among the first `k` is a member of level `l`.
proof fn lemma_member(
    sorted: Seq<Seq<char>>,
    levels: Map<Seq<char>, nat>,
    l: nat,
    k: nat,
    i: int,
)
    requires
        0 <= i < k <= sorted.len(),
        levels[sorted[i]] == l,
    ensures
        members(sorted, levels, l, k).contains(sorted[i]),
    decreases k,
{
    let now = members(sorted, levels, l, k);
    if i == k - 1 {
        assert(now[now.len() - 1] == sorted[i]);
    } else {
        lemma_member(sorted, levels, l, (k - 1) as nat, i);
        let before = members(sorted, levels, l, (k - 1) as nat);
        let a = choose|a: int| 0 <= a < before.len() && before[a] == sorted[i];
        assert(now[a] == sorted[i]);
    }
}

/// In a topological order without repeated ids, the level of a node is
/// one more than the highest level among its parents, and zero where it
/// has none; and the node stands in the level of that number. Only the
/// parents that stand in the order count: one that does not is passed
/// over, as if it were no parent.
pub proof fn law_level_is_one_above_highest_parent(
    sorted: Seq<Seq<char>>,
    parents: Map<Seq<char>, Seq<Seq<char>>>,
    k: int,
)
    requires
        sorted.no_duplicates(),
        parents_stand_before(sorted, parents),
        0 <= k < sorted.len(),
    ensures
        ({
            let levels = levels_after(sorted, parents, sorted.len());
            let ps = parent_list(parents, sorted[k]);
            let level = levels[sorted[k]];
            &&& levels.dom().contains(sorted[k])
            &&& level <= top_level(sorted, parents, sorted.len())
            &&& spec_levels(sorted, parents)[level as int].contains(sorted[k])
            &&& forall|id: Seq<char>|
                #![trigger levels.dom().contains(id)]
                levels.dom().contains(id) <==> sorted.contains(id)
            &&& forall|j: int|
                0 <= j < ps.len() && sorted.contains(#[trigger] ps[j]) ==> levels[ps[j]] < level
            &&& level > 0 ==> exists|j: int|
                0 <= j < ps.len() && sorted.contains(#[trigger] ps[j]) && levels[ps[j]] + 1
                    == level
            &&& level == 0 ==> forall|j: int| 0 <= j < ps.len() ==> !sorted.contains(#[trigger] ps[j])
        }),
{
    let n = sorted.len();
    let levels = levels_after(sorted, parents, n);
    let before = levels_after(sorted, parents, k as nat);
    let ps = parent_list(parents, sorted[k]);
    lemma_level_stays(sorted, parents, k, n);
    lemma_levels_bound(sorted, parents, n);
    lemma_member(sorted, levels, levels[sorted[k]], n, k);
    lemma_levels_dom(sorted, parents, n);
    lemma_levels_dom(sorted, parents, k as nat);
    assert(sorted.take(n as int) == sorted);
    assert forall|j: int| 0 <= j < ps.len() implies (before.dom().contains(#[trigger] ps[j])
        <==> levels.dom().contains(ps[j])) && (before.dom().contains(ps[j]) ==> before[ps[j]]
        == levels[ps[j]]) by {
        if sorted.contains(ps[j]) {
            assert(sorted.take(k).contains(parent_list(parents, sorted[k])[j]));
            let a = choose|a: int| 0 <= a < sorted.take(k).len() && sorted.take(k)[a] == ps[j];
            assert(sorted[a] == ps[j]);
            lemma_level_stays(sorted, parents, a, k as nat);
            lemma_level_stays(sorted, parents, a, n);
        } else {
            if sorted.take(k).contains(ps[j]) {
                let a = choose|a: int| 0 <= a < sorted.take(k).len() && sorted.take(k)[a] == ps[j];
                assert(sorted[a] == ps[j]);
            }
        }
    }
    lemma_next_level_same(before, levels, ps);
    lemma_next_level_is_highest(levels, ps);
}

/// The topological order of a flow can be layered by the parents of its
/// adjacency: the order repeats no id, and every parent that stands in it
/// stands before its child. This holds of the part of the order that a
/// cycle leaves, too.
pub proof fn law_topological_order_can_be_layered(
    ids: Seq<Seq<char>>,
    ends: Seq<(Seq<char>, Seq<char>)>,
    pairs: Seq<(Seq<char>, Vec<String>)>,
)
    requires
        is_adjacency(pairs, Direction::Parents, ids, ends),
    ensures
        spec_topo_order(ids, ends).no_duplicates(),
        parents_stand_before(spec_topo_order(ids, ends), id_lists(pairs)),
{
    let sorted = spec_topo_order(ids, ends);
    let parents = id_lists(pairs);
    lemma_topo_order_sound(ids, ends);
    lemma_adjacency_as_map(pairs, Direction::Parents, ids, ends);
    assert forall|k: int, j: int|
        0 <= k < sorted.len() && 0 <= j < parent_list(parents, sorted[k]).len() && sorted.contains(
            parent_list(parents, sorted[k])[j],
        ) implies #[trigger] sorted.take(k).contains(parent_list(parents, sorted[k])[j]) by {
        let child = sorted[k];
        let parent = parent_list(parents, child)[j];
        assert(ids.contains(child));
        assert(as_map(pairs).dom().contains(child));
        assert(parents[child] == strs(as_map(pairs)[child]@));
        assert(parents_of(ids, ends, child)[j] == parent);
        assert(parents_of(ids, ends, child).contains(parent));
        law_one_relation_per_pair(Direction::Parents, ids, ends, child);
        assert(ends.contains((parent, child)));
        let y = choose|y: int| 0 <= y < ends.len() && ends[y] == (parent, child);
        let a = choose|a: int| 0 <= a < sorted.len() && sorted[a] == parent;
        assert(sorted[a] == ends[y].0 && sorted[k] == ends[y].1);
        assert(a < k);
        assert(sorted.take(k)[a] == parent);
    }
}

} // verus!
