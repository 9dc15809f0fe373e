//! The graph of a flow: nodes, edges, adjacency, topological order and
//! levels.

use crate::kahn::{
    behind_cycle, edges_in_range, has_cycle, int_pairs, ints, is_cycle, is_walk, kahn_order,
    kahn_sort, lemma_complete_iff_acyclic, lemma_emitted_iff_clear,
    lemma_kahn_complete_is_topological, lemma_kahn_order_sound,
};
use crate::strmap::{
    as_map, has_key, keys_distinct, keys_of, lemma_as_map_entry, place_of_key, StrMap,
};
use crate::text::{decimal, spec_decimal, str_eq};
use vstd::string::StringExecFns;
use vstd::prelude::*;

verus! {

/// An opaque structured value, carried through unread.
#[verifier::external_type_specification]
#[verifier::external_body]
pub struct ExJsonValue(serde_json::Value);

/// `Clone` of `serde_json::Value`, which `Node` needs for its own `Clone`.
/// Nothing is claimed of the copy.
pub assume_specification[ <serde_json::Value as Clone>::clone ](
    v: &serde_json::Value,
) -> serde_json::Value;

/// The role a node plays in a flow.
#[derive(Clone, Copy, Debug, PartialEq, Eq, Structural)]
pub enum NodeType {
    Trigger,
    Source,
    Filter,
    Executor,
    Sink,
}

/// Where a node sits on the canvas, in whole canvas units.
#[derive(Clone, Copy, Debug, PartialEq, Eq, Structural)]
pub struct Position {
    pub x: i64,
    pub y: i64,
}

/// A vertex of a flow. `kind` selects the runner; `config`, `position` and
/// `label` are carried for the runner and the editor.
#[derive(Clone, Debug)]
pub struct Node {
    pub id: String,
    pub node_type: NodeType,
    pub kind: String,
    pub config: serde_json::Value,
    pub position: Position,
    pub label: String,
}

/// A directed link from the node `source` to the node `target`.
#[derive(Clone, Debug)]
pub struct Edge {
    pub id: String,
    pub source: String,
    pub target: String,
}

/// The neighbours of every node, keyed by node id.
pub type Adjacency = StrMap<Vec<String>>;

// ---------------------------------------------------------------------------
// The model: ids are sequences of characters
// ---------------------------------------------------------------------------

/// The characters of each string of `v`.
pub open spec fn strs(v: Seq<String>) -> Seq<Seq<char>> {
    Seq::new(v.len(), |i: int| v[i]@)
}

/// The ids of `nodes`, in order.
pub open spec fn node_ids(nodes: Seq<Node>) -> Seq<Seq<char>> {
    Seq::new(nodes.len(), |i: int| nodes[i].id@)
}

/// The `(source, target)` pair of each edge, in order.
pub open spec fn edge_ends(edges: Seq<Edge>) -> Seq<(Seq<char>, Seq<char>)> {
    Seq::new(edges.len(), |i: int| (edges[i].source@, edges[i].target@))
}

/// `ids` without the later occurrences of an id that occurred before.
pub open spec fn distinct_ids(ids: Seq<Seq<char>>) -> Seq<Seq<char>>
    decreases ids.len(),
{
    if ids.len() == 0 {
        Seq::empty()
    } else if distinct_ids(ids.drop_last()).contains(ids.last()) {
        distinct_ids(ids.drop_last())
    } else {
        distinct_ids(ids.drop_last()).push(ids.last())
    }
}

/// Both ends of the edge are ids of the flow.
pub open spec fn joins_known(ids: Seq<Seq<char>>, e: (Seq<char>, Seq<char>)) -> bool {
    ids.contains(e.0) && ids.contains(e.1)
}

/// The children of `u`: the targets of the edges that leave `u` and join
/// known nodes, each once, in the order of the first edge to it. Several
/// edges between one pair of nodes are one relation.
pub open spec fn children_of(ids: Seq<Seq<char>>, ends: Seq<(Seq<char>, Seq<char>)>, u: Seq<char>)
    -> Seq<Seq<char>>
    decreases ends.len(),
{
    if ends.len() == 0 {
        Seq::empty()
    } else if ends.last().0 == u && joins_known(ids, ends.last()) && !children_of(
        ids,
        ends.drop_last(),
        u,
    ).contains(ends.last().1) {
        children_of(ids, ends.drop_last(), u).push(ends.last().1)
    } else {
        children_of(ids, ends.drop_last(), u)
    }
}

/// The parents of `v`: the sources of the edges that enter `v` and join
/// known nodes, each once, in the order of the first edge from it.
pub open spec fn parents_of(ids: Seq<Seq<char>>, ends: Seq<(Seq<char>, Seq<char>)>, v: Seq<char>)
    -> Seq<Seq<char>>
    decreases ends.len(),
{
    if ends.len() == 0 {
        Seq::empty()
    } else if ends.last().1 == v && joins_known(ids, ends.last()) && !parents_of(
        ids,
        ends.drop_last(),
        v,
    ).contains(ends.last().0) {
        parents_of(ids, ends.drop_last(), v).push(ends.last().0)
    } else {
        parents_of(ids, ends.drop_last(), v)
    }
}

/// The edge `e` with each end replaced by its place in `vs`.
pub open spec fn resolved(vs: Seq<Seq<char>>, e: (Seq<char>, Seq<char>)) -> (int, int) {
    (vs.index_of(e.0), vs.index_of(e.1))
}

/// The relations of the graph: the edges that join known nodes, each end
/// replaced by its place in `vs`, each pair once, in the order of its
/// first edge.
pub open spec fn resolve(vs: Seq<Seq<char>>, ends: Seq<(Seq<char>, Seq<char>)>) -> Seq<(int, int)>
    decreases ends.len(),
{
    if ends.len() == 0 {
        Seq::empty()
    } else if joins_known(vs, ends.last()) && !resolve(vs, ends.drop_last()).contains(
        resolved(vs, ends.last()),
    ) {
        resolve(vs, ends.drop_last()).push(resolved(vs, ends.last()))
    } else {
        resolve(vs, ends.drop_last())
    }
}

/// The ids named by the places `order` of `vs`.
pub open spec fn ids_at(vs: Seq<Seq<char>>, order: Seq<int>) -> Seq<Seq<char>> {
    Seq::new(order.len(), |i: int| vs[order[i]])
}

/// The ids in the order in which Kahn's algorithm emits them: the distinct
/// ids are numbered by first occurrence, nodes without parents start the
/// queue in that order, and a node joins the queue when the last edge into
/// it is relaxed. Nodes on or behind a cycle are missing from the result.
pub open spec fn spec_topo_order(ids: Seq<Seq<char>>, ends: Seq<(Seq<char>, Seq<char>)>) -> Seq<
    Seq<char>,
> {
    let vs = distinct_ids(ids);
    ids_at(vs, kahn_order(vs.len(), resolve(vs, ends)))
}

/// `w` is a closed walk over known nodes: each has an edge to the next, and
/// the last has one to the first.
pub open spec fn is_id_cycle(
    ids: Seq<Seq<char>>,
    ends: Seq<(Seq<char>, Seq<char>)>,
    w: Seq<Seq<char>>,
) -> bool {
    &&& w.len() > 0
    &&& forall|i: int| 0 <= i < w.len() ==> ids.contains(#[trigger] w[i])
    &&& forall|i: int|
        0 <= i < w.len() ==> ends.contains(
            (#[trigger] w[i], if i + 1 < w.len() {
                w[i + 1]
            } else {
                w[0]
            }),
        )
}

/// The flow has a cycle among its known nodes.
pub open spec fn is_cyclic(ids: Seq<Seq<char>>, ends: Seq<(Seq<char>, Seq<char>)>) -> bool {
    exists|w: Seq<Seq<char>>| is_id_cycle(ids, ends, w)
}

/// The places in `vs` of the ids `w`.
pub open spec fn places_of(vs: Seq<Seq<char>>, w: Seq<Seq<char>>) -> Seq<int> {
    Seq::new(w.len(), |i: int| vs.index_of(w[i]))
}

/// `p` is a walk over known nodes: each has an edge to the next.
pub open spec fn is_id_walk(
    ids: Seq<Seq<char>>,
    ends: Seq<(Seq<char>, Seq<char>)>,
    p: Seq<Seq<char>>,
) -> bool {
    &&& p.len() > 0
    &&& forall|i: int| 0 <= i < p.len() ==> ids.contains(#[trigger] p[i])
    &&& forall|i: int| 0 <= i < p.len() - 1 ==> ends.contains((#[trigger] p[i], p[i + 1]))
}

/// The node `id` stands on a cycle of the flow, or a walk leads to it from
/// a node of one.
pub open spec fn is_behind_cycle(
    ids: Seq<Seq<char>>,
    ends: Seq<(Seq<char>, Seq<char>)>,
    id: Seq<char>,
) -> bool {
    exists|w: Seq<Seq<char>>, p: Seq<Seq<char>>|
        #![trigger is_id_cycle(ids, ends, w), is_id_walk(ids, ends, p)]
        is_id_cycle(ids, ends, w) && is_id_walk(ids, ends, p) && w.contains(p[0]) && p.last()
            == id
}

/// The nodes of the flow that neither stand on a cycle nor can be reached
/// from one.
pub open spec fn clear_ids(ids: Seq<Seq<char>>, ends: Seq<(Seq<char>, Seq<char>)>) -> Set<
    Seq<char>,
> {
    Set::new(|id: Seq<char>| ids.contains(id) && !is_behind_cycle(ids, ends, id))
}

// ---------------------------------------------------------------------------
// Facts about the model
// ---------------------------------------------------------------------------

/// `distinct_ids` keeps exactly the ids of `ids`, each once, and keeps all
/// of `ids` where no id repeats.
pub proof fn lemma_distinct_ids(ids: Seq<Seq<char>>)
    ensures
        distinct_ids(ids).no_duplicates(),
        distinct_ids(ids).len() <= ids.len(),
        forall|id: Seq<char>|
            #![trigger distinct_ids(ids).contains(id)]
            #![trigger ids.contains(id)]
            distinct_ids(ids).contains(id) <==> ids.contains(id),
        ids.no_duplicates() ==> distinct_ids(ids) == ids,
        distinct_ids(ids).len() == ids.len() ==> ids.no_duplicates(),
    decreases ids.len(),
{
    if ids.len() > 0 {
        let front = ids.drop_last();
        let last = ids.last();
        lemma_distinct_ids(front);
        let d = distinct_ids(front);
        let now = distinct_ids(ids);
        assert forall|id: Seq<char>| now.contains(id) <==> ids.contains(id) by {
            if now.contains(id) {
                let i = choose|i: int| 0 <= i < now.len() && now[i] == id;
                if i < d.len() {
                    assert(d[i] == id);
                    assert(d.contains(id));
                    let j = choose|j: int| 0 <= j < front.len() && front[j] == id;
                    assert(ids[j] == id);
                } else {
                    assert(ids[ids.len() - 1] == id);
                }
            }
            if ids.contains(id) {
                let j = choose|j: int| 0 <= j < ids.len() && ids[j] == id;
                if j < front.len() {
                    assert(front[j] == id);
                    assert(d.contains(id));
                    let i = choose|i: int| 0 <= i < d.len() && d[i] == id;
                    assert(now[i] == id);
                } else if d.contains(last) {
                } else {
                    assert(now[d.len() as int] == id);
                }
            }
        }
        if ids.no_duplicates() {
            assert(front.no_duplicates());
            if d.contains(last) {
                let j = choose|j: int| 0 <= j < front.len() && front[j] == last;
                assert(ids[j] == ids[ids.len() - 1]);
            }
            assert(now =~= ids);
        }
        if now.len() == ids.len() {
            assert(d.len() == front.len());
            assert forall|i: int, j: int| 0 <= i < j < ids.len() implies ids[i] != ids[j] by {
                if j < front.len() {
                    assert(front[i] != front[j]);
                } else {
                    assert(front[i] == ids[i]);
                    assert(front.contains(ids[i]));
                }
            }
        }
    }
}

/// Every resolved edge joins places of `vs` and comes from an edge between
/// the ids at those places.
pub proof fn lemma_resolve_sound(vs: Seq<Seq<char>>, ends: Seq<(Seq<char>, Seq<char>)>)
    ensures
        edges_in_range(vs.len(), resolve(vs, ends)),
        forall|x: int|
            0 <= x < resolve(vs, ends).len() ==> ends.contains(
                (vs[(#[trigger] resolve(vs, ends)[x]).0], vs[resolve(vs, ends)[x].1]),
            ),
    decreases ends.len(),
{
    if ends.len() > 0 {
        let front = ends.drop_last();
        lemma_resolve_sound(vs, front);
        let r = resolve(vs, ends);
        assert forall|x: int| 0 <= x < r.len() implies 0 <= (#[trigger] r[x]).0 < vs.len() && 0
            <= r[x].1 < vs.len() && ends.contains((vs[r[x].0], vs[r[x].1])) by {
            if x < resolve(vs, front).len() {
                assert(r[x] == resolve(vs, front)[x]);
                let e = (vs[r[x].0], vs[r[x].1]);
                let y = choose|y: int| 0 <= y < front.len() && front[y] == e;
                assert(ends[y] == e);
            } else {
                assert(ends[ends.len() - 1] == ends.last());
            }
        }
    }
}

/// Every edge between known nodes is among the resolved edges.
pub proof fn lemma_resolve_complete(
    vs: Seq<Seq<char>>,
    ends: Seq<(Seq<char>, Seq<char>)>,
    y: int,
)
    requires
        0 <= y < ends.len(),
        joins_known(vs, ends[y]),
    ensures
        resolve(vs, ends).contains((vs.index_of(ends[y].0), vs.index_of(ends[y].1))),
    decreases ends.len(),
{
    let front = ends.drop_last();
    let r = resolve(vs, ends);
    let goal = (vs.index_of(ends[y].0), vs.index_of(ends[y].1));
    if y == ends.len() - 1 {
        if !resolve(vs, front).contains(goal) {
            assert(r[r.len() - 1] == goal);
        }
    } else {
        lemma_resolve_complete(vs, front, y);
        let x = choose|x: int| 0 <= x < resolve(vs, front).len() && resolve(vs, front)[x] == goal;
        assert(r[x] == goal);
    }
}

/// An edge between known nodes is a relation between their places.
proof fn lemma_edge_to_places(
    ids: Seq<Seq<char>>,
    ends: Seq<(Seq<char>, Seq<char>)>,
    a: Seq<char>,
    b: Seq<char>,
)
    requires
        ids.contains(a),
        ids.contains(b),
        ends.contains((a, b)),
    ensures
        resolve(distinct_ids(ids), ends).contains(
            (distinct_ids(ids).index_of(a), distinct_ids(ids).index_of(b)),
        ),
{
    let vs = distinct_ids(ids);
    lemma_distinct_ids(ids);
    assert(vs.contains(a) && vs.contains(b));
    let y = choose|y: int| 0 <= y < ends.len() && ends[y] == (a, b);
    lemma_resolve_complete(vs, ends, y);
}

/// A relation between two places comes from an edge between the known
/// nodes at those places.
proof fn lemma_edge_to_ids(ids: Seq<Seq<char>>, ends: Seq<(Seq<char>, Seq<char>)>, i: int, j: int)
    requires
        resolve(distinct_ids(ids), ends).contains((i, j)),
    ensures
        0 <= i < distinct_ids(ids).len(),
        0 <= j < distinct_ids(ids).len(),
        ids.contains(distinct_ids(ids)[i]),
        ids.contains(distinct_ids(ids)[j]),
        ends.contains((distinct_ids(ids)[i], distinct_ids(ids)[j])),
{
    let vs = distinct_ids(ids);
    let res = resolve(vs, ends);
    lemma_distinct_ids(ids);
    lemma_resolve_sound(vs, ends);
    let x = choose|x: int| 0 <= x < res.len() && res[x] == (i, j);
    assert(0 <= res[x].0 < vs.len() && 0 <= res[x].1 < vs.len());
    assert(vs.contains(vs[i]));
    assert(vs.contains(vs[j]));
}

/// The places of a cycle of the flow are a closed walk of its resolved
/// graph.
proof fn lemma_cycle_to_places(
    ids: Seq<Seq<char>>,
    ends: Seq<(Seq<char>, Seq<char>)>,
    w: Seq<Seq<char>>,
)
    requires
        is_id_cycle(ids, ends, w),
    ensures
        is_cycle(resolve(distinct_ids(ids), ends), places_of(distinct_ids(ids), w)),
{
    let vs = distinct_ids(ids);
    let res = resolve(vs, ends);
    let wi = places_of(vs, w);
    assert forall|i: int| 0 <= i < wi.len() implies res.contains(
        (#[trigger] wi[i], if i + 1 < wi.len() {
            wi[i + 1]
        } else {
            wi[0]
        }),
    ) by {
        let next = if i + 1 < w.len() {
            w[i + 1]
        } else {
            w[0]
        };
        assert(ids.contains(w[i]));
        assert(ids.contains(next));
        assert(ends.contains((w[i], next)));
        lemma_edge_to_places(ids, ends, w[i], next);
    }
}

/// The ids at the places of a closed walk of the resolved graph are a
/// cycle of the flow.
proof fn lemma_cycle_to_ids(ids: Seq<Seq<char>>, ends: Seq<(Seq<char>, Seq<char>)>, wi: Seq<int>)
    requires
        is_cycle(resolve(distinct_ids(ids), ends), wi),
    ensures
        is_id_cycle(ids, ends, ids_at(distinct_ids(ids), wi)),
{
    let vs = distinct_ids(ids);
    let res = resolve(vs, ends);
    let w = ids_at(vs, wi);
    assert forall|i: int| 0 <= i < w.len() implies ids.contains(#[trigger] w[i]) && ends.contains(
        (w[i], if i + 1 < w.len() {
            w[i + 1]
        } else {
            w[0]
        }),
    ) by {
        let next = if i + 1 < wi.len() {
            wi[i + 1]
        } else {
            wi[0]
        };
        assert(res.contains((wi[i], next)));
        lemma_edge_to_ids(ids, ends, wi[i], next);
    }
}

/// The flow has a cycle exactly when its resolved graph has one.
pub proof fn lemma_cycles_correspond(ids: Seq<Seq<char>>, ends: Seq<(Seq<char>, Seq<char>)>)
    ensures
        is_cyclic(ids, ends) <==> has_cycle(resolve(distinct_ids(ids), ends)),
{
    if is_cyclic(ids, ends) {
        let w = choose|w: Seq<Seq<char>>| is_id_cycle(ids, ends, w);
        lemma_cycle_to_places(ids, ends, w);
    }
    if has_cycle(resolve(distinct_ids(ids), ends)) {
        let wi = choose|wi: Seq<int>| is_cycle(resolve(distinct_ids(ids), ends), wi);
        lemma_cycle_to_ids(ids, ends, wi);
    }
}

/// The places of a walk of the flow are a walk of its resolved graph.
proof fn lemma_walk_to_places(
    ids: Seq<Seq<char>>,
    ends: Seq<(Seq<char>, Seq<char>)>,
    p: Seq<Seq<char>>,
)
    requires
        is_id_walk(ids, ends, p),
    ensures
        is_walk(resolve(distinct_ids(ids), ends), places_of(distinct_ids(ids), p)),
{
    let vs = distinct_ids(ids);
    let res = resolve(vs, ends);
    let pi = places_of(vs, p);
    assert forall|i: int| 0 <= i < pi.len() - 1 implies res.contains(
        (#[trigger] pi[i], pi[i + 1]),
    ) by {
        assert(ids.contains(p[i]));
        assert(ids.contains(p[i + 1]));
        assert(ends.contains((p[i], p[i + 1])));
        lemma_edge_to_places(ids, ends, p[i], p[i + 1]);
    }
}

/// The ids at the places of a walk of the resolved graph, begun at a
/// place of a node, are a walk of the flow.
proof fn lemma_walk_to_ids(ids: Seq<Seq<char>>, ends: Seq<(Seq<char>, Seq<char>)>, pi: Seq<int>)
    requires
        is_walk(resolve(distinct_ids(ids), ends), pi),
        0 <= pi[0] < distinct_ids(ids).len(),
    ensures
        is_id_walk(ids, ends, ids_at(distinct_ids(ids), pi)),
        0 <= pi.last() < distinct_ids(ids).len(),
{
    let vs = distinct_ids(ids);
    let res = resolve(vs, ends);
    let p = ids_at(vs, pi);
    lemma_distinct_ids(ids);
    assert forall|i: int| 0 <= i < p.len() - 1 implies ends.contains((#[trigger] p[i], p[i + 1]))
        && 0 <= pi[i + 1] < vs.len() by {
        assert(res.contains((pi[i], pi[i + 1])));
        lemma_edge_to_ids(ids, ends, pi[i], pi[i + 1]);
    }
    assert forall|i: int| 0 <= i < p.len() implies ids.contains(#[trigger] p[i]) by {
        if i > 0 {
            assert(ends.contains((p[i - 1], p[i - 1 + 1])));
            assert(0 <= pi[i - 1 + 1] < vs.len());
        }
        assert(vs.contains(vs[pi[i]]));
    }
    if pi.len() > 1 {
        let i = pi.len() - 2;
        assert(ends.contains((p[i], p[i + 1])));
    }
}

/// A node stands on or behind a cycle of the flow exactly when its place
/// does in the resolved graph.
proof fn lemma_behind_cycle_corresponds(
    ids: Seq<Seq<char>>,
    ends: Seq<(Seq<char>, Seq<char>)>,
    id: Seq<char>,
)
    requires
        ids.contains(id),
    ensures
        is_behind_cycle(ids, ends, id) <==> behind_cycle(
            resolve(distinct_ids(ids), ends),
            distinct_ids(ids).index_of(id),
        ),
{
    let vs = distinct_ids(ids);
    let res = resolve(vs, ends);
    let v = vs.index_of(id);
    lemma_distinct_ids(ids);
    assert(vs.contains(id));
    if is_behind_cycle(ids, ends, id) {
        let (w, p) = choose|w: Seq<Seq<char>>, p: Seq<Seq<char>>|
            #![trigger is_id_cycle(ids, ends, w), is_id_walk(ids, ends, p)]
            is_id_cycle(ids, ends, w) && is_id_walk(ids, ends, p) && w.contains(p[0]) && p.last()
                == id;
        lemma_cycle_to_places(ids, ends, w);
        lemma_walk_to_places(ids, ends, p);
        let wi = places_of(vs, w);
        let pi = places_of(vs, p);
        let k = choose|k: int| 0 <= k < w.len() && w[k] == p[0];
        assert(wi[k] == pi[0]);
        assert(pi.last() == v);
        assert(is_cycle(res, wi) && is_walk(res, pi) && wi.contains(pi[0]) && pi.last() == v);
    }
    if behind_cycle(res, v) {
        let (wi, pi) = choose|wi: Seq<int>, pi: Seq<int>|
            #![trigger is_cycle(res, wi), is_walk(res, pi)]
            is_cycle(res, wi) && is_walk(res, pi) && wi.contains(pi[0]) && pi.last() == v;
        let k = choose|k: int| 0 <= k < wi.len() && wi[k] == pi[0];
        let next = if k + 1 < wi.len() {
            wi[k + 1]
        } else {
            wi[0]
        };
        assert(res.contains((wi[k], next)));
        lemma_edge_to_ids(ids, ends, wi[k], next);
        lemma_cycle_to_ids(ids, ends, wi);
        lemma_walk_to_ids(ids, ends, pi);
        let w = ids_at(vs, wi);
        let p = ids_at(vs, pi);
        assert(w[k] == p[0]);
        assert(p.last() == vs[v]);
        assert(is_id_cycle(ids, ends, w) && is_id_walk(ids, ends, p) && w.contains(p[0])
            && p.last() == id);
    }
}

// ---------------------------------------------------------------------------
// What a topological sort owes
// ---------------------------------------------------------------------------

/// `order` holds every id of `ids` exactly once, and nothing else.
pub open spec fn is_arrangement(order: Seq<Seq<char>>, ids: Seq<Seq<char>>) -> bool {
    &&& order.len() == ids.len()
    &&& order.no_duplicates()
    &&& forall|id: Seq<char>| #![trigger order.contains(id)] order.contains(id) <==> ids.contains(id)
}

/// Every edge between known nodes leads from an earlier place of `order`
/// to a later one.
pub open spec fn parents_come_first(
    ids: Seq<Seq<char>>,
    ends: Seq<(Seq<char>, Seq<char>)>,
    order: Seq<Seq<char>>,
) -> bool {
    forall|y: int, a: int, b: int|
        0 <= y < ends.len() && 0 <= a < order.len() && 0 <= b < order.len() && #[trigger] order[a]
            == (#[trigger] ends[y]).0 && #[trigger] order[b] == ends[y].1 ==> a < b
}

/// The order never holds more ids than the flow has distinct ones, never
/// repeats an id, holds only ids of the flow, and puts parents first.
pub proof fn lemma_topo_order_sound(ids: Seq<Seq<char>>, ends: Seq<(Seq<char>, Seq<char>)>)
    ensures
        spec_topo_order(ids, ends).len() <= distinct_ids(ids).len() <= ids.len(),
        spec_topo_order(ids, ends).no_duplicates(),
        forall|i: int|
            0 <= i < spec_topo_order(ids, ends).len() ==> ids.contains(
                #[trigger] spec_topo_order(ids, ends)[i],
            ),
        parents_come_first(ids, ends, spec_topo_order(ids, ends)),
{
    let vs = distinct_ids(ids);
    let res = resolve(vs, ends);
    let ko = kahn_order(vs.len(), res);
    let order = spec_topo_order(ids, ends);
    lemma_distinct_ids(ids);
    lemma_resolve_sound(vs, ends);
    lemma_kahn_order_sound(vs.len(), res);
    assert forall|i: int, j: int| 0 <= i < j < order.len() implies order[i] != order[j] by {
        assert(ko[i] != ko[j]);
    }
    assert forall|i: int| 0 <= i < order.len() implies ids.contains(#[trigger] order[i]) by {
        assert(vs.contains(vs[ko[i]]));
    }
    assert forall|y: int, a: int, b: int|
        0 <= y < ends.len() && 0 <= a < order.len() && 0 <= b < order.len() && #[trigger] order[a]
            == (#[trigger] ends[y]).0 && #[trigger] order[b] == ends[y].1 implies a < b by {
        assert(vs.contains(vs[ko[a]]));
        assert(vs.contains(vs[ko[b]]));
        lemma_resolve_complete(vs, ends, y);
        let goal = (vs.index_of(ends[y].0), vs.index_of(ends[y].1));
        let x = choose|x: int| 0 <= x < res.len() && res[x] == goal;
        assert(vs[goal.0] == vs[ko[a]]);
        assert(vs[goal.1] == vs[ko[b]]);
        assert(ko[a] == res[x].0 && ko[b] == res[x].1);
    }
}

/// On a flow whose ids are distinct and whose graph has no cycle, the
/// topological order is complete: it is an arrangement of the ids in which
/// parents come first.
pub proof fn law_acyclic_flow_is_sorted(ids: Seq<Seq<char>>, ends: Seq<(Seq<char>, Seq<char>)>)
    requires
        ids.no_duplicates(),
        !is_cyclic(ids, ends),
    ensures
        is_arrangement(spec_topo_order(ids, ends), ids),
        parents_come_first(ids, ends, spec_topo_order(ids, ends)),
{
    let vs = distinct_ids(ids);
    let res = resolve(vs, ends);
    let ko = kahn_order(vs.len(), res);
    let order = spec_topo_order(ids, ends);
    lemma_distinct_ids(ids);
    lemma_resolve_sound(vs, ends);
    lemma_cycles_correspond(ids, ends);
    lemma_complete_iff_acyclic(vs.len(), res);
    lemma_kahn_complete_is_topological(vs.len(), res);
    lemma_topo_order_sound(ids, ends);
    assert forall|id: Seq<char>| #![trigger order.contains(id)] ids.contains(id) implies order.contains(id) by {
        let v = choose|v: int| 0 <= v < ids.len() && ids[v] == id;
        assert(ko.contains(v));
        let a = choose|a: int| 0 <= a < ko.len() && ko[a] == v;
        assert(order[a] == id);
    }
    assert forall|id: Seq<char>| #![trigger order.contains(id)] order.contains(id) implies ids.contains(id) by {
        let a = choose|a: int| 0 <= a < order.len() && order[a] == id;
        assert(ids.contains(order[a]));
    }
}

/// On a flow with a cycle the topological order is incomplete: it holds
/// fewer ids than the flow has nodes.
pub proof fn law_cyclic_flow_is_rejected(ids: Seq<Seq<char>>, ends: Seq<(Seq<char>, Seq<char>)>)
    requires
        is_cyclic(ids, ends),
    ensures
        spec_topo_order(ids, ends).len() < ids.len(),
{
    let vs = distinct_ids(ids);
    let res = resolve(vs, ends);
    lemma_distinct_ids(ids);
    lemma_resolve_sound(vs, ends);
    lemma_cycles_correspond(ids, ends);
    lemma_complete_iff_acyclic(vs.len(), res);
    lemma_kahn_order_sound(vs.len(), res);
}

/// The order is complete exactly on flows with distinct ids and no cycle.
pub proof fn lemma_sorted_iff_valid(ids: Seq<Seq<char>>, ends: Seq<(Seq<char>, Seq<char>)>)
    ensures
        spec_topo_order(ids, ends).len() == ids.len() <==> ids.no_duplicates() && !is_cyclic(
            ids,
            ends,
        ),
{
    let vs = distinct_ids(ids);
    let res = resolve(vs, ends);
    lemma_distinct_ids(ids);
    lemma_resolve_sound(vs, ends);
    lemma_cycles_correspond(ids, ends);
    lemma_complete_iff_acyclic(vs.len(), res);
    lemma_kahn_order_sound(vs.len(), res);
}

/// What a cycle costs: the order holds exactly the nodes that neither
/// stand on a cycle nor can be reached from one, so the count of sorted
/// nodes that a cycle error gives is the number of those nodes.
pub proof fn law_sorted_nodes_are_clear_of_cycles(
    ids: Seq<Seq<char>>,
    ends: Seq<(Seq<char>, Seq<char>)>,
)
    ensures
        forall|id: Seq<char>|
            #![trigger spec_topo_order(ids, ends).contains(id)]
            spec_topo_order(ids, ends).contains(id) <==> ids.contains(id) && !is_behind_cycle(
                ids,
                ends,
                id,
            ),
        spec_topo_order(ids, ends).to_set() == clear_ids(ids, ends),
        spec_topo_order(ids, ends).len() == clear_ids(ids, ends).len(),
{
    let vs = distinct_ids(ids);
    let res = resolve(vs, ends);
    let ko = kahn_order(vs.len(), res);
    let order = spec_topo_order(ids, ends);
    lemma_distinct_ids(ids);
    lemma_resolve_sound(vs, ends);
    lemma_kahn_order_sound(vs.len(), res);
    lemma_topo_order_sound(ids, ends);
    assert forall|id: Seq<char>|
        #![trigger order.contains(id)]
        order.contains(id) <==> ids.contains(id) && !is_behind_cycle(ids, ends, id) by {
        if order.contains(id) {
            let a = choose|a: int| 0 <= a < order.len() && order[a] == id;
            assert(0 <= ko[a] < vs.len());
            assert(vs.contains(vs[ko[a]]));
            assert(vs.index_of(id) == ko[a]);
            assert(ko.contains(ko[a]));
            lemma_emitted_iff_clear(vs.len(), res, ko[a]);
            lemma_behind_cycle_corresponds(ids, ends, id);
        }
        if ids.contains(id) && !is_behind_cycle(ids, ends, id) {
            assert(vs.contains(id));
            let v = vs.index_of(id);
            lemma_behind_cycle_corresponds(ids, ends, id);
            lemma_emitted_iff_clear(vs.len(), res, v);
            let a = choose|a: int| 0 <= a < ko.len() && ko[a] == v;
            assert(order[a] == id);
        }
    }
    assert(order.to_set() =~= clear_ids(ids, ends));
    order.unique_seq_to_set();
}

// ---------------------------------------------------------------------------
// Errors
// ---------------------------------------------------------------------------

/// The flow graph has a cycle, or two nodes share an id: only `sorted` of
/// its `total` nodes could be put in topological order.
#[derive(Clone, Copy, Debug, PartialEq, Eq, Structural)]
pub struct CycleError {
    pub sorted: usize,
    pub total: usize,
}

/// The text of a `CycleError`.
pub open spec fn spec_cycle_message(sorted: nat, total: nat) -> Seq<char> {
    "flow graph has a cycle ("@ + spec_decimal(sorted) + " of "@ + spec_decimal(total)
        + " nodes sorted)"@
}

impl CycleError {
    /// The error as a sentence: `flow graph has a cycle (k of n nodes sorted)`.
    pub fn message(&self) -> (s: String)
        ensures
            s@ == spec_cycle_message(self.sorted as nat, self.total as nat),
    {
        let mut s = String::from_str("flow graph has a cycle (");
        s.append(decimal(self.sorted as u64).as_str());
        s.append(" of ");
        s.append(decimal(self.total as u64).as_str());
        s.append(" nodes sorted)");
        s
    }
}

// ---------------------------------------------------------------------------
// The functions
// ---------------------------------------------------------------------------

/// The first place of `id` in `keys`.
pub fn find_id(keys: &Vec<String>, id: &str) -> (r: Option<usize>)
    ensures
        match r {
            Some(i) => i < keys@.len() && keys@[i as int]@ == id@ && forall|j: int|
                0 <= j < i ==> (#[trigger] keys@[j])@ != id@,
            None => !strs(keys@).contains(id@),
        },
{
    let mut i: usize = 0;
    while i < keys.len()
        invariant
            i <= keys@.len(),
            forall|j: int| 0 <= j < i ==> (#[trigger] keys@[j])@ != id@,
        decreases keys@.len() - i,
    {
        if str_eq(keys[i].as_str(), id) {
            return Some(i);
        }
        i = i + 1;
    }
    proof {
        if strs(keys@).contains(id@) {
            let j = choose|j: int| 0 <= j < strs(keys@).len() && strs(keys@)[j] == id@;
            assert(keys@[j]@ == id@);
        }
    }
    None
}

/// The ids of `nodes`, each once, in the order of first occurrence.
pub fn distinct_node_ids(nodes: &[Node]) -> (keys: Vec<String>)
    ensures
        strs(keys@) == distinct_ids(node_ids(nodes@)),
{
    let ghost ids = node_ids(nodes@);
    let mut keys: Vec<String> = Vec::new();
    let mut i: usize = 0;
    while i < nodes.len()
        invariant
            i <= nodes@.len(),
            ids == node_ids(nodes@),
            strs(keys@) == distinct_ids(ids.take(i as int)),
        decreases nodes@.len() - i,
    {
        assert(ids.take(i + 1).drop_last() == ids.take(i as int));
        assert(ids.take(i + 1).last() == nodes@[i as int].id@);
        match find_id(&keys, nodes[i].id.as_str()) {
            Some(j) => {
                assert(strs(keys@)[j as int] == nodes@[i as int].id@);
            },
            None => {
                keys.push(nodes[i].id.clone());
                assert(strs(keys@) =~= distinct_ids(ids.take(i + 1)));
            },
        }
        i = i + 1;
    }
    assert(ids.take(nodes@.len() as int) == ids);
    keys
}

/// Whether `es` holds the pair `(i, j)`.
pub fn has_pair(es: &Vec<(usize, usize)>, i: usize, j: usize) -> (b: bool)
    ensures
        b == int_pairs(es@).contains((i as int, j as int)),
{
    let mut x: usize = 0;
    while x < es.len()
        invariant
            x <= es@.len(),
            forall|y: int| 0 <= y < x ==> #[trigger] int_pairs(es@)[y] != (i as int, j as int),
        decreases es@.len() - x,
    {
        if es[x].0 == i && es[x].1 == j {
            assert(int_pairs(es@)[x as int] == (i as int, j as int));
            return true;
        }
        x = x + 1;
    }
    false
}

/// The relations between known nodes, each end as its place in `keys`,
/// each pair once, in the order of its first edge.
pub fn resolve_edges(keys: &Vec<String>, edges: &[Edge]) -> (es: Vec<(usize, usize)>)
    requires
        strs(keys@).no_duplicates(),
    ensures
        int_pairs(es@) == resolve(strs(keys@), edge_ends(edges@)),
{
    let ghost vs = strs(keys@);
    let ghost ends = edge_ends(edges@);
    let mut es: Vec<(usize, usize)> = Vec::new();
    let mut t: usize = 0;
    while t < edges.len()
        invariant
            t <= edges@.len(),
            vs == strs(keys@),
            vs.no_duplicates(),
            ends == edge_ends(edges@),
            int_pairs(es@) == resolve(vs, ends.take(t as int)),
        decreases edges@.len() - t,
    {
        assert(ends.take(t + 1).drop_last() == ends.take(t as int));
        assert(ends.take(t + 1).last() == (edges@[t as int].source@, edges@[t as int].target@));
        let a = find_id(keys, edges[t].source.as_str());
        let b = find_id(keys, edges[t].target.as_str());
        match (a, b) {
            (Some(i), Some(j)) => {
                proof {
                    let e = ends[t as int];
                    assert(vs[i as int] == e.0 && vs[j as int] == e.1);
                    assert(vs.contains(e.0) && vs.contains(e.1));
                    assert(vs[vs.index_of(e.0)] == vs[i as int]);
                    assert(vs[vs.index_of(e.1)] == vs[j as int]);
                    assert(resolved(vs, e) == (i as int, j as int));
                }
                if !has_pair(&es, i, j) {
                    es.push((i, j));
                    assert(int_pairs(es@) =~= resolve(vs, ends.take(t + 1)));
                }
            },
            _ => {},
        }
        t = t + 1;
    }
    assert(ends.take(edges@.len() as int) == ends);
    es
}

/// Puts the nodes of a flow in topological order with Kahn's algorithm.
///
/// Nodes without parents start the queue in the order of `nodes`; a node
/// joins the queue when the last edge into it has been relaxed. Edges with
/// an end that is no node of the flow are ignored, and several edges
/// between one pair of nodes count as one. The sort succeeds exactly
/// when no two nodes share an id and the graph has no cycle; the result is
/// then an arrangement of the ids in which parents come first. Otherwise
/// the error tells how many nodes could be sorted: as many as there are
/// ids in the flow that neither stand on a cycle nor can be reached from
/// one.
pub fn topo_sort(nodes: &[Node], edges: &[Edge]) -> (r: Result<Vec<String>, CycleError>)
    ensures
        r is Ok <==> node_ids(nodes@).no_duplicates() && !is_cyclic(
            node_ids(nodes@),
            edge_ends(edges@),
        ),
        match r {
            Ok(sorted) => {
                &&& strs(sorted@) == spec_topo_order(node_ids(nodes@), edge_ends(edges@))
                &&& is_arrangement(strs(sorted@), node_ids(nodes@))
                &&& parents_come_first(node_ids(nodes@), edge_ends(edges@), strs(sorted@))
            },
            Err(e) => {
                &&& e.sorted == spec_topo_order(node_ids(nodes@), edge_ends(edges@)).len()
                &&& e.sorted == clear_ids(node_ids(nodes@), edge_ends(edges@)).len()
                &&& e.total == nodes@.len()
                &&& e.sorted < e.total
            },
        },
{
    let ghost ids = node_ids(nodes@);
    let ghost ends = edge_ends(edges@);
    let keys = distinct_node_ids(nodes);
    proof {
        lemma_distinct_ids(ids);
        lemma_resolve_sound(strs(keys@), ends);
        lemma_sorted_iff_valid(ids, ends);
        lemma_topo_order_sound(ids, ends);
        law_sorted_nodes_are_clear_of_cycles(ids, ends);
    }
    let es = resolve_edges(&keys, edges);
    let order = kahn_sort(keys.len(), &es);
    if order.len() != nodes.len() {
        return Err(CycleError { sorted: order.len(), total: nodes.len() });
    }
    proof {
        law_acyclic_flow_is_sorted(ids, ends);
        lemma_kahn_order_sound(keys@.len(), int_pairs(es@));
    }
    let mut sorted: Vec<String> = Vec::new();
    let mut i: usize = 0;
    while i < order.len()
        invariant
            i <= order@.len(),
            sorted@.len() == i,
            forall|b: int| 0 <= b < order@.len() ==> 0 <= #[trigger] ints(order@)[b] < keys@.len(),
            forall|j: int| 0 <= j < i ==> (#[trigger] sorted@[j])@ == keys@[order@[j] as int]@,
        decreases order@.len() - i,
    {
        assert(0 <= ints(order@)[i as int] < keys@.len());
        sorted.push(keys[order[i]].clone());
        i = i + 1;
    }
    assert(strs(sorted@) =~= spec_topo_order(ids, ends));
    Ok(sorted)
}

// ---------------------------------------------------------------------------
// Adjacency
// ---------------------------------------------------------------------------

/// Which end of an edge a neighbour list collects.
#[derive(Clone, Copy, Debug, PartialEq, Eq, Structural)]
pub enum Direction {
    /// The targets of the edges that leave a node.
    Children,
    /// The sources of the edges that enter a node.
    Parents,
}

/// The neighbours of `id` on the given side, in edge order.
pub open spec fn neighbours_of(
    dir: Direction,
    ids: Seq<Seq<char>>,
    ends: Seq<(Seq<char>, Seq<char>)>,
    id: Seq<char>,
) -> Seq<Seq<char>> {
    match dir {
        Direction::Children => children_of(ids, ends, id),
        Direction::Parents => parents_of(ids, ends, id),
    }
}

/// `pairs` holds one entry for each distinct id, in the order of first
/// occurrence, with the neighbours of that id on the given side.
pub open spec fn is_adjacency(
    pairs: Seq<(Seq<char>, Vec<String>)>,
    dir: Direction,
    ids: Seq<Seq<char>>,
    ends: Seq<(Seq<char>, Seq<char>)>,
) -> bool {
    &&& keys_of(pairs) == distinct_ids(ids)
    &&& forall|i: int|
        0 <= i < pairs.len() ==> strs((#[trigger] pairs[i]).1@) == neighbours_of(
            dir,
            ids,
            ends,
            pairs[i].0,
        )
}

/// Several edges between one pair of nodes are one relation: no neighbour
/// list names a node twice, and a node is a neighbour exactly when some
/// edge between known nodes joins it.
pub proof fn law_one_relation_per_pair(
    dir: Direction,
    ids: Seq<Seq<char>>,
    ends: Seq<(Seq<char>, Seq<char>)>,
    id: Seq<char>,
)
    ensures
        neighbours_of(dir, ids, ends, id).no_duplicates(),
        forall|other: Seq<char>|
            #![trigger neighbours_of(dir, ids, ends, id).contains(other)]
            neighbours_of(dir, ids, ends, id).contains(other) <==> joins_known(
                ids,
                match dir {
                    Direction::Children => (id, other),
                    Direction::Parents => (other, id),
                },
            ) && ends.contains(
                match dir {
                    Direction::Children => (id, other),
                    Direction::Parents => (other, id),
                },
            ),
    decreases ends.len(),
{
    let now = neighbours_of(dir, ids, ends, id);
    if ends.len() > 0 {
        let front = ends.drop_last();
        let last = ends[ends.len() - 1];
        let before = neighbours_of(dir, ids, front, id);
        law_one_relation_per_pair(dir, ids, front, id);
        assert forall|other: Seq<char>| #![trigger now.contains(other)] now.contains(other) <==> ({
            let e = match dir {
                Direction::Children => (id, other),
                Direction::Parents => (other, id),
            };
            joins_known(ids, e) && ends.contains(e)
        }) by {
            let e = match dir {
                Direction::Children => (id, other),
                Direction::Parents => (other, id),
            };
            if now.contains(other) {
                let i = choose|i: int| 0 <= i < now.len() && now[i] == other;
                if i < before.len() {
                    assert(before[i] == other);
                    assert(before.contains(other));
                    let y = choose|y: int| 0 <= y < front.len() && front[y] == e;
                    assert(ends[y] == e);
                } else {
                    assert(ends[ends.len() - 1] == e);
                }
            }
            if joins_known(ids, e) && ends.contains(e) {
                let y = choose|y: int| 0 <= y < ends.len() && ends[y] == e;
                if y < front.len() {
                    assert(front[y] == e);
                    assert(before.contains(other));
                }
                if before.contains(other) {
                    let i = choose|i: int| 0 <= i < before.len() && before[i] == other;
                    assert(now[i] == other);
                } else {
                    assert(now[before.len() as int] == other);
                }
            }
        }
    }
}

/// Neighbour lists depend on the ids only through which ids are known.
pub proof fn lemma_neighbours_same_known(
    dir: Direction,
    ids1: Seq<Seq<char>>,
    ids2: Seq<Seq<char>>,
    ends: Seq<(Seq<char>, Seq<char>)>,
    id: Seq<char>,
)
    requires
        forall|x: Seq<char>| #![trigger ids1.contains(x)] ids1.contains(x) <==> ids2.contains(x),
    ensures
        neighbours_of(dir, ids1, ends, id) == neighbours_of(dir, ids2, ends, id),
    decreases ends.len(),
{
    if ends.len() > 0 {
        lemma_neighbours_same_known(dir, ids1, ids2, ends.drop_last(), id);
        let e = ends.last();
        assert(ids1.contains(e.0) <==> ids2.contains(e.0));
        assert(ids1.contains(e.1) <==> ids2.contains(e.1));
    }
}

/// The neighbours of `id` on one side, among the nodes named by `keys`:
/// each once, in the order of the first edge that joins it to `id`.
pub fn neighbours(dir: Direction, keys: &Vec<String>, edges: &[Edge], id: &str) -> (list: Vec<
    String,
>)
    ensures
        strs(list@) == neighbours_of(dir, strs(keys@), edge_ends(edges@), id@),
{
    let ghost vs = strs(keys@);
    let ghost ends = edge_ends(edges@);
    let mut list: Vec<String> = Vec::new();
    let mut t: usize = 0;
    while t < edges.len()
        invariant
            t <= edges@.len(),
            vs == strs(keys@),
            ends == edge_ends(edges@),
            strs(list@) == neighbours_of(dir, vs, ends.take(t as int), id@),
        decreases edges@.len() - t,
    {
        assert(ends.take(t + 1).drop_last() == ends.take(t as int));
        assert(ends.take(t + 1).last() == (edges@[t as int].source@, edges@[t as int].target@));
        let edge = &edges[t];
        let here = match dir {
            Direction::Children => str_eq(edge.source.as_str(), id),
            Direction::Parents => str_eq(edge.target.as_str(), id),
        };
        if here {
            let a = find_id(keys, edge.source.as_str());
            let b = find_id(keys, edge.target.as_str());
            proof {
                if a is Some {
                    assert(vs[a->0 as int] == edge.source@);
                }
                if b is Some {
                    assert(vs[b->0 as int] == edge.target@);
                }
            }
            if a.is_some() && b.is_some() {
                let other = match dir {
                    Direction::Children => &edge.target,
                    Direction::Parents => &edge.source,
                };
                match find_id(&list, other.as_str()) {
                    Some(at) => {
                        assert(strs(list@)[at as int] == other@);
                    },
                    None => {
                        list.push(other.clone());
                        assert(strs(list@) =~= neighbours_of(dir, vs, ends.take(t + 1), id@));
                    },
                }
            }
        }
        t = t + 1;
    }
    assert(ends.take(edges@.len() as int) == ends);
    list
}

/// The adjacency of one side: for every node its neighbours on that side.
pub fn adjacency(dir: Direction, nodes: &[Node], edges: &[Edge]) -> (adj: Adjacency)
    ensures
        is_adjacency(adj.pairs(), dir, node_ids(nodes@), edge_ends(edges@)),
{
    let ghost ids = node_ids(nodes@);
    let ghost ends = edge_ends(edges@);
    let keys = distinct_node_ids(nodes);
    let ghost vs = strs(keys@);
    proof {
        lemma_distinct_ids(ids);
    }
    let mut adj: Adjacency = StrMap::new();
    let mut k: usize = 0;
    while k < keys.len()
        invariant
            k <= keys@.len(),
            vs == strs(keys@),
            vs == distinct_ids(ids),
            vs.no_duplicates(),
            forall|x: Seq<char>| #![trigger vs.contains(x)] vs.contains(x) <==> ids.contains(x),
            ends == edge_ends(edges@),
            keys_of(adj.pairs()) == vs.take(k as int),
            forall|i: int|
                0 <= i < adj.pairs().len() ==> strs((#[trigger] adj.pairs()[i]).1@)
                    == neighbours_of(dir, ids, ends, adj.pairs()[i].0),
        decreases keys@.len() - k,
    {
        let key = keys[k].clone();
        let list = neighbours(dir, &keys, edges, key.as_str());
        proof {
            lemma_neighbours_same_known(dir, vs, ids, ends, key@);
            let before = adj.pairs();
            assert(key@ == vs[k as int]);
            assert(keys_of(before).len() == k);
            if has_key(before, key@) {
                let i = place_of_key(before, key@);
                assert(keys_of(before)[i] == key@);
                assert(vs.take(k as int)[i] == vs[i]);
                assert(vs[i] == vs[k as int]);
            }
        }
        let ghost before = adj.pairs();
        adj.insert(key, list);
        proof {
            let after = adj.pairs();
            assert(after =~= before.push((vs[k as int], list)));
            assert(keys_of(after) =~= vs.take(k + 1));
            assert forall|i: int| 0 <= i < after.len() implies strs((#[trigger] after[i]).1@)
                == neighbours_of(dir, ids, ends, after[i].0) by {
                if i < before.len() {
                    assert(after[i] == before[i]);
                }
            }
        }
        k = k + 1;
    }
    assert(vs.take(keys@.len() as int) == vs);
    adj
}

/// Builds the two adjacency maps of a flow: for every node its children,
/// and for every node its parents, each list in edge order. Every node has
/// an entry in both, in the order of `nodes`. Edges with an end that is no
/// node of the flow are left out, and several edges between one pair of
/// nodes make one relation: no list names a node twice.
pub fn build_adjacency(nodes: &[Node], edges: &[Edge]) -> (r: (Adjacency, Adjacency))
    ensures
        is_adjacency(r.0.pairs(), Direction::Children, node_ids(nodes@), edge_ends(edges@)),
        is_adjacency(r.1.pairs(), Direction::Parents, node_ids(nodes@), edge_ends(edges@)),
{
    let children = adjacency(Direction::Children, nodes, edges);
    let parents = adjacency(Direction::Parents, nodes, edges);
    (children, parents)
}

/// What an adjacency says as a map: its keys are the ids of the flow, and
/// each key leads to the neighbours of that id.
pub proof fn lemma_adjacency_as_map(
    pairs: Seq<(Seq<char>, Vec<String>)>,
    dir: Direction,
    ids: Seq<Seq<char>>,
    ends: Seq<(Seq<char>, Seq<char>)>,
)
    requires
        is_adjacency(pairs, dir, ids, ends),
    ensures
        keys_distinct(pairs),
        forall|id: Seq<char>|
            #![trigger as_map(pairs).dom().contains(id)]
            as_map(pairs).dom().contains(id) <==> ids.contains(id),
        forall|id: Seq<char>|
            ids.contains(id) ==> strs((#[trigger] as_map(pairs)[id])@) == neighbours_of(
                dir,
                ids,
                ends,
                id,
            ),
{
    lemma_distinct_ids(ids);
    let vs = distinct_ids(ids);
    assert forall|i: int, j: int| 0 <= i < j < pairs.len() implies pairs[i].0 != pairs[j].0 by {
        assert(keys_of(pairs)[i] == vs[i] && keys_of(pairs)[j] == vs[j]);
    }
    assert forall|id: Seq<char>|
        #![trigger as_map(pairs).dom().contains(id)]
        as_map(pairs).dom().contains(id) <==> ids.contains(id) by {
        if has_key(pairs, id) {
            let i = place_of_key(pairs, id);
            assert(keys_of(pairs)[i] == id);
            assert(vs.contains(id));
        }
        if ids.contains(id) {
            assert(vs.contains(id));
            let i = choose|i: int| 0 <= i < vs.len() && vs[i] == id;
            assert(keys_of(pairs)[i] == id);
            assert(pairs[i].0 == id);
        }
    }
    assert forall|id: Seq<char>| ids.contains(id) implies strs((#[trigger] as_map(pairs)[id])@)
        == neighbours_of(dir, ids, ends, id) by {
        assert(as_map(pairs).dom().contains(id));
        let i = place_of_key(pairs, id);
        lemma_as_map_entry(pairs, i);
    }
}

} // verus!
