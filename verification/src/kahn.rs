//! Kahn's algorithm over a graph whose vertices are the integers `0..m`,
//! as a mathematical function, together with the facts that make it a
//! topological sort.
//!
//! Edges are a sequence of `(source, target)` pairs; an edge that occurs
//! twice counts twice. The order in which vertices leave the queue is fixed:
//! the vertices without incoming edges come first, by increasing number, and
//! a vertex joins the queue at the moment its last incoming edge is relaxed.

use std::collections::VecDeque;
use vstd::prelude::*;
use vstd::set_lib::*;

verus! {

/// The bookkeeping of Kahn's algorithm: the remaining in-degree of every
/// vertex, and every vertex that has entered the queue so far, in the order
/// of entry. The vertices already taken out of the queue are a prefix of
/// `order`.
pub struct KahnState {
    pub deg: Seq<int>,
    pub order: Seq<int>,
}

/// Every edge joins two vertices of `0..m`.
pub open spec fn edges_in_range(m: nat, es: Seq<(int, int)>) -> bool {
    forall|x: int| 0 <= x < es.len() ==> 0 <= (#[trigger] es[x]).0 < m && 0 <= es[x].1 < m
}

/// The targets of the edges that leave `u`, in edge order.
pub open spec fn out_list(es: Seq<(int, int)>, u: int) -> Seq<int>
    decreases es.len(),
{
    if es.len() == 0 {
        Seq::empty()
    } else if es.last().0 == u {
        out_list(es.drop_last(), u).push(es.last().1)
    } else {
        out_list(es.drop_last(), u)
    }
}

/// How many of the first `len` edges enter `v` and are not in `relaxed`
/// (a set of edge positions).
pub open spec fn pending(es: Seq<(int, int)>, relaxed: Set<int>, v: int, len: nat) -> nat
    decreases len,
{
    if len == 0 {
        0
    } else {
        let rest = pending(es, relaxed, v, (len - 1) as nat);
        if es[len - 1].1 == v && !relaxed.contains(len - 1) {
            rest + 1
        } else {
            rest
        }
    }
}

/// The number of edges that enter `v`.
pub open spec fn in_degree(es: Seq<(int, int)>, v: int) -> nat {
    pending(es, Set::empty(), v, es.len())
}

/// The vertices below `n` without incoming edges, by increasing number.
pub open spec fn roots_below(es: Seq<(int, int)>, n: nat) -> Seq<int>
    decreases n,
{
    if n == 0 {
        Seq::empty()
    } else if in_degree(es, n - 1) == 0 {
        roots_below(es, (n - 1) as nat).push(n - 1)
    } else {
        roots_below(es, (n - 1) as nat)
    }
}

/// The state before any vertex has left the queue.
pub open spec fn initial_state(m: nat, es: Seq<(int, int)>) -> KahnState {
    KahnState { deg: Seq::new(m, |v: int| in_degree(es, v) as int), order: roots_below(es, m) }
}

/// Relaxing one edge into `c`: its remaining in-degree drops by one, and at
/// zero it joins the queue.
pub open spec fn relax_one(s: KahnState, c: int) -> KahnState {
    let left = s.deg[c] - 1;
    KahnState {
        deg: s.deg.update(c, left),
        order: if left == 0 {
            s.order.push(c)
        } else {
            s.order
        },
    }
}

/// Relaxing the edges into `cs`, first to last.
pub open spec fn relax(s: KahnState, cs: Seq<int>) -> KahnState
    decreases cs.len(),
{
    if cs.len() == 0 {
        s
    } else {
        relax_one(relax(s, cs.drop_last()), cs.last())
    }
}

/// The state after `k` vertices have left the queue, or after all have, if
/// fewer than `k` ever entered it.
pub open spec fn kahn_state(m: nat, es: Seq<(int, int)>, k: nat) -> KahnState
    decreases k,
{
    if k == 0 {
        initial_state(m, es)
    } else {
        let before = kahn_state(m, es, (k - 1) as nat);
        if k - 1 < before.order.len() {
            relax(before, out_list(es, before.order[k - 1]))
        } else {
            before
        }
    }
}

/// The vertices in the order in which Kahn's algorithm emits them. It holds
/// all `m` vertices exactly when the graph has no cycle.
pub open spec fn kahn_order(m: nat, es: Seq<(int, int)>) -> Seq<int> {
    kahn_state(m, es, m).order
}

/// `w` is a closed walk: each vertex has an edge to the next, and the last
/// has one to the first.
pub open spec fn is_cycle(es: Seq<(int, int)>, w: Seq<int>) -> bool {
    &&& w.len() > 0
    &&& forall|i: int|
        0 <= i < w.len() ==> es.contains(
            (#[trigger] w[i], if i + 1 < w.len() {
                w[i + 1]
            } else {
                w[0]
            }),
        )
}

/// The graph has a closed walk.
pub open spec fn has_cycle(es: Seq<(int, int)>) -> bool {
    exists|w: Seq<int>| is_cycle(es, w)
}

/// `order` lists every vertex of `0..m` exactly once.
pub open spec fn is_permutation(m: nat, order: Seq<int>) -> bool {
    &&& order.len() == m
    &&& order.no_duplicates()
    &&& forall|v: int| 0 <= v < m ==> order.contains(v)
    &&& forall|b: int| 0 <= b < order.len() ==> 0 <= #[trigger] order[b] < m
}

/// Every edge leads from an earlier place of `order` to a later one.
pub open spec fn respects_edges(es: Seq<(int, int)>, order: Seq<int>) -> bool {
    forall|x: int, a: int, b: int|
        0 <= x < es.len() && 0 <= a < order.len() && 0 <= b < order.len() && #[trigger] order[a]
            == (#[trigger] es[x]).0 && #[trigger] order[b] == es[x].1 ==> a < b
}

// ---------------------------------------------------------------------------
// Counting edges that are still pending
// ---------------------------------------------------------------------------

/// Relaxing one more edge takes one from the count of the vertex that the
/// edge enters, and leaves every other count as it is.
proof fn lemma_pending_insert(es: Seq<(int, int)>, relaxed: Set<int>, x0: int, v: int, len: nat)
    requires
        0 <= x0,
        !relaxed.contains(x0),
        len <= es.len(),
    ensures
        pending(es, relaxed.insert(x0), v, len) == pending(es, relaxed, v, len) - (if x0 < len
            && es[x0].1 == v {
            1int
        } else {
            0int
        }),
    decreases len,
{
    if len > 0 {
        lemma_pending_insert(es, relaxed, x0, v, (len - 1) as nat);
    }
}

/// Where no edge into `v` is pending, every edge into `v` is relaxed.
proof fn lemma_pending_zero(es: Seq<(int, int)>, relaxed: Set<int>, v: int, len: nat, x: int)
    requires
        pending(es, relaxed, v, len) == 0,
        0 <= x < len,
        es[x].1 == v,
    ensures
        relaxed.contains(x),
    decreases len,
{
    if x < len - 1 {
        lemma_pending_zero(es, relaxed, v, (len - 1) as nat, x);
    }
}

/// Where an edge into `v` is pending, there is an edge into `v` that is not
/// relaxed.
proof fn lemma_pending_witness(es: Seq<(int, int)>, relaxed: Set<int>, v: int, len: nat) -> (x:
    int)
    requires
        pending(es, relaxed, v, len) > 0,
    ensures
        0 <= x < len,
        es[x].1 == v,
        !relaxed.contains(x),
    decreases len,
{
    if es[len - 1].1 == v && !relaxed.contains(len - 1) {
        len - 1
    } else {
        lemma_pending_witness(es, relaxed, v, (len - 1) as nat)
    }
}

// ---------------------------------------------------------------------------
// The invariant of the algorithm
// ---------------------------------------------------------------------------

/// The positions of the edges relaxed so far: those that leave one of the
/// first `p` vertices of `order`, and those among the first `t` edges that
/// leave the vertex at place `p`.
pub open spec fn relaxed_set(es: Seq<(int, int)>, order: Seq<int>, p: int, t: int) -> Set<int> {
    Set::new(
        |x: int|
            0 <= x < es.len() && (order.take(p).contains(es[x].0) || (x < t && p < order.len()
                && es[x].0 == order[p])),
    )
}

/// What holds of a state in which the first `p` queued vertices have been
/// taken out and the first `t` edges have been scanned for the next one.
pub open spec fn inv(m: nat, es: Seq<(int, int)>, s: KahnState, p: int, t: int) -> bool {
    &&& s.deg.len() == m
    &&& 0 <= p <= s.order.len()
    &&& 0 <= t <= es.len()
    &&& s.order.no_duplicates()
    &&& forall|b: int| 0 <= b < s.order.len() ==> 0 <= #[trigger] s.order[b] < m
    &&& forall|v: int|
        0 <= v < m ==> #[trigger] s.deg[v] == pending(
            es,
            relaxed_set(es, s.order, p, t),
            v,
            es.len(),
        )
    &&& forall|v: int| 0 <= v < m && #[trigger] s.deg[v] == 0 ==> s.order.contains(v)
    &&& forall|b: int| 0 <= b < s.order.len() ==> s.deg[#[trigger] s.order[b]] == 0
    &&& forall|x: int, b: int|
        0 <= x < es.len() && 0 <= b < s.order.len() && #[trigger] s.order[b] == (
        #[trigger] es[x]).1 ==> s.order.take(b).contains(es[x].0)
}

/// The vertex at place `p` does not stand before place `p`.
proof fn lemma_not_yet_processed(order: Seq<int>, p: int)
    requires
        order.no_duplicates(),
        0 <= p < order.len(),
    ensures
        !order.take(p).contains(order[p]),
{
    if order.take(p).contains(order[p]) {
        let a = choose|a: int| 0 <= a < order.take(p).len() && order.take(p)[a] == order[p];
        assert(order[a] == order[p]);
    }
}

/// Scanning an edge that leaves the vertex in turn keeps the invariant: the
/// edge was pending, and the queue only grows at its end.
proof fn lemma_relax_edge(m: nat, es: Seq<(int, int)>, s: KahnState, p: int, t: int)
    requires
        edges_in_range(m, es),
        inv(m, es, s, p, t),
        p < s.order.len(),
        t < es.len(),
        es[t].0 == s.order[p],
    ensures
        s.deg[es[t].1] >= 1,
        inv(m, es, relax_one(s, es[t].1), p, t + 1),
        relax_one(s, es[t].1).order.len() >= s.order.len(),
        relax_one(s, es[t].1).order.take(s.order.len() as int) == s.order,
{
    let c = es[t].1;
    let r0 = relaxed_set(es, s.order, p, t);
    let s2 = relax_one(s, c);
    let r1 = relaxed_set(es, s2.order, p, t + 1);
    lemma_not_yet_processed(s.order, p);
    assert(!r0.contains(t));
    assert(s2.order.take(p) == s.order.take(p));
    assert(s2.order[p] == s.order[p]);
    assert(r1 =~= r0.insert(t));
    assert(0 <= c < m);
    lemma_pending_insert(es, r0, t, c, es.len());
    assert(s.deg[c] >= 1);
    assert forall|v: int| 0 <= v < m implies #[trigger] s2.deg[v] == pending(
        es,
        r1,
        v,
        es.len(),
    ) by {
        lemma_pending_insert(es, r0, t, v, es.len());
    }
    assert(!s.order.contains(c)) by {
        if s.order.contains(c) {
            let b = choose|b: int| 0 <= b < s.order.len() && s.order[b] == c;
            assert(s.deg[s.order[b]] == 0);
        }
    }
    if s2.deg[c] == 0 {
        assert(s2.order == s.order.push(c));
        assert(s2.order.no_duplicates());
        assert(s2.order[s.order.len() as int] == c);
        assert forall|v: int| 0 <= v < m && #[trigger] s2.deg[v] == 0 implies s2.order.contains(
            v,
        ) by {
            if v != c {
                assert(s.deg[v] == 0);
                let b = choose|b: int| 0 <= b < s.order.len() && s.order[b] == v;
                assert(s2.order[b] == v);
            }
        }
        assert forall|x: int, b: int|
            0 <= x < es.len() && 0 <= b < s2.order.len() && #[trigger] s2.order[b] == (
            #[trigger] es[x]).1 implies s2.order.take(b).contains(es[x].0) by {
            if b < s.order.len() {
                assert(s.order[b] == es[x].1);
                assert(s2.order.take(b) == s.order.take(b));
            } else {
                lemma_pending_zero(es, r1, c, es.len(), x);
                assert(r1.contains(x));
                if s2.order.take(p).contains(es[x].0) {
                    let a = choose|a: int|
                        0 <= a < s2.order.take(p).len() && s2.order.take(p)[a] == es[x].0;
                    assert(s2.order.take(b)[a] == es[x].0);
                } else {
                    assert(s2.order.take(b)[p] == es[x].0);
                }
            }
        }
    } else {
        assert forall|x: int, b: int|
            0 <= x < es.len() && 0 <= b < s2.order.len() && #[trigger] s2.order[b] == (
            #[trigger] es[x]).1 implies s2.order.take(b).contains(es[x].0) by {
            assert(s.order[b] == es[x].1);
        }
    }
}

/// Scanning an edge that leaves another vertex changes nothing.
proof fn lemma_skip_edge(m: nat, es: Seq<(int, int)>, s: KahnState, p: int, t: int)
    requires
        inv(m, es, s, p, t),
        p < s.order.len(),
        t < es.len(),
        es[t].0 != s.order[p],
    ensures
        inv(m, es, s, p, t + 1),
{
    assert(relaxed_set(es, s.order, p, t + 1) =~= relaxed_set(es, s.order, p, t));
}

/// When all edges have been scanned for the vertex at place `p`, the vertex
/// counts as taken out.
proof fn lemma_next_vertex(m: nat, es: Seq<(int, int)>, s: KahnState, p: int)
    requires
        inv(m, es, s, p, es.len() as int),
        p < s.order.len(),
    ensures
        inv(m, es, s, p + 1, 0),
{
    let r0 = relaxed_set(es, s.order, p, es.len() as int);
    let r1 = relaxed_set(es, s.order, p + 1, 0);
    assert forall|x: int| r0.contains(x) <==> r1.contains(x) by {
        if 0 <= x < es.len() {
            let u = es[x].0;
            let wide = s.order.take(p + 1);
            if s.order.take(p).contains(u) {
                let a = choose|a: int| 0 <= a < s.order.take(p).len() && s.order.take(p)[a] == u;
                assert(wide[a] == u);
            }
            if u == s.order[p] {
                assert(wide[p] == u);
            }
            if wide.contains(u) {
                let a = choose|a: int| 0 <= a < wide.len() && wide[a] == u;
                if a < p {
                    assert(s.order.take(p)[a] == u);
                }
            }
        }
    }
    assert(r0 =~= r1);
}

/// Relaxing the children that the first `t` edges give to the vertex in turn
/// keeps the invariant, and the queue only grows at its end.
proof fn lemma_scan(m: nat, es: Seq<(int, int)>, s: KahnState, p: int, t: nat)
    requires
        edges_in_range(m, es),
        inv(m, es, s, p, 0),
        p < s.order.len(),
        t <= es.len(),
    ensures
        ({
            let s2 = relax(s, out_list(es.take(t as int), s.order[p]));
            &&& inv(m, es, s2, p, t as int)
            &&& s2.order.len() >= s.order.len()
            &&& s2.order.take(s.order.len() as int) == s.order
        }),
    decreases t,
{
    let u = s.order[p];
    if t == 0 {
        assert(es.take(0).len() == 0);
        assert(s.order.take(s.order.len() as int) == s.order);
    } else {
        lemma_scan(m, es, s, p, (t - 1) as nat);
        let cs = out_list(es.take(t - 1), u);
        let prev = relax(s, cs);
        let c = es[t - 1].1;
        assert(es.take(t as int).drop_last() == es.take(t - 1));
        assert(es.take(t as int).last() == es[t - 1]);
        assert(prev.order[p] == prev.order.take(s.order.len() as int)[p]);
        if es[t - 1].0 == u {
            assert(out_list(es.take(t as int), u) == cs.push(c));
            assert(cs.push(c).drop_last() == cs);
            assert(relax(s, cs.push(c)) == relax_one(prev, c));
            lemma_relax_edge(m, es, prev, p, t - 1);
            let s2 = relax_one(prev, c);
            assert(s2.order.take(s.order.len() as int) == s2.order.take(
                prev.order.len() as int,
            ).take(s.order.len() as int));
        } else {
            lemma_skip_edge(m, es, prev, p, t - 1);
        }
    }
}

/// `roots_below` lists exactly the vertices below `n` without incoming
/// edges, by increasing number.
proof fn lemma_roots_below(es: Seq<(int, int)>, n: nat)
    ensures
        forall|b: int|
            0 <= b < roots_below(es, n).len() ==> 0 <= #[trigger] roots_below(es, n)[b] < n
                && in_degree(es, roots_below(es, n)[b]) == 0,
        forall|a: int, b: int|
            0 <= a < b < roots_below(es, n).len() ==> roots_below(es, n)[a] < roots_below(
                es,
                n,
            )[b],
        forall|v: int| 0 <= v < n && in_degree(es, v) == 0 ==> roots_below(es, n).contains(v),
    decreases n,
{
    if n > 0 {
        lemma_roots_below(es, (n - 1) as nat);
        let before = roots_below(es, (n - 1) as nat);
        let now = roots_below(es, n);
        assert forall|v: int| 0 <= v < n && in_degree(es, v) == 0 implies now.contains(v) by {
            if v < n - 1 {
                let b = choose|b: int| 0 <= b < before.len() && before[b] == v;
                assert(now[b] == v);
            } else {
                assert(now[before.len() as int] == v);
            }
        }
    }
}

/// The invariant holds before any vertex has left the queue.
proof fn lemma_initial(m: nat, es: Seq<(int, int)>)
    ensures
        inv(m, es, initial_state(m, es), 0, 0),
{
    let s = initial_state(m, es);
    lemma_roots_below(es, m);
    assert(relaxed_set(es, s.order, 0, 0) =~= Set::<int>::empty()) by {
        assert(s.order.take(0).len() == 0);
    }
    assert forall|x: int, b: int|
        0 <= x < es.len() && 0 <= b < s.order.len() && #[trigger] s.order[b] == (
        #[trigger] es[x]).1 implies s.order.take(b).contains(es[x].0) by {
        lemma_pending_zero(es, Set::<int>::empty(), s.order[b], es.len(), x);
    }
}

/// The least of `k` and `n`.
pub open spec fn at_most(k: nat, n: nat) -> int {
    if k < n {
        k as int
    } else {
        n as int
    }
}

/// After any number of rounds the invariant holds, with every vertex that
/// has been taken out counted as processed.
pub proof fn lemma_kahn_inv(m: nat, es: Seq<(int, int)>, k: nat)
    requires
        edges_in_range(m, es),
    ensures
        inv(m, es, kahn_state(m, es, k), at_most(k, kahn_state(m, es, k).order.len()), 0),
        k > 0 ==> kahn_state(m, es, k).order.len() >= kahn_state(
            m,
            es,
            (k - 1) as nat,
        ).order.len(),
    decreases k,
{
    if k == 0 {
        lemma_initial(m, es);
    } else {
        lemma_kahn_inv(m, es, (k - 1) as nat);
        let before = kahn_state(m, es, (k - 1) as nat);
        if k - 1 < before.order.len() {
            lemma_scan(m, es, before, k - 1, es.len());
            assert(es.take(es.len() as int) == es);
            let after = relax(before, out_list(es, before.order[k - 1]));
            assert(after.order[k - 1] == after.order.take(before.order.len() as int)[k - 1]);
            lemma_next_vertex(m, es, after, k - 1);
        }
    }
}

// ---------------------------------------------------------------------------
// What the emitted order is
// ---------------------------------------------------------------------------

/// A sequence of distinct vertices of `0..m` has at most `m` places, and
/// with `m` places it holds every vertex.
pub proof fn lemma_distinct_bound(m: nat, order: Seq<int>)
    requires
        order.no_duplicates(),
        forall|b: int| 0 <= b < order.len() ==> 0 <= #[trigger] order[b] < m,
    ensures
        order.len() <= m,
        order.len() == m ==> forall|v: int| 0 <= v < m ==> order.contains(v),
{
    let all = set_int_range(0, m as int);
    order.unique_seq_to_set();
    lemma_int_range(0, m as int);
    assert(order.to_set().subset_of(all)) by {
        assert forall|v: int| order.to_set().contains(v) implies all.contains(v) by {
            let b = choose|b: int| 0 <= b < order.len() && order[b] == v;
            assert(0 <= order[b] < m);
        }
    }
    lemma_len_subset(order.to_set(), all);
    if order.len() == m {
        lemma_subset_equality(order.to_set(), all);
        assert forall|v: int| 0 <= v < m implies order.contains(v) by {
            assert(all.contains(v));
            assert(order.to_set().contains(v));
        }
    }
}

/// The emitted order never repeats a vertex, never leaves `0..m`, and puts
/// the source of every edge before its target wherever it holds both.
pub proof fn lemma_kahn_order_sound(m: nat, es: Seq<(int, int)>)
    requires
        edges_in_range(m, es),
    ensures
        kahn_order(m, es).len() <= m,
        kahn_order(m, es).no_duplicates(),
        forall|b: int|
            0 <= b < kahn_order(m, es).len() ==> 0 <= #[trigger] kahn_order(m, es)[b] < m,
        respects_edges(es, kahn_order(m, es)),
        inv(m, es, kahn_state(m, es, m), kahn_order(m, es).len() as int, 0),
{
    let order = kahn_order(m, es);
    lemma_kahn_inv(m, es, m);
    lemma_distinct_bound(m, order);
    assert forall|x: int, a: int, b: int|
        0 <= x < es.len() && 0 <= a < order.len() && 0 <= b < order.len() && #[trigger] order[a]
            == (#[trigger] es[x]).0 && #[trigger] order[b] == es[x].1 implies a < b by {
        let front = order.take(b);
        assert(front.contains(es[x].0));
        let a2 = choose|a2: int| 0 <= a2 < front.len() && front[a2] == es[x].0;
        assert(order[a2] == order[a]);
    }
}

/// With all `m` vertices emitted, the order is a permutation of the
/// vertices in which every edge leads forward.
pub proof fn lemma_kahn_complete_is_topological(m: nat, es: Seq<(int, int)>)
    requires
        edges_in_range(m, es),
        kahn_order(m, es).len() == m,
    ensures
        is_permutation(m, kahn_order(m, es)),
        respects_edges(es, kahn_order(m, es)),
{
    lemma_kahn_order_sound(m, es);
    lemma_distinct_bound(m, kahn_order(m, es));
}

/// The place of `v` in `order`.
pub open spec fn place_of(order: Seq<int>, v: int) -> int {
    choose|a: int| 0 <= a < order.len() && order[a] == v
}

/// In an order that respects the edges, an edge between two vertices of
/// the order leads from the earlier place to the later one.
proof fn lemma_edge_rises(es: Seq<(int, int)>, order: Seq<int>, u: int, v: int)
    requires
        respects_edges(es, order),
        es.contains((u, v)),
        order.contains(u),
        order.contains(v),
    ensures
        place_of(order, u) < place_of(order, v),
{
    let x = choose|x: int| 0 <= x < es.len() && es[x] == (u, v);
    let a = place_of(order, u);
    let b = place_of(order, v);
    assert(order[a] == es[x].0 && order[b] == es[x].1);
}

/// Along a closed walk whose vertices all stand in an order that respects
/// the edges, the places rise with every step.
proof fn lemma_walk_rises(es: Seq<(int, int)>, order: Seq<int>, w: Seq<int>, i: nat)
    requires
        is_cycle(es, w),
        respects_edges(es, order),
        forall|j: int| 0 <= j < w.len() ==> order.contains(#[trigger] w[j]),
        i < w.len(),
    ensures
        place_of(order, w[i as int]) >= place_of(order, w[0]) + i,
    decreases i,
{
    if i > 0 {
        lemma_walk_rises(es, order, w, (i - 1) as nat);
        let u = w[i - 1];
        let v = w[i as int];
        assert(es.contains((u, v)));
        lemma_edge_rises(es, order, u, v);
    }
}

/// No order that holds every vertex of a closed walk can respect the edges.
pub proof fn lemma_cycle_blocks_order(es: Seq<(int, int)>, order: Seq<int>, w: Seq<int>)
    requires
        is_cycle(es, w),
        respects_edges(es, order),
    ensures
        exists|j: int| 0 <= j < w.len() && !order.contains(#[trigger] w[j]),
{
    if forall|j: int| 0 <= j < w.len() ==> order.contains(#[trigger] w[j]) {
        let last = (w.len() - 1) as nat;
        lemma_walk_rises(es, order, w, last);
        let u = w[last as int];
        let v = w[0];
        assert(es.contains((u, v)));
        lemma_edge_rises(es, order, u, v);
        assert(false);
    }
}

/// On a graph with a closed walk the algorithm stops before it has emitted
/// every vertex.
pub proof fn lemma_cycle_means_incomplete(m: nat, es: Seq<(int, int)>)
    requires
        edges_in_range(m, es),
        has_cycle(es),
    ensures
        kahn_order(m, es).len() < m,
{
    let order = kahn_order(m, es);
    lemma_kahn_order_sound(m, es);
    if order.len() == m {
        lemma_distinct_bound(m, order);
        let w = choose|w: Seq<int>| is_cycle(es, w);
        lemma_cycle_blocks_order(es, order, w);
        let j = choose|j: int| 0 <= j < w.len() && !order.contains(#[trigger] w[j]);
        let next = if j + 1 < w.len() {
            w[j + 1]
        } else {
            w[0]
        };
        assert(es.contains((w[j], next)));
        let x = choose|x: int| 0 <= x < es.len() && es[x] == (w[j], next);
        assert(0 <= es[x].0 < m);
        assert(false);
    }
}

/// A vertex outside `order` with an edge into `v`, where there is one.
pub open spec fn stuck_parent(es: Seq<(int, int)>, order: Seq<int>, v: int) -> int {
    choose|u: int| !order.contains(u) && es.contains((u, v))
}

/// The vertex reached from `v` by `n` steps against the edges, each to a
/// vertex outside `order`.
pub open spec fn walk_back(es: Seq<(int, int)>, order: Seq<int>, v: int, n: nat) -> int
    decreases n,
{
    if n == 0 {
        v
    } else {
        stuck_parent(es, order, walk_back(es, order, v, (n - 1) as nat))
    }
}

/// A vertex that was never emitted has a parent that was never emitted.
proof fn lemma_stuck_parent(m: nat, es: Seq<(int, int)>, v: int)
    requires
        edges_in_range(m, es),
        0 <= v < m,
        !kahn_order(m, es).contains(v),
    ensures
        0 <= stuck_parent(es, kahn_order(m, es), v) < m,
        !kahn_order(m, es).contains(stuck_parent(es, kahn_order(m, es), v)),
        es.contains((stuck_parent(es, kahn_order(m, es), v), v)),
{
    let s = kahn_state(m, es, m);
    let order = s.order;
    lemma_kahn_order_sound(m, es);
    let r = relaxed_set(es, order, order.len() as int, 0);
    assert(s.deg[v] != 0);
    assert(s.deg[v] == pending(es, r, v, es.len()));
    let x = lemma_pending_witness(es, r, v, es.len());
    assert(order.take(order.len() as int) == order);
    let u = es[x].0;
    assert(!order.contains(u));
    assert(es[x] == (u, v));
    assert(es.contains((u, v)));
    let p = stuck_parent(es, order, v);
    assert(!order.contains(p) && es.contains((p, v)));
    let y = choose|y: int| 0 <= y < es.len() && es[y] == (p, v);
    assert(0 <= es[y].0 < m);
}

/// Every vertex of the walk back from a vertex that was never emitted was
/// never emitted, and has an edge to the vertex before it.
proof fn lemma_walk_back(m: nat, es: Seq<(int, int)>, v: int, n: nat)
    requires
        edges_in_range(m, es),
        0 <= v < m,
        !kahn_order(m, es).contains(v),
    ensures
        0 <= walk_back(es, kahn_order(m, es), v, n) < m,
        !kahn_order(m, es).contains(walk_back(es, kahn_order(m, es), v, n)),
        n > 0 ==> es.contains(
            (
                walk_back(es, kahn_order(m, es), v, n),
                walk_back(es, kahn_order(m, es), v, (n - 1) as nat),
            ),
        ),
    decreases n,
{
    if n > 0 {
        lemma_walk_back(m, es, v, (n - 1) as nat);
        lemma_stuck_parent(m, es, walk_back(es, kahn_order(m, es), v, (n - 1) as nat));
    }
}

/// `p` is a walk: each vertex has an edge to the next.
pub open spec fn is_walk(es: Seq<(int, int)>, p: Seq<int>) -> bool {
    &&& p.len() > 0
    &&& forall|i: int| 0 <= i < p.len() - 1 ==> es.contains((#[trigger] p[i], p[i + 1]))
}

/// `v` stands on a closed walk, or a walk leads to it from a vertex of
/// one.
pub open spec fn behind_cycle(es: Seq<(int, int)>, v: int) -> bool {
    exists|w: Seq<int>, p: Seq<int>|
        #![trigger is_cycle(es, w), is_walk(es, p)]
        is_cycle(es, w) && is_walk(es, p) && w.contains(p[0]) && p.last() == v
}

/// A vertex that was never emitted stands on a closed walk or behind one:
/// the walk back from it, over vertices that were never emitted, must
/// come by some vertex twice.
proof fn lemma_stuck_is_behind_cycle(m: nat, es: Seq<(int, int)>, v: int)
    requires
        edges_in_range(m, es),
        0 <= v < m,
        !kahn_order(m, es).contains(v),
    ensures
        behind_cycle(es, v),
{
    let order = kahn_order(m, es);
    let trail = Seq::new(m + 1, |i: int| walk_back(es, order, v, i as nat));
    assert forall|b: int| 0 <= b < trail.len() implies 0 <= #[trigger] trail[b] < m by {
        lemma_walk_back(m, es, v, b as nat);
    }
    if trail.no_duplicates() {
        lemma_distinct_bound(m, trail);
        assert(false);
    }
    let (i0, j0) = choose|i0: int, j0: int|
        0 <= i0 < trail.len() && 0 <= j0 < trail.len() && i0 != j0 && trail[i0] == trail[j0];
    let i = if i0 < j0 {
        i0
    } else {
        j0
    };
    let j = if i0 < j0 {
        j0
    } else {
        i0
    };
    assert(trail[i] == trail[j]);
    let w = Seq::new((j - i) as nat, |k: int| walk_back(es, order, v, (j - k) as nat));
    assert forall|k: int| 0 <= k < w.len() implies es.contains(
        (#[trigger] w[k], if k + 1 < w.len() {
            w[k + 1]
        } else {
            w[0]
        }),
    ) by {
        lemma_walk_back(m, es, v, (j - k) as nat);
        if k + 1 < w.len() {
            assert(w[k + 1] == walk_back(es, order, v, (j - k - 1) as nat));
        } else {
            assert(j - k - 1 == i);
            assert(w[0] == trail[j]);
            assert(trail[i] == walk_back(es, order, v, i as nat));
        }
    }
    assert(is_cycle(es, w));
    let p = Seq::new((i + 1) as nat, |k: int| walk_back(es, order, v, (i - k) as nat));
    assert forall|k: int| 0 <= k < p.len() - 1 implies es.contains((#[trigger] p[k], p[k + 1])) by {
        lemma_walk_back(m, es, v, (i - k) as nat);
        assert(p[k + 1] == walk_back(es, order, v, (i - k - 1) as nat));
    }
    assert(is_walk(es, p));
    assert(p[0] == trail[i]);
    assert(w[0] == trail[j]);
    assert(w.contains(p[0]));
    assert(p.last() == walk_back(es, order, v, 0));
}

/// Where the algorithm stops before it has emitted every vertex, the graph
/// has a closed walk.
pub proof fn lemma_incomplete_means_cycle(m: nat, es: Seq<(int, int)>)
    requires
        edges_in_range(m, es),
        kahn_order(m, es).len() < m,
    ensures
        has_cycle(es),
{
    let order = kahn_order(m, es);
    lemma_kahn_order_sound(m, es);
    let all = set_int_range(0, m as int);
    lemma_int_range(0, m as int);
    order.unique_seq_to_set();
    if all.subset_of(order.to_set()) {
        vstd::seq_lib::seq_to_set_is_finite(order);
        lemma_len_subset(all, order.to_set());
        assert(false);
    }
    let v = choose|v: int| all.contains(v) && !order.to_set().contains(v);
    assert(!order.contains(v));
    lemma_stuck_is_behind_cycle(m, es, v);
}

/// The child of a vertex that was never emitted was never emitted.
proof fn lemma_child_is_stuck(m: nat, es: Seq<(int, int)>, u: int, v: int)
    requires
        edges_in_range(m, es),
        es.contains((u, v)),
        !kahn_order(m, es).contains(u),
    ensures
        !kahn_order(m, es).contains(v),
{
    let order = kahn_order(m, es);
    lemma_kahn_order_sound(m, es);
    if order.contains(v) {
        let b = choose|b: int| 0 <= b < order.len() && order[b] == v;
        let x = choose|x: int| 0 <= x < es.len() && es[x] == (u, v);
        let front = order.take(b);
        assert(front.contains(es[x].0));
        let a = choose|a: int| 0 <= a < front.len() && front[a] == u;
        assert(order[a] == u);
        assert(false);
    }
}

/// On a closed walk, behind a vertex that was never emitted no vertex was
/// emitted.
proof fn lemma_cycle_stuck_from(m: nat, es: Seq<(int, int)>, w: Seq<int>, j: int, k: int)
    requires
        edges_in_range(m, es),
        is_cycle(es, w),
        0 <= j <= k < w.len(),
        !kahn_order(m, es).contains(w[j]),
    ensures
        !kahn_order(m, es).contains(w[k]),
    decreases k - j,
{
    if k > j {
        lemma_cycle_stuck_from(m, es, w, j, k - 1);
        assert(es.contains((w[k - 1], w[k])));
        lemma_child_is_stuck(m, es, w[k - 1], w[k]);
    }
}

/// No vertex of a closed walk is ever emitted.
proof fn lemma_cycle_is_stuck(m: nat, es: Seq<(int, int)>, w: Seq<int>, k: int)
    requires
        edges_in_range(m, es),
        is_cycle(es, w),
        0 <= k < w.len(),
    ensures
        !kahn_order(m, es).contains(w[k]),
{
    let order = kahn_order(m, es);
    lemma_kahn_order_sound(m, es);
    lemma_cycle_blocks_order(es, order, w);
    let j = choose|j: int| 0 <= j < w.len() && !order.contains(#[trigger] w[j]);
    let last = w.len() - 1;
    lemma_cycle_stuck_from(m, es, w, j, last);
    assert(es.contains((w[last], w[0])));
    lemma_child_is_stuck(m, es, w[last], w[0]);
    lemma_cycle_stuck_from(m, es, w, 0, k);
}

/// Along a walk that starts at a vertex that was never emitted, no vertex
/// was emitted.
proof fn lemma_walk_is_stuck(m: nat, es: Seq<(int, int)>, p: Seq<int>, i: int)
    requires
        edges_in_range(m, es),
        is_walk(es, p),
        !kahn_order(m, es).contains(p[0]),
        0 <= i < p.len(),
    ensures
        !kahn_order(m, es).contains(p[i]),
    decreases i,
{
    if i > 0 {
        lemma_walk_is_stuck(m, es, p, i - 1);
        assert(es.contains((p[i - 1], p[i])));
        lemma_child_is_stuck(m, es, p[i - 1], p[i]);
    }
}

/// The algorithm emits exactly the vertices that neither stand on a closed
/// walk nor can be reached from one.
pub proof fn lemma_emitted_iff_clear(m: nat, es: Seq<(int, int)>, v: int)
    requires
        edges_in_range(m, es),
        0 <= v < m,
    ensures
        kahn_order(m, es).contains(v) <==> !behind_cycle(es, v),
{
    if !kahn_order(m, es).contains(v) {
        lemma_stuck_is_behind_cycle(m, es, v);
    }
    if behind_cycle(es, v) {
        let (w, p) = choose|w: Seq<int>, p: Seq<int>|
            #![trigger is_cycle(es, w), is_walk(es, p)]
            is_cycle(es, w) && is_walk(es, p) && w.contains(p[0]) && p.last() == v;
        let k = choose|k: int| 0 <= k < w.len() && w[k] == p[0];
        lemma_cycle_is_stuck(m, es, w, k);
        lemma_walk_is_stuck(m, es, p, p.len() - 1);
    }
}

/// The algorithm emits every vertex exactly when the graph has no closed
/// walk.
pub proof fn lemma_complete_iff_acyclic(m: nat, es: Seq<(int, int)>)
    requires
        edges_in_range(m, es),
    ensures
        kahn_order(m, es).len() == m <==> !has_cycle(es),
{
    lemma_kahn_order_sound(m, es);
    if has_cycle(es) {
        lemma_cycle_means_incomplete(m, es);
    }
    if kahn_order(m, es).len() < m {
        lemma_incomplete_means_cycle(m, es);
    }
}

// ---------------------------------------------------------------------------
// The algorithm itself
// ---------------------------------------------------------------------------

/// A sequence of machine integers as mathematical integers.
pub open spec fn ints(s: Seq<usize>) -> Seq<int> {
    Seq::new(s.len(), |i: int| s[i] as int)
}

/// A sequence of edges over machine integers as edges over mathematical
/// integers.
pub open spec fn int_pairs(s: Seq<(usize, usize)>) -> Seq<(int, int)> {
    Seq::new(s.len(), |i: int| (s[i].0 as int, s[i].1 as int))
}

/// The state that the running algorithm stands for: its remaining
/// in-degrees, and the vertices that have left the queue followed by
/// those that wait in it.
pub open spec fn state_of(deg: Seq<usize>, order: Seq<usize>) -> KahnState {
    KahnState { deg: ints(deg), order: ints(order) }
}

/// No more edges are pending than were looked at.
proof fn lemma_pending_bound(es: Seq<(int, int)>, relaxed: Set<int>, v: int, len: nat)
    ensures
        pending(es, relaxed, v, len) <= len,
    decreases len,
{
    if len > 0 {
        lemma_pending_bound(es, relaxed, v, (len - 1) as nat);
    }
}

/// The edge that contributes the child at place `j` of `out_list(es, u)`.
proof fn lemma_out_list_place(es: Seq<(int, int)>, u: int, j: int) -> (t: int)
    requires
        0 <= j < out_list(es, u).len(),
    ensures
        0 <= t < es.len(),
        es[t].0 == u,
        es[t].1 == out_list(es, u)[j],
        out_list(es.take(t), u) == out_list(es, u).take(j),
    decreases es.len(),
{
    let rest = es.drop_last();
    if es.last().0 == u && j == out_list(rest, u).len() {
        assert(es.take(es.len() - 1) == rest);
        assert(out_list(es, u).take(j) == out_list(rest, u));
        es.len() - 1
    } else {
        let t = lemma_out_list_place(rest, u, j);
        assert(rest.take(t) == es.take(t));
        assert(out_list(es, u).take(j) == out_list(rest, u).take(j));
        t
    }
}

/// While the children of the vertex at place `p` are relaxed in turn, the
/// next child still has a pending edge, and the queue holds fewer than `m`
/// vertices.
proof fn lemma_child_is_pending(m: nat, es: Seq<(int, int)>, s: KahnState, p: int, j: int)
    requires
        edges_in_range(m, es),
        inv(m, es, s, p, 0),
        p < s.order.len(),
        0 <= j < out_list(es, s.order[p]).len(),
    ensures
        ({
            let cs = out_list(es, s.order[p]);
            let now = relax(s, cs.take(j));
            &&& 0 <= cs[j] < m
            &&& now.deg.len() == m
            &&& now.deg[cs[j]] >= 1
            &&& relax(s, cs.take(j + 1)) == relax_one(now, cs[j])
            &&& relax_one(now, cs[j]).order.len() <= m
        }),
{
    let u = s.order[p];
    let cs = out_list(es, u);
    let t = lemma_out_list_place(es, u, j);
    lemma_scan(m, es, s, p, t as nat);
    let now = relax(s, cs.take(j));
    assert(now.order[p] == now.order.take(s.order.len() as int)[p]);
    lemma_relax_edge(m, es, now, p, t);
    assert(cs.take(j + 1).drop_last() == cs.take(j));
    lemma_distinct_bound(m, relax_one(now, cs[j]).order);
}

/// Once every queued vertex has been taken out, further rounds change
/// nothing.
proof fn lemma_kahn_stable(m: nat, es: Seq<(int, int)>, h: nat, k: nat)
    requires
        h == kahn_state(m, es, h).order.len(),
        h <= k,
    ensures
        kahn_state(m, es, k) == kahn_state(m, es, h),
    decreases k,
{
    if k > h {
        lemma_kahn_stable(m, es, h, (k - 1) as nat);
    }
}

/// Kahn's algorithm. The result holds all `m` vertices exactly when the
/// graph has no cycle; see `lemma_complete_iff_acyclic`.
pub fn kahn_sort(m: usize, es: &Vec<(usize, usize)>) -> (order: Vec<usize>)
    requires
        edges_in_range(m as nat, int_pairs(es@)),
    ensures
        ints(order@) == kahn_order(m as nat, int_pairs(es@)),
        order@.len() <= m,
{
    let ghost ies = int_pairs(es@);
    let mut deg: Vec<usize> = Vec::new();
    let mut outs: Vec<Vec<usize>> = Vec::new();
    let mut v: usize = 0;
    while v < m
        invariant
            v <= m,
            deg@.len() == v,
            outs@.len() == v,
            forall|i: int| 0 <= i < v ==> deg@[i] == 0,
            forall|i: int| 0 <= i < v ==> (#[trigger] outs@[i])@.len() == 0,
        decreases m - v,
    {
        deg.push(0);
        outs.push(Vec::new());
        v = v + 1;
    }
    let mut t: usize = 0;
    while t < es.len()
        invariant
            t <= es@.len(),
            ies == int_pairs(es@),
            edges_in_range(m as nat, ies),
            deg@.len() == m,
            outs@.len() == m,
            forall|i: int|
                0 <= i < m ==> #[trigger] deg@[i] == pending(ies, Set::<int>::empty(), i, t as nat),
            forall|i: int| 0 <= i < m ==> ints((#[trigger] outs@[i])@) == out_list(ies.take(t as int), i),
        decreases es@.len() - t,
    {
        let (a, b) = es[t];
        assert(ies[t as int] == (a as int, b as int));
        assert(ies.take(t + 1).drop_last() == ies.take(t as int));
        proof {
            lemma_pending_bound(ies, Set::<int>::empty(), b as int, t as nat);
        }
        let d: usize = deg[b];
        deg.set(b, d + 1);
        let mut list: Vec<usize> = Vec::new();
        core::mem::swap(&mut list, &mut outs[a]);
        list.push(b);
        assert(ints(list@) == out_list(ies.take(t + 1), a as int));
        core::mem::swap(&mut list, &mut outs[a]);
        t = t + 1;
    }
    assert(ies.take(es@.len() as int) == ies);
    let mut queue: VecDeque<usize> = VecDeque::new();
    let mut r: usize = 0;
    while r < m
        invariant
            r <= m,
            deg@.len() == m,
            forall|i: int| 0 <= i < m ==> #[trigger] deg@[i] == in_degree(ies, i),
            ints(queue@) == roots_below(ies, r as nat),
        decreases m - r,
    {
        if deg[r] == 0 {
            queue.push_back(r);
        }
        assert(ints(queue@) == roots_below(ies, (r + 1) as nat));
        r = r + 1;
    }
    let mut sorted: Vec<usize> = Vec::new();
    assert(sorted@ + queue@ == queue@);
    assert(ints(deg@) == initial_state(m as nat, ies).deg);
    proof {
        lemma_kahn_inv(m as nat, ies, 0);
        lemma_distinct_bound(m as nat, ints(queue@));
    }
    loop
        invariant
            sorted@.len() + queue@.len() <= m,
            edges_in_range(m as nat, ies),
            outs@.len() == m,
            forall|i: int| 0 <= i < m ==> ints((#[trigger] outs@[i])@) == out_list(ies, i),
            state_of(deg@, sorted@ + queue@) == kahn_state(m as nat, ies, sorted@.len() as nat),
        ensures
            queue@.len() == 0,
        decreases m - sorted@.len(),
    {
        let ghost head = sorted@.len();
        let ghost start = kahn_state(m as nat, ies, head);
        let ghost before = sorted@ + queue@;
        proof {
            lemma_kahn_inv(m as nat, ies, head);
        }
        let u: usize = match queue.pop_front() {
            Some(u) => u,
            None => {
                break ;
            },
        };
        sorted.push(u);
        assert(sorted@ + queue@ == before);
        assert(start.order[head as int] == u);
        let ghost cs = out_list(ies, u as int);
        let n: usize = outs[u].len();
        let mut j: usize = 0;
        while j < n
            invariant
                j <= n,
                n == cs.len(),
                u < m,
                outs@.len() == m,
                ints(outs@[u as int]@) == cs,
                cs == out_list(ies, start.order[head as int]),
                edges_in_range(m as nat, ies),
                inv(m as nat, ies, start, head as int, 0),
                head < start.order.len(),
                sorted@.len() == head + 1,
                state_of(deg@, sorted@ + queue@) == relax(start, cs.take(j as int)),
            decreases n - j,
        {
            proof {
                lemma_child_is_pending(m as nat, ies, start, head as int, j as int);
            }
            let ghost waiting = sorted@ + queue@;
            let c: usize = outs[u][j];
            assert(cs[j as int] == c);
            let left: usize = deg[c] - 1;
            deg.set(c, left);
            if left == 0 {
                queue.push_back(c);
                assert(sorted@ + queue@ == waiting.push(c));
            }
            proof {
                let now = relax(start, cs.take(j as int));
                let next = relax_one(now, c as int);
                assert(ints(deg@) =~= next.deg);
                assert(ints(sorted@ + queue@) =~= next.order);
            }
            j = j + 1;
        }
        assert(cs.take(n as int) == cs);
        proof {
            lemma_kahn_inv(m as nat, ies, (head + 1) as nat);
            lemma_distinct_bound(m as nat, ints(sorted@ + queue@));
        }
    }
    proof {
        assert(sorted@ + queue@ == sorted@);
        lemma_kahn_stable(m as nat, ies, sorted@.len() as nat, m as nat);
    }
    sorted
}

} // verus!
