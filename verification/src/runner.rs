//! One run of a flow as a machine: the driver performs the actions that
//! the machine hands out (start a node's runner, tell the recorder) and
//! reports what the runners return; the machine keeps the outputs, skips
//! what a failure has poisoned, and moves from level to level.

use crate::graph::{
    adjacency, children_of, distinct_ids, distinct_node_ids, edge_ends, find_id, is_adjacency,
    is_cyclic, joins_known, lemma_adjacency_as_map, lemma_distinct_ids, node_ids, parents_of,
    spec_topo_order, strs, topo_sort, Adjacency, CycleError, Direction, Edge, Node, NodeType,
};
use crate::levels::{compute_levels, id_lists, level_ids, spec_levels};
use crate::output::{
    has_kind, kind_of, output_models, spec_merge, NodeOutput, OutputKind, OutputModel,
};
use crate::strmap::{
    as_map, lemma_insert_as_map, lemma_viewed, lemma_viewed_insert, spec_insert, viewed, StrMap,
};
use crate::text::str_eq;
use vstd::prelude::*;

verus! {

/// How a node ended.
#[derive(Clone, Copy, Debug, PartialEq, Eq, Structural)]
pub enum NodeStatus {
    /// Its runner returned an output.
    Succeeded,
    /// Its runner returned an error.
    Failed,
    /// A parent had failed or was skipped: its runner was not called.
    Skipped,
    /// Its runner was cancelled.
    Canceled,
}

/// How a run ended.
#[derive(Clone, Copy, Debug, PartialEq, Eq, Structural)]
pub enum TerminalStatus {
    /// No node failed or was skipped.
    Success,
    /// Some node failed or was skipped, but not every leaf is lost.
    Partial,
    /// Every leaf failed or was skipped.
    Failed,
    /// The run was cancelled before its last level.
    Canceled,
}

/// Where a run stands.
#[derive(Clone, Copy, Debug, PartialEq, Eq, Structural)]
pub enum RunPhase {
    /// Accepted, not yet started.
    Accepted,
    /// Started, not yet finished.
    Running,
    /// Finished: the recorder has been told how.
    Finished,
}

/// Why a flow cannot run.
#[derive(Clone, Copy, Debug, PartialEq, Eq, Structural)]
pub enum InvalidGraph {
    /// The flow has no nodes.
    Empty,
    /// The edge at this place names a node that the flow does not have.
    UnknownNode { edge: usize },
    /// The graph has a cycle, or two nodes share an id.
    Cycle(CycleError),
}

/// What a runner returned.
#[derive(Clone, Debug)]
pub enum NodeOutcome {
    Output(NodeOutput),
    Error(String),
    Canceled,
}

/// What the driver has to do.
#[derive(Clone, Debug)]
pub enum RunAction {
    /// Tell the recorder that the run begins.
    BeginRun,
    /// Call the runner that is registered for `kind` with this input, for
    /// this node, and report what it returns with `node_done`.
    Launch { node: String, kind: String, input: NodeOutput },
    /// Tell the recorder how this node ended.
    UpdateNode { node: String, status: NodeStatus, error: Option<String> },
    /// Tell the recorder how the run ended.
    FinishRun { terminal_status: TerminalStatus },
}

// ---------------------------------------------------------------------------
// The model
// ---------------------------------------------------------------------------

/// What a runner returned, its strings as sequences of characters.
pub enum OutcomeModel {
    Output(OutputModel),
    Error(Seq<char>),
    Canceled,
}

/// What the driver has to do, its strings as sequences of characters.
pub enum ActionModel {
    BeginRun,
    Launch { node: Seq<char>, kind: Seq<char>, input: OutputModel },
    UpdateNode { node: Seq<char>, status: NodeStatus, error: Option<Seq<char>> },
    FinishRun { terminal_status: TerminalStatus },
}

impl View for NodeOutcome {
    type V = OutcomeModel;

    open spec fn view(&self) -> OutcomeModel {
        match *self {
            NodeOutcome::Output(o) => OutcomeModel::Output(o@),
            NodeOutcome::Error(e) => OutcomeModel::Error(e@),
            NodeOutcome::Canceled => OutcomeModel::Canceled,
        }
    }
}

impl View for RunAction {
    type V = ActionModel;

    open spec fn view(&self) -> ActionModel {
        match *self {
            RunAction::BeginRun => ActionModel::BeginRun,
            RunAction::Launch { node, kind, input } => ActionModel::Launch {
                node: node@,
                kind: kind@,
                input: input@,
            },
            RunAction::UpdateNode { node, status, error } => ActionModel::UpdateNode {
                node: node@,
                status,
                error: match error {
                    Some(e) => Some(e@),
                    None => None,
                },
            },
            RunAction::FinishRun { terminal_status } => ActionModel::FinishRun { terminal_status },
        }
    }
}

/// The models of the actions of `v`.
pub open spec fn action_models(v: Seq<RunAction>) -> Seq<ActionModel> {
    Seq::new(v.len(), |i: int| v[i]@)
}

/// The state of a run.
pub struct RunModel {
    /// The ids of the nodes in topological order.
    pub order: Seq<Seq<char>>,
    /// The ids of the nodes level by level.
    pub levels: Seq<Seq<Seq<char>>>,
    /// For every node its parents, in edge order.
    pub parents: Map<Seq<char>, Seq<Seq<char>>>,
    /// For every node its children, in edge order.
    pub children: Map<Seq<char>, Seq<Seq<char>>>,
    /// For every node its kind, which selects its runner.
    pub kinds: Map<Seq<char>, Seq<char>>,
    /// The places of the edges that were left out because they enter a
    /// trigger node.
    pub ignored: Seq<usize>,
    /// The stored output of every node that has ended.
    pub outputs: Map<Seq<char>, OutputModel>,
    /// How every node that has ended did end.
    pub statuses: Map<Seq<char>, NodeStatus>,
    /// The place of the level that is running.
    pub level: nat,
    /// The nodes of that level whose runners have not returned yet.
    pub waiting: Seq<Seq<char>>,
    pub phase: RunPhase,
    /// Whether the run is to stop at the next level boundary.
    pub cancel: bool,
}

/// The stored outputs of those of `ps` that have one, in the order of
/// `ps`.
pub open spec fn gather(outputs: Map<Seq<char>, OutputModel>, ps: Seq<Seq<char>>) -> Seq<
    OutputModel,
>
    decreases ps.len(),
{
    if ps.len() == 0 {
        Seq::empty()
    } else if outputs.dom().contains(ps.last()) {
        gather(outputs, ps.drop_last()).push(outputs[ps.last()])
    } else {
        gather(outputs, ps.drop_last())
    }
}

/// The list under `id`, or the empty list where there is none.
pub open spec fn list_of(lists: Map<Seq<char>, Seq<Seq<char>>>, id: Seq<char>) -> Seq<Seq<char>> {
    if lists.dom().contains(id) {
        lists[id]
    } else {
        Seq::empty()
    }
}

/// The input of `node`: the merge of the stored outputs of its parents, in
/// parent order.
pub open spec fn input_of(m: RunModel, node: Seq<char>) -> OutputModel {
    spec_merge(gather(m.outputs, list_of(m.parents, node)))
}

/// The kind of `node`, or the empty kind where it has none.
pub open spec fn kind_for(m: RunModel, node: Seq<char>) -> Seq<char> {
    if m.kinds.dom().contains(node) {
        m.kinds[node]
    } else {
        Seq::empty()
    }
}

/// A run and the actions handed out so far.
pub struct Progress {
    pub run: RunModel,
    pub actions: Seq<ActionModel>,
}

/// Takes up one node of the running level: with a `Failed` input the node
/// is skipped, its output is `Failed` and the recorder learns of it; else
/// its runner is to be called with the input.
pub open spec fn take_up(p: Progress, node: Seq<char>) -> Progress {
    let input = input_of(p.run, node);
    if input is Failed {
        Progress {
            run: RunModel {
                outputs: p.run.outputs.insert(node, OutputModel::Failed),
                statuses: p.run.statuses.insert(node, NodeStatus::Skipped),
                ..p.run
            },
            actions: p.actions.push(
                ActionModel::UpdateNode { node, status: NodeStatus::Skipped, error: None },
            ),
        }
    } else {
        Progress {
            run: RunModel { waiting: p.run.waiting.push(node), ..p.run },
            actions: p.actions.push(
                ActionModel::Launch { node, kind: kind_for(p.run, node), input },
            ),
        }
    }
}

/// Takes up the nodes `nodes`, first to last.
pub open spec fn take_up_all(p: Progress, nodes: Seq<Seq<char>>) -> Progress
    decreases nodes.len(),
{
    if nodes.len() == 0 {
        p
    } else {
        take_up(take_up_all(p, nodes.drop_last()), nodes.last())
    }
}

/// Whether the node has no children.
pub open spec fn is_leaf(m: RunModel, node: Seq<char>) -> bool {
    list_of(m.children, node).len() == 0
}

/// Whether the stored output of the node is `Failed`.
pub open spec fn is_lost(m: RunModel, node: Seq<char>) -> bool {
    m.outputs.dom().contains(node) && m.outputs[node] is Failed
}

/// Every leaf of the run is lost.
pub open spec fn all_leaves_lost(m: RunModel) -> bool {
    forall|i: int|
        0 <= i < m.order.len() && is_leaf(m, #[trigger] m.order[i]) ==> is_lost(m, m.order[i])
}

/// Whether the node ended with an output from its runner.
pub open spec fn has_succeeded(m: RunModel, node: Seq<char>) -> bool {
    m.statuses.dom().contains(node) && m.statuses[node] == NodeStatus::Succeeded
}

/// Every node of the run has succeeded.
pub open spec fn all_succeeded(m: RunModel) -> bool {
    forall|i: int| 0 <= i < m.order.len() ==> has_succeeded(m, #[trigger] m.order[i])
}

/// How a run that has passed its last level ended: `Failed` where every
/// leaf is lost, `Success` where every node succeeded, else `Partial`.
pub open spec fn terminal_status(m: RunModel) -> TerminalStatus {
    if all_leaves_lost(m) {
        TerminalStatus::Failed
    } else if all_succeeded(m) {
        TerminalStatus::Success
    } else {
        TerminalStatus::Partial
    }
}

/// The run ends with `status`, and the recorder learns of it.
pub open spec fn finish_with(p: Progress, status: TerminalStatus) -> Progress {
    Progress {
        run: RunModel { phase: RunPhase::Finished, ..p.run },
        actions: p.actions.push(ActionModel::FinishRun { terminal_status: status }),
    }
}

/// Goes on from the level boundary that the run stands at: past the last
/// level the run ends; a cancelled run ends as `Canceled`; else the nodes
/// of the level are taken up, and where all of them are skipped the next
/// level follows at once.
pub open spec fn proceed(p: Progress) -> Progress
    decreases p.run.levels.len() - p.run.level,
{
    if p.run.level >= p.run.levels.len() {
        finish_with(p, terminal_status(p.run))
    } else if p.run.cancel {
        finish_with(p, TerminalStatus::Canceled)
    } else {
        let taken = take_up_all(p, p.run.levels[p.run.level as int]);
        if taken.run.waiting.len() > 0 {
            taken
        } else {
            proceed(
                Progress {
                    run: RunModel { level: p.run.level + 1, levels: p.run.levels, ..taken.run },
                    actions: taken.actions,
                },
            )
        }
    }
}

/// The status that the recorder learns for what a runner returned.
pub open spec fn status_for(outcome: OutcomeModel) -> NodeStatus {
    match outcome {
        OutcomeModel::Output(_) => NodeStatus::Succeeded,
        OutcomeModel::Error(_) => NodeStatus::Failed,
        OutcomeModel::Canceled => NodeStatus::Canceled,
    }
}

/// The output that is stored for what a runner returned: its output, or
/// `Failed` where it returned none.
pub open spec fn stored_for(outcome: OutcomeModel) -> OutputModel {
    match outcome {
        OutcomeModel::Output(o) => o,
        _ => OutputModel::Failed,
    }
}

/// The error message that the recorder learns for what a runner returned.
pub open spec fn error_for(outcome: OutcomeModel) -> Option<Seq<char>> {
    match outcome {
        OutcomeModel::Error(e) => Some(e),
        _ => None,
    }
}

/// The first place where `w` holds `x`, or the length of `w`.
pub open spec fn first_place(w: Seq<Seq<char>>, x: Seq<char>) -> int
    decreases w.len(),
{
    if w.len() == 0 {
        0
    } else if w[0] == x {
        0
    } else {
        1 + first_place(w.drop_first(), x)
    }
}

/// The level after the one that is running.
pub open spec fn level_after(m: RunModel) -> nat {
    if m.level < m.levels.len() {
        m.level + 1
    } else {
        m.level
    }
}

/// A run that has handed out nothing.
pub open spec fn idle(m: RunModel) -> Progress {
    Progress { run: m, actions: Seq::empty() }
}

/// An accepted run starts: the recorder learns that it begins, and the
/// first level is taken up. A run that was started before stays as it is.
pub open spec fn spec_start(m: RunModel) -> Progress {
    if m.phase == RunPhase::Accepted {
        proceed(
            Progress {
                run: RunModel { phase: RunPhase::Running, ..m },
                actions: seq![ActionModel::BeginRun],
            },
        )
    } else {
        idle(m)
    }
}

/// The runner of `node` has returned: its output is stored, or `Failed`
/// where it returned none, and the recorder learns how the node ended. With
/// the last node of the level the run goes on from the level boundary. A
/// report for a node that is not awaited changes nothing.
pub open spec fn spec_node_done(m: RunModel, node: Seq<char>, outcome: OutcomeModel) -> Progress {
    if m.phase == RunPhase::Running && m.waiting.contains(node) {
        let waiting = m.waiting.remove(first_place(m.waiting, node));
        let stored = RunModel {
            outputs: m.outputs.insert(node, stored_for(outcome)),
            statuses: m.statuses.insert(node, status_for(outcome)),
            waiting,
            ..m
        };
        let told = seq![
            ActionModel::UpdateNode {
                node,
                status: status_for(outcome),
                error: error_for(outcome),
            },
        ];
        if waiting.len() == 0 {
            proceed(Progress { run: RunModel { level: level_after(m), ..stored }, actions: told })
        } else {
            Progress { run: stored, actions: told }
        }
    } else {
        idle(m)
    }
}

/// The run is to stop at the next level boundary.
pub open spec fn spec_cancel(m: RunModel) -> RunModel {
    RunModel { cancel: true, ..m }
}

/// The driver gives the run up: a running run ends as `Failed`, and the
/// recorder learns of it. Any other run stays as it is.
pub open spec fn spec_abort(m: RunModel) -> Progress {
    if m.phase == RunPhase::Running {
        finish_with(idle(m), TerminalStatus::Failed)
    } else {
        idle(m)
    }
}

/// The first place of an edge with an end that is no node of the flow.
pub open spec fn first_unknown(ids: Seq<Seq<char>>, ends: Seq<(Seq<char>, Seq<char>)>, from: int)
    -> Option<int>
    decreases ends.len() - from,
{
    if from < 0 || from >= ends.len() {
        None
    } else if !joins_known(ids, ends[from]) {
        Some(from)
    } else {
        first_unknown(ids, ends, from + 1)
    }
}

/// Whether `id` is the id of a trigger node: of the first node of that id,
/// where several share it.
pub open spec fn is_trigger(nodes: Seq<Node>, id: Seq<char>) -> bool {
    let i = first_place(node_ids(nodes), id);
    0 <= i < nodes.len() && nodes[i].node_type == NodeType::Trigger
}

/// The edges that a run follows: all but those that enter a trigger node.
/// A trigger starts a flow; it takes nothing from other nodes.
pub open spec fn kept_ends(nodes: Seq<Node>, ends: Seq<(Seq<char>, Seq<char>)>) -> Seq<
    (Seq<char>, Seq<char>),
>
    decreases ends.len(),
{
    if ends.len() == 0 {
        Seq::empty()
    } else if is_trigger(nodes, ends.last().1) {
        kept_ends(nodes, ends.drop_last())
    } else {
        kept_ends(nodes, ends.drop_last()).push(ends.last())
    }
}

/// The places of the edges that a run leaves out: those that enter a
/// trigger node.
pub open spec fn ignored_places(nodes: Seq<Node>, ends: Seq<(Seq<char>, Seq<char>)>) -> Seq<usize>
    decreases ends.len(),
{
    if ends.len() == 0 {
        Seq::empty()
    } else if is_trigger(nodes, ends.last().1) {
        ignored_places(nodes, ends.drop_last()).push((ends.len() - 1) as usize)
    } else {
        ignored_places(nodes, ends.drop_last())
    }
}

/// Why the flow cannot run, if it cannot: it is empty, or an edge names an
/// unknown node, or the graph of the edges that the run follows cannot be
/// sorted.
pub open spec fn spec_refusal(nodes: Seq<Node>, ends: Seq<(Seq<char>, Seq<char>)>) -> Option<
    InvalidGraph,
> {
    let ids = node_ids(nodes);
    let kept = kept_ends(nodes, ends);
    if ids.len() == 0 {
        Some(InvalidGraph::Empty)
    } else if first_unknown(ids, ends, 0) is Some {
        Some(InvalidGraph::UnknownNode { edge: first_unknown(ids, ends, 0)->0 as usize })
    } else if !ids.no_duplicates() || is_cyclic(ids, kept) {
        Some(
            InvalidGraph::Cycle(
                CycleError {
                    sorted: spec_topo_order(ids, kept).len() as usize,
                    total: ids.len() as usize,
                },
            ),
        )
    } else {
        None
    }
}

/// The parents of every node of the flow.
pub open spec fn parent_map(ids: Seq<Seq<char>>, ends: Seq<(Seq<char>, Seq<char>)>) -> Map<
    Seq<char>,
    Seq<Seq<char>>,
> {
    Map::new(|id: Seq<char>| ids.contains(id), |id: Seq<char>| parents_of(ids, ends, id))
}

/// The children of every node of the flow.
pub open spec fn child_map(ids: Seq<Seq<char>>, ends: Seq<(Seq<char>, Seq<char>)>) -> Map<
    Seq<char>,
    Seq<Seq<char>>,
> {
    Map::new(|id: Seq<char>| ids.contains(id), |id: Seq<char>| children_of(ids, ends, id))
}

/// The `(id, kind)` pairs of the nodes, one for each id: a node that
/// repeats an id replaces the kind of the one before.
pub open spec fn kind_pairs(nodes: Seq<Node>) -> Seq<(Seq<char>, Seq<char>)>
    decreases nodes.len(),
{
    if nodes.len() == 0 {
        Seq::empty()
    } else {
        spec_insert(kind_pairs(nodes.drop_last()), nodes.last().id@, nodes.last().kind@)
    }
}

/// The run of a flow that has been accepted and not yet started. Its order,
/// its levels, its parents and its children are those of the edges that
/// the run follows.
pub open spec fn spec_accepted(nodes: Seq<Node>, all_ends: Seq<(Seq<char>, Seq<char>)>) -> RunModel {
    let ids = node_ids(nodes);
    let ends = kept_ends(nodes, all_ends);
    RunModel {
        order: spec_topo_order(ids, ends),
        levels: spec_levels(spec_topo_order(ids, ends), parent_map(ids, ends)),
        parents: parent_map(ids, ends),
        children: child_map(ids, ends),
        kinds: as_map(kind_pairs(nodes)),
        ignored: ignored_places(nodes, all_ends),
        outputs: Map::empty(),
        statuses: Map::empty(),
        level: 0,
        waiting: Seq::empty(),
        phase: RunPhase::Accepted,
        cancel: false,
    }
}

// ---------------------------------------------------------------------------
// The machine
// ---------------------------------------------------------------------------

/// One run of a flow.
pub struct FlowRun {
    order: Vec<String>,
    levels: Vec<Vec<String>>,
    parents: Adjacency,
    children: Adjacency,
    kinds: StrMap<String>,
    ignored: Vec<usize>,
    outputs: StrMap<NodeOutput>,
    statuses: StrMap<NodeStatus>,
    level: usize,
    waiting: Vec<String>,
    phase: RunPhase,
    cancel: bool,
}

/// The lists of an adjacency, read as a map, are the parents or the children
/// of every node.
proof fn lemma_id_lists(
    pairs: Seq<(Seq<char>, Vec<String>)>,
    dir: Direction,
    ids: Seq<Seq<char>>,
    ends: Seq<(Seq<char>, Seq<char>)>,
)
    requires
        is_adjacency(pairs, dir, ids, ends),
    ensures
        id_lists(pairs) == match dir {
            Direction::Children => child_map(ids, ends),
            Direction::Parents => parent_map(ids, ends),
        },
{
    lemma_adjacency_as_map(pairs, dir, ids, ends);
    let target = match dir {
        Direction::Children => child_map(ids, ends),
        Direction::Parents => parent_map(ids, ends),
    };
    assert forall|id: Seq<char>| id_lists(pairs).dom().contains(id) <==> target.dom().contains(
        id,
    ) by {
        assert(as_map(pairs).dom().contains(id) <==> ids.contains(id));
    }
    assert forall|id: Seq<char>| id_lists(pairs).dom().contains(id) implies id_lists(pairs)[id]
        == target[id] by {
        assert(as_map(pairs).dom().contains(id));
        assert(strs(as_map(pairs)[id]@) == id_lists(pairs)[id]);
    }
    assert(id_lists(pairs) =~= target);
}

impl FlowRun {
    /// The state of the run.
    pub closed spec fn view(&self) -> RunModel {
        RunModel {
            order: strs(self.order@),
            levels: level_ids(self.levels@),
            parents: id_lists(self.parents.pairs()),
            children: id_lists(self.children.pairs()),
            kinds: as_map(viewed(self.kinds.pairs())),
            ignored: self.ignored@,
            outputs: as_map(viewed(self.outputs.pairs())),
            statuses: as_map(self.statuses.pairs()),
            level: self.level as nat,
            waiting: strs(self.waiting@),
            phase: self.phase,
            cancel: self.cancel,
        }
    }

    /// Whether `id` is the id of a trigger node.
    fn is_trigger_node(nodes: &[Node], id: &str) -> (b: bool)
        ensures
            b == is_trigger(nodes@, id@),
    {
        let ghost ids = node_ids(nodes@);
        let mut i: usize = 0;
        while i < nodes.len()
            invariant
                i <= nodes@.len(),
                ids == node_ids(nodes@),
                forall|j: int| 0 <= j < i ==> #[trigger] ids[j] != id@,
            decreases nodes@.len() - i,
        {
            if str_eq(nodes[i].id.as_str(), id) {
                proof {
                    assert(ids[i as int] == id@);
                    lemma_first_place(ids, id@, i as int);
                }
                return match nodes[i].node_type {
                    NodeType::Trigger => true,
                    _ => false,
                };
            }
            i = i + 1;
        }
        proof {
            lemma_first_place_absent(ids, id@);
        }
        false
    }

    /// Accepts a flow for a run, or refuses it: an empty flow, a flow with
    /// an edge to or from a node that it does not have, and a flow whose
    /// graph has a cycle or a repeated node id cannot run. An edge that
    /// enters a trigger node is left out of the run, and does not count
    /// for the graph: a trigger stands on the first level whatever points
    /// at it.
    pub fn accept(nodes: &[Node], edges: &[Edge]) -> (r: Result<FlowRun, InvalidGraph>)
        ensures
            match r {
                Ok(run) => spec_refusal(nodes@, edge_ends(edges@)) is None && run@
                    == spec_accepted(nodes@, edge_ends(edges@)),
                Err(why) => spec_refusal(nodes@, edge_ends(edges@)) == Some(why),
            },
    {
        let ghost ids = node_ids(nodes@);
        let ghost ends = edge_ends(edges@);
        if nodes.len() == 0 {
            return Err(InvalidGraph::Empty);
        }
        let keys = distinct_node_ids(nodes);
        proof {
            lemma_distinct_ids(ids);
        }
        let mut kept: Vec<Edge> = Vec::new();
        let mut ignored: Vec<usize> = Vec::new();
        let mut t: usize = 0;
        assert(edge_ends(kept@) =~= kept_ends(nodes@, ends.take(0)));
        assert(ignored@ =~= ignored_places(nodes@, ends.take(0)));
        while t < edges.len()
            invariant
                t <= edges@.len(),
                ids == node_ids(nodes@),
                ids.len() > 0,
                ends == edge_ends(edges@),
                strs(keys@) == distinct_ids(ids),
                forall|id: Seq<char>|
                    #![trigger ids.contains(id)]
                    distinct_ids(ids).contains(id) <==> ids.contains(id),
                first_unknown(ids, ends, t as int) == first_unknown(ids, ends, 0),
                edge_ends(kept@) == kept_ends(nodes@, ends.take(t as int)),
                ignored@ == ignored_places(nodes@, ends.take(t as int)),
            decreases edges@.len() - t,
        {
            let edge = &edges[t];
            let a = find_id(&keys, edge.source.as_str());
            let b = find_id(&keys, edge.target.as_str());
            proof {
                let vs = strs(keys@);
                assert(ends[t as int] == (edge.source@, edge.target@));
                if a is Some {
                    assert(vs[a->0 as int] == ends[t as int].0);
                    assert(vs.contains(ends[t as int].0));
                }
                if b is Some {
                    assert(vs[b->0 as int] == ends[t as int].1);
                    assert(vs.contains(ends[t as int].1));
                }
                assert(ids.contains(ends[t as int].0) <==> vs.contains(ends[t as int].0));
                assert(ids.contains(ends[t as int].1) <==> vs.contains(ends[t as int].1));
                assert(ends.take(t + 1).drop_last() == ends.take(t as int));
                assert(ends.take(t + 1).last() == ends[t as int]);
            }
            if a.is_none() || b.is_none() {
                return Err(InvalidGraph::UnknownNode { edge: t });
            }
            if FlowRun::is_trigger_node(nodes, edge.target.as_str()) {
                ignored.push(t);
            } else {
                let ghost before = edge_ends(kept@);
                kept.push(
                    Edge {
                        id: edge.id.clone(),
                        source: edge.source.clone(),
                        target: edge.target.clone(),
                    },
                );
                assert(edge_ends(kept@) =~= before.push(ends[t as int]));
            }
            t = t + 1;
        }
        assert(ends.take(edges@.len() as int) == ends);
        let ghost followed = kept_ends(nodes@, ends);
        match topo_sort(nodes, kept.as_slice()) {
            Err(e) => Err(InvalidGraph::Cycle(e)),
            Ok(order) => {
                let parents = adjacency(Direction::Parents, nodes, kept.as_slice());
                let children = adjacency(Direction::Children, nodes, kept.as_slice());
                let levels = compute_levels(&order, &parents);
                let kinds = FlowRun::kinds_of(nodes);
                proof {
                    lemma_id_lists(parents.pairs(), Direction::Parents, ids, followed);
                    lemma_id_lists(children.pairs(), Direction::Children, ids, followed);
                }
                let run = FlowRun {
                    order,
                    levels,
                    parents,
                    children,
                    kinds,
                    ignored,
                    outputs: StrMap::new(),
                    statuses: StrMap::new(),
                    level: 0,
                    waiting: Vec::new(),
                    phase: RunPhase::Accepted,
                    cancel: false,
                };
                proof {
                    assert(viewed(run.outputs.pairs()).len() == 0);
                    assert(run@.outputs =~= Map::<Seq<char>, OutputModel>::empty());
                    assert(run@.statuses =~= Map::<Seq<char>, NodeStatus>::empty());
                    assert(run@.waiting =~= Seq::<Seq<char>>::empty());
                }
                Ok(run)
            },
        }
    }

    /// The places of the edges that the run leaves out because they enter
    /// a trigger node. Each is a flaw of the flow that is worth a warning.
    pub fn ignored_edges(&self) -> (places: &Vec<usize>)
        ensures
            places@ == self@.ignored,
    {
        &self.ignored
    }

    /// The kind of every node, by id.
    fn kinds_of(nodes: &[Node]) -> (kinds: StrMap<String>)
        ensures
            viewed(kinds.pairs()) == kind_pairs(nodes@),
    {
        let mut kinds: StrMap<String> = StrMap::new();
        let mut i: usize = 0;
        assert(viewed(kinds.pairs()) =~= kind_pairs(nodes@.take(0)));
        while i < nodes.len()
            invariant
                i <= nodes@.len(),
                viewed(kinds.pairs()) == kind_pairs(nodes@.take(i as int)),
            decreases nodes@.len() - i,
        {
            let id = nodes[i].id.clone();
            let kind = nodes[i].kind.clone();
            proof {
                use_type_invariant(&kinds);
                lemma_viewed_insert(kinds.pairs(), id@, kind);
                assert(nodes@.take(i + 1).drop_last() == nodes@.take(i as int));
                assert(nodes@.take(i + 1).last() == nodes@[i as int]);
            }
            kinds.insert(id, kind);
            i = i + 1;
        }
        assert(nodes@.take(nodes@.len() as int) == nodes@);
        kinds
    }

    /// Where the run stands.
    pub fn phase(&self) -> (phase: RunPhase)
        ensures
            phase == self@.phase,
    {
        self.phase
    }

    /// The levels of the run, each with the ids of its nodes.
    pub fn levels(&self) -> (levels: &Vec<Vec<String>>)
        ensures
            level_ids(levels@) == self@.levels,
    {
        &self.levels
    }

    /// The ids of the nodes in topological order.
    pub fn order(&self) -> (order: &Vec<String>)
        ensures
            strs(order@) == self@.order,
    {
        &self.order
    }

    /// The stored output of a node that has ended.
    pub fn output_of(&self, node: &str) -> (r: Option<&NodeOutput>)
        ensures
            match r {
                Some(o) => self@.outputs.dom().contains(node@) && self@.outputs[node@] == o@,
                None => !self@.outputs.dom().contains(node@),
            },
    {
        proof {
            use_type_invariant(&self.outputs);
            lemma_viewed(self.outputs.pairs());
        }
        self.outputs.get(node)
    }

    /// How a node that has ended did end.
    pub fn status_of(&self, node: &str) -> (r: Option<NodeStatus>)
        ensures
            match r {
                Some(s) => self@.statuses.dom().contains(node@) && self@.statuses[node@] == s,
                None => !self@.statuses.dom().contains(node@),
            },
    {
        match self.statuses.get(node) {
            Some(s) => Some(*s),
            None => None,
        }
    }

    /// Asks the run to stop at the next level boundary.
    pub fn cancel(&mut self)
        ensures
            final(self)@ == spec_cancel(old(self)@),
    {
        self.cancel = true;
    }

    /// The input of a node: the merge of the stored outputs of its
    /// parents, in parent order.
    pub fn input_for(&self, node: &str) -> (input: NodeOutput)
        ensures
            input@ == input_of(self@, node@),
    {
        let mut list: Vec<NodeOutput> = Vec::new();
        proof {
            use_type_invariant(&self.outputs);
            lemma_viewed(self.outputs.pairs());
        }
        match self.parents.get(node) {
            Some(ps) => {
                let ghost ids = strs(ps@);
                assert(ids == list_of(self@.parents, node@));
                assert(output_models(list@) =~= gather(self@.outputs, ids.take(0)));
                let mut j: usize = 0;
                while j < ps.len()
                    invariant
                        j <= ps@.len(),
                        ids == strs(ps@),
                        output_models(list@) == gather(self@.outputs, ids.take(j as int)),
                    decreases ps@.len() - j,
                {
                    proof {
                        use_type_invariant(&self.outputs);
                        lemma_viewed(self.outputs.pairs());
                        assert(ids.take(j + 1).drop_last() == ids.take(j as int));
                        assert(ids.take(j + 1).last() == ps@[j as int]@);
                    }
                    match self.outputs.get(ps[j].as_str()) {
                        Some(o) => {
                            let ghost before = output_models(list@);
                            list.push(o.duplicate());
                            assert(output_models(list@) =~= before.push(o@));
                        },
                        None => {},
                    }
                    j = j + 1;
                }
                assert(ids.take(ps@.len() as int) == ids);
            },
            None => {
                assert(output_models(list@) =~= gather(self@.outputs, Seq::empty()));
            },
        }
        NodeOutput::merge(list)
    }

    /// Stores the output and the status of a node that has ended.
    fn store(&mut self, node: &str, output: NodeOutput, status: NodeStatus)
        ensures
            final(self)@ == (RunModel {
                outputs: old(self)@.outputs.insert(node@, output@),
                statuses: old(self)@.statuses.insert(node@, status),
                ..old(self)@
            }),
    {
        proof {
            use_type_invariant(&self.outputs);
            use_type_invariant(&self.statuses);
            lemma_viewed_insert(self.outputs.pairs(), node@, output);
            lemma_insert_as_map(self.statuses.pairs(), node@, status);
        }
        self.outputs.insert(node.to_owned(), output);
        self.statuses.insert(node.to_owned(), status);
    }

    /// Takes up one node of the running level.
    fn take_up_node(&mut self, node: String, actions: &mut Vec<RunAction>)
        ensures
            (Progress { run: final(self)@, actions: action_models(final(actions)@) }) == take_up(
                Progress { run: old(self)@, actions: action_models(old(actions)@) },
                node@,
            ),
    {
        let input = self.input_for(node.as_str());
        let ghost before = action_models(actions@);
        match input.kind() {
            OutputKind::Failed => {
                self.store(node.as_str(), NodeOutput::Failed, NodeStatus::Skipped);
                let action = RunAction::UpdateNode {
                    node,
                    status: NodeStatus::Skipped,
                    error: None,
                };
                actions.push(action);
                assert(action_models(actions@) =~= before.push(action@));
            },
            _ => {
                let ghost waiting = strs(self.waiting@);
                proof {
                    use_type_invariant(&self.kinds);
                    lemma_viewed(self.kinds.pairs());
                }
                let kind = match self.kinds.get(node.as_str()) {
                    Some(k) => k.clone(),
                    None => String::new(),
                };
                assert(kind@ == kind_for(self@, node@));
                self.waiting.push(node.clone());
                assert(strs(self.waiting@) =~= waiting.push(node@));
                let action = RunAction::Launch { node, kind, input };
                actions.push(action);
                assert(action_models(actions@) =~= before.push(action@));
            },
        }
    }

    /// Takes up the nodes of the running level, first to last.
    fn take_up_level(&mut self, actions: &mut Vec<RunAction>)
        requires
            old(self)@.level < old(self)@.levels.len(),
        ensures
            (Progress { run: final(self)@, actions: action_models(final(actions)@) })
                == take_up_all(
                Progress { run: old(self)@, actions: action_models(old(actions)@) },
                old(self)@.levels[old(self)@.level as int],
            ),
            final(self)@.levels == old(self)@.levels,
            final(self)@.level == old(self)@.level,
            final(self)@.cancel == old(self)@.cancel,
            final(self)@.phase == old(self)@.phase,
    {
        let ghost start = Progress { run: self@, actions: action_models(actions@) };
        let ghost nodes = self@.levels[self@.level as int];
        let n: usize = self.levels[self.level].len();
        let mut i: usize = 0;
        while i < n
            invariant
                i <= n,
                n == nodes.len(),
                start.run.level < start.run.levels.len(),
                self@.levels == start.run.levels,
                self@.level == start.run.level,
                self@.cancel == start.run.cancel,
                self@.phase == start.run.phase,
                nodes == start.run.levels[start.run.level as int],
                (Progress { run: self@, actions: action_models(actions@) }) == take_up_all(
                    start,
                    nodes.take(i as int),
                ),
            decreases n - i,
        {
            assert(self.level < self.levels@.len());
            assert(nodes == strs(self.levels@[self.level as int]@));
            let node = self.levels[self.level][i].clone();
            proof {
                assert(nodes.take(i + 1).drop_last() == nodes.take(i as int));
                assert(nodes.take(i + 1).last() == node@);
            }
            let ghost here = Progress { run: self@, actions: action_models(actions@) };
            self.take_up_node(node, actions);
            proof {
                let there = take_up(here, node@);
                assert(there.run.levels == here.run.levels);
                assert(there.run.level == here.run.level);
                assert(there.run.cancel == here.run.cancel);
                assert(there.run.phase == here.run.phase);
            }
            i = i + 1;
        }
        assert(nodes.take(n as int) == nodes);
    }

    /// Whether the stored output of the node is `Failed`.
    fn is_lost_node(&self, node: &str) -> (b: bool)
        ensures
            b == is_lost(self@, node@),
    {
        proof {
            use_type_invariant(&self.outputs);
            lemma_viewed(self.outputs.pairs());
        }
        match self.outputs.get(node) {
            Some(o) => match o.kind() {
                OutputKind::Failed => true,
                _ => false,
            },
            None => false,
        }
    }

    /// Whether the node has no children.
    fn is_leaf_node(&self, node: &str) -> (b: bool)
        ensures
            b == is_leaf(self@, node@),
    {
        match self.children.get(node) {
            Some(cs) => {
                assert(strs(cs@) == list_of(self@.children, node@));
                cs.len() == 0
            },
            None => true,
        }
    }

    /// Whether the node ended with an output from its runner.
    fn has_succeeded_node(&self, node: &str) -> (b: bool)
        ensures
            b == has_succeeded(self@, node@),
    {
        match self.statuses.get(node) {
            Some(s) => match s {
                NodeStatus::Succeeded => true,
                _ => false,
            },
            None => false,
        }
    }

    /// How the run ends if it ends now, past its last level.
    pub fn terminal(&self) -> (status: TerminalStatus)
        ensures
            status == terminal_status(self@),
    {
        let mut lost = true;
        let mut succeeded = true;
        let mut i: usize = 0;
        while i < self.order.len()
            invariant
                i <= self.order@.len(),
                lost == (forall|j: int|
                    0 <= j < i && is_leaf(self@, #[trigger] self@.order[j]) ==> is_lost(
                        self@,
                        self@.order[j],
                    )),
                succeeded == (forall|j: int|
                    0 <= j < i ==> has_succeeded(self@, #[trigger] self@.order[j])),
            decreases self.order@.len() - i,
        {
            let node = self.order[i].as_str();
            assert(self@.order[i as int] == node@);
            if self.is_leaf_node(node) && !self.is_lost_node(node) {
                lost = false;
            }
            if !self.has_succeeded_node(node) {
                succeeded = false;
            }
            i = i + 1;
        }
        if lost {
            TerminalStatus::Failed
        } else if succeeded {
            TerminalStatus::Success
        } else {
            TerminalStatus::Partial
        }
    }

    /// Ends the run with `status`.
    fn finish(&mut self, status: TerminalStatus, actions: &mut Vec<RunAction>)
        ensures
            (Progress { run: final(self)@, actions: action_models(final(actions)@) })
                == finish_with(
                Progress { run: old(self)@, actions: action_models(old(actions)@) },
                status,
            ),
    {
        let ghost before = action_models(actions@);
        self.phase = RunPhase::Finished;
        let action = RunAction::FinishRun { terminal_status: status };
        actions.push(action);
        assert(action_models(actions@) =~= before.push(action@));
    }

    /// Goes on from the level boundary that the run stands at.
    fn go_on(&mut self, actions: &mut Vec<RunAction>)
        ensures
            (Progress { run: final(self)@, actions: action_models(final(actions)@) }) == proceed(
                Progress { run: old(self)@, actions: action_models(old(actions)@) },
            ),
    {
        let ghost goal = proceed(Progress { run: self@, actions: action_models(actions@) });
        loop
            invariant_except_break
                proceed(Progress { run: self@, actions: action_models(actions@) }) == goal,
            ensures
                (Progress { run: self@, actions: action_models(actions@) }) == goal,
            decreases self.levels@.len() - self.level,
        {
            if self.level >= self.levels.len() {
                let status = self.terminal();
                self.finish(status, actions);
                break;
            }
            if self.cancel {
                self.finish(TerminalStatus::Canceled, actions);
                break;
            }
            self.take_up_level(actions);
            if self.waiting.len() > 0 {
                break;
            }
            self.level = self.level + 1;
        }
    }

    /// Starts the run, and hands out what is to be done first.
    pub fn start(&mut self) -> (actions: Vec<RunAction>)
        ensures
            final(self)@ == spec_start(old(self)@).run,
            action_models(actions@) == spec_start(old(self)@).actions,
    {
        let mut actions: Vec<RunAction> = Vec::new();
        match self.phase {
            RunPhase::Accepted => {
                self.phase = RunPhase::Running;
                actions.push(RunAction::BeginRun);
                assert(action_models(actions@) =~= seq![ActionModel::BeginRun]);
                self.go_on(&mut actions);
            },
            _ => {
                assert(action_models(actions@) =~= Seq::<ActionModel>::empty());
            },
        }
        actions
    }

    /// Reports what the runner of `node` has returned, and hands out what
    /// is to be done next.
    pub fn node_done(&mut self, node: &str, outcome: NodeOutcome) -> (actions: Vec<RunAction>)
        ensures
            final(self)@ == spec_node_done(old(self)@, node@, outcome@).run,
            action_models(actions@) == spec_node_done(old(self)@, node@, outcome@).actions,
    {
        let mut actions: Vec<RunAction> = Vec::new();
        assert(action_models(actions@) =~= Seq::<ActionModel>::empty());
        match self.phase {
            RunPhase::Running => {},
            _ => {
                return actions;
            },
        }
        let place = match find_id(&self.waiting, node) {
            Some(i) => i,
            None => {
                return actions;
            },
        };
        proof {
            let w = strs(self.waiting@);
            assert(w[place as int] == node@);
            assert forall|j: int| 0 <= j < place implies #[trigger] w[j] != node@ by {
                assert(self.waiting@[j]@ != node@);
            }
            lemma_first_place(w, node@, place as int);
        }
        let ghost before = strs(self.waiting@);
        self.waiting.remove(place);
        assert(strs(self.waiting@) =~= before.remove(place as int));
        let (output, status, error) = match outcome {
            NodeOutcome::Output(o) => (o, NodeStatus::Succeeded, None),
            NodeOutcome::Error(e) => (NodeOutput::Failed, NodeStatus::Failed, Some(e)),
            NodeOutcome::Canceled => (NodeOutput::Failed, NodeStatus::Canceled, None),
        };
        self.store(node, output, status);
        let action = RunAction::UpdateNode { node: node.to_owned(), status, error };
        actions.push(action);
        assert(action_models(actions@) =~= seq![action@]);
        if self.waiting.len() == 0 {
            if self.level < self.levels.len() {
                self.level = self.level + 1;
            }
            self.go_on(&mut actions);
        }
        actions
    }

    /// Gives the run up, as a driver does that cannot go on: a running run
    /// ends as `Failed`.
    pub fn abort(&mut self) -> (actions: Vec<RunAction>)
        ensures
            final(self)@ == spec_abort(old(self)@).run,
            action_models(actions@) == spec_abort(old(self)@).actions,
    {
        let mut actions: Vec<RunAction> = Vec::new();
        assert(action_models(actions@) =~= Seq::<ActionModel>::empty());
        match self.phase {
            RunPhase::Running => {
                self.finish(TerminalStatus::Failed, &mut actions);
            },
            _ => {},
        }
        actions
    }
}

/// Where `x` does not occur in `w`, its first place is the length of `w`.
proof fn lemma_first_place_absent(w: Seq<Seq<char>>, x: Seq<char>)
    requires
        forall|j: int| 0 <= j < w.len() ==> #[trigger] w[j] != x,
    ensures
        first_place(w, x) == w.len(),
    decreases w.len(),
{
    if w.len() > 0 {
        let rest = w.drop_first();
        assert forall|j: int| 0 <= j < rest.len() implies #[trigger] rest[j] != x by {
            assert(rest[j] == w[j + 1]);
        }
        lemma_first_place_absent(rest, x);
    }
}

/// The first place of `x` in `w` is the place before which `x` does not
/// occur.
proof fn lemma_first_place(w: Seq<Seq<char>>, x: Seq<char>, at: int)
    requires
        0 <= at < w.len(),
        w[at] == x,
        forall|j: int| 0 <= j < at ==> #[trigger] w[j] != x,
    ensures
        first_place(w, x) == at,
    decreases at,
{
    if at > 0 {
        let rest = w.drop_first();
        assert forall|j: int| 0 <= j < at - 1 implies #[trigger] rest[j] != x by {
            assert(rest[j] == w[j + 1]);
        }
        lemma_first_place(rest, x, at - 1);
    }
}

// ---------------------------------------------------------------------------
// The recorder hears of the end of a run exactly once
// ---------------------------------------------------------------------------

/// What can happen to a run.
pub enum RunEvent {
    /// The driver starts the run.
    Start,
    /// The runner of a node has returned.
    NodeDone(Seq<char>, OutcomeModel),
    /// The run is asked to stop.
    Cancel,
    /// The driver gives the run up.
    Abort,
}

/// The state after one event, and the actions that the event hands out.
pub open spec fn spec_run_event(m: RunModel, e: RunEvent) -> Progress {
    match e {
        RunEvent::Start => spec_start(m),
        RunEvent::NodeDone(node, outcome) => spec_node_done(m, node, outcome),
        RunEvent::Cancel => idle(spec_cancel(m)),
        RunEvent::Abort => spec_abort(m),
    }
}

/// The state after the events, and all actions that they hand out, in
/// order.
pub open spec fn spec_run_events(m: RunModel, events: Seq<RunEvent>) -> Progress
    decreases events.len(),
{
    if events.len() == 0 {
        idle(m)
    } else {
        let before = spec_run_events(m, events.drop_last());
        let last = spec_run_event(before.run, events.last());
        Progress { run: last.run, actions: before.actions + last.actions }
    }
}

/// How often the actions tell the recorder that the run has ended.
pub open spec fn finish_count(actions: Seq<ActionModel>) -> nat
    decreases actions.len(),
{
    if actions.len() == 0 {
        0
    } else if actions.last() is FinishRun {
        finish_count(actions.drop_last()) + 1
    } else {
        finish_count(actions.drop_last())
    }
}

/// How often the actions tell the recorder that the run begins.
pub open spec fn begin_count(actions: Seq<ActionModel>) -> nat
    decreases actions.len(),
{
    if actions.len() == 0 {
        0
    } else if actions.last() is BeginRun {
        begin_count(actions.drop_last()) + 1
    } else {
        begin_count(actions.drop_last())
    }
}

/// The counts of two lists of actions add up.
proof fn lemma_counts_add(a: Seq<ActionModel>, b: Seq<ActionModel>)
    ensures
        finish_count(a + b) == finish_count(a) + finish_count(b),
        begin_count(a + b) == begin_count(a) + begin_count(b),
    decreases b.len(),
{
    if b.len() == 0 {
        assert(a + b == a);
    } else {
        assert((a + b).drop_last() == a + b.drop_last());
        lemma_counts_add(a, b.drop_last());
    }
}

/// Taking up nodes hands out no begin and no end of the run, keeps the
/// phase and the levels, and only adds to the actions.
proof fn lemma_take_up_all_counts(p: Progress, nodes: Seq<Seq<char>>)
    ensures
        p.actions.is_prefix_of(take_up_all(p, nodes).actions),
        take_up_all(p, nodes).run.phase == p.run.phase,
        take_up_all(p, nodes).run.levels == p.run.levels,
        take_up_all(p, nodes).run.level == p.run.level,
        finish_count(take_up_all(p, nodes).actions) == finish_count(p.actions),
        begin_count(take_up_all(p, nodes).actions) == begin_count(p.actions),
    decreases nodes.len(),
{
    if nodes.len() > 0 {
        lemma_take_up_all_counts(p, nodes.drop_last());
        let before = take_up_all(p, nodes.drop_last());
        let after = take_up(before, nodes.last());
        assert(after.actions.drop_last() == before.actions);
    }
}

/// Whether the run has finished, as a number.
pub open spec fn finished(m: RunModel) -> nat {
    if m.phase == RunPhase::Finished {
        1
    } else {
        0
    }
}

/// Going on from a level boundary hands out the end of the run exactly if
/// the run finishes, and only adds to the actions.
proof fn lemma_proceed_counts(p: Progress)
    requires
        p.run.phase == RunPhase::Running,
    ensures
        p.actions.is_prefix_of(proceed(p).actions),
        proceed(p).run.phase != RunPhase::Accepted,
        finish_count(proceed(p).actions) == finish_count(p.actions) + finished(proceed(p).run),
        begin_count(proceed(p).actions) == begin_count(p.actions),
    decreases p.run.levels.len() - p.run.level,
{
    if p.run.level >= p.run.levels.len() {
        let done = finish_with(p, terminal_status(p.run));
        assert(done.actions.drop_last() == p.actions);
    } else if p.run.cancel {
        let done = finish_with(p, TerminalStatus::Canceled);
        assert(done.actions.drop_last() == p.actions);
    } else {
        let taken = take_up_all(p, p.run.levels[p.run.level as int]);
        lemma_take_up_all_counts(p, p.run.levels[p.run.level as int]);
        if taken.run.waiting.len() == 0 {
            lemma_proceed_counts(
                Progress {
                    run: RunModel { level: p.run.level + 1, levels: p.run.levels, ..taken.run },
                    actions: taken.actions,
                },
            );
        }
    }
}

/// What holds between a run and all the actions it has handed out: the
/// recorder was told of the begin once a run has started and not before,
/// and of the end once a run has finished and not before; and the begin
/// was the first thing handed out.
pub open spec fn told_once(p: Progress) -> bool {
    &&& begin_count(p.actions) == if p.run.phase == RunPhase::Accepted {
        0nat
    } else {
        1nat
    }
    &&& finish_count(p.actions) == finished(p.run)
    &&& p.run.phase == RunPhase::Accepted ==> p.actions.len() == 0
    &&& p.actions.len() > 0 ==> p.actions[0] is BeginRun
}

/// One event keeps `told_once`.
proof fn lemma_event_keeps_told_once(p: Progress, e: RunEvent)
    requires
        told_once(p),
    ensures
        told_once(
            Progress {
                run: spec_run_event(p.run, e).run,
                actions: p.actions + spec_run_event(p.run, e).actions,
            },
        ),
{
    let step = spec_run_event(p.run, e);
    lemma_counts_add(p.actions, step.actions);
    let m = p.run;
    let none = Seq::<ActionModel>::empty();
    assert(finish_count(none) == 0 && begin_count(none) == 0);
    match e {
        RunEvent::Start => {
            if m.phase == RunPhase::Accepted {
                let first = Progress {
                    run: RunModel { phase: RunPhase::Running, ..m },
                    actions: seq![ActionModel::BeginRun],
                };
                assert(first.actions.drop_last() =~= none);
                assert(finish_count(first.actions) == 0 && begin_count(first.actions) == 1);
                lemma_proceed_counts(first);
            }
        },
        RunEvent::NodeDone(node, outcome) => {
            if m.phase == RunPhase::Running && m.waiting.contains(node) {
                let waiting = m.waiting.remove(first_place(m.waiting, node));
                let told = seq![
                    ActionModel::UpdateNode {
                        node,
                        status: status_for(outcome),
                        error: error_for(outcome),
                    },
                ];
                assert(told.drop_last() =~= none);
                assert(finish_count(told) == 0 && begin_count(told) == 0);
                if waiting.len() == 0 {
                    let stored = RunModel {
                        outputs: m.outputs.insert(node, stored_for(outcome)),
                        statuses: m.statuses.insert(node, status_for(outcome)),
                        waiting,
                        ..m
                    };
                    lemma_proceed_counts(
                        Progress { run: RunModel { level: level_after(m), ..stored }, actions: told },
                    );
                }
            }
        },
        RunEvent::Cancel => {},
        RunEvent::Abort => {
            if m.phase == RunPhase::Running {
                let done = finish_with(idle(m), TerminalStatus::Failed);
                assert(done.actions.drop_last() =~= none);
                assert(finish_count(done.actions) == 1 && begin_count(done.actions) == 0);
            }
        },
    }
}

/// Whatever happens to an accepted run, in whatever order: the recorder is
/// told that the run has ended exactly once if the run has finished, and
/// not at all if it has not; and it is told that the run begins exactly
/// once if the run was started, before anything else.
pub proof fn law_finish_is_told_exactly_once(m: RunModel, events: Seq<RunEvent>)
    requires
        m.phase == RunPhase::Accepted,
    ensures
        told_once(spec_run_events(m, events)),
    decreases events.len(),
{
    if events.len() > 0 {
        law_finish_is_told_exactly_once(m, events.drop_last());
        lemma_event_keeps_told_once(spec_run_events(m, events.drop_last()), events.last());
    }
}

// ---------------------------------------------------------------------------
// A failure poisons the descendants, and nothing else
// ---------------------------------------------------------------------------

/// A `Failed` is among the gathered outputs exactly when one of the
/// parents has the stored output `Failed`.
proof fn lemma_gather_failed(outputs: Map<Seq<char>, OutputModel>, ps: Seq<Seq<char>>)
    ensures
        has_kind(gather(outputs, ps), OutputKind::Failed) <==> exists|j: int|
            0 <= j < ps.len() && outputs.dom().contains(#[trigger] ps[j]) && outputs[ps[j]]
                is Failed,
    decreases ps.len(),
{
    if ps.len() > 0 {
        let front = ps.drop_last();
        let last = ps[ps.len() - 1];
        lemma_gather_failed(outputs, front);
        let now = gather(outputs, ps);
        let before = gather(outputs, front);
        if has_kind(now, OutputKind::Failed) {
            let i = choose|i: int| 0 <= i < now.len() && kind_of(#[trigger] now[i])
                == OutputKind::Failed;
            if i < before.len() {
                assert(kind_of(before[i]) == OutputKind::Failed);
                let j = choose|j: int|
                    0 <= j < front.len() && outputs.dom().contains(#[trigger] front[j])
                        && outputs[front[j]] is Failed;
                assert(ps[j] == front[j]);
            } else {
                assert(outputs.dom().contains(ps[ps.len() - 1]));
            }
        }
        if exists|j: int|
            0 <= j < ps.len() && outputs.dom().contains(#[trigger] ps[j]) && outputs[ps[j]]
                is Failed {
            let j = choose|j: int|
                0 <= j < ps.len() && outputs.dom().contains(#[trigger] ps[j]) && outputs[ps[j]]
                    is Failed;
            if j < front.len() {
                assert(front[j] == ps[j]);
                let i = choose|i: int| 0 <= i < before.len() && kind_of(#[trigger] before[i])
                    == OutputKind::Failed;
                assert(kind_of(now[i]) == OutputKind::Failed);
            } else {
                assert(kind_of(now[now.len() - 1]) == OutputKind::Failed);
            }
        }
    }
}

/// The input of a node is `Failed`, so that the node is skipped, exactly
/// when one of its parents has the stored output `Failed`: a failure
/// poisons the children of the failed node, and through them their
/// descendants, and no other node.
pub proof fn law_failure_poisons_children_only(m: RunModel, node: Seq<char>)
    ensures
        input_of(m, node) is Failed <==> exists|j: int|
            0 <= j < list_of(m.parents, node).len() && is_lost(
                m,
                #[trigger] list_of(m.parents, node)[j],
            ),
{
    let ps = list_of(m.parents, node);
    lemma_gather_failed(m.outputs, ps);
    let outs = gather(m.outputs, ps);
    if !has_kind(outs, OutputKind::Failed) {
        if outs.len() > 0 {
            assert(kind_of(outs[0]) != OutputKind::Failed);
        }
    }
}

// ---------------------------------------------------------------------------
// No level begins before the level before it has ended
// ---------------------------------------------------------------------------

/// Every node of every level before the running one has a stored output.
pub open spec fn earlier_levels_ended(m: RunModel) -> bool {
    forall|l: int, j: int|
        0 <= l < m.level && l < m.levels.len() && 0 <= j < m.levels[l].len()
            ==> m.outputs.dom().contains(#[trigger] m.levels[l][j])
}

/// Every node whose runner has not returned yet is of the running level.
pub open spec fn waiting_is_of_level(m: RunModel) -> bool {
    forall|i: int|
        0 <= i < m.waiting.len() ==> m.level < m.levels.len() && m.levels[m.level as int].contains(
            #[trigger] m.waiting[i],
        )
}

/// Every node of the running level is awaited or has a stored output.
pub open spec fn level_is_taken_up(m: RunModel) -> bool {
    m.level < m.levels.len() ==> forall|j: int|
        0 <= j < m.levels[m.level as int].len() ==> m.waiting.contains(
            #[trigger] m.levels[m.level as int][j],
        ) || m.outputs.dom().contains(m.levels[m.level as int][j])
}

/// The level boundary is kept: while a run is running, the nodes that run
/// are of one level, and every level before it has ended. A run that has
/// not started stands before its first level and awaits nothing.
pub open spec fn keeps_barrier(m: RunModel) -> bool {
    &&& m.phase == RunPhase::Running ==> earlier_levels_ended(m) && waiting_is_of_level(m)
        && level_is_taken_up(m)
    &&& m.phase == RunPhase::Accepted ==> m.level == 0 && m.waiting.len() == 0
}

/// Taking up nodes of the running level keeps what is stored, awaits only
/// nodes of that level, and leaves every node that was taken up awaited
/// or with a stored output.
proof fn lemma_take_up_all_barrier(p: Progress, nodes: Seq<Seq<char>>)
    requires
        p.run.level < p.run.levels.len(),
        forall|k: int|
            0 <= k < nodes.len() ==> p.run.levels[p.run.level as int].contains(#[trigger] nodes[k]),
        waiting_is_of_level(p.run),
    ensures
        ({
            let r = take_up_all(p, nodes).run;
            &&& r.levels == p.run.levels
            &&& r.level == p.run.level
            &&& r.phase == p.run.phase
            &&& r.cancel == p.run.cancel
            &&& waiting_is_of_level(r)
            &&& forall|id: Seq<char>|
                p.run.outputs.dom().contains(id) ==> r.outputs.dom().contains(id)
            &&& forall|i: int|
                0 <= i < p.run.waiting.len() ==> r.waiting.contains(#[trigger] p.run.waiting[i])
            &&& forall|k: int|
                0 <= k < nodes.len() ==> r.waiting.contains(#[trigger] nodes[k])
                    || r.outputs.dom().contains(nodes[k])
        }),
    decreases nodes.len(),
{
    if nodes.len() > 0 {
        let front = nodes.drop_last();
        let last = nodes[nodes.len() - 1];
        assert forall|k: int| 0 <= k < front.len() implies p.run.levels[p.run.level as int].contains(
            #[trigger] front[k],
        ) by {
            assert(front[k] == nodes[k]);
        }
        lemma_take_up_all_barrier(p, front);
        let before = take_up_all(p, front).run;
        let r = take_up(take_up_all(p, front), nodes.last()).run;
        assert(p.run.levels[p.run.level as int].contains(nodes[nodes.len() - 1]));
        assert forall|i: int| 0 <= i < r.waiting.len() implies r.level < r.levels.len()
            && r.levels[r.level as int].contains(#[trigger] r.waiting[i]) by {
            if i < before.waiting.len() {
                assert(r.waiting[i] == before.waiting[i]);
            }
        }
        assert forall|i: int| 0 <= i < p.run.waiting.len() implies r.waiting.contains(
            #[trigger] p.run.waiting[i],
        ) by {
            let x = p.run.waiting[i];
            assert(before.waiting.contains(x));
            let a = choose|a: int| 0 <= a < before.waiting.len() && before.waiting[a] == x;
            assert(r.waiting[a] == x);
        }
        assert forall|k: int| 0 <= k < nodes.len() implies r.waiting.contains(#[trigger] nodes[k])
            || r.outputs.dom().contains(nodes[k]) by {
            if k < front.len() {
                assert(front[k] == nodes[k]);
                if before.waiting.contains(front[k]) {
                    let a = choose|a: int|
                        0 <= a < before.waiting.len() && before.waiting[a] == front[k];
                    assert(r.waiting[a] == front[k]);
                }
            } else {
                if !(input_of(before, last) is Failed) {
                    assert(r.waiting[before.waiting.len() as int] == last);
                }
            }
        }
    }
}

/// Going on from a level boundary at which nothing is awaited and every
/// earlier level has ended keeps the barrier.
proof fn lemma_proceed_barrier(p: Progress)
    requires
        p.run.phase == RunPhase::Running,
        p.run.waiting.len() == 0,
        earlier_levels_ended(p.run),
    ensures
        keeps_barrier(proceed(p).run),
    decreases p.run.levels.len() - p.run.level,
{
    if p.run.level < p.run.levels.len() && !p.run.cancel {
        let nodes = p.run.levels[p.run.level as int];
        assert forall|k: int| 0 <= k < nodes.len() implies nodes.contains(#[trigger] nodes[k]) by {}
        lemma_take_up_all_barrier(p, nodes);
        let taken = take_up_all(p, nodes);
        if taken.run.waiting.len() == 0 {
            let next = Progress {
                run: RunModel { level: p.run.level + 1, levels: p.run.levels, ..taken.run },
                actions: taken.actions,
            };
            assert forall|l: int, j: int|
                0 <= l < next.run.level && l < next.run.levels.len() && 0 <= j
                    < next.run.levels[l].len() implies next.run.outputs.dom().contains(
                #[trigger] next.run.levels[l][j],
            ) by {
                if l < p.run.level {
                    assert(p.run.outputs.dom().contains(p.run.levels[l][j]));
                } else {
                    assert(taken.run.waiting.contains(nodes[j]) || taken.run.outputs.dom().contains(
                        nodes[j],
                    ));
                    if taken.run.waiting.contains(nodes[j]) {
                        let a = choose|a: int|
                            0 <= a < taken.run.waiting.len() && taken.run.waiting[a] == nodes[j];
                    }
                }
            }
            lemma_proceed_barrier(next);
        } else {
            assert forall|l: int, j: int|
                0 <= l < taken.run.level && l < taken.run.levels.len() && 0 <= j
                    < taken.run.levels[l].len() implies taken.run.outputs.dom().contains(
                #[trigger] taken.run.levels[l][j],
            ) by {
                assert(p.run.outputs.dom().contains(p.run.levels[l][j]));
            }
        }
    }
}

/// One event keeps the barrier.
proof fn lemma_event_keeps_barrier(m: RunModel, e: RunEvent)
    requires
        keeps_barrier(m),
    ensures
        keeps_barrier(spec_run_event(m, e).run),
{
    match e {
        RunEvent::Start => {
            if m.phase == RunPhase::Accepted {
                lemma_proceed_barrier(
                    Progress {
                        run: RunModel { phase: RunPhase::Running, ..m },
                        actions: seq![ActionModel::BeginRun],
                    },
                );
            }
        },
        RunEvent::NodeDone(node, outcome) => {
            if m.phase == RunPhase::Running && m.waiting.contains(node) {
                let at = first_place(m.waiting, node);
                let found = choose|i: int| 0 <= i < m.waiting.len() && m.waiting[i] == node;
                lemma_first_place_found(m.waiting, node, found);
                let waiting = m.waiting.remove(at);
                let stored = RunModel {
                    outputs: m.outputs.insert(node, stored_for(outcome)),
                    statuses: m.statuses.insert(node, status_for(outcome)),
                    waiting,
                    ..m
                };
                assert(m.level < m.levels.len()) by {
                    assert(m.levels[m.level as int].contains(m.waiting[found]));
                }
                let nodes = m.levels[m.level as int];
                assert forall|j: int| 0 <= j < nodes.len() implies waiting.contains(
                    #[trigger] nodes[j],
                ) || stored.outputs.dom().contains(nodes[j]) by {
                    if nodes[j] != node && m.waiting.contains(nodes[j]) {
                        let a = choose|a: int| 0 <= a < m.waiting.len() && m.waiting[a] == nodes[j];
                        if a < at {
                            assert(waiting[a] == nodes[j]);
                        } else {
                            assert(waiting[a - 1] == nodes[j]);
                        }
                    }
                }
                assert forall|i: int| 0 <= i < waiting.len() implies nodes.contains(
                    #[trigger] waiting[i],
                ) by {
                    if i < at {
                        assert(waiting[i] == m.waiting[i]);
                    } else {
                        assert(waiting[i] == m.waiting[i + 1]);
                    }
                }
                if waiting.len() == 0 {
                    let next = RunModel { level: level_after(m), ..stored };
                    assert forall|l: int, j: int|
                        0 <= l < next.level && l < next.levels.len() && 0 <= j
                            < next.levels[l].len() implies next.outputs.dom().contains(
                        #[trigger] next.levels[l][j],
                    ) by {
                        if l < m.level {
                            assert(m.outputs.dom().contains(m.levels[l][j]));
                        } else {
                            assert(waiting.contains(nodes[j]) || stored.outputs.dom().contains(
                                nodes[j],
                            ));
                            if waiting.contains(nodes[j]) {
                                let a = choose|a: int|
                                    0 <= a < waiting.len() && waiting[a] == nodes[j];
                            }
                        }
                    }
                    lemma_proceed_barrier(
                        Progress {
                            run: next,
                            actions: seq![
                                ActionModel::UpdateNode {
                                    node,
                                    status: status_for(outcome),
                                    error: error_for(outcome),
                                },
                            ],
                        },
                    );
                } else {
                    assert forall|l: int, j: int|
                        0 <= l < stored.level && l < stored.levels.len() && 0 <= j
                            < stored.levels[l].len() implies stored.outputs.dom().contains(
                        #[trigger] stored.levels[l][j],
                    ) by {
                        assert(m.outputs.dom().contains(m.levels[l][j]));
                    }
                }
            }
        },
        RunEvent::Cancel => {},
        RunEvent::Abort => {},
    }
}

/// Where `x` occurs in `w`, its first place holds it.
proof fn lemma_first_place_found(w: Seq<Seq<char>>, x: Seq<char>, i: int)
    requires
        0 <= i < w.len(),
        w[i] == x,
    ensures
        0 <= first_place(w, x) <= i,
        w[first_place(w, x)] == x,
    decreases w.len(),
{
    if w[0] != x {
        let rest = w.drop_first();
        assert(rest[i - 1] == w[i]);
        lemma_first_place_found(rest, x, i - 1);
        assert(rest[first_place(rest, x)] == w[first_place(rest, x) + 1]);
    }
}

/// Whatever happens to an accepted run, in whatever order: the nodes that
/// run at one time are of one level, and no node of that level was taken
/// up before every node of every level before it had a stored output.
pub proof fn law_levels_run_in_order(m: RunModel, events: Seq<RunEvent>)
    requires
        m.phase == RunPhase::Accepted,
        m.level == 0,
        m.waiting.len() == 0,
    ensures
        keeps_barrier(spec_run_events(m, events).run),
    decreases events.len(),
{
    if events.len() > 0 {
        law_levels_run_in_order(m, events.drop_last());
        lemma_event_keeps_barrier(spec_run_events(m, events.drop_last()).run, events.last());
    }
}

// ---------------------------------------------------------------------------
// A running run awaits a node
// ---------------------------------------------------------------------------

/// Going on from a level boundary ends the run or leaves it awaiting a
/// node.
proof fn lemma_proceed_awaits(p: Progress)
    requires
        p.run.phase == RunPhase::Running,
    ensures
        proceed(p).run.phase == RunPhase::Finished || (proceed(p).run.phase == RunPhase::Running
            && proceed(p).run.waiting.len() > 0),
    decreases p.run.levels.len() - p.run.level,
{
    if p.run.level < p.run.levels.len() && !p.run.cancel {
        let taken = take_up_all(p, p.run.levels[p.run.level as int]);
        lemma_take_up_all_counts(p, p.run.levels[p.run.level as int]);
        if taken.run.waiting.len() == 0 {
            lemma_proceed_awaits(
                Progress {
                    run: RunModel { level: p.run.level + 1, levels: p.run.levels, ..taken.run },
                    actions: taken.actions,
                },
            );
        }
    }
}

/// A run never stalls: whatever happens to an accepted run, while it is
/// running it awaits the runner of some node. So a driver that reports
/// what every launched runner returns is never left without a next
/// report to make before the run has finished.
pub proof fn law_running_run_awaits_a_node(m: RunModel, events: Seq<RunEvent>)
    requires
        m.phase == RunPhase::Accepted,
    ensures
        spec_run_events(m, events).run.phase == RunPhase::Running ==> spec_run_events(
            m,
            events,
        ).run.waiting.len() > 0,
    decreases events.len(),
{
    if events.len() > 0 {
        law_running_run_awaits_a_node(m, events.drop_last());
        let before = spec_run_events(m, events.drop_last()).run;
        match events.last() {
            RunEvent::Start => {
                if before.phase == RunPhase::Accepted {
                    lemma_proceed_awaits(
                        Progress {
                            run: RunModel { phase: RunPhase::Running, ..before },
                            actions: seq![ActionModel::BeginRun],
                        },
                    );
                }
            },
            RunEvent::NodeDone(node, outcome) => {
                if before.phase == RunPhase::Running && before.waiting.contains(node) {
                    let waiting = before.waiting.remove(first_place(before.waiting, node));
                    if waiting.len() == 0 {
                        let stored = RunModel {
                            outputs: before.outputs.insert(node, stored_for(outcome)),
                            statuses: before.statuses.insert(node, status_for(outcome)),
                            waiting,
                            ..before
                        };
                        lemma_proceed_awaits(
                            Progress {
                                run: RunModel { level: level_after(before), ..stored },
                                actions: seq![
                                    ActionModel::UpdateNode {
                                        node,
                                        status: status_for(outcome),
                                        error: error_for(outcome),
                                    },
                                ],
                            },
                        );
                    }
                }
            },
            RunEvent::Cancel => {},
            RunEvent::Abort => {},
        }
    }
}

} // verus!
