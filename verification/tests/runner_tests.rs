use cthulu::graph::{CycleError, Edge, Node, NodeType, Position};
use cthulu::output::{ContentItem, ContextMap, NodeOutput};
use cthulu::runner::{
    FlowRun, InvalidGraph, NodeOutcome, NodeStatus, RunAction, RunPhase, TerminalStatus,
};

fn node(id: &str, node_type: NodeType) -> Node {
    Node {
        id: id.to_string(),
        node_type,
        kind: "test".to_string(),
        config: serde_json::Value::Null,
        position: Position { x: 0, y: 0 },
        label: id.to_string(),
    }
}

fn edge(source: &str, target: &str) -> Edge {
    Edge {
        id: format!("{source}->{target}"),
        source: source.to_string(),
        target: target.to_string(),
    }
}

fn item(title: &str) -> ContentItem {
    ContentItem {
        title: title.to_string(),
        url: String::new(),
        summary: String::new(),
        published: None,
        image_url: None,
    }
}

fn diamond() -> (Vec<Node>, Vec<Edge>) {
    (
        vec![
            node("t1", NodeType::Trigger),
            node("s1", NodeType::Source),
            node("s2", NodeType::Source),
            node("e1", NodeType::Executor),
        ],
        vec![
            edge("t1", "s1"),
            edge("t1", "s2"),
            edge("s1", "e1"),
            edge("s2", "e1"),
        ],
    )
}

/// A short text for each action, to compare runs at a glance.
fn show(actions: &[RunAction]) -> Vec<String> {
    actions
        .iter()
        .map(|a| match a {
            RunAction::BeginRun => "begin".to_string(),
            RunAction::Launch { node, input, .. } => {
                let kind = match input {
                    NodeOutput::Items(v) => format!("items{}", v.len()),
                    NodeOutput::Text(t, _) => format!("text:{t}"),
                    NodeOutput::Context(m) => format!("context{}", m.len()),
                    NodeOutput::Empty => "empty".to_string(),
                    NodeOutput::Failed => "failed".to_string(),
                };
                format!("launch {node} {kind}")
            }
            RunAction::UpdateNode { node, status, error } => match error {
                Some(e) => format!("update {node} {status:?} {e}"),
                None => format!("update {node} {status:?}"),
            },
            RunAction::FinishRun { terminal_status } => format!("finish {terminal_status:?}"),
        })
        .collect()
}

#[test]
fn linear_flow_runs_level_by_level() {
    let nodes = vec![
        node("t1", NodeType::Trigger),
        node("s1", NodeType::Source),
        node("e1", NodeType::Executor),
        node("k1", NodeType::Sink),
    ];
    let edges = vec![edge("t1", "s1"), edge("s1", "e1"), edge("e1", "k1")];
    let mut run = FlowRun::accept(&nodes, &edges).unwrap();
    assert_eq!(run.phase(), RunPhase::Accepted);
    assert_eq!(*run.order(), vec!["t1", "s1", "e1", "k1"]);
    assert_eq!(
        *run.levels(),
        vec![vec!["t1"], vec!["s1"], vec!["e1"], vec!["k1"]]
    );

    assert_eq!(show(&run.start()), ["begin", "launch t1 empty"]);
    assert_eq!(run.phase(), RunPhase::Running);

    let mut context = ContextMap::new();
    context.insert("since".to_string(), "1d".to_string());
    assert_eq!(
        show(&run.node_done("t1", NodeOutcome::Output(NodeOutput::Context(context)))),
        ["update t1 Succeeded", "launch s1 context1"]
    );
    assert_eq!(
        show(&run.node_done(
            "s1",
            NodeOutcome::Output(NodeOutput::Items(vec![item("A")]))
        )),
        ["update s1 Succeeded", "launch e1 items1"]
    );
    assert_eq!(
        show(&run.node_done(
            "e1",
            NodeOutcome::Output(NodeOutput::Text("done".to_string(), None))
        )),
        ["update e1 Succeeded", "launch k1 text:done"]
    );
    assert_eq!(
        show(&run.node_done("k1", NodeOutcome::Output(NodeOutput::Empty))),
        ["update k1 Succeeded", "finish Success"]
    );
    assert_eq!(run.phase(), RunPhase::Finished);
    assert_eq!(run.status_of("k1"), Some(NodeStatus::Succeeded));
}

#[test]
fn diamond_merges_items_in_parent_order() {
    let (nodes, edges) = diamond();
    let mut run = FlowRun::accept(&nodes, &edges).unwrap();
    assert_eq!(
        *run.levels(),
        vec![vec!["t1"], vec!["s1", "s2"], vec!["e1"]]
    );
    run.start();
    assert_eq!(
        show(&run.node_done("t1", NodeOutcome::Output(NodeOutput::Empty))),
        ["update t1 Succeeded", "launch s1 empty", "launch s2 empty"]
    );
    // s2 returns first: the merge still follows the order of the parents.
    assert_eq!(
        show(&run.node_done(
            "s2",
            NodeOutcome::Output(NodeOutput::Items(vec![item("B")]))
        )),
        ["update s2 Succeeded"]
    );
    let actions = run.node_done(
        "s1",
        NodeOutcome::Output(NodeOutput::Items(vec![item("A")])),
    );
    assert_eq!(show(&actions), ["update s1 Succeeded", "launch e1 items2"]);
    match &actions[1] {
        RunAction::Launch { input: NodeOutput::Items(items), .. } => {
            assert_eq!(items[0].title, "A");
            assert_eq!(items[1].title, "B");
        }
        _ => panic!("expected a launch with items"),
    }
    match run.input_for("e1") {
        NodeOutput::Items(items) => assert_eq!(items.len(), 2),
        _ => panic!("expected Items"),
    }
    assert_eq!(
        show(&run.node_done(
            "e1",
            NodeOutcome::Output(NodeOutput::Text("t".to_string(), None))
        )),
        ["update e1 Succeeded", "finish Success"]
    );
}

#[test]
fn failure_poisons_descendants_and_fails_the_run() {
    let (nodes, edges) = diamond();
    let mut run = FlowRun::accept(&nodes, &edges).unwrap();
    run.start();
    run.node_done("t1", NodeOutcome::Output(NodeOutput::Empty));
    assert_eq!(
        show(&run.node_done("s1", NodeOutcome::Error("boom".to_string()))),
        ["update s1 Failed boom"]
    );
    assert_eq!(
        show(&run.node_done(
            "s2",
            NodeOutcome::Output(NodeOutput::Items(vec![item("B")]))
        )),
        ["update s2 Succeeded", "update e1 Skipped", "finish Failed"]
    );
    assert!(matches!(run.output_of("s1"), Some(NodeOutput::Failed)));
    assert!(matches!(run.output_of("s2"), Some(NodeOutput::Items(_))));
    assert!(matches!(run.output_of("e1"), Some(NodeOutput::Failed)));
    assert_eq!(run.status_of("s1"), Some(NodeStatus::Failed));
    assert_eq!(run.status_of("e1"), Some(NodeStatus::Skipped));
    assert_eq!(run.phase(), RunPhase::Finished);
}

#[test]
fn cycle_is_rejected_before_any_run() {
    let nodes = vec![node("a", NodeType::Source), node("b", NodeType::Source)];
    let edges = vec![edge("a", "b"), edge("b", "a")];
    match FlowRun::accept(&nodes, &edges) {
        Err(InvalidGraph::Cycle(e)) => assert_eq!(e, CycleError { sorted: 0, total: 2 }),
        _ => panic!("expected a cycle"),
    }
}

#[test]
fn empty_flow_and_unknown_edge_ends_are_rejected() {
    assert!(matches!(
        FlowRun::accept(&[], &[]),
        Err(InvalidGraph::Empty)
    ));
    let nodes = vec![node("a", NodeType::Source), node("b", NodeType::Sink)];
    let edges = vec![edge("a", "b"), edge("b", "zz"), edge("yy", "a")];
    assert!(matches!(
        FlowRun::accept(&nodes, &edges),
        Err(InvalidGraph::UnknownNode { edge: 1 })
    ));
    let twice = vec![node("a", NodeType::Source), node("a", NodeType::Sink)];
    assert!(matches!(
        FlowRun::accept(&twice, &[]),
        Err(InvalidGraph::Cycle(CycleError { sorted: 1, total: 2 }))
    ));
}

#[test]
fn one_lost_branch_of_two_is_partial() {
    let nodes = vec![
        node("t", NodeType::Trigger),
        node("a", NodeType::Sink),
        node("b", NodeType::Sink),
    ];
    let edges = vec![edge("t", "a"), edge("t", "b")];
    let mut run = FlowRun::accept(&nodes, &edges).unwrap();
    run.start();
    run.node_done("t", NodeOutcome::Output(NodeOutput::Empty));
    run.node_done("a", NodeOutcome::Error("no".to_string()));
    assert_eq!(
        show(&run.node_done("b", NodeOutcome::Output(NodeOutput::Empty))),
        ["update b Succeeded", "finish Partial"]
    );
}

#[test]
fn failed_root_skips_every_level_at_once() {
    let nodes = vec![
        node("t", NodeType::Trigger),
        node("a", NodeType::Source),
        node("b", NodeType::Sink),
        node("free", NodeType::Trigger),
    ];
    let edges = vec![edge("t", "a"), edge("a", "b")];
    let mut run = FlowRun::accept(&nodes, &edges).unwrap();
    assert_eq!(
        show(&run.start()),
        ["begin", "launch t empty", "launch free empty"]
    );
    assert_eq!(
        show(&run.node_done("free", NodeOutcome::Output(NodeOutput::Empty))),
        ["update free Succeeded"]
    );
    assert_eq!(
        show(&run.node_done("t", NodeOutcome::Error("x".to_string()))),
        ["update t Failed x", "update a Skipped", "update b Skipped", "finish Partial"]
    );
}

#[test]
fn cancel_takes_effect_at_the_level_boundary() {
    let (nodes, edges) = diamond();
    let mut run = FlowRun::accept(&nodes, &edges).unwrap();
    run.start();
    run.node_done("t1", NodeOutcome::Output(NodeOutput::Empty));
    run.cancel();
    assert_eq!(
        show(&run.node_done("s1", NodeOutcome::Canceled)),
        ["update s1 Canceled"]
    );
    assert_eq!(
        show(&run.node_done("s2", NodeOutcome::Output(NodeOutput::Empty))),
        ["update s2 Succeeded", "finish Canceled"]
    );
    assert_eq!(run.status_of("s1"), Some(NodeStatus::Canceled));
    assert!(run.output_of("e1").is_none());
}

#[test]
fn launch_names_the_kind_of_the_node() {
    let mut source = node("s", NodeType::Source);
    source.kind = "rss".to_string();
    let mut sink = node("k", NodeType::Sink);
    sink.kind = "slack".to_string();
    let mut run = FlowRun::accept(&[source, sink], &[edge("s", "k")]).unwrap();
    match &run.start()[1] {
        RunAction::Launch { node, kind, .. } => {
            assert_eq!(node, "s");
            assert_eq!(kind, "rss");
        }
        _ => panic!("expected a launch"),
    }
    match &run.node_done("s", NodeOutcome::Output(NodeOutput::Empty))[1] {
        RunAction::Launch { node, kind, .. } => {
            assert_eq!(node, "k");
            assert_eq!(kind, "slack");
        }
        _ => panic!("expected a launch"),
    }
}

fn finishes(actions: &[RunAction]) -> usize {
    actions
        .iter()
        .filter(|a| matches!(a, RunAction::FinishRun { .. }))
        .count()
}

#[test]
fn finish_is_told_exactly_once() {
    let (nodes, edges) = diamond();
    let mut run = FlowRun::accept(&nodes, &edges).unwrap();
    let mut all = Vec::new();
    all.extend(run.abort());
    all.extend(run.node_done("t1", NodeOutcome::Output(NodeOutput::Empty)));
    assert!(all.is_empty());
    all.extend(run.start());
    all.extend(run.start());
    all.extend(run.node_done("nobody", NodeOutcome::Canceled));
    all.extend(run.node_done("t1", NodeOutcome::Output(NodeOutput::Empty)));
    all.extend(run.node_done("t1", NodeOutcome::Output(NodeOutput::Empty)));
    assert_eq!(finishes(&all), 0);
    all.extend(run.abort());
    assert_eq!(finishes(&all), 1);
    assert!(matches!(
        all.last(),
        Some(RunAction::FinishRun { terminal_status: TerminalStatus::Failed })
    ));
    all.extend(run.abort());
    all.extend(run.node_done("s1", NodeOutcome::Output(NodeOutput::Empty)));
    all.extend(run.start());
    assert_eq!(finishes(&all), 1);
    assert_eq!(
        all.iter().filter(|a| matches!(a, RunAction::BeginRun)).count(),
        1
    );
}

#[test]
fn edges_into_a_trigger_are_left_out() {
    let nodes = vec![
        node("s", NodeType::Source),
        node("t", NodeType::Trigger),
        node("k", NodeType::Sink),
    ];
    // The edge into the trigger would close a cycle if it counted.
    let edges = vec![edge("t", "s"), edge("s", "t"), edge("s", "k")];
    let mut run = FlowRun::accept(&nodes, &edges).unwrap();
    assert_eq!(*run.ignored_edges(), vec![1]);
    assert_eq!(*run.levels(), vec![vec!["t"], vec!["s"], vec!["k"]]);
    assert_eq!(show(&run.start()), ["begin", "launch t empty"]);
}

#[test]
fn flows_without_such_edges_ignore_nothing() {
    let (nodes, edges) = diamond();
    let run = FlowRun::accept(&nodes, &edges).unwrap();
    assert!(run.ignored_edges().is_empty());
}

#[test]
fn a_parent_joined_by_two_edges_is_merged_once() {
    let nodes = vec![node("s", NodeType::Source), node("e", NodeType::Executor)];
    let edges = vec![edge("s", "e"), edge("s", "e")];
    let mut run = FlowRun::accept(&nodes, &edges).unwrap();
    run.start();
    let actions = run.node_done(
        "s",
        NodeOutcome::Output(NodeOutput::Items(vec![item("A")])),
    );
    assert_eq!(show(&actions), ["update s Succeeded", "launch e items1"]);
}

/// The nodes that the actions launch.
fn launched(actions: &[RunAction]) -> Vec<String> {
    actions
        .iter()
        .filter_map(|a| match a {
            RunAction::Launch { node, .. } => Some(node.clone()),
            _ => None,
        })
        .collect()
}

#[test]
fn a_running_run_always_awaits_a_runner() {
    // Reporting what every launched runner returns carries the run to its
    // end: while it is running, some launched runner has not reported yet.
    for fail_root in [false, true] {
        let (nodes, edges) = diamond();
        let mut run = FlowRun::accept(&nodes, &edges).unwrap();
        let mut waiting = launched(&run.start());
        let mut reports = 0;
        while run.phase() == RunPhase::Running {
            assert!(!waiting.is_empty());
            let node = waiting.remove(0);
            let outcome = if fail_root && node == "t1" {
                NodeOutcome::Error("boom".to_string())
            } else {
                NodeOutcome::Output(NodeOutput::Empty)
            };
            waiting.extend(launched(&run.node_done(&node, outcome)));
            reports += 1;
            assert!(reports <= nodes.len());
        }
        assert_eq!(run.phase(), RunPhase::Finished);
        assert!(waiting.is_empty());
    }
}
