use cthulu::graph::{build_adjacency, topo_sort, CycleError, Edge, Node, NodeType, Position};
use cthulu::levels::compute_levels;

fn make_node(id: &str, node_type: NodeType) -> Node {
    Node {
        id: id.to_string(),
        node_type,
        kind: "test".to_string(),
        config: serde_json::Value::Object(serde_json::Map::new()),
        position: Position { x: 0, y: 0 },
        label: id.to_string(),
    }
}

fn make_edge(source: &str, target: &str) -> Edge {
    Edge {
        id: format!("{source}->{target}"),
        source: source.to_string(),
        target: target.to_string(),
    }
}

fn position(sorted: &[String], id: &str) -> usize {
    sorted.iter().position(|s| s == id).unwrap()
}

#[test]
fn test_topo_sort_linear() {
    let nodes = vec![
        make_node("t1", NodeType::Trigger),
        make_node("s1", NodeType::Source),
        make_node("e1", NodeType::Executor),
        make_node("k1", NodeType::Sink),
    ];
    let edges = vec![
        make_edge("t1", "s1"),
        make_edge("s1", "e1"),
        make_edge("e1", "k1"),
    ];

    let sorted = topo_sort(&nodes, &edges).unwrap();
    assert_eq!(sorted.len(), 4);

    assert!(position(&sorted, "t1") < position(&sorted, "s1"));
    assert!(position(&sorted, "s1") < position(&sorted, "e1"));
    assert!(position(&sorted, "e1") < position(&sorted, "k1"));
}

#[test]
fn test_topo_sort_diamond() {
    let nodes = vec![
        make_node("t1", NodeType::Trigger),
        make_node("s1", NodeType::Source),
        make_node("s2", NodeType::Source),
        make_node("e1", NodeType::Executor),
    ];
    let edges = vec![
        make_edge("t1", "s1"),
        make_edge("t1", "s2"),
        make_edge("s1", "e1"),
        make_edge("s2", "e1"),
    ];

    let sorted = topo_sort(&nodes, &edges).unwrap();
    assert_eq!(sorted.len(), 4);

    assert!(position(&sorted, "t1") < position(&sorted, "s1"));
    assert!(position(&sorted, "t1") < position(&sorted, "s2"));
    assert!(position(&sorted, "s1") < position(&sorted, "e1"));
    assert!(position(&sorted, "s2") < position(&sorted, "e1"));
}

#[test]
fn test_topo_sort_cycle_detection() {
    let nodes = vec![
        make_node("a", NodeType::Source),
        make_node("b", NodeType::Source),
    ];
    let edges = vec![make_edge("a", "b"), make_edge("b", "a")];

    let result = topo_sort(&nodes, &edges);
    assert!(result.is_err());
    assert!(result.unwrap_err().message().contains("cycle"));
}

#[test]
fn test_compute_levels_linear() {
    let nodes = vec![
        make_node("t1", NodeType::Trigger),
        make_node("s1", NodeType::Source),
        make_node("e1", NodeType::Executor),
    ];
    let edges = vec![make_edge("t1", "s1"), make_edge("s1", "e1")];

    let sorted = topo_sort(&nodes, &edges).unwrap();
    let (_, parents) = build_adjacency(&nodes, &edges);
    let levels = compute_levels(&sorted, &parents);

    assert_eq!(levels.len(), 3);
    assert_eq!(levels[0], vec!["t1"]);
    assert_eq!(levels[1], vec!["s1"]);
    assert_eq!(levels[2], vec!["e1"]);
}

#[test]
fn test_compute_levels_parallel_sources() {
    let nodes = vec![
        make_node("t1", NodeType::Trigger),
        make_node("s1", NodeType::Source),
        make_node("s2", NodeType::Source),
        make_node("e1", NodeType::Executor),
    ];
    let edges = vec![
        make_edge("t1", "s1"),
        make_edge("t1", "s2"),
        make_edge("s1", "e1"),
        make_edge("s2", "e1"),
    ];

    let sorted = topo_sort(&nodes, &edges).unwrap();
    let (_, parents) = build_adjacency(&nodes, &edges);
    let levels = compute_levels(&sorted, &parents);

    assert_eq!(levels.len(), 3);
    assert_eq!(levels[0], vec!["t1"]);
    assert_eq!(levels[1].len(), 2);
    assert!(levels[1].contains(&"s1".to_string()));
    assert!(levels[1].contains(&"s2".to_string()));
    assert_eq!(levels[2], vec!["e1"]);
}

#[test]
fn test_build_adjacency() {
    let nodes = vec![
        make_node("a", NodeType::Trigger),
        make_node("b", NodeType::Source),
        make_node("c", NodeType::Executor),
    ];
    let edges = vec![make_edge("a", "b"), make_edge("b", "c")];

    let (children, parents) = build_adjacency(&nodes, &edges);

    assert_eq!(*children.get("a").unwrap(), vec!["b"]);
    assert_eq!(*children.get("b").unwrap(), vec!["c"]);
    assert!(children.get("c").unwrap().is_empty());

    assert!(parents.get("a").unwrap().is_empty());
    assert_eq!(*parents.get("b").unwrap(), vec!["a"]);
    assert_eq!(*parents.get("c").unwrap(), vec!["b"]);
}

#[test]
fn linear_flow_sorts_and_layers_in_node_order() {
    let nodes = vec![
        make_node("t1", NodeType::Trigger),
        make_node("s1", NodeType::Source),
        make_node("e1", NodeType::Executor),
        make_node("k1", NodeType::Sink),
    ];
    let edges = vec![
        make_edge("t1", "s1"),
        make_edge("s1", "e1"),
        make_edge("e1", "k1"),
    ];
    let sorted = topo_sort(&nodes, &edges).unwrap();
    assert_eq!(sorted, vec!["t1", "s1", "e1", "k1"]);
    let (_, parents) = build_adjacency(&nodes, &edges);
    let levels = compute_levels(&sorted, &parents);
    assert_eq!(
        levels,
        vec![vec!["t1"], vec!["s1"], vec!["e1"], vec!["k1"]]
    );
}

#[test]
fn diamond_flow_layers() {
    let nodes = vec![
        make_node("t1", NodeType::Trigger),
        make_node("s1", NodeType::Source),
        make_node("s2", NodeType::Source),
        make_node("e1", NodeType::Executor),
    ];
    let edges = vec![
        make_edge("t1", "s1"),
        make_edge("t1", "s2"),
        make_edge("s1", "e1"),
        make_edge("s2", "e1"),
    ];
    let sorted = topo_sort(&nodes, &edges).unwrap();
    assert_eq!(sorted, vec!["t1", "s1", "s2", "e1"]);
    let (children, parents) = build_adjacency(&nodes, &edges);
    assert_eq!(*children.get("t1").unwrap(), vec!["s1", "s2"]);
    assert_eq!(*parents.get("e1").unwrap(), vec!["s1", "s2"]);
    let levels = compute_levels(&sorted, &parents);
    assert_eq!(levels, vec![vec!["t1"], vec!["s1", "s2"], vec!["e1"]]);
}

#[test]
fn roots_start_in_node_order_whatever_the_edge_order() {
    let nodes = vec![
        make_node("z", NodeType::Trigger),
        make_node("m", NodeType::Source),
        make_node("a", NodeType::Trigger),
        make_node("q", NodeType::Sink),
    ];
    let edges = vec![make_edge("a", "q"), make_edge("z", "m"), make_edge("z", "q")];
    let sorted = topo_sort(&nodes, &edges).unwrap();
    assert_eq!(sorted, vec!["z", "a", "m", "q"]);
}

#[test]
fn cycle_error_counts_sorted_and_total() {
    let nodes = vec![
        make_node("r", NodeType::Trigger),
        make_node("a", NodeType::Source),
        make_node("b", NodeType::Source),
    ];
    let edges = vec![
        make_edge("r", "a"),
        make_edge("a", "b"),
        make_edge("b", "a"),
    ];
    let err = topo_sort(&nodes, &edges).unwrap_err();
    assert_eq!(err, CycleError { sorted: 1, total: 3 });
    assert!(err.sorted < err.total);
    assert_eq!(err.message(), "flow graph has a cycle (1 of 3 nodes sorted)");
}

#[test]
fn two_node_cycle_sorts_nothing() {
    let nodes = vec![
        make_node("a", NodeType::Source),
        make_node("b", NodeType::Source),
    ];
    let edges = vec![make_edge("a", "b"), make_edge("b", "a")];
    let err = topo_sort(&nodes, &edges).unwrap_err();
    assert_eq!(err.sorted, 0);
    assert_eq!(err.total, 2);
    assert_eq!(err.message(), "flow graph has a cycle (0 of 2 nodes sorted)");
}

#[test]
fn self_loop_is_a_cycle() {
    let nodes = vec![make_node("a", NodeType::Source)];
    let edges = vec![make_edge("a", "a")];
    let err = topo_sort(&nodes, &edges).unwrap_err();
    assert_eq!(err, CycleError { sorted: 0, total: 1 });
}

#[test]
fn repeated_node_id_is_rejected() {
    let nodes = vec![
        make_node("a", NodeType::Source),
        make_node("a", NodeType::Source),
    ];
    let err = topo_sort(&nodes, &[]).unwrap_err();
    assert_eq!(err, CycleError { sorted: 1, total: 2 });
}

#[test]
fn edges_to_unknown_nodes_are_dropped() {
    let nodes = vec![
        make_node("a", NodeType::Trigger),
        make_node("b", NodeType::Sink),
    ];
    let edges = vec![
        make_edge("a", "ghost"),
        make_edge("ghost", "b"),
        make_edge("a", "b"),
    ];
    let (children, parents) = build_adjacency(&nodes, &edges);
    assert_eq!(children.len(), 2);
    assert_eq!(*children.get("a").unwrap(), vec!["b"]);
    assert_eq!(*parents.get("b").unwrap(), vec!["a"]);
    assert!(children.get("ghost").is_none());
    assert_eq!(topo_sort(&nodes, &edges).unwrap(), vec!["a", "b"]);
}

#[test]
fn repeated_edges_are_one_relation() {
    let nodes = vec![
        make_node("a", NodeType::Trigger),
        make_node("b", NodeType::Sink),
    ];
    let edges = vec![make_edge("a", "b"), make_edge("a", "b")];
    let (children, parents) = build_adjacency(&nodes, &edges);
    assert_eq!(*children.get("a").unwrap(), vec!["b"]);
    assert_eq!(*parents.get("b").unwrap(), vec!["a"]);
    assert!(children.get("b").unwrap().is_empty());
    assert!(parents.get("a").unwrap().is_empty());
    assert_eq!(topo_sort(&nodes, &edges).unwrap(), vec!["a", "b"]);
}

#[test]
fn a_neighbour_stands_at_the_place_of_its_first_edge() {
    let nodes = vec![
        make_node("u", NodeType::Trigger),
        make_node("c", NodeType::Source),
        make_node("d", NodeType::Source),
        make_node("k", NodeType::Sink),
    ];
    let edges = vec![
        make_edge("u", "c"),
        make_edge("u", "d"),
        make_edge("u", "c"),
        make_edge("d", "k"),
        make_edge("c", "k"),
        make_edge("d", "k"),
    ];
    let (children, parents) = build_adjacency(&nodes, &edges);
    assert_eq!(*children.get("u").unwrap(), vec!["c", "d"]);
    assert_eq!(*parents.get("k").unwrap(), vec!["d", "c"]);
    // The repeated edge does not hold `c` back behind `d`.
    let sorted = topo_sort(&nodes, &edges).unwrap();
    assert_eq!(sorted, vec!["u", "c", "d", "k"]);
    let levels = compute_levels(&sorted, &parents);
    assert_eq!(levels, vec![vec!["u"], vec!["c", "d"], vec!["k"]]);
}

#[test]
fn empty_flow_sorts_to_nothing_and_has_one_empty_level() {
    let sorted = topo_sort(&[], &[]).unwrap();
    assert!(sorted.is_empty());
    let (_, parents) = build_adjacency(&[], &[]);
    let levels = compute_levels(&sorted, &parents);
    assert_eq!(levels, vec![Vec::<String>::new()]);
}

#[test]
fn level_is_one_more_than_highest_parent() {
    let nodes = vec![
        make_node("a", NodeType::Trigger),
        make_node("b", NodeType::Source),
        make_node("c", NodeType::Executor),
        make_node("d", NodeType::Sink),
    ];
    let edges = vec![
        make_edge("a", "b"),
        make_edge("b", "c"),
        make_edge("a", "d"),
        make_edge("c", "d"),
    ];
    let sorted = topo_sort(&nodes, &edges).unwrap();
    let (_, parents) = build_adjacency(&nodes, &edges);
    let levels = compute_levels(&sorted, &parents);
    assert_eq!(
        levels,
        vec![vec!["a"], vec!["b"], vec!["c"], vec!["d"]]
    );
}

#[test]
fn only_nodes_clear_of_cycles_are_counted_as_sorted() {
    // a and b form a cycle, c hangs behind it, d and e are clear of it, and
    // f is clear although it leads into the cycle.
    let nodes = vec![
        make_node("a", NodeType::Source),
        make_node("b", NodeType::Source),
        make_node("c", NodeType::Sink),
        make_node("d", NodeType::Trigger),
        make_node("e", NodeType::Sink),
        make_node("f", NodeType::Trigger),
    ];
    let edges = vec![
        make_edge("a", "b"),
        make_edge("b", "a"),
        make_edge("b", "c"),
        make_edge("d", "e"),
        make_edge("f", "a"),
        make_edge("e", "c"),
    ];
    let err = topo_sort(&nodes, &edges).unwrap_err();
    assert_eq!(err, CycleError { sorted: 3, total: 6 });
    assert_eq!(err.message(), "flow graph has a cycle (3 of 6 nodes sorted)");
}

#[test]
fn a_node_far_behind_a_cycle_is_not_sorted() {
    let nodes = vec![
        make_node("r", NodeType::Trigger),
        make_node("x", NodeType::Source),
        make_node("y", NodeType::Source),
        make_node("z", NodeType::Sink),
    ];
    let edges = vec![
        make_edge("x", "x"),
        make_edge("x", "y"),
        make_edge("y", "z"),
        make_edge("r", "z"),
    ];
    let err = topo_sort(&nodes, &edges).unwrap_err();
    assert_eq!(err, CycleError { sorted: 1, total: 4 });
}
