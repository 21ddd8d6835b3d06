use layout_engine::{
    calculate_bounds, compute_layout, topological_sort, EdgeData, Flow, GraphData, LayoutConfig,
    LayoutEngine, LayoutError, NodeData, Point,
};

fn node(id: &str, width: u32, height: u32) -> NodeData {
    NodeData {
        id: id.to_string(),
        name: id.to_uppercase(),
        label: id.to_uppercase(),
        width,
        height,
    }
}

fn edge(id: &str, from: &str, to: &str) -> EdgeData {
    EdgeData { id: id.to_string(), from: from.to_string(), to: to.to_string(), label: None }
}

fn graph(nodes: Vec<NodeData>, edges: Vec<EdgeData>, flow: Flow) -> GraphData {
    let mut config = LayoutConfig::default();
    config.flow = flow;
    GraphData { nodes, edges, config }
}

#[test]
fn test_simple_graph() {
    let graph = GraphData {
        nodes: vec![
            NodeData {
                id: "a".to_string(),
                name: "A".to_string(),
                label: "A".to_string(),
                width: 5,
                height: 3,
            },
            NodeData {
                id: "b".to_string(),
                name: "B".to_string(),
                label: "B".to_string(),
                width: 5,
                height: 3,
            },
        ],
        edges: vec![EdgeData {
            id: "e1".to_string(),
            from: "a".to_string(),
            to: "b".to_string(),
            label: None,
        }],
        config: LayoutConfig::default(),
    };

    let result = compute_layout(&graph).unwrap();

    assert_eq!(result.nodes.len(), 2);
    assert_eq!(result.edges.len(), 1);
    assert!(result.bounds.width > 0);
    assert!(result.bounds.height > 0);
}

#[test]
fn test_topological_sort() {
    let graph = GraphData {
        nodes: vec![
            NodeData {
                id: "a".to_string(),
                name: "A".to_string(),
                label: "A".to_string(),
                width: 0,
                height: 0,
            },
            NodeData {
                id: "b".to_string(),
                name: "B".to_string(),
                label: "B".to_string(),
                width: 0,
                height: 0,
            },
            NodeData {
                id: "c".to_string(),
                name: "C".to_string(),
                label: "C".to_string(),
                width: 0,
                height: 0,
            },
        ],
        edges: vec![
            EdgeData {
                id: "e1".to_string(),
                from: "a".to_string(),
                to: "b".to_string(),
                label: None,
            },
            EdgeData {
                id: "e2".to_string(),
                from: "b".to_string(),
                to: "c".to_string(),
                label: None,
            },
        ],
        config: LayoutConfig::default(),
    };

    let layers = topological_sort(&graph).unwrap();

    assert_eq!(layers.len(), 3);
    assert_eq!(layers[0], vec!["a"]);
    assert_eq!(layers[1], vec!["b"]);
    assert_eq!(layers[2], vec!["c"]);
}

#[test]
fn two_nodes_east_scenario() {
    let g = graph(vec![node("a", 0, 0), node("b", 0, 0)], vec![edge("e1", "a", "b")], Flow::East);
    let layers = topological_sort(&g).unwrap();
    assert_eq!(layers, vec![vec!["a".to_string()], vec!["b".to_string()]]);
    let r = compute_layout(&g).unwrap();
    let a = &r.nodes[0];
    let b = &r.nodes[1];
    assert_eq!(a.id, "a");
    assert_eq!(b.id, "b");
    assert_eq!(a.x, 0);
    assert_eq!(a.width, 7);
    assert_eq!(b.x, 7 + 5);
    assert_eq!(a.y, 0);
    assert_eq!(b.y, 0);
    assert_eq!(r.edges[0].points, vec![Point { x: 7, y: 1 }, Point { x: 12, y: 1 }]);
    assert!(!r.cycle_fallback);
}

#[test]
fn unknown_node_reference_is_an_error() {
    let g = graph(vec![node("a", 0, 0), node("b", 0, 0)], vec![edge("e1", "a", "b"), edge("e2", "b", "zz")], Flow::East);
    match compute_layout(&g) {
        Err(LayoutError::UnknownNodeReference { edge_id, node_id }) => {
            assert_eq!(edge_id, "e2");
            assert_eq!(node_id, "zz");
        },
        other => panic!("unexpected: {:?}", other),
    }
    let g2 = graph(vec![node("a", 0, 0)], vec![edge("e7", "q", "a")], Flow::East);
    match topological_sort(&g2) {
        Err(LayoutError::UnknownNodeReference { edge_id, node_id }) => {
            assert_eq!(edge_id, "e7");
            assert_eq!(node_id, "q");
        },
        other => panic!("unexpected: {:?}", other),
    }
}

#[test]
fn duplicate_node_id_is_an_error() {
    let g = graph(vec![node("a", 0, 0), node("b", 0, 0), node("a", 3, 3)], vec![], Flow::East);
    match compute_layout(&g) {
        Err(LayoutError::DuplicateNodeId { id }) => assert_eq!(id, "a"),
        other => panic!("unexpected: {:?}", other),
    }
}

#[test]
fn cycle_falls_back_to_one_sorted_layer() {
    let g = graph(
        vec![node("c", 0, 0), node("a", 0, 0), node("b", 0, 0)],
        vec![edge("e1", "a", "b"), edge("e2", "b", "c"), edge("e3", "c", "a")],
        Flow::East,
    );
    let layers = topological_sort(&g).unwrap();
    assert_eq!(layers, vec![vec!["a".to_string(), "b".to_string(), "c".to_string()]]);
    let r = compute_layout(&g).unwrap();
    assert!(r.cycle_fallback);
    assert_eq!(r.nodes.len(), 3);
    assert!(r.nodes.iter().all(|p| p.x == 0));
}

#[test]
fn cycle_keeps_layers_before_it() {
    let g = graph(
        vec![node("a", 0, 0), node("b", 0, 0), node("c", 0, 0), node("d", 0, 0)],
        vec![edge("e1", "c", "a"), edge("e2", "a", "b"), edge("e3", "b", "a"), edge("e4", "b", "d")],
        Flow::East,
    );
    let layers = topological_sort(&g).unwrap();
    assert_eq!(
        layers,
        vec![vec!["c".to_string()], vec!["a".to_string(), "b".to_string(), "d".to_string()]]
    );
    let r = compute_layout(&g).unwrap();
    assert!(r.cycle_fallback);
    assert_eq!(r.nodes[0].id, "c");
    assert_eq!(r.nodes[0].x, 0);
    assert_eq!(r.nodes[1].id, "a");
    assert_eq!(r.nodes[1].x, 7 + 5);
}

#[test]
fn first_repeated_id_is_reported() {
    let g = graph(vec![node("b", 0, 0), node("a", 0, 0), node("a", 0, 0), node("b", 0, 0)], vec![], Flow::East);
    for _ in 0..2 {
        match LayoutEngine::new().layout(&g) {
            Err(LayoutError::DuplicateNodeId { id }) => assert_eq!(id, "a"),
            other => panic!("unexpected: {:?}", other),
        }
    }
}

#[test]
fn empty_graph_gives_empty_layout() {
    let g = graph(vec![], vec![edge("e1", "x", "y")], Flow::East);
    let r = compute_layout(&g).unwrap();
    assert!(r.nodes.is_empty());
    assert!(r.edges.is_empty());
    assert_eq!(r.bounds.width, 0);
    assert_eq!(r.bounds.height, 0);
    assert_eq!(r.bounds.min_x, 0);
    assert_eq!(r.bounds.max_y, 0);
}

#[test]
fn layers_ignore_input_order() {
    let g1 = graph(
        vec![node("d", 0, 0), node("b", 0, 0), node("a", 0, 0), node("c", 0, 0)],
        vec![edge("e1", "a", "d"), edge("e2", "b", "d"), edge("e3", "d", "c")],
        Flow::East,
    );
    let g2 = graph(
        vec![node("a", 0, 0), node("c", 0, 0), node("b", 0, 0), node("d", 0, 0)],
        vec![edge("e3", "d", "c"), edge("e2", "b", "d"), edge("e1", "a", "d")],
        Flow::East,
    );
    let l1 = topological_sort(&g1).unwrap();
    let l2 = topological_sort(&g2).unwrap();
    assert_eq!(l1, l2);
    assert_eq!(l1, vec![vec!["a".to_string(), "b".to_string()], vec!["d".to_string()], vec!["c".to_string()]]);
}

#[test]
fn edges_point_to_later_layers() {
    let g = graph(
        vec![node("a", 0, 0), node("b", 0, 0), node("c", 0, 0), node("d", 0, 0)],
        vec![edge("e1", "a", "b"), edge("e2", "a", "c"), edge("e3", "b", "d"), edge("e4", "c", "d"), edge("e5", "a", "d")],
        Flow::East,
    );
    let layers = topological_sort(&g).unwrap();
    let layer_of = |id: &str| layers.iter().position(|l| l.iter().any(|x| x == id)).unwrap();
    for e in &g.edges {
        assert!(layer_of(&e.from) < layer_of(&e.to));
    }
    assert_eq!(layers.len(), 3);
}

#[test]
fn auto_width_has_a_floor_and_follows_the_text() {
    let mut short = node("s", 0, 0);
    short.label = "ab".to_string();
    short.name = "x".to_string();
    let mut long = node("l", 0, 0);
    long.label = "a long label".to_string();
    long.name = "n".to_string();
    let mut unnamed = node("u", 0, 0);
    unnamed.label = String::new();
    unnamed.name = "the name".to_string();
    let fixed = node("f", 2, 9);
    let g = graph(vec![short, long, unnamed, fixed], vec![], Flow::South);
    let r = compute_layout(&g).unwrap();
    let find = |id: &str| r.nodes.iter().find(|p| p.id == id).unwrap().clone();
    assert_eq!(find("s").width, 7);
    assert_eq!(find("s").height, 3);
    assert_eq!(find("l").width, 12 + 4);
    assert_eq!(find("u").width, 8 + 4);
    assert_eq!(find("u").label, "the name");
    assert_eq!(find("f").width, 2);
    assert_eq!(find("f").height, 9);
}

#[test]
fn bounds_cover_every_node() {
    let g = graph(
        vec![node("a", 4, 6), node("b", 10, 2), node("c", 0, 0), node("d", 3, 3)],
        vec![edge("e1", "a", "c"), edge("e2", "b", "c"), edge("e3", "c", "d")],
        Flow::West,
    );
    let r = compute_layout(&g).unwrap();
    for p in &r.nodes {
        assert!(p.x >= r.bounds.min_x);
        assert!(p.x + p.width as i64 <= r.bounds.max_x);
        assert!(p.y >= r.bounds.min_y);
        assert!(p.y + p.height as i64 <= r.bounds.max_y);
    }
    assert_eq!(r.bounds.width as i64, r.bounds.max_x - r.bounds.min_x);
    assert_eq!(r.bounds, calculate_bounds(&r.nodes));
}

#[test]
fn west_flow_mirrors_east() {
    let g = graph(vec![node("a", 5, 3), node("b", 9, 3)], vec![edge("e1", "a", "b")], Flow::West);
    let r = compute_layout(&g).unwrap();
    assert_eq!(r.nodes[0].x, -5);
    assert_eq!(r.nodes[1].x, -(5 + 5 + 9));
    assert_eq!(r.edges[0].points, vec![Point { x: -5, y: 1 }, Point { x: -10, y: 1 }]);
    assert_eq!(r.bounds.min_x, -19);
    assert_eq!(r.bounds.max_x, 0);
    assert_eq!(r.bounds.width, 19);
}

#[test]
fn layer_slot_is_its_widest_member() {
    let g = graph(
        vec![node("a", 10, 3), node("b", 4, 3), node("c", 5, 3)],
        vec![edge("e1", "a", "c"), edge("e2", "b", "c")],
        Flow::East,
    );
    let r = compute_layout(&g).unwrap();
    assert_eq!(r.nodes[0].id, "a");
    assert_eq!((r.nodes[0].x, r.nodes[0].y), (0, 0));
    assert_eq!(r.nodes[1].id, "b");
    assert_eq!((r.nodes[1].x, r.nodes[1].y), (0, 3 + 3));
    assert_eq!(r.nodes[2].id, "c");
    assert_eq!((r.nodes[2].x, r.nodes[2].y), (10 + 5, 0));
}

#[test]
fn manhattan_path_when_rows_differ() {
    let g = graph(
        vec![node("a", 4, 3), node("b", 4, 3), node("c", 4, 5)],
        vec![edge("e1", "a", "c"), edge("e2", "b", "c")],
        Flow::East,
    );
    let r = compute_layout(&g).unwrap();
    // b sits at y = 6, c at y = 0 in the next layer (x = 4 + 5 = 9).
    let e2 = &r.edges[1];
    assert_eq!(
        e2.points,
        vec![Point { x: 4, y: 7 }, Point { x: 6, y: 7 }, Point { x: 6, y: 2 }, Point { x: 9, y: 2 }]
    );
    for w in e2.points.windows(2) {
        assert!(w[0].x == w[1].x || w[0].y == w[1].y);
    }
}

#[test]
fn midpoint_rounds_toward_zero_backwards() {
    // In a cycle every node shares one layer, so paths run backwards.
    let g = graph(
        vec![node("a", 5, 3), node("b", 5, 3)],
        vec![edge("e1", "a", "b"), edge("e2", "b", "a")],
        Flow::East,
    );
    let r = compute_layout(&g).unwrap();
    assert!(r.cycle_fallback);
    // a at (0,0), b at (0,6): exit of a is (5,1), entry of b is (0,7).
    assert_eq!(
        r.edges[0].points,
        vec![Point { x: 5, y: 1 }, Point { x: 3, y: 1 }, Point { x: 3, y: 7 }, Point { x: 0, y: 7 }]
    );
}

#[test]
fn south_flow_runs_top_to_bottom() {
    let g = graph(vec![node("a", 6, 2), node("b", 6, 4)], vec![edge("e1", "a", "b")], Flow::South);
    let r = compute_layout(&g).unwrap();
    assert_eq!((r.nodes[1].x, r.nodes[1].y), (0, 2 + 5));
    assert_eq!(r.edges[0].points, vec![Point { x: 3, y: 2 }, Point { x: 3, y: 7 }]);
}

#[test]
fn north_flow_mirrors_south() {
    let g = graph(vec![node("a", 6, 2), node("b", 8, 4)], vec![edge("e1", "a", "b")], Flow::North);
    let r = compute_layout(&g).unwrap();
    assert_eq!((r.nodes[0].x, r.nodes[0].y), (0, -2));
    assert_eq!((r.nodes[1].x, r.nodes[1].y), (0, -(2 + 5 + 4)));
    assert_eq!(
        r.edges[0].points,
        vec![Point { x: 3, y: -2 }, Point { x: 3, y: -4 }, Point { x: 4, y: -4 }, Point { x: 4, y: -7 }]
    );
}

#[test]
fn edge_labels_and_ids_carry_over() {
    let mut e = edge("e1", "a", "b");
    e.label = Some("calls".to_string());
    let g = graph(vec![node("a", 0, 0), node("b", 0, 0)], vec![e], Flow::East);
    let r = LayoutEngine::new().layout(&g).unwrap();
    assert_eq!(r.edges[0].id, "e1");
    assert_eq!(r.edges[0].from, "a");
    assert_eq!(r.edges[0].to, "b");
    assert_eq!(r.edges[0].label.as_deref(), Some("calls"));
    assert_eq!(r.nodes[0].label, "A");
}

#[test]
fn version_is_stable_and_non_empty() {
    let v = LayoutEngine::get_version();
    assert!(!v.is_empty());
    assert_eq!(v, LayoutEngine::get_version());
}

#[test]
fn defaults_match_configuration() {
    let c = LayoutConfig::default();
    assert_eq!(c.flow, Flow::East);
    assert_eq!(c.node_spacing, 3);
    assert_eq!(c.rank_spacing, 5);
    assert!(c.directed);
}

#[test]
fn flow_names_parse() {
    assert_eq!(Flow::from_name("east"), Some(Flow::East));
    assert_eq!(Flow::from_name("west"), Some(Flow::West));
    assert_eq!(Flow::from_name("north"), Some(Flow::North));
    assert_eq!(Flow::from_name("south"), Some(Flow::South));
    assert_eq!(Flow::from_name("East"), None);
    assert_eq!(Flow::from_name(""), None);
    assert_eq!(Flow::from_name("southwest"), None);
}
