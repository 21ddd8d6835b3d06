use layout_engine::grid::{occupancy_of, CellState, OccupancyGrid};
use layout_engine::position::{resolve_label, resolve_size};
use layout_engine::text::{sort_ids, str_lt};
use layout_engine::NodePosition;
use layout_engine::NodeData;

#[test]
fn string_order_is_lexicographic() {
    assert!(str_lt("a", "b"));
    assert!(str_lt("a", "ab"));
    assert!(!str_lt("ab", "a"));
    assert!(!str_lt("abc", "abc"));
    assert!(str_lt("", "a"));
    assert!(str_lt("B", "a"));
    assert!(str_lt("é", "ê"));
}

#[test]
fn sorting_ids_orders_them() {
    let mut v = vec!["node10".to_string(), "node2".to_string(), "alpha".to_string(), "Zed".to_string()];
    sort_ids(&mut v);
    assert_eq!(v, vec!["Zed", "alpha", "node10", "node2"]);
}

#[test]
fn sizes_resolve() {
    let n = NodeData { id: "x".to_string(), name: "ab".to_string(), label: String::new(), width: 0, height: 0 };
    assert_eq!(resolve_size(&n), Some((7, 3)));
    assert_eq!(resolve_label(&n), "ab");
    let m = NodeData { id: "y".to_string(), name: "n".to_string(), label: "héllo wörld".to_string(), width: 0, height: 4 };
    assert_eq!(resolve_size(&m), Some((15, 4)));
    assert_eq!(resolve_label(&m), "héllo wörld");
}

#[test]
fn grid_marks_and_queries() {
    let mut g = OccupancyGrid::new();
    assert!(g.is_free(0, 0));
    g.mark(2, 3, 4, 2, CellState::Node);
    assert_eq!(g.state_at(2, 3), CellState::Node);
    assert_eq!(g.state_at(5, 4), CellState::Node);
    assert!(g.is_free(6, 4));
    assert!(g.is_free(5, 5));
    assert!(g.is_free(1, 3));
    g.mark(5, 4, 1, 1, CellState::Edge);
    assert_eq!(g.state_at(5, 4), CellState::Edge);
    assert_eq!(g.state_at(4, 4), CellState::Node);
}

#[test]
fn grid_from_positions() {
    let ps = vec![
        NodePosition { id: "a".to_string(), x: 0, y: 0, width: 2, height: 2, label: "A".to_string() },
        NodePosition { id: "b".to_string(), x: -5, y: 10, width: 1, height: 3, label: "B".to_string() },
    ];
    let g = occupancy_of(&ps);
    assert_eq!(g.state_at(1, 1), CellState::Node);
    assert_eq!(g.state_at(-5, 12), CellState::Node);
    assert!(g.is_free(2, 0));
    assert!(g.is_free(-5, 13));
}
