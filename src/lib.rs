//! Grid layout of directed graphs. Nodes are split into layers so that edges
//! point forward, placed on an integer grid along a flow direction, joined by
//! axis-aligned polylines, and enclosed in a bounding rectangle.
pub mod bounds;
pub mod grid;
pub mod layering;
pub mod layout;
pub mod model;
pub mod position;
pub mod routing;
pub mod text;

pub use bounds::calculate_bounds;
pub use grid::{occupancy_of, CellState, OccupancyGrid};
pub use layering::topological_sort;
pub use layout::{compute_layout, LayoutEngine, VERSION};
pub use model::{
    default_flow, default_node_spacing, default_rank_spacing, Bounds, EdgeData, EdgePath, Flow,
    GraphData, LayoutConfig, LayoutError, LayoutResult, NodeData, NodePosition, Point,
};
pub use position::assign_positions;
pub use routing::route_edges;
