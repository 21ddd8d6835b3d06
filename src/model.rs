//! The graph that goes in, the layout that comes out, and the errors between.
use vstd::prelude::*;

verus! {

/// A node of the input graph.
#[derive(Debug, Clone)]
pub struct NodeData {
    pub id: String,
    pub name: String,
    /// Text shown in the node; the name stands in when it is empty.
    pub label: String,
    /// Explicit width; zero asks for one derived from the text.
    pub width: u32,
    /// Explicit height; zero asks for the default.
    pub height: u32,
}

/// A directed edge between two nodes, named by their ids.
#[derive(Debug, Clone)]
pub struct EdgeData {
    pub id: String,
    pub from: String,
    pub to: String,
    pub label: Option<String>,
}

/// Reading direction of the diagram.
#[derive(Debug, Clone, Copy, PartialEq, Eq, Structural)]
pub enum Flow {
    East,
    West,
    North,
    South,
}

/// How the layout is drawn.
#[derive(Debug, Clone)]
pub struct LayoutConfig {
    pub flow: Flow,
    /// Gap between neighbours of one layer.
    pub node_spacing: u32,
    /// Gap between consecutive layers.
    pub rank_spacing: u32,
    /// Whether edges are directed. Layering always follows edges from `from` to
    /// `to`, so this flag is carried for the caller and changes nothing here.
    pub directed: bool,
}

/// The whole request: nodes, edges and configuration.
#[derive(Debug, Clone)]
pub struct GraphData {
    pub nodes: Vec<NodeData>,
    pub edges: Vec<EdgeData>,
    pub config: LayoutConfig,
}

/// Default gap between neighbours of one layer.
pub const DEFAULT_NODE_SPACING: u32 = 3;

/// Default gap between consecutive layers.
pub const DEFAULT_RANK_SPACING: u32 = 5;

pub fn default_flow() -> (r: Flow)
    ensures
        r == Flow::East,
{
    Flow::East
}

pub fn default_node_spacing() -> (r: u32)
    ensures
        r == 3,
{
    DEFAULT_NODE_SPACING
}

pub fn default_rank_spacing() -> (r: u32)
    ensures
        r == 5,
{
    DEFAULT_RANK_SPACING
}

impl Default for LayoutConfig {
    fn default() -> (r: Self)
        ensures
            r.flow == Flow::East,
            r.node_spacing == 3,
            r.rank_spacing == 5,
            r.directed,
    {
        LayoutConfig {
            flow: default_flow(),
            node_spacing: default_node_spacing(),
            rank_spacing: default_rank_spacing(),
            directed: true,
        }
    }
}

impl Flow {
    /// Layers advance along the x axis.
    pub open spec fn is_horizontal(self) -> bool {
        self == Flow::East || self == Flow::West
    }

    /// Layers advance towards smaller coordinates.
    pub open spec fn is_reversed(self) -> bool {
        self == Flow::West || self == Flow::North
    }

    /// The flow named `east`, `west`, `north` or `south`; `None` for any other name.
    pub fn from_name(s: &str) -> (r: Option<Flow>)
        ensures
            r == Some(Flow::East) <==> s@ == seq!['e', 'a', 's', 't'],
            r == Some(Flow::West) <==> s@ == seq!['w', 'e', 's', 't'],
            r == Some(Flow::North) <==> s@ == seq!['n', 'o', 'r', 't', 'h'],
            r == Some(Flow::South) <==> s@ == seq!['s', 'o', 'u', 't', 'h'],
    {
        let n = s.unicode_len();
        if n == 4 {
            let c0 = s.get_char(0);
            let c1 = s.get_char(1);
            let c2 = s.get_char(2);
            let c3 = s.get_char(3);
            if c0 == 'e' && c1 == 'a' && c2 == 's' && c3 == 't' {
                assert(s@ =~= seq!['e', 'a', 's', 't']);
                return Some(Flow::East);
            }
            if c0 == 'w' && c1 == 'e' && c2 == 's' && c3 == 't' {
                assert(s@ =~= seq!['w', 'e', 's', 't']);
                return Some(Flow::West);
            }
        } else if n == 5 {
            let c0 = s.get_char(0);
            let c1 = s.get_char(1);
            let c2 = s.get_char(2);
            let c3 = s.get_char(3);
            let c4 = s.get_char(4);
            if c0 == 'n' && c1 == 'o' && c2 == 'r' && c3 == 't' && c4 == 'h' {
                assert(s@ =~= seq!['n', 'o', 'r', 't', 'h']);
                return Some(Flow::North);
            }
            if c0 == 's' && c1 == 'o' && c2 == 'u' && c3 == 't' && c4 == 'h' {
                assert(s@ =~= seq!['s', 'o', 'u', 't', 'h']);
                return Some(Flow::South);
            }
        }
        None
    }
}

/// Why a layout was refused.
#[derive(Debug, Clone)]
pub enum LayoutError {
    /// Two nodes share an id: the input is malformed.
    DuplicateNodeId { id: String },
    /// An edge names a node id that no node has.
    UnknownNodeReference { edge_id: String, node_id: String },
    /// A size or coordinate of the layout does not fit its integer type.
    TooLarge,
}

/// A point of the grid.
#[derive(Debug, Clone, Copy, PartialEq, Eq, Structural)]
pub struct Point {
    pub x: i64,
    pub y: i64,
}

/// Where a node was placed: top-left corner, resolved size and label.
#[derive(Debug, Clone)]
pub struct NodePosition {
    pub id: String,
    pub x: i64,
    pub y: i64,
    pub width: u32,
    pub height: u32,
    pub label: String,
}

/// The polyline drawn for one edge.
#[derive(Debug, Clone)]
pub struct EdgePath {
    pub id: String,
    pub from: String,
    pub to: String,
    pub points: Vec<Point>,
    pub label: Option<String>,
}

/// The smallest rectangle that holds every node.
#[derive(Debug, Clone, Copy, PartialEq, Eq, Structural)]
pub struct Bounds {
    pub min_x: i64,
    pub min_y: i64,
    pub max_x: i64,
    pub max_y: i64,
    pub width: u64,
    pub height: u64,
}

/// A finished layout.
#[derive(Debug, Clone)]
pub struct LayoutResult {
    pub nodes: Vec<NodePosition>,
    pub edges: Vec<EdgePath>,
    pub bounds: Bounds,
    /// The graph had a cycle: the nodes that could never be placed share one
    /// final layer.
    pub cycle_fallback: bool,
}

} // verus!
