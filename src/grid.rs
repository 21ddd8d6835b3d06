//! Occupancy grid: which integer cells are taken by nodes or edges. Only marked
//! rectangles are stored; every other cell is empty.
use vstd::prelude::*;
use crate::model::NodePosition;

verus! {

/// What occupies a cell.
#[derive(Debug, Clone, Copy, PartialEq, Eq, Structural)]
pub enum CellState {
    Empty,
    Node,
    Edge,
}

/// A rectangle of cells given one state.
#[derive(Debug, Clone, Copy)]
pub struct Mark {
    pub x: i64,
    pub y: i64,
    pub width: u32,
    pub height: u32,
    pub state: CellState,
}

/// Mark `m` covers cell `(x, y)`.
pub open spec fn covers(m: Mark, x: int, y: int) -> bool {
    m.x <= x < m.x + m.width && m.y <= y < m.y + m.height
}

/// State of cell `(x, y)` after the marks in order: the last mark that covers
/// it decides; no mark, empty.
pub open spec fn cell_after(marks: Seq<Mark>, x: int, y: int) -> CellState
    decreases marks.len(),
{
    if marks.len() == 0 {
        CellState::Empty
    } else if covers(marks.last(), x, y) {
        marks.last().state
    } else {
        cell_after(marks.drop_last(), x, y)
    }
}

/// A sparse grid of cell states.
pub struct OccupancyGrid {
    marks: Vec<Mark>,
}

impl OccupancyGrid {
    /// State of cell `(x, y)`.
    pub closed spec fn cell(&self, x: int, y: int) -> CellState {
        cell_after(self.marks@, x, y)
    }

    /// A grid with every cell empty.
    pub fn new() -> (r: Self)
        ensures
            forall|x: int, y: int| #[trigger] r.cell(x, y) == CellState::Empty,
    {
        OccupancyGrid { marks: Vec::new() }
    }

    /// Gives every cell of the rectangle at `(x, y)` of the given size the state
    /// `state`; other cells keep theirs.
    pub fn mark(&mut self, x: i64, y: i64, width: u32, height: u32, state: CellState)
        ensures
            forall|cx: int, cy: int|
                #[trigger] final(self).cell(cx, cy) == if x <= cx < x + width && y <= cy < y + height {
                    state
                } else {
                    old(self).cell(cx, cy)
                },
    {
        let m = Mark { x, y, width, height, state };
        self.marks.push(m);
        assert forall|cx: int, cy: int|
            #[trigger] self.cell(cx, cy) == if x <= cx < x + width && y <= cy < y + height {
                state
            } else {
                old(self).cell(cx, cy)
            } by {
            assert(self.marks@.drop_last() =~= old(self).marks@);
        }
    }

    /// State of cell `(x, y)`.
    pub fn state_at(&self, x: i64, y: i64) -> (r: CellState)
        ensures
            r == self.cell(x as int, y as int),
    {
        let mut cur = CellState::Empty;
        let mut i: usize = 0;
        while i < self.marks.len()
            invariant
                i <= self.marks@.len(),
                cur == cell_after(self.marks@.subrange(0, i as int), x as int, y as int),
            decreases self.marks@.len() - i,
        {
            let m = self.marks[i];
            proof {
                let s = self.marks@.subrange(0, i + 1);
                assert(s.drop_last() =~= self.marks@.subrange(0, i as int));
            }
            if m.x as i128 <= x as i128 && (x as i128) < m.x as i128 + m.width as i128 && m.y as i128
                <= y as i128 && (y as i128) < m.y as i128 + m.height as i128 {
                cur = m.state;
            }
            i = i + 1;
        }
        assert(self.marks@.subrange(0, self.marks@.len() as int) =~= self.marks@);
        cur
    }

    /// Cell `(x, y)` is empty.
    pub fn is_free(&self, x: i64, y: i64) -> (r: bool)
        ensures
            r == (self.cell(x as int, y as int) == CellState::Empty),
    {
        self.state_at(x, y) == CellState::Empty
    }
}

/// A cell lies in the rectangle of `p`.
pub open spec fn in_node(p: NodePosition, x: int, y: int) -> bool {
    p.x <= x < p.x + p.width && p.y <= y < p.y + p.height
}

/// The grid with the cells under every node marked as node cells.
pub fn occupancy_of(positions: &Vec<NodePosition>) -> (r: OccupancyGrid)
    ensures
        forall|x: int, y: int|
            #[trigger] r.cell(x, y) == if exists|i: int| 0 <= i < positions@.len() && in_node(positions@[i], x, y) {
                CellState::Node
            } else {
                CellState::Empty
            },
{
    let mut grid = OccupancyGrid::new();
    let mut k: usize = 0;
    while k < positions.len()
        invariant
            k <= positions@.len(),
            forall|x: int, y: int|
                #[trigger] grid.cell(x, y) == if exists|i: int| 0 <= i < k && in_node(positions@[i], x, y) {
                    CellState::Node
                } else {
                    CellState::Empty
                },
        decreases positions@.len() - k,
    {
        let p = &positions[k];
        grid.mark(p.x, p.y, p.width, p.height, CellState::Node);
        assert forall|x: int, y: int|
            #[trigger] grid.cell(x, y) == if exists|i: int| 0 <= i < k + 1 && in_node(positions@[i], x, y) {
                CellState::Node
            } else {
                CellState::Empty
            } by {
            if in_node(positions@[k as int], x, y) {
                assert(exists|i: int| 0 <= i < k + 1 && in_node(positions@[i], x, y));
            } else if exists|i: int| 0 <= i < k + 1 && in_node(positions@[i], x, y) {
                let i = choose|i: int| 0 <= i < k + 1 && in_node(positions@[i], x, y);
                assert(i < k);
            }
        }
        k = k + 1;
    }
    grid
}

} // verus!
