//! The smallest rectangle that holds every node.
use vstd::prelude::*;
use crate::model::{Bounds, NodePosition};
use crate::position::position_fits;

verus! {

/// Smallest left side among the positions; zero when there are none.
pub open spec fn min_x(ps: Seq<NodePosition>) -> int
    decreases ps.len(),
{
    if ps.len() == 0 {
        0
    } else if ps.len() == 1 || ps.last().x < min_x(ps.drop_last()) {
        ps.last().x as int
    } else {
        min_x(ps.drop_last())
    }
}

/// Smallest top side among the positions; zero when there are none.
pub open spec fn min_y(ps: Seq<NodePosition>) -> int
    decreases ps.len(),
{
    if ps.len() == 0 {
        0
    } else if ps.len() == 1 || ps.last().y < min_y(ps.drop_last()) {
        ps.last().y as int
    } else {
        min_y(ps.drop_last())
    }
}

/// Largest right side among the positions; zero when there are none.
pub open spec fn max_x(ps: Seq<NodePosition>) -> int
    decreases ps.len(),
{
    if ps.len() == 0 {
        0
    } else if ps.len() == 1 || ps.last().x + ps.last().width > max_x(ps.drop_last()) {
        ps.last().x + ps.last().width
    } else {
        max_x(ps.drop_last())
    }
}

/// Largest bottom side among the positions; zero when there are none.
pub open spec fn max_y(ps: Seq<NodePosition>) -> int
    decreases ps.len(),
{
    if ps.len() == 0 {
        0
    } else if ps.len() == 1 || ps.last().y + ps.last().height > max_y(ps.drop_last()) {
        ps.last().y + ps.last().height
    } else {
        max_y(ps.drop_last())
    }
}

/// `b` is the bounding rectangle of `ps`.
pub open spec fn bounds_spec(b: Bounds, ps: Seq<NodePosition>) -> bool {
    &&& b.min_x == min_x(ps)
    &&& b.min_y == min_y(ps)
    &&& b.max_x == max_x(ps)
    &&& b.max_y == max_y(ps)
    &&& b.width == max_x(ps) - min_x(ps)
    &&& b.height == max_y(ps) - min_y(ps)
}

/// Every node rectangle lies inside the bounds.
pub proof fn lemma_bounds_cover(ps: Seq<NodePosition>)
    ensures
        forall|i: int|
            0 <= i < ps.len() ==> {
                &&& min_x(ps) <= (#[trigger] ps[i]).x
                &&& ps[i].x + ps[i].width <= max_x(ps)
                &&& min_y(ps) <= ps[i].y
                &&& ps[i].y + ps[i].height <= max_y(ps)
            },
    decreases ps.len(),
{
    if ps.len() > 0 {
        lemma_bounds_cover(ps.drop_last());
        assert forall|i: int| 0 <= i < ps.len() - 1 implies ps[i] == ps.drop_last()[i] by {}
    }
}

/// Bounding rectangle of all node rectangles: running minimum and maximum on
/// each axis, width and height their differences; all zero for no nodes.
pub fn calculate_bounds(positions: &Vec<NodePosition>) -> (b: Bounds)
    requires
        forall|k: int| 0 <= k < positions@.len() ==> #[trigger] position_fits(positions@[k]),
    ensures
        bounds_spec(b, positions@),
{
    let ghost ps = positions@;
    if positions.len() == 0 {
        return Bounds { min_x: 0, min_y: 0, max_x: 0, max_y: 0, width: 0, height: 0 };
    }
    assert(position_fits(ps[0]));
    let mut lo_x: i64 = positions[0].x;
    let mut lo_y: i64 = positions[0].y;
    let mut hi_x: i64 = positions[0].x + positions[0].width as i64;
    let mut hi_y: i64 = positions[0].y + positions[0].height as i64;
    proof {
        assert(ps.subrange(0, 1).drop_last() =~= Seq::<NodePosition>::empty());
        assert(position_fits(ps[0]));
    }
    let mut k: usize = 1;
    while k < positions.len()
        invariant
            ps == positions@,
            1 <= k <= ps.len(),
            forall|k: int| 0 <= k < ps.len() ==> #[trigger] position_fits(ps[k]),
            lo_x == min_x(ps.subrange(0, k as int)),
            lo_y == min_y(ps.subrange(0, k as int)),
            hi_x == max_x(ps.subrange(0, k as int)),
            hi_y == max_y(ps.subrange(0, k as int)),
            lo_x <= hi_x,
            lo_y <= hi_y,
        decreases ps.len() - k,
    {
        let p = &positions[k];
        assert(position_fits(ps[k as int]));
        let px = p.x;
        let py = p.y;
        let qx = p.x + p.width as i64;
        let qy = p.y + p.height as i64;
        proof {
            let s = ps.subrange(0, k + 1);
            assert(s.drop_last() =~= ps.subrange(0, k as int));
            assert(s.last() == ps[k as int]);
        }
        if px < lo_x {
            lo_x = px;
        }
        if py < lo_y {
            lo_y = py;
        }
        if qx > hi_x {
            hi_x = qx;
        }
        if qy > hi_y {
            hi_y = qy;
        }
        k = k + 1;
    }
    assert(ps.subrange(0, ps.len() as int) =~= ps);
    Bounds {
        min_x: lo_x,
        min_y: lo_y,
        max_x: hi_x,
        max_y: hi_y,
        width: (hi_x as i128 - lo_x as i128) as u64,
        height: (hi_y as i128 - lo_y as i128) as u64,
    }
}


/// Rectangles that agree in corner and size have the same bounds.
pub proof fn lemma_bounds_same(ps1: Seq<NodePosition>, ps2: Seq<NodePosition>)
    requires
        ps1.len() == ps2.len(),
        forall|k: int|
            0 <= k < ps1.len() ==> (#[trigger] ps1[k]).x == ps2[k].x && ps1[k].y == ps2[k].y && ps1[k].width
                == ps2[k].width && ps1[k].height == ps2[k].height,
    ensures
        min_x(ps1) == min_x(ps2),
        min_y(ps1) == min_y(ps2),
        max_x(ps1) == max_x(ps2),
        max_y(ps1) == max_y(ps2),
    decreases ps1.len(),
{
    if ps1.len() > 0 {
        assert forall|k: int| 0 <= k < ps1.len() - 1 implies ps1.drop_last()[k] == ps1[k] && ps2.drop_last()[k] == ps2[k] by {}
        lemma_bounds_same(ps1.drop_last(), ps2.drop_last());
        assert(ps1.last() == ps1[ps1.len() - 1]);
        assert(ps2.last() == ps2[ps2.len() - 1]);
    }
}

} // verus!
