//! Edge routing: a polyline from the side of the source node that faces the
//! target to the side of the target that faces the source.
use vstd::prelude::*;
use crate::model::{EdgeData, EdgePath, Flow, GraphData, NodePosition, Point};
use crate::position::position_fits;

verus! {

/// Some position has id `id`.
pub open spec fn has_position(ps: Seq<NodePosition>, id: Seq<char>) -> bool {
    exists|i: int| 0 <= i < ps.len() && ps[i].id@ == id
}

/// `i` is the first position with id `id`.
pub open spec fn first_with_id(ps: Seq<NodePosition>, id: Seq<char>, i: int) -> bool {
    &&& 0 <= i < ps.len()
    &&& ps[i].id@ == id
    &&& forall|q: int| 0 <= q < i ==> ps[q].id@ != id
}

/// The first position with id `id`.
pub open spec fn position_of(ps: Seq<NodePosition>, id: Seq<char>) -> NodePosition {
    ps[choose|i: int| first_with_id(ps, id, i)]
}

/// `d / 2` rounded towards zero.
pub open spec fn half_toward_zero(d: int) -> int {
    if d >= 0 { d / 2 } else { -((-d) / 2) }
}

/// Where an edge leaves node `a`: the middle of the side facing the next layer.
pub open spec fn exit_point(a: NodePosition, flow: Flow) -> (int, int) {
    match flow {
        Flow::East => (a.x + a.width, a.y + a.height / 2),
        Flow::West => (a.x as int, a.y + a.height / 2),
        Flow::South => (a.x + a.width / 2, a.y + a.height),
        Flow::North => (a.x + a.width / 2, a.y as int),
    }
}

/// Where an edge enters node `b`: the middle of the side facing the previous layer.
pub open spec fn entry_point(b: NodePosition, flow: Flow) -> (int, int) {
    match flow {
        Flow::East => (b.x as int, b.y + b.height / 2),
        Flow::West => (b.x + b.width, b.y + b.height / 2),
        Flow::South => (b.x + b.width / 2, b.y as int),
        Flow::North => (b.x + b.width / 2, b.y + b.height),
    }
}

/// The polyline from `s` to `e`: a straight segment when they are level across
/// the flow; otherwise along the flow to the halfway line, across, and on.
pub open spec fn route_points(s: (int, int), e: (int, int), flow: Flow) -> Seq<(int, int)> {
    if flow.is_horizontal() {
        if s.1 == e.1 {
            seq![s, e]
        } else {
            let m = s.0 + half_toward_zero(e.0 - s.0);
            seq![s, (m, s.1), (m, e.1), e]
        }
    } else {
        if s.0 == e.0 {
            seq![s, e]
        } else {
            let m = s.1 + half_toward_zero(e.1 - s.1);
            seq![s, (s.0, m), (e.0, m), e]
        }
    }
}

/// A point as a pair of integers.
pub open spec fn point_view(p: Point) -> (int, int) {
    (p.x as int, p.y as int)
}

/// `p` is the path drawn for edge `e`.
pub open spec fn routed_as(p: EdgePath, e: EdgeData, ps: Seq<NodePosition>, flow: Flow) -> bool {
    &&& p.id == e.id
    &&& p.from == e.from
    &&& p.to == e.to
    &&& p.label == e.label
    &&& p.points@.map_values(|q: Point| point_view(q)) == route_points(
        exit_point(position_of(ps, e.from@), flow),
        entry_point(position_of(ps, e.to@), flow),
        flow,
    )
}

/// The first position with id `id`.
fn find_position(ps: &Vec<NodePosition>, id: &String) -> (r: usize)
    requires
        has_position(ps@, id@),
    ensures
        first_with_id(ps@, id@, r as int),
        ps@[r as int] == position_of(ps@, id@),
{
    let mut i: usize = 0;
    while i < ps.len()
        invariant
            i <= ps@.len(),
            has_position(ps@, id@),
            forall|q: int| 0 <= q < i ==> ps@[q].id@ != id@,
        decreases ps@.len() - i,
    {
        if ps[i].id == *id {
            proof {
                assert(first_with_id(ps@, id@, i as int));
                let c = choose|c: int| first_with_id(ps@, id@, c);
                assert(c == i);
            }
            return i;
        }
        i = i + 1;
    }
    assert(false);
    0
}

/// Rounds `d / 2` towards zero.
fn halve(d: i128) -> (r: i128)
    requires
        -0x1_0000_0000_0000_0000 <= d <= 0x1_0000_0000_0000_0000,
    ensures
        r == half_toward_zero(d as int),
{
    if d >= 0 {
        d / 2
    } else {
        -((-d) / 2)
    }
}

/// Points of the path from `s` to `e`.
fn path_points(s: (i64, i64), e: (i64, i64), flow: Flow) -> (r: Vec<Point>)
    ensures
        r@.map_values(|q: Point| point_view(q)) == route_points(
            (s.0 as int, s.1 as int),
            (e.0 as int, e.1 as int),
            flow,
        ),
{
    let horizontal = flow == Flow::East || flow == Flow::West;
    let a = Point { x: s.0, y: s.1 };
    let b = Point { x: e.0, y: e.1 };
    let r = if horizontal {
        if s.1 == e.1 {
            vec![a, b]
        } else {
            let m = (s.0 as i128 + halve(e.0 as i128 - s.0 as i128)) as i64;
            vec![a, Point { x: m, y: s.1 }, Point { x: m, y: e.1 }, b]
        }
    } else {
        if s.0 == e.0 {
            vec![a, b]
        } else {
            let m = (s.1 as i128 + halve(e.1 as i128 - s.1 as i128)) as i64;
            vec![a, Point { x: s.0, y: m }, Point { x: e.0, y: m }, b]
        }
    };
    assert(r@.map_values(|q: Point| point_view(q)) =~= route_points(
        (s.0 as int, s.1 as int),
        (e.0 as int, e.1 as int),
        flow,
    ));
    r
}

/// Where an edge leaves the node at `a`.
fn exit_of(a: &NodePosition, flow: Flow) -> (r: (i64, i64))
    requires
        position_fits(*a),
    ensures
        (r.0 as int, r.1 as int) == exit_point(*a, flow),
{
    match flow {
        Flow::East => (a.x + a.width as i64, a.y + (a.height / 2) as i64),
        Flow::West => (a.x, a.y + (a.height / 2) as i64),
        Flow::South => (a.x + (a.width / 2) as i64, a.y + a.height as i64),
        Flow::North => (a.x + (a.width / 2) as i64, a.y),
    }
}

/// Where an edge enters the node at `b`.
fn entry_of(b: &NodePosition, flow: Flow) -> (r: (i64, i64))
    requires
        position_fits(*b),
    ensures
        (r.0 as int, r.1 as int) == entry_point(*b, flow),
{
    match flow {
        Flow::East => (b.x, b.y + (b.height / 2) as i64),
        Flow::West => (b.x + b.width as i64, b.y + (b.height / 2) as i64),
        Flow::South => (b.x + (b.width / 2) as i64, b.y),
        Flow::North => (b.x + (b.width / 2) as i64, b.y + b.height as i64),
    }
}

/// One path per edge, in the order of the edges.
pub fn route_edges(graph: &GraphData, node_positions: &Vec<NodePosition>) -> (r: Vec<EdgePath>)
    requires
        forall|k: int| 0 <= k < node_positions@.len() ==> #[trigger] position_fits(node_positions@[k]),
        forall|k: int|
            0 <= k < graph.edges@.len() ==> has_position(node_positions@, #[trigger] graph.edges@[k].from@)
                && has_position(node_positions@, graph.edges@[k].to@),
    ensures
        r@.len() == graph.edges@.len(),
        forall|k: int|
            0 <= k < r@.len() ==> #[trigger] routed_as(r@[k], graph.edges@[k], node_positions@, graph.config.flow),
{
    let flow = graph.config.flow;
    let mut paths: Vec<EdgePath> = Vec::new();
    let mut k: usize = 0;
    while k < graph.edges.len()
        invariant
            flow == graph.config.flow,
            k <= graph.edges@.len(),
            paths@.len() == k,
            forall|k: int| 0 <= k < node_positions@.len() ==> #[trigger] position_fits(node_positions@[k]),
            forall|k: int|
                0 <= k < graph.edges@.len() ==> has_position(node_positions@, #[trigger] graph.edges@[k].from@)
                    && has_position(node_positions@, graph.edges@[k].to@),
            forall|q: int|
                0 <= q < k ==> #[trigger] routed_as(paths@[q], graph.edges@[q], node_positions@, flow),
        decreases graph.edges@.len() - k,
    {
        let e: &EdgeData = &graph.edges[k];
        assert(has_position(node_positions@, graph.edges@[k as int].from@));
        let fi = find_position(node_positions, &e.from);
        let ti = find_position(node_positions, &e.to);
        let s = exit_of(&node_positions[fi], flow);
        let t = entry_of(&node_positions[ti], flow);
        let points = path_points(s, t, flow);
        let label = match &e.label {
            Some(l) => Some(l.clone()),
            None => None,
        };
        paths.push(EdgePath { id: e.id.clone(), from: e.from.clone(), to: e.to.clone(), points, label });
        proof {
            assert(routed_as(paths@[k as int], graph.edges@[k as int], node_positions@, flow));
        }
        k = k + 1;
    }
    paths
}


/// A routed path starts at the source's exit point and ends at the target's
/// entry point, and each of its segments is horizontal or vertical.
pub proof fn lemma_path_ends(p: EdgePath, e: EdgeData, ps: Seq<NodePosition>, flow: Flow)
    requires
        routed_as(p, e, ps, flow),
    ensures
        p.points@.len() >= 2,
        point_view(p.points@[0]) == exit_point(position_of(ps, e.from@), flow),
        point_view(p.points@[p.points@.len() - 1]) == entry_point(position_of(ps, e.to@), flow),
        forall|i: int|
            0 <= i < p.points@.len() - 1 ==> (#[trigger] p.points@[i]).x == p.points@[i + 1].x
                || p.points@[i].y == p.points@[i + 1].y,
{
    let v = p.points@.map_values(|q: Point| point_view(q));
    assert(v.len() == p.points@.len());
    assert(v[0] == point_view(p.points@[0]));
    assert(v[v.len() - 1] == point_view(p.points@[p.points@.len() - 1]));
    assert forall|i: int| 0 <= i < p.points@.len() - 1 implies (#[trigger] p.points@[i]).x == p.points@[i + 1].x
        || p.points@[i].y == p.points@[i + 1].y by {
        assert(v[i] == point_view(p.points@[i]));
        assert(v[i + 1] == point_view(p.points@[i + 1]));
    }
}


/// Position lists whose entries agree in id, corner and size give the same
/// position for every id they hold.
pub proof fn lemma_position_of_same(ps1: Seq<NodePosition>, ps2: Seq<NodePosition>, id: Seq<char>)
    requires
        ps1.len() == ps2.len(),
        forall|k: int|
            0 <= k < ps1.len() ==> (#[trigger] ps1[k]).id@ == ps2[k].id@ && ps1[k].x == ps2[k].x && ps1[k].y
                == ps2[k].y && ps1[k].width == ps2[k].width && ps1[k].height == ps2[k].height,
        has_position(ps1, id),
    ensures
        position_of(ps1, id).x == position_of(ps2, id).x,
        position_of(ps1, id).y == position_of(ps2, id).y,
        position_of(ps1, id).width == position_of(ps2, id).width,
        position_of(ps1, id).height == position_of(ps2, id).height,
{
    let i0 = choose|i: int| 0 <= i < ps1.len() && ps1[i].id@ == id;
    lemma_first_with_id(ps1, id, i0);
    let c1 = choose|c: int| first_with_id(ps1, id, c);
    assert(ps1[c1].id@ == ps2[c1].id@);
    assert forall|q: int| 0 <= q < c1 implies ps2[q].id@ != id by {
        assert(ps1[q].id@ == ps2[q].id@);
    }
    assert(first_with_id(ps2, id, c1));
    let c2 = choose|c: int| first_with_id(ps2, id, c);
    if c2 < c1 {
        assert(ps2[c2].id@ != id);
    }
    if c1 < c2 {
        assert(ps2[c1].id@ != id);
    }
    assert(ps1[c1].x == ps2[c1].x);
}

/// Some index with id `id` at or below `i` is the first one.
proof fn lemma_first_with_id(ps: Seq<NodePosition>, id: Seq<char>, i: int)
    requires
        0 <= i < ps.len(),
        ps[i].id@ == id,
    ensures
        exists|f: int| first_with_id(ps, id, f),
    decreases i,
{
    if exists|q: int| 0 <= q < i && ps[q].id@ == id {
        let q = choose|q: int| 0 <= q < i && ps[q].id@ == id;
        lemma_first_with_id(ps, id, q);
    } else {
        assert(first_with_id(ps, id, i));
    }
}

} // verus!
