//! The single entry point: validate, layer, place, route, bound.
use vstd::prelude::*;
use crate::bounds::{bounds_spec, calculate_bounds};
use crate::layering::{
    edges_known, has_edge, id_set, ids_unique, is_layerable, layer_nodes, layer_set, layering_spec,
    layers_view, lemma_in_ids, lemma_placed_in_layer, placed, validation_error,
};
use crate::model::{Bounds, EdgePath, GraphData, LayoutError, LayoutResult, NodePosition, Point};
use crate::position::{
    assign_positions, flat_start, has_node, layout_fits, lemma_flat_start_grows, lemma_positions_same,
    node_for, positions_spec, same_nodes_for, same_position,
};
use crate::routing::{has_position, lemma_position_of_same, point_view, route_edges, routed_as};

verus! {

/// `res` is the layout of the non-empty graph `g`.
pub open spec fn layout_spec(g: GraphData, res: LayoutResult) -> bool {
    &&& ids_unique(g)
    &&& edges_known(g)
    &&& exists|ls: Seq<Seq<Seq<char>>>|
        {
            &&& #[trigger] layering_spec(g, ls)
            &&& layout_fits(g.nodes@, g.config, ls)
            &&& positions_spec(res.nodes@, g.nodes@, g.config, ls)
        }
    &&& res.edges@.len() == g.edges@.len()
    &&& forall|k: int|
        0 <= k < g.edges@.len() ==> #[trigger] routed_as(res.edges@[k], g.edges@[k], res.nodes@, g.config.flow)
    &&& bounds_spec(res.bounds, res.nodes@)
    &&& res.cycle_fallback == !is_layerable(g)
}

/// The layering of `g` is too large to place.
pub open spec fn too_large(g: GraphData) -> bool {
    &&& ids_unique(g)
    &&& edges_known(g)
    &&& exists|ls: Seq<Seq<Seq<char>>>| #[trigger] layering_spec(g, ls) && !layout_fits(g.nodes@, g.config, ls)
}

/// The layout of a graph without nodes.
pub open spec fn is_empty_layout(res: LayoutResult) -> bool {
    &&& res.nodes@.len() == 0
    &&& res.edges@.len() == 0
    &&& res.bounds == Bounds { min_x: 0, min_y: 0, max_x: 0, max_y: 0, width: 0, height: 0 }
    &&& !res.cycle_fallback
}

proof fn lemma_id_in_layers(g: GraphData, ls: Seq<Seq<Seq<char>>>, x: Seq<char>)
    requires
        layering_spec(g, ls),
        id_set(g).contains(x),
    ensures
        exists|l: int, j: int| 0 <= l < ls.len() && 0 <= j < ls[l].len() && ls[l][j] == x,
{
    if is_layerable(g) {
        lemma_placed_in_layer(g, ls.len() as nat, x);
        let a = choose|a: nat| a < ls.len() && #[trigger] layer_set(g, a).contains(x);
        assert(ls[a as int].to_set().contains(x));
        let j = choose|j: int| 0 <= j < ls[a as int].len() && ls[a as int][j] == x;
        assert(0 <= a < ls.len() && 0 <= j < ls[a as int].len() && ls[a as int][j] == x);
    } else {
        let n = ls.len() - 1;
        if placed(g, n as nat).contains(x) {
            lemma_placed_in_layer(g, n as nat, x);
            let a = choose|a: nat| a < n && #[trigger] layer_set(g, a).contains(x);
            assert(ls[a as int].len() > 0);
            assert(ls[a as int].to_set().contains(x));
            let j = choose|j: int| 0 <= j < ls[a as int].len() && ls[a as int][j] == x;
            assert(0 <= a < ls.len() && 0 <= j < ls[a as int].len() && ls[a as int][j] == x);
        } else {
            assert(ls[n].to_set().contains(x));
            let j = choose|j: int| 0 <= j < ls[n].len() && ls[n][j] == x;
            assert(0 <= n < ls.len() && 0 <= j < ls[n].len() && ls[n][j] == x);
        }
    }
}

proof fn lemma_layers_hold_ids(g: GraphData, ls: Seq<Seq<Seq<char>>>)
    requires
        layering_spec(g, ls),
    ensures
        forall|l: int, j: int| 0 <= l < ls.len() && 0 <= j < ls[l].len() ==> id_set(g).contains(#[trigger] ls[l][j]),
{
    assert forall|l: int, j: int| 0 <= l < ls.len() && 0 <= j < ls[l].len() implies id_set(g).contains(
        #[trigger] ls[l][j],
    ) by {
        assert(ls[l].to_set().contains(ls[l][j]));
    }
}

/// Lays out `graph`. A graph without nodes gives the empty layout. Otherwise a
/// repeated id or an edge with an unknown end is an error; in a graph with a
/// cycle the nodes that can never be placed share one final layer, and the
/// result is flagged; a layout whose sizes or coordinates do
/// not fit their integer types is `TooLarge`.
pub fn compute_layout(graph: &GraphData) -> (r: Result<LayoutResult, LayoutError>)
    ensures
        graph.nodes@.len() == 0 ==> r is Ok && is_empty_layout(r->Ok_0),
        graph.nodes@.len() > 0 ==> match r {
            Ok(res) => layout_spec(*graph, res),
            Err(e) => validation_error(*graph, e) || (e is TooLarge && too_large(*graph)),
        },
{
    let g = graph;
    if g.nodes.len() == 0 {
        return Ok(
            LayoutResult {
                nodes: Vec::new(),
                edges: Vec::new(),
                bounds: Bounds { min_x: 0, min_y: 0, max_x: 0, max_y: 0, width: 0, height: 0 },
                cycle_fallback: false,
            },
        );
    }
    let (layers, cyclic) = match layer_nodes(g) {
        Ok(p) => p,
        Err(e) => {
            return Err(e);
        },
    };
    let ghost ls = layers_view(layers@);
    proof {
        lemma_layers_hold_ids(*g, ls);
        assert forall|l: int, j: int|
            0 <= l < layers@.len() && 0 <= j < layers@[l]@.len() implies has_node(
            g.nodes@,
            #[trigger] layers@[l]@[j]@,
        ) by {
            assert(ls[l][j] == layers@[l]@[j]@);
            lemma_in_ids(*g, ls[l][j]);
        }
    }
    let positions: Vec<NodePosition> = match assign_positions(&layers, &g.nodes, &g.config) {
        Ok(ps) => ps,
        Err(e) => {
            assert(layering_spec(*g, ls) && !layout_fits(g.nodes@, g.config, ls));
            return Err(e);
        },
    };
    proof {
        assert forall|k: int| 0 <= k < g.edges@.len() implies has_position(positions@, #[trigger] g.edges@[k].from@)
            && has_position(positions@, g.edges@[k].to@) by {
            assert(crate::layering::edge_known(*g, k));
            lemma_id_positioned(*g, ls, positions@, g.edges@[k].from@);
            lemma_id_positioned(*g, ls, positions@, g.edges@[k].to@);
        }
    }
    let edges = route_edges(g, &positions);
    let bounds = calculate_bounds(&positions);
    let res = LayoutResult { nodes: positions, edges, bounds, cycle_fallback: cyclic };
    assert(layering_spec(*g, ls) && layout_fits(g.nodes@, g.config, ls) && positions_spec(
        res.nodes@,
        g.nodes@,
        g.config,
        ls,
    ));
    Ok(res)
}

proof fn lemma_id_positioned(g: GraphData, ls: Seq<Seq<Seq<char>>>, ps: Seq<NodePosition>, x: Seq<char>)
    requires
        layering_spec(g, ls),
        positions_spec(ps, g.nodes@, g.config, ls),
        id_set(g).contains(x),
    ensures
        has_position(ps, x),
{
    lemma_id_in_layers(g, ls, x);
    let (l, j) = choose|l: int, j: int| 0 <= l < ls.len() && 0 <= j < ls[l].len() && ls[l][j] == x;
    assert(crate::position::placed_as(ps[flat_start(ls, l) + j], g.nodes@, g.config, ls, l, j));
    lemma_flat_start_grows(ls, 0, l);
    lemma_flat_start_grows(ls, l + 1, ls.len() as int);
    assert(ps[flat_start(ls, l) + j].id@ == x);
}


/// Every node rectangle of a layout lies inside its bounds.
pub proof fn lemma_layout_bounds_cover(g: GraphData, res: LayoutResult)
    requires
        layout_spec(g, res),
    ensures
        forall|i: int|
            0 <= i < res.nodes@.len() ==> {
                &&& res.bounds.min_x <= (#[trigger] res.nodes@[i]).x
                &&& res.nodes@[i].x + res.nodes@[i].width <= res.bounds.max_x
                &&& res.bounds.min_y <= res.nodes@[i].y
                &&& res.nodes@[i].y + res.nodes@[i].height <= res.bounds.max_y
            },
{
    crate::bounds::lemma_bounds_cover(res.nodes@);
}

/// Version of this library.
pub const VERSION: &'static str = "0.1.0";

/// The layout engine. It keeps no state between requests.
pub struct LayoutEngine {
    _placeholder: u8,
}

impl LayoutEngine {
    pub fn new() -> (r: Self) {
        LayoutEngine { _placeholder: 0 }
    }

    /// Lays out `graph`; see [`compute_layout`].
    pub fn layout(&self, graph: &GraphData) -> (r: Result<LayoutResult, LayoutError>)
        ensures
            graph.nodes@.len() == 0 ==> r is Ok && is_empty_layout(r->Ok_0),
            graph.nodes@.len() > 0 ==> match r {
                Ok(res) => layout_spec(*graph, res),
                Err(e) => validation_error(*graph, e) || (e is TooLarge && too_large(*graph)),
            },
    {
        compute_layout(graph)
    }

    /// The library's version: the same non-empty text on every call.
    pub fn get_version() -> (r: String)
        ensures
            r@ == VERSION@,
            r@.len() > 0,
    {
        proof {
            reveal_strlit("0.1.0");
        }
        String::from_str(VERSION)
    }
}


/// `sigma` and `tau` are inverse bijections of `0..n`.
pub open spec fn is_permutation(sigma: spec_fn(int) -> int, tau: spec_fn(int) -> int, n: int) -> bool {
    &&& forall|i: int| 0 <= i < n ==> 0 <= #[trigger] sigma(i) < n && tau(sigma(i)) == i
    &&& forall|i: int| 0 <= i < n ==> 0 <= #[trigger] tau(i) < n && sigma(tau(i)) == i
}

/// Two paths agree in every field.
pub open spec fn same_path(p: EdgePath, q: EdgePath) -> bool {
    &&& p.id == q.id
    &&& p.from == q.from
    &&& p.to == q.to
    &&& p.label == q.label
    &&& p.points@.map_values(|a: Point| point_view(a)) == q.points@.map_values(|a: Point| point_view(a))
}

/// Listing the nodes or the edges of a graph in another order changes nothing
/// in its layout: the same node positions in the same order, the same bounds,
/// and for each edge the same path.
pub proof fn lemma_layout_ignores_input_order(
    g1: GraphData,
    g2: GraphData,
    r1: LayoutResult,
    r2: LayoutResult,
    sigma: spec_fn(int) -> int,
    sigma_inv: spec_fn(int) -> int,
    pi: spec_fn(int) -> int,
    pi_inv: spec_fn(int) -> int,
)
    requires
        g2.config == g1.config,
        g2.nodes@.len() == g1.nodes@.len(),
        is_permutation(sigma, sigma_inv, g1.nodes@.len() as int),
        forall|i: int| 0 <= i < g2.nodes@.len() ==> g2.nodes@[i] == g1.nodes@[#[trigger] sigma(i)],
        g2.edges@.len() == g1.edges@.len(),
        is_permutation(pi, pi_inv, g1.edges@.len() as int),
        forall|i: int| 0 <= i < g2.edges@.len() ==> g2.edges@[i] == g1.edges@[#[trigger] pi(i)],
        layout_spec(g1, r1),
        layout_spec(g2, r2),
    ensures
        r1.nodes@.len() == r2.nodes@.len(),
        forall|k: int| 0 <= k < r1.nodes@.len() ==> #[trigger] same_position(r1.nodes@[k], r2.nodes@[k]),
        r1.bounds == r2.bounds,
        r1.cycle_fallback == r2.cycle_fallback,
        forall|i: int| 0 <= i < g2.edges@.len() ==> same_path(#[trigger] r2.edges@[i], r1.edges@[pi(i)]),
{
    let n = g1.nodes@.len() as int;
    let m = g1.edges@.len() as int;
    assert forall|x: Seq<char>| id_set(g1).contains(x) <==> id_set(g2).contains(x) by {
        lemma_in_ids(g1, x);
        lemma_in_ids(g2, x);
        if id_set(g1).contains(x) {
            let j = choose|j: int| 0 <= j < n && g1.nodes@[j].id@ == x;
            assert(g2.nodes@[sigma_inv(j)] == g1.nodes@[sigma(sigma_inv(j))]);
        }
        if id_set(g2).contains(x) {
            let i = choose|i: int| 0 <= i < n && g2.nodes@[i].id@ == x;
            assert(g2.nodes@[i] == g1.nodes@[sigma(i)]);
        }
    }
    assert(id_set(g1) =~= id_set(g2));
    assert forall|u: Seq<char>, v: Seq<char>| has_edge(g1, u, v) == has_edge(g2, u, v) by {
        if has_edge(g1, u, v) {
            let k = choose|k: int| 0 <= k < m && #[trigger] g1.edges@[k].from@ == u && g1.edges@[k].to@ == v;
            assert(g2.edges@[pi_inv(k)] == g1.edges@[pi(pi_inv(k))]);
            assert(g2.edges@[pi_inv(k)].from@ == u);
        }
        if has_edge(g2, u, v) {
            let k = choose|k: int| 0 <= k < m && #[trigger] g2.edges@[k].from@ == u && g2.edges@[k].to@ == v;
            assert(g2.edges@[k] == g1.edges@[pi(k)]);
            assert(g1.edges@[pi(k)].from@ == u);
        }
    }
    let ls1 = choose|ls: Seq<Seq<Seq<char>>>| #[trigger] layering_spec(g1, ls) && layout_fits(g1.nodes@, g1.config, ls)
        && positions_spec(r1.nodes@, g1.nodes@, g1.config, ls);
    let ls2 = choose|ls: Seq<Seq<Seq<char>>>| #[trigger] layering_spec(g2, ls) && layout_fits(g2.nodes@, g2.config, ls)
        && positions_spec(r2.nodes@, g2.nodes@, g2.config, ls);
    crate::layering::lemma_layering_deterministic(g1, g2, ls1, ls2);
    let ls = ls1;
    lemma_layers_hold_ids(g1, ls);
    assert forall|l: int, j: int| 0 <= l < ls.len() && 0 <= j < ls[l].len() implies node_for(
        g1.nodes@,
        #[trigger] ls[l][j],
    ) == node_for(g2.nodes@, ls[l][j]) by {
        let x = ls[l][j];
        lemma_in_ids(g1, x);
        lemma_in_ids(g2, x);
        let c1 = choose|c: int| 0 <= c < g1.nodes@.len() && g1.nodes@[c].id@ == x;
        let c2 = choose|c: int| 0 <= c < g2.nodes@.len() && g2.nodes@[c].id@ == x;
        assert(g2.nodes@[c2] == g1.nodes@[sigma(c2)]);
        if sigma(c2) < c1 {
            assert(g1.nodes@[sigma(c2)].id@ != g1.nodes@[c1].id@);
        } else if sigma(c2) > c1 {
            assert(g1.nodes@[c1].id@ != g1.nodes@[sigma(c2)].id@);
        }
    }
    assert(same_nodes_for(g1.nodes@, g2.nodes@, ls));
    lemma_positions_same(r1.nodes@, r2.nodes@, g1.nodes@, g2.nodes@, g1.config, ls);
    let ps1 = r1.nodes@;
    let ps2 = r2.nodes@;
    assert forall|k: int| 0 <= k < ps1.len() implies (#[trigger] ps1[k]).id@ == ps2[k].id@ && ps1[k].x
        == ps2[k].x && ps1[k].y == ps2[k].y && ps1[k].width == ps2[k].width && ps1[k].height
        == ps2[k].height by {
        assert(same_position(ps1[k], ps2[k]));
    }
    crate::bounds::lemma_bounds_same(ps1, ps2);
    assert(r1.bounds == r2.bounds);
    assert(is_layerable(g1) == is_layerable(g2)) by {
        if is_layerable(g1) {
            let r = choose|r: nat| placed(g1, r) == id_set(g1);
            crate::layering::lemma_same_graph_same_placed(g1, g2, r);
        }
        if is_layerable(g2) {
            let r = choose|r: nat| placed(g2, r) == id_set(g2);
            crate::layering::lemma_same_graph_same_placed(g1, g2, r);
        }
    }
    assert forall|i: int| 0 <= i < g2.edges@.len() implies same_path(#[trigger] r2.edges@[i], r1.edges@[pi(i)]) by {
        let k = pi(i);
        assert(g2.edges@[i] == g1.edges@[k]);
        assert(routed_as(r2.edges@[i], g2.edges@[i], ps2, g2.config.flow));
        assert(routed_as(r1.edges@[k], g1.edges@[k], ps1, g1.config.flow));
        assert(crate::layering::edge_known(g1, k));
        lemma_id_positioned(g1, ls, ps1, g1.edges@[k].from@);
        lemma_id_positioned(g1, ls, ps1, g1.edges@[k].to@);
        lemma_position_of_same(ps1, ps2, g1.edges@[k].from@);
        lemma_position_of_same(ps1, ps2, g1.edges@[k].to@);
    }
}

} // verus!
