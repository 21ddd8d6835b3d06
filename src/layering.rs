//! Layering: nodes are split into ranks so that every edge points to a later rank.
use vstd::prelude::*;
use vstd::set_lib::{lemma_int_range, lemma_len_subset, set_int_range};
use crate::model::{EdgeData, GraphData, LayoutError, NodeData};
use crate::position::node_index;
use crate::text::{lemma_sorted_unique, sort_ids, strictly_sorted};

verus! {

/// The ids of the nodes, in input order.
pub open spec fn node_ids(g: GraphData) -> Seq<Seq<char>> {
    g.nodes@.map_values(|n: NodeData| n.id@)
}

/// The set of node ids.
pub open spec fn id_set(g: GraphData) -> Set<Seq<char>> {
    node_ids(g).to_set()
}

/// No two nodes share an id.
pub open spec fn ids_unique(g: GraphData) -> bool {
    forall|i: int, j: int| 0 <= i < j < g.nodes@.len() ==> g.nodes@[i].id@ != g.nodes@[j].id@
}

/// Some edge goes from the node with id `u` to the node with id `v`.
pub open spec fn has_edge(g: GraphData, u: Seq<char>, v: Seq<char>) -> bool {
    exists|k: int| 0 <= k < g.edges@.len() && #[trigger] g.edges@[k].from@ == u && g.edges@[k].to@ == v
}

/// Both ends of edge `k` are ids of nodes.
pub open spec fn edge_known(g: GraphData, k: int) -> bool {
    id_set(g).contains(g.edges@[k].from@) && id_set(g).contains(g.edges@[k].to@)
}

/// Every edge joins two nodes of the graph.
pub open spec fn edges_known(g: GraphData) -> bool {
    forall|k: int| 0 <= k < g.edges@.len() ==> #[trigger] edge_known(g, k)
}

/// The nodes not yet placed whose predecessors have all been placed.
pub open spec fn ready(g: GraphData, done: Set<Seq<char>>) -> Set<Seq<char>> {
    id_set(g).filter(
        |v: Seq<char>| !done.contains(v) && forall|u: Seq<char>| #[trigger] has_edge(g, u, v) ==> done.contains(u),
    )
}

/// The nodes placed in the first `r` layers.
pub open spec fn placed(g: GraphData, r: nat) -> Set<Seq<char>>
    decreases r,
{
    if r == 0 {
        Set::empty()
    } else {
        placed(g, (r - 1) as nat).union(ready(g, placed(g, (r - 1) as nat)))
    }
}

/// The members of layer `r`.
pub open spec fn layer_set(g: GraphData, r: nat) -> Set<Seq<char>> {
    ready(g, placed(g, r))
}

/// Layering places every node: the graph has no cycle.
pub open spec fn is_layerable(g: GraphData) -> bool {
    exists|r: nat| placed(g, r) == id_set(g)
}

/// The first `n` layers of `ls` are the first `n` rounds of layering, each
/// non-empty and sorted.
pub open spec fn emitted_layers(g: GraphData, ls: Seq<Seq<Seq<char>>>, n: int) -> bool {
    forall|l: int|
        0 <= l < n ==> {
            &&& (#[trigger] ls[l]).len() > 0
            &&& strictly_sorted(ls[l])
            &&& ls[l].to_set() == layer_set(g, l as nat)
        }
}

/// `ls` is the layering of `g`: its layers in order, each sorted. When some nodes
/// can never be placed (the graph has a cycle), the layers emitted until no node
/// is ready come first, and one final sorted layer holds every node left over.
pub open spec fn layering_spec(g: GraphData, ls: Seq<Seq<Seq<char>>>) -> bool {
    if is_layerable(g) {
        &&& placed(g, ls.len()) == id_set(g)
        &&& emitted_layers(g, ls, ls.len() as int)
    } else {
        &&& ls.len() >= 1
        &&& emitted_layers(g, ls, ls.len() - 1)
        &&& layer_set(g, (ls.len() - 1) as nat).is_empty()
        &&& strictly_sorted(ls[ls.len() - 1])
        &&& ls[ls.len() - 1].to_set() == id_set(g).difference(placed(g, (ls.len() - 1) as nat))
    }
}

/// The ids held by a list of strings.
pub open spec fn ids_view(v: Seq<String>) -> Seq<Seq<char>> {
    v.map_values(|s: String| s@)
}

/// The ids held by each layer.
pub open spec fn layers_view(ls: Seq<Vec<String>>) -> Seq<Seq<Seq<char>>> {
    ls.map_values(|l: Vec<String>| l@.map_values(|s: String| s@))
}

/// The end of edge `k` that no node has: `from` when it is unknown, else `to`.
pub open spec fn missing_end(g: GraphData, k: int) -> Seq<char> {
    if !id_set(g).contains(g.edges@[k].from@) {
        g.edges@[k].from@
    } else {
        g.edges@[k].to@
    }
}

/// Node `j` is the first node whose id repeats that of an earlier node.
pub open spec fn first_repeat(g: GraphData, j: int) -> bool {
    &&& 0 <= j < g.nodes@.len()
    &&& exists|i: int| 0 <= i < j && g.nodes@[i].id@ == g.nodes@[j].id@
    &&& forall|a: int, b: int| 0 <= a < b < j ==> g.nodes@[a].id@ != g.nodes@[b].id@
}

/// What validation of `g` reports, if anything: the first repeated id, then the
/// first edge with an unknown end.
pub open spec fn validation_error(g: GraphData, e: LayoutError) -> bool {
    match e {
        LayoutError::DuplicateNodeId { id } => {
            &&& !ids_unique(g)
            &&& exists|j: int| first_repeat(g, j) && id@ == g.nodes@[j].id@
        },
        LayoutError::UnknownNodeReference { edge_id, node_id } => {
            &&& ids_unique(g)
            &&& exists|k: int|
                0 <= k < g.edges@.len() && !edge_known(g, k) && (forall|q: int|
                    0 <= q < k ==> edge_known(g, q)) && edge_id@ == g.edges@[k].id@ && node_id@
                    == missing_end(g, k)
        },
        LayoutError::TooLarge => false,
    }
}

proof fn lemma_placed_in_ids(g: GraphData, r: nat)
    ensures
        placed(g, r).subset_of(id_set(g)),
    decreases r,
{
    if r > 0 {
        lemma_placed_in_ids(g, (r - 1) as nat);
    }
}

proof fn lemma_placed_grows(g: GraphData, a: nat, b: nat)
    requires
        a <= b,
    ensures
        placed(g, a).subset_of(placed(g, b)),
    decreases b - a,
{
    if a < b {
        lemma_placed_grows(g, a, (b - 1) as nat);
    }
}

/// Once a layer is empty, no later round places anything more.
proof fn lemma_stuck(g: GraphData, r: nat, s: nat)
    requires
        layer_set(g, r).is_empty(),
    ensures
        placed(g, s).subset_of(placed(g, r)),
    decreases s,
{
    if s <= r {
        lemma_placed_grows(g, s, r);
    } else {
        assert(placed(g, (s - 1) as nat) == placed(g, r)) by {
            lemma_stuck_eq(g, r, (s - 1) as nat);
        }
        assert(placed(g, s) =~= placed(g, r));
    }
}

proof fn lemma_stuck_eq(g: GraphData, r: nat, s: nat)
    requires
        layer_set(g, r).is_empty(),
        r <= s,
    ensures
        placed(g, s) == placed(g, r),
    decreases s - r,
{
    if s > r {
        lemma_stuck_eq(g, r, (s - 1) as nat);
        assert(placed(g, s) =~= placed(g, r));
    }
}

pub proof fn lemma_in_ids(g: GraphData, x: Seq<char>)
    ensures
        id_set(g).contains(x) <==> exists|i: int| 0 <= i < g.nodes@.len() && g.nodes@[i].id@ == x,
{
    if id_set(g).contains(x) {
        let i = choose|i: int| 0 <= i < node_ids(g).len() && node_ids(g)[i] == x;
        assert(g.nodes@[i].id@ == x);
    }
    if exists|i: int| 0 <= i < g.nodes@.len() && g.nodes@[i].id@ == x {
        let i = choose|i: int| 0 <= i < g.nodes@.len() && g.nodes@[i].id@ == x;
        assert(node_ids(g)[i] == x);
    }
}

/// Finds a repeated id: `Some(j)` when node `j` repeats the id of an earlier node.
fn find_repeated_id(nodes: &Vec<NodeData>) -> (r: Option<usize>)
    ensures
        match r {
            Some(j) => j < nodes@.len() && (exists|i: int|
                0 <= i < j && nodes@[i].id@ == nodes@[j as int].id@) && forall|a: int, b: int|
                0 <= a < b < j ==> nodes@[a].id@ != nodes@[b].id@,
            None => forall|i: int, j: int|
                0 <= i < j < nodes@.len() ==> nodes@[i].id@ != nodes@[j].id@,
        },
{
    let mut j: usize = 0;
    while j < nodes.len()
        invariant
            j <= nodes@.len(),
            forall|a: int, b: int| 0 <= a < b < j ==> nodes@[a].id@ != nodes@[b].id@,
        decreases nodes@.len() - j,
    {
        let mut i: usize = 0;
        while i < j
            invariant
                i <= j < nodes@.len(),
                forall|a: int| 0 <= a < i ==> nodes@[a].id@ != nodes@[j as int].id@,
                forall|a: int, b: int| 0 <= a < b < j ==> nodes@[a].id@ != nodes@[b].id@,
            decreases j - i,
        {
            if nodes[i].id == nodes[j].id {
                return Some(j);
            }
            i = i + 1;
        }
        j = j + 1;
    }
    None
}


/// Edge `k` runs from node `from[k]` to node `to[k]`.
pub open spec fn edges_resolved(g: GraphData, from: Seq<usize>, to: Seq<usize>) -> bool {
    &&& from.len() == g.edges@.len()
    &&& to.len() == g.edges@.len()
    &&& forall|k: int|
        0 <= k < g.edges@.len() ==> {
            &&& (#[trigger] from[k]) < g.nodes@.len()
            &&& to[k] < g.nodes@.len()
            &&& g.nodes@[from[k] as int].id@ == g.edges@[k].from@
            &&& g.nodes@[to[k] as int].id@ == g.edges@[k].to@
        }
}

/// The node indices of each edge's ends, or the first edge with an unknown end.
fn resolve_edges(g: &GraphData) -> (r: Result<(Vec<usize>, Vec<usize>), LayoutError>)
    requires
        ids_unique(*g),
    ensures
        match r {
            Ok((from, to)) => edges_known(*g) && edges_resolved(*g, from@, to@),
            Err(e) => validation_error(*g, e),
        },
{
    let mut from: Vec<usize> = Vec::new();
    let mut to: Vec<usize> = Vec::new();
    let mut k: usize = 0;
    while k < g.edges.len()
        invariant
            ids_unique(*g),
            k <= g.edges@.len(),
            from@.len() == k,
            to@.len() == k,
            forall|q: int| 0 <= q < k ==> #[trigger] edge_known(*g, q),
            forall|q: int|
                0 <= q < k ==> {
                    &&& (#[trigger] from@[q]) < g.nodes@.len()
                    &&& to@[q] < g.nodes@.len()
                    &&& g.nodes@[from@[q] as int].id@ == g.edges@[q].from@
                    &&& g.nodes@[to@[q] as int].id@ == g.edges@[q].to@
                },
        decreases g.edges@.len() - k,
    {
        let e: &EdgeData = &g.edges[k];
        let f = node_index(&g.nodes, &e.from);
        let t = node_index(&g.nodes, &e.to);
        proof {
            lemma_in_ids(*g, e.from@);
            lemma_in_ids(*g, e.to@);
        }
        match f {
            None => {
                proof {
                    assert(!edge_known(*g, k as int));
                    assert(missing_end(*g, k as int) == e.from@);
                }
                let r = Err(LayoutError::UnknownNodeReference { edge_id: e.id.clone(), node_id: e.from.clone() });
                assert(validation_error(*g, r->Err_0));
                return r;
            },
            Some(fi) => {
                match t {
                    None => {
                        proof {
                            assert(!edge_known(*g, k as int));
                            assert(missing_end(*g, k as int) == e.to@);
                        }
                        let r = Err(LayoutError::UnknownNodeReference { edge_id: e.id.clone(), node_id: e.to.clone() });
                        assert(validation_error(*g, r->Err_0));
                        return r;
                    },
                    Some(ti) => {
                        from.push(fi);
                        to.push(ti);
                    },
                }
            },
        }
        k = k + 1;
    }
    Ok((from, to))
}

/// `blocked[v]` holds when some edge into `v` comes from a node not yet placed.
fn blocked_nodes(emitted: &Vec<bool>, from: &Vec<usize>, to: &Vec<usize>) -> (r: Vec<bool>)
    requires
        from@.len() == to@.len(),
        forall|k: int| 0 <= k < from@.len() ==> (#[trigger] from@[k]) < emitted@.len() && to@[k] < emitted@.len(),
    ensures
        r@.len() == emitted@.len(),
        forall|v: int|
            0 <= v < emitted@.len() ==> (#[trigger] r@[v] <==> exists|k: int|
                0 <= k < from@.len() && to@[k] == v && !emitted@[from@[k] as int]),
{
    let n = emitted.len();
    let mut blocked: Vec<bool> = Vec::new();
    while blocked.len() < n
        invariant
            blocked@.len() <= n,
            forall|v: int| 0 <= v < blocked@.len() ==> !blocked@[v],
        decreases n - blocked@.len(),
    {
        blocked.push(false);
    }
    let mut k: usize = 0;
    while k < from.len()
        invariant
            n == emitted@.len(),
            blocked@.len() == n,
            k <= from@.len(),
            from@.len() == to@.len(),
            forall|q: int| 0 <= q < from@.len() ==> (#[trigger] from@[q]) < n && to@[q] < n,
            forall|v: int|
                0 <= v < n ==> (#[trigger] blocked@[v] <==> exists|q: int|
                    0 <= q < k && to@[q] == v && !emitted@[from@[q] as int]),
        decreases from@.len() - k,
    {
        if !emitted[from[k]] {
            blocked.set(to[k], true);
        }
        proof {
            assert forall|v: int| 0 <= v < n implies (#[trigger] blocked@[v] <==> exists|q: int|
                0 <= q < k + 1 && to@[q] == v && !emitted@[from@[q] as int]) by {
                if exists|q: int| 0 <= q < k + 1 && to@[q] == v && !emitted@[from@[q] as int] {
                    let q = choose|q: int| 0 <= q < k + 1 && to@[q] == v && !emitted@[from@[q] as int];
                    if q < k {
                        assert(exists|q: int| 0 <= q < k && to@[q] == v && !emitted@[from@[q] as int]);
                    }
                }
            }
        }
        k = k + 1;
    }
    blocked
}

/// The indices, in increasing order, of nodes neither placed nor blocked.
fn free_nodes(emitted: &Vec<bool>, blocked: &Vec<bool>) -> (r: Vec<usize>)
    requires
        emitted@.len() == blocked@.len(),
    ensures
        forall|a: int, b: int| 0 <= a < b < r@.len() ==> r@[a] < r@[b],
        forall|j: int|
            0 <= j < r@.len() ==> (#[trigger] r@[j]) < emitted@.len() && !emitted@[r@[j] as int]
                && !blocked@[r@[j] as int],
        forall|v: int|
            0 <= v < emitted@.len() && !emitted@[v] && !blocked@[v] ==> exists|j: int|
                0 <= j < r@.len() && r@[j] == v,
{
    let mut r: Vec<usize> = Vec::new();
    let mut v: usize = 0;
    while v < emitted.len()
        invariant
            emitted@.len() == blocked@.len(),
            v <= emitted@.len(),
            forall|a: int, b: int| 0 <= a < b < r@.len() ==> r@[a] < r@[b],
            forall|j: int|
                0 <= j < r@.len() ==> (#[trigger] r@[j]) < v && !emitted@[r@[j] as int]
                    && !blocked@[r@[j] as int],
            forall|w: int|
                0 <= w < v && !emitted@[w] && !blocked@[w] ==> exists|j: int|
                    0 <= j < r@.len() && r@[j] == w,
        decreases emitted@.len() - v,
    {
        let ghost r0 = r@;
        if !emitted[v] && !blocked[v] {
            r.push(v);
            assert(r@[r@.len() - 1] == v);
        }
        assert forall|w: int| 0 <= w < v + 1 && !emitted@[w] && !blocked@[w] implies exists|j: int|
            0 <= j < r@.len() && r@[j] == w by {
            if w < v {
                let j = choose|j: int| 0 <= j < r0.len() && r0[j] == w;
                assert(r@[j] == w);
            } else {
                assert(r@[r@.len() - 1] == w);
            }
        }
        v = v + 1;
    }
    r
}


/// One round of layering: a node joins layer `r` exactly when it is neither
/// placed nor blocked.
proof fn lemma_round(
    g: GraphData,
    r: nat,
    emitted: Seq<bool>,
    blocked: Seq<bool>,
    from: Seq<usize>,
    to: Seq<usize>,
)
    requires
        ids_unique(g),
        edges_resolved(g, from, to),
        emitted.len() == g.nodes@.len(),
        blocked.len() == g.nodes@.len(),
        forall|i: int|
            0 <= i < g.nodes@.len() ==> (#[trigger] emitted[i] <==> placed(g, r).contains(
                g.nodes@[i].id@,
            )),
        forall|v: int|
            0 <= v < g.nodes@.len() ==> (#[trigger] blocked[v] <==> exists|k: int|
                0 <= k < from.len() && to[k] == v && !emitted[from[k] as int]),
    ensures
        forall|v: int|
            0 <= v < g.nodes@.len() ==> (layer_set(g, r).contains(#[trigger] g.nodes@[v].id@) <==> (
            !emitted[v] && !blocked[v])),
{
    let done = placed(g, r);
    assert forall|v: int| 0 <= v < g.nodes@.len() implies (layer_set(g, r).contains(
        #[trigger] g.nodes@[v].id@,
    ) <==> (!emitted[v] && !blocked[v])) by {
        let x = g.nodes@[v].id@;
        lemma_in_ids(g, x);
        if !emitted[v] && !blocked[v] {
            assert forall|u: Seq<char>| #[trigger] has_edge(g, u, x) implies done.contains(u) by {
                let k = choose|k: int|
                    0 <= k < g.edges@.len() && #[trigger] g.edges@[k].from@ == u && g.edges@[k].to@ == x;
                assert(from[k] < g.nodes@.len());
                if to[k] != v {
                    if (to[k] as int) < v {
                        assert(g.nodes@[to[k] as int].id@ != g.nodes@[v].id@);
                    } else {
                        assert(g.nodes@[v].id@ != g.nodes@[to[k] as int].id@);
                    }
                }
                assert(emitted[from[k] as int]);
            }
        }
        if layer_set(g, r).contains(x) {
            if blocked[v] {
                let k = choose|k: int| 0 <= k < from.len() && to[k] == v && !emitted[from[k] as int];
                assert(from[k] < g.nodes@.len());
                assert(has_edge(g, g.edges@[k].from@, x));
            }
        }
    }
}

/// The index of a node that `emitted` does not mark, if any.
fn first_unplaced(emitted: &Vec<bool>) -> (r: Option<usize>)
    ensures
        match r {
            Some(i) => i < emitted@.len() && !emitted@[i as int],
            None => forall|i: int| 0 <= i < emitted@.len() ==> emitted@[i],
        },
{
    let mut i: usize = 0;
    while i < emitted.len()
        invariant
            i <= emitted@.len(),
            forall|q: int| 0 <= q < i ==> emitted@[q],
        decreases emitted@.len() - i,
    {
        if !emitted[i] {
            return Some(i);
        }
        i = i + 1;
    }
    None
}

/// The ids of the nodes that `emitted` does not mark, sorted: the final layer
/// when the graph has a cycle.
fn unplaced_ids_sorted(g: &GraphData, emitted: &Vec<bool>) -> (r: Vec<String>)
    requires
        ids_unique(*g),
        emitted@.len() == g.nodes@.len(),
    ensures
        strictly_sorted(ids_view(r@)),
        forall|x: Seq<char>|
            #[trigger] ids_view(r@).to_set().contains(x) <==> exists|i: int|
                0 <= i < g.nodes@.len() && !emitted@[i] && g.nodes@[i].id@ == x,
{
    let mut names: Vec<String> = Vec::new();
    let ghost mut at: Seq<int> = Seq::empty();
    let mut i: usize = 0;
    while i < g.nodes.len()
        invariant
            ids_unique(*g),
            emitted@.len() == g.nodes@.len(),
            i <= g.nodes@.len(),
            names@.len() == at.len(),
            forall|a: int, b: int| 0 <= a < b < at.len() ==> at[a] < at[b],
            forall|q: int|
                0 <= q < at.len() ==> 0 <= #[trigger] at[q] < i && !emitted@[at[q]] && names@[q]@
                    == g.nodes@[at[q]].id@,
            forall|v: int| 0 <= v < i && !emitted@[v] ==> exists|q: int| 0 <= q < at.len() && at[q] == v,
        decreases g.nodes@.len() - i,
    {
        let ghost at0 = at;
        if !emitted[i] {
            names.push(g.nodes[i].id.clone());
            proof {
                at = at.push(i as int);
            }
        }
        proof {
            assert forall|v: int| 0 <= v < i + 1 && !emitted@[v] implies exists|q: int|
                0 <= q < at.len() && at[q] == v by {
                if v < i {
                    let q = choose|q: int| 0 <= q < at0.len() && at0[q] == v;
                    assert(at[q] == v);
                } else {
                    assert(at[at.len() - 1] == v);
                }
            }
        }
        i = i + 1;
    }
    let ghost nv = names@.map_values(|s: String| s@);
    proof {
        assert forall|a: int, b: int| 0 <= a < b < names@.len() implies names@[a]@ != names@[b]@ by {
            assert(at[a] < at[b]);
        }
        assert forall|x: Seq<char>| #[trigger] nv.to_set().contains(x) <==> exists|i: int|
            0 <= i < g.nodes@.len() && !emitted@[i] && g.nodes@[i].id@ == x by {
            if nv.to_set().contains(x) {
                let q = choose|q: int| 0 <= q < nv.len() && nv[q] == x;
                assert(0 <= at[q] < g.nodes@.len() && !emitted@[at[q]] && g.nodes@[at[q]].id@ == x);
            }
            if exists|i: int| 0 <= i < g.nodes@.len() && !emitted@[i] && g.nodes@[i].id@ == x {
                let i = choose|i: int| 0 <= i < g.nodes@.len() && !emitted@[i] && g.nodes@[i].id@ == x;
                let q = choose|q: int| 0 <= q < at.len() && at[q] == i;
                assert(nv[q] == x);
            }
        }
    }
    sort_ids(&mut names);
    names
}

/// Splits the nodes into layers so that every edge points from an earlier layer
/// to a later one. Layer 0 holds the nodes without predecessors; each later layer
/// holds the nodes whose predecessors all lie in earlier layers. Each layer is
/// sorted by id. When no node is ready but some are left, the graph has a cycle:
/// the nodes left over form one final layer, sorted.
pub fn topological_sort(graph: &GraphData) -> (r: Result<Vec<Vec<String>>, LayoutError>)
    ensures
        match r {
            Ok(ls) => ids_unique(*graph) && edges_known(*graph) && layering_spec(
                *graph,
                layers_view(ls@),
            ),
            Err(e) => validation_error(*graph, e),
        },
{
    match layer_nodes(graph) {
        Ok((ls, _)) => Ok(ls),
        Err(e) => Err(e),
    }
}

/// The layers of `graph`, and whether it had a cycle and fell back to a single
/// layer.
pub fn layer_nodes(graph: &GraphData) -> (r: Result<(Vec<Vec<String>>, bool), LayoutError>)
    ensures
        match r {
            Ok((ls, cyclic)) => ids_unique(*graph) && edges_known(*graph) && layering_spec(
                *graph,
                layers_view(ls@),
            ) && cyclic == !is_layerable(*graph),
            Err(e) => validation_error(*graph, e),
        },
{
    let g = graph;
    match find_repeated_id(&g.nodes) {
        Some(j) => {
            let r = Err(LayoutError::DuplicateNodeId { id: g.nodes[j].id.clone() });
            assert(first_repeat(*g, j as int));
            assert(validation_error(*g, r->Err_0));
            return r;
        },
        None => {},
    }
    let (from, to) = match resolve_edges(g) {
        Ok(p) => p,
        Err(e) => {
            return Err(e);
        },
    };
    let n = g.nodes.len();
    let mut emitted: Vec<bool> = Vec::new();
    while emitted.len() < n
        invariant
            emitted@.len() <= n,
            forall|i: int| 0 <= i < emitted@.len() ==> !emitted@[i],
        decreases n - emitted@.len(),
    {
        emitted.push(false);
    }
    let ghost mut remaining: Set<int> = set_int_range(0, n as int);
    proof {
        lemma_int_range(0, n as int);
    }
    let mut layers: Vec<Vec<String>> = Vec::new();
    loop
        invariant
            n == g.nodes@.len(),
            ids_unique(*g),
            edges_known(*g),
            edges_resolved(*g, from@, to@),
            emitted@.len() == n,
            forall|i: int|
                0 <= i < n ==> (#[trigger] emitted@[i] <==> placed(*g, layers@.len() as nat).contains(
                    g.nodes@[i].id@,
                )),
            remaining.finite(),
            forall|i: int| #[trigger] remaining.contains(i) <==> (0 <= i < n && !emitted@[i]),
            forall|l: int|
                0 <= l < layers@.len() ==> {
                    &&& (#[trigger] layers_view(layers@)[l]).len() > 0
                    &&& strictly_sorted(layers_view(layers@)[l])
                    &&& layers_view(layers@)[l].to_set() == layer_set(*g, l as nat)
                },
        ensures
            emitted@.len() == n,
            forall|i: int|
                0 <= i < n ==> (#[trigger] emitted@[i] <==> placed(*g, layers@.len() as nat).contains(
                    g.nodes@[i].id@,
                )),
            layer_set(*g, layers@.len() as nat).is_empty(),
            forall|l: int|
                0 <= l < layers@.len() ==> {
                    &&& (#[trigger] layers_view(layers@)[l]).len() > 0
                    &&& strictly_sorted(layers_view(layers@)[l])
                    &&& layers_view(layers@)[l].to_set() == layer_set(*g, l as nat)
                },
        decreases remaining.len(),
    {
        let ghost r = layers@.len() as nat;
        let blocked = blocked_nodes(&emitted, &from, &to);
        let free = free_nodes(&emitted, &blocked);
        proof {
            lemma_round(*g, r, emitted@, blocked@, from@, to@);
        }
        if free.len() == 0 {
            proof {
                assert forall|x: Seq<char>| !layer_set(*g, r).contains(x) by {
                    lemma_in_ids(*g, x);
                    if layer_set(*g, r).contains(x) {
                        let v = choose|v: int| 0 <= v < g.nodes@.len() && g.nodes@[v].id@ == x;
                        assert(layer_set(*g, r).contains(g.nodes@[v].id@));
                    }
                }
                assert(layer_set(*g, r) =~= Set::empty());
            }
            break;
        }
        let mut names: Vec<String> = Vec::new();
        let mut j: usize = 0;
        while j < free.len()
            invariant
                j <= free@.len(),
                names@.len() == j,
                forall|q: int| 0 <= q < free@.len() ==> (#[trigger] free@[q]) < n,
                n == g.nodes@.len(),
                forall|q: int| 0 <= q < j ==> #[trigger] names@[q]@ == g.nodes@[free@[q] as int].id@,
            decreases free@.len() - j,
        {
            names.push(g.nodes[free[j]].id.clone());
            j = j + 1;
        }
        let ghost nv = names@.map_values(|s: String| s@);
        proof {
            assert forall|a: int, b: int| 0 <= a < b < names@.len() implies names@[a]@ != names@[b]@ by {
                assert(free@[a] < free@[b]);
            }
            assert forall|x: Seq<char>| #[trigger] nv.to_set().contains(x) <==> layer_set(*g, r).contains(x) by {
                if nv.to_set().contains(x) {
                    let q = choose|q: int| 0 <= q < nv.len() && nv[q] == x;
                    assert(layer_set(*g, r).contains(g.nodes@[free@[q] as int].id@));
                }
                if layer_set(*g, r).contains(x) {
                    lemma_in_ids(*g, x);
                    let v = choose|v: int| 0 <= v < g.nodes@.len() && g.nodes@[v].id@ == x;
                    assert(layer_set(*g, r).contains(g.nodes@[v].id@));
                    let q = choose|q: int| 0 <= q < free@.len() && free@[q] == v;
                    assert(nv[q] == x);
                }
            }
            assert(nv.to_set() =~= layer_set(*g, r));
        }
        sort_ids(&mut names);
        let ghost emitted0 = emitted@;
        let ghost rem0 = remaining;
        let mut j: usize = 0;
        while j < free.len()
            invariant
                j <= free@.len(),
                n == g.nodes@.len(),
                emitted0.len() == n,
                emitted@.len() == n,
                forall|a: int, b: int| 0 <= a < b < free@.len() ==> free@[a] < free@[b],
                forall|q: int|
                    0 <= q < free@.len() ==> (#[trigger] free@[q]) < n && !emitted0[free@[q] as int],
                forall|i: int|
                    0 <= i < n ==> (#[trigger] emitted@[i] <==> (emitted0[i] || exists|q: int|
                        0 <= q < j && free@[q] == i)),
                remaining.finite(),
                forall|i: int| #[trigger] remaining.contains(i) <==> (0 <= i < n && !emitted@[i]),
                remaining.len() + j == rem0.len(),
            decreases free@.len() - j,
        {
            let v = free[j];
            proof {
                assert(!emitted@[v as int]) by {
                    if emitted@[v as int] {
                        let q = choose|q: int| 0 <= q < j && free@[q] == v;
                    }
                }
                assert(remaining.contains(v as int));
                remaining = remaining.remove(v as int);
            }
            emitted.set(v, true);
            proof {
                assert forall|i: int| 0 <= i < n implies (#[trigger] emitted@[i] <==> (emitted0[i]
                    || exists|q: int| 0 <= q < j + 1 && free@[q] == i)) by {
                    if i == v {
                        assert(free@[j as int] == i);
                    } else if exists|q: int| 0 <= q < j + 1 && free@[q] == i {
                        let q = choose|q: int| 0 <= q < j + 1 && free@[q] == i;
                        assert(q < j);
                    }
                }
            }
            j = j + 1;
        }
        proof {
            assert forall|i: int| 0 <= i < n implies (#[trigger] emitted@[i] <==> placed(*g, r + 1).contains(
                g.nodes@[i].id@,
            )) by {
                if exists|q: int| 0 <= q < free@.len() && free@[q] == i {
                    let q = choose|q: int| 0 <= q < free@.len() && free@[q] == i;
                    assert(layer_set(*g, r).contains(g.nodes@[free@[q] as int].id@));
                }
                if !emitted0[i] && !blocked@[i] {
                    assert(exists|q: int| 0 <= q < free@.len() && free@[q] == i);
                }
            }
        }
        let ghost old_layers = layers@;
        layers.push(names);
        proof {
            assert forall|l: int| 0 <= l < layers@.len() implies {
                &&& (#[trigger] layers_view(layers@)[l]).len() > 0
                &&& strictly_sorted(layers_view(layers@)[l])
                &&& layers_view(layers@)[l].to_set() == layer_set(*g, l as nat)
            } by {
                if l < old_layers.len() {
                    assert(layers_view(layers@)[l] == layers_view(old_layers)[l]);
                } else {
                    assert(layers_view(layers@)[l] == layers@[l]@.map_values(|s: String| s@));
                }
            }
        }
    }
    let ghost r = layers@.len() as nat;
    proof {
        lemma_placed_in_ids(*g, r);
    }
    match first_unplaced(&emitted) {
        None => {
            proof {
                assert forall|x: Seq<char>| #[trigger] id_set(*g).contains(x) implies placed(*g, r).contains(x) by {
                    lemma_in_ids(*g, x);
                    let i = choose|i: int| 0 <= i < g.nodes@.len() && g.nodes@[i].id@ == x;
                    assert(emitted@[i]);
                }
                assert(placed(*g, r) =~= id_set(*g));
                assert(is_layerable(*g));
            }
            Ok((layers, false))
        },
        Some(i) => {
            proof {
                let x = g.nodes@[i as int].id@;
                assert(!placed(*g, r).contains(x));
                assert forall|s: nat| placed(*g, s) != id_set(*g) by {
                    lemma_stuck(*g, r, s);
                    lemma_in_ids(*g, x);
                }
            }
            let rest = unplaced_ids_sorted(g, &emitted);
            proof {
                let rv = ids_view(rest@);
                assert forall|x: Seq<char>| rv.to_set().contains(x) <==> id_set(*g).difference(
                    placed(*g, r),
                ).contains(x) by {
                    lemma_in_ids(*g, x);
                    if id_set(*g).contains(x) && !placed(*g, r).contains(x) {
                        let v = choose|v: int| 0 <= v < g.nodes@.len() && g.nodes@[v].id@ == x;
                        assert(!emitted@[v]);
                    }
                }
                assert(rv.to_set() =~= id_set(*g).difference(placed(*g, r)));
            }
            let ghost old_layers = layers@;
            layers.push(rest);
            proof {
                let lv = layers_view(layers@);
                assert(lv[r as int] == rest@.map_values(|s: String| s@));
                assert forall|l: int| 0 <= l < r implies lv[l] == layers_view(old_layers)[l] by {}
                assert(emitted_layers(*g, lv, lv.len() - 1));
            }
            Ok((layers, true))
        },
    }
}


/// `rank` strictly increases along every edge: the graph has no cycle.
pub open spec fn ranked_by(g: GraphData, rank: spec_fn(Seq<char>) -> nat) -> bool {
    forall|u: Seq<char>, v: Seq<char>| #[trigger] has_edge(g, u, v) ==> rank(u) < rank(v)
}

/// The largest rank in `s`.
pub open spec fn max_rank(s: Seq<Seq<char>>, rank: spec_fn(Seq<char>) -> nat) -> nat
    decreases s.len(),
{
    if s.len() == 0 {
        0
    } else {
        let m = max_rank(s.drop_last(), rank);
        if rank(s.last()) > m {
            rank(s.last())
        } else {
            m
        }
    }
}

proof fn lemma_max_rank(s: Seq<Seq<char>>, rank: spec_fn(Seq<char>) -> nat)
    ensures
        forall|i: int| 0 <= i < s.len() ==> rank(#[trigger] s[i]) <= max_rank(s, rank),
    decreases s.len(),
{
    if s.len() > 0 {
        lemma_max_rank(s.drop_last(), rank);
        assert forall|i: int| 0 <= i < s.len() implies rank(#[trigger] s[i]) <= max_rank(s, rank) by {
            if i < s.len() - 1 {
                assert(s[i] == s.drop_last()[i]);
            }
        }
    }
}

/// A node of rank at most `m` is placed within the first `m + 1` layers.
proof fn lemma_placed_by_rank(g: GraphData, rank: spec_fn(Seq<char>) -> nat, m: nat)
    requires
        edges_known(g),
        ranked_by(g, rank),
    ensures
        forall|v: Seq<char>| id_set(g).contains(v) && rank(v) <= m ==> #[trigger] placed(g, m + 1).contains(v),
    decreases m,
{
    if m > 0 {
        lemma_placed_by_rank(g, rank, (m - 1) as nat);
    }
    assert forall|v: Seq<char>| id_set(g).contains(v) && rank(v) <= m implies #[trigger] placed(g, m + 1).contains(v) by {
        assert forall|u: Seq<char>| #[trigger] has_edge(g, u, v) implies placed(g, m).contains(u) by {
            let k = choose|k: int| 0 <= k < g.edges@.len() && #[trigger] g.edges@[k].from@ == u && g.edges@[k].to@ == v;
            assert(edge_known(g, k));
            assert(rank(u) < rank(v));
            if m > 0 {
                assert(placed(g, ((m - 1) as nat) + 1).contains(u));
                assert(((m - 1) as nat) + 1 == m);
            }
        }
    }
}

/// Membership in the first `s` layers means membership in one of them.
pub proof fn lemma_placed_in_layer(g: GraphData, s: nat, x: Seq<char>)
    requires
        placed(g, s).contains(x),
    ensures
        exists|a: nat| a < s && #[trigger] layer_set(g, a).contains(x),
    decreases s,
{
    if s > 0 && placed(g, (s - 1) as nat).contains(x) {
        lemma_placed_in_layer(g, (s - 1) as nat, x);
    } else {
        assert(layer_set(g, (s - 1) as nat).contains(x));
    }
}

/// `u` lies in an earlier layer of `ls` than `v`.
pub open spec fn points_forward(ls: Seq<Seq<Seq<char>>>, u: Seq<char>, v: Seq<char>) -> bool {
    exists|a: int, b: int| 0 <= a < b < ls.len() && ls[a].contains(u) && ls[b].contains(v)
}

/// On a graph without cycles every node is layered, and every edge goes from a
/// node of an earlier layer to a node of a later one.
pub proof fn lemma_edges_point_forward(
    g: GraphData,
    rank: spec_fn(Seq<char>) -> nat,
    ls: Seq<Seq<Seq<char>>>,
)
    requires
        edges_known(g),
        ranked_by(g, rank),
        layering_spec(g, ls),
    ensures
        is_layerable(g),
        forall|k: int|
            0 <= k < g.edges@.len() ==> #[trigger] points_forward(ls, g.edges@[k].from@, g.edges@[k].to@),
{
    let m = max_rank(node_ids(g), rank);
    lemma_max_rank(node_ids(g), rank);
    lemma_placed_by_rank(g, rank, m);
    lemma_placed_in_ids(g, m + 1);
    assert forall|v: Seq<char>| #[trigger] id_set(g).contains(v) implies placed(g, m + 1).contains(v) by {
        let i = choose|i: int| 0 <= i < node_ids(g).len() && node_ids(g)[i] == v;
        assert(rank(node_ids(g)[i]) <= m);
    }
    assert(placed(g, m + 1) =~= id_set(g));
    assert(is_layerable(g));
    assert forall|k: int| 0 <= k < g.edges@.len() implies #[trigger] points_forward(
        ls,
        g.edges@[k].from@,
        g.edges@[k].to@,
    ) by {
        let u = g.edges@[k].from@;
        let v = g.edges@[k].to@;
        assert(edge_known(g, k));
        lemma_placed_in_layer(g, ls.len() as nat, v);
        let b = choose|b: nat| b < ls.len() && #[trigger] layer_set(g, b).contains(v);
        assert(has_edge(g, u, v));
        assert(placed(g, b).contains(u));
        lemma_placed_in_layer(g, b, u);
        let a = choose|a: nat| a < b && #[trigger] layer_set(g, a).contains(u);
        assert(ls[a as int].to_set().contains(u));
        assert(ls[b as int].to_set().contains(v));
        assert(ls[a as int].contains(u) && ls[b as int].contains(v));
        assert(0 <= a < b < ls.len() && ls[a as int].contains(g.edges@[k].from@) && ls[b as int].contains(
            g.edges@[k].to@));
    }
}

pub proof fn lemma_same_graph_same_placed(g1: GraphData, g2: GraphData, r: nat)
    requires
        id_set(g1) == id_set(g2),
        forall|u: Seq<char>, v: Seq<char>| has_edge(g1, u, v) == has_edge(g2, u, v),
    ensures
        placed(g1, r) == placed(g2, r),
        layer_set(g1, r) == layer_set(g2, r),
    decreases r,
{
    if r > 0 {
        lemma_same_graph_same_placed(g1, g2, (r - 1) as nat);
        let d = placed(g1, (r - 1) as nat);
        assert(ready(g1, d) =~= ready(g2, d));
        assert(placed(g1, r) =~= placed(g2, r));
    }
    assert(ready(g1, placed(g1, r)) =~= ready(g2, placed(g1, r)));
}

/// The layering depends only on the set of ids and the set of edges: listing the
/// nodes or the edges in another order gives the same layers, in the same order.
pub proof fn lemma_layering_deterministic(
    g1: GraphData,
    g2: GraphData,
    ls1: Seq<Seq<Seq<char>>>,
    ls2: Seq<Seq<Seq<char>>>,
)
    requires
        id_set(g1) == id_set(g2),
        forall|u: Seq<char>, v: Seq<char>| has_edge(g1, u, v) == has_edge(g2, u, v),
        layering_spec(g1, ls1),
        layering_spec(g2, ls2),
    ensures
        ls1 == ls2,
{
    assert forall|r: nat| #[trigger] placed(g1, r) == placed(g2, r) && layer_set(g1, r) == layer_set(g2, r) by {
        lemma_same_graph_same_placed(g1, g2, r);
    }
    if is_layerable(g1) {
        let r = choose|r: nat| placed(g1, r) == id_set(g1);
        assert(placed(g2, r) == id_set(g2));
        assert(is_layerable(g2));
        if ls1.len() < ls2.len() {
            let l = ls1.len();
            assert(layer_set(g1, l as nat) =~= Set::empty());
            assert(ls2[l as int].to_set().contains(ls2[l as int][0]));
        }
        if ls2.len() < ls1.len() {
            let l = ls2.len();
            assert(layer_set(g2, l as nat) =~= Set::empty());
            assert(ls1[l as int].to_set().contains(ls1[l as int][0]));
        }
        assert forall|l: int| 0 <= l < ls1.len() implies ls1[l] == ls2[l] by {
            lemma_sorted_unique(ls1[l], ls2[l]);
        }
        assert(ls1 =~= ls2);
    } else {
        assert(!is_layerable(g2)) by {
            if is_layerable(g2) {
                let r = choose|r: nat| placed(g2, r) == id_set(g2);
                assert(placed(g1, r) == id_set(g1));
            }
        }
        let n1 = ls1.len() - 1;
        let n2 = ls2.len() - 1;
        if n1 < n2 {
            assert(layer_set(g1, n1 as nat) =~= Set::empty());
            assert(ls2[n1].to_set().contains(ls2[n1][0]));
        }
        if n2 < n1 {
            assert(layer_set(g2, n2 as nat) =~= Set::empty());
            assert(ls1[n2].to_set().contains(ls1[n2][0]));
        }
        assert forall|l: int| 0 <= l < ls1.len() implies ls1[l] == ls2[l] by {
            if l < n1 {
                assert(ls1[l].len() > 0 && ls2[l].len() > 0);
            }
            lemma_sorted_unique(ls1[l], ls2[l]);
        }
        assert(ls1 =~= ls2);
    }
}

} // verus!
