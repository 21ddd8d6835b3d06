//! Position assignment: each node's size, label and top-left corner.
use vstd::prelude::*;
use crate::layering::layers_view;
use crate::model::{Flow, LayoutConfig, LayoutError, NodeData, NodePosition};

verus! {

/// Height of a node that gives none.
pub const DEFAULT_HEIGHT: u32 = 3;

/// Fewest characters a derived width accounts for.
pub const MIN_TEXT_WIDTH: u64 = 3;

/// Room added around the text of a derived width.
pub const TEXT_PADDING: u64 = 4;

/// Width derived from the text: the longer of label and name, at least three
/// characters, plus padding.
pub open spec fn auto_width(n: NodeData) -> int {
    let t = if n.label@.len() > n.name@.len() { n.label@.len() } else { n.name@.len() };
    (if t > 3 { t as int } else { 3 }) + 4
}

/// The width used for `n`: its own when non-zero, else the derived one.
pub open spec fn resolved_width(n: NodeData) -> int {
    if n.width > 0 { n.width as int } else { auto_width(n) }
}

/// The height used for `n`: its own when non-zero, else three.
pub open spec fn resolved_height(n: NodeData) -> int {
    if n.height > 0 { n.height as int } else { 3 }
}

/// The text shown for `n`: its label when non-empty, else its name.
pub open spec fn resolved_label(n: NodeData) -> Seq<char> {
    if n.label@.len() > 0 { n.label@ } else { n.name@ }
}

/// Size of `n` along the axis on which layers advance.
pub open spec fn rank_size(n: NodeData, flow: Flow) -> int {
    if flow.is_horizontal() { resolved_width(n) } else { resolved_height(n) }
}

/// Size of `n` along the axis on which the members of a layer advance.
pub open spec fn order_size(n: NodeData, flow: Flow) -> int {
    if flow.is_horizontal() { resolved_height(n) } else { resolved_width(n) }
}

/// Some node has id `id`.
pub open spec fn has_node(nodes: Seq<NodeData>, id: Seq<char>) -> bool {
    exists|i: int| 0 <= i < nodes.len() && nodes[i].id@ == id
}

/// The node with id `id`.
pub open spec fn node_for(nodes: Seq<NodeData>, id: Seq<char>) -> NodeData {
    nodes[choose|i: int| 0 <= i < nodes.len() && nodes[i].id@ == id]
}

/// No two nodes share an id.
pub open spec fn unique_ids(nodes: Seq<NodeData>) -> bool {
    forall|i: int, j: int| 0 <= i < j < nodes.len() ==> nodes[i].id@ != nodes[j].id@
}

/// Largest size along the layer axis among the first `k` members of `layer`.
pub open spec fn slot_upto(nodes: Seq<NodeData>, flow: Flow, layer: Seq<Seq<char>>, k: int) -> int
    decreases k,
{
    if k <= 0 {
        0
    } else {
        let m = slot_upto(nodes, flow, layer, k - 1);
        let s = rank_size(node_for(nodes, layer[k - 1]), flow);
        if s > m { s } else { m }
    }
}

/// Extent of a layer along the layer axis: its largest member.
pub open spec fn slot(nodes: Seq<NodeData>, flow: Flow, layer: Seq<Seq<char>>) -> int {
    slot_upto(nodes, flow, layer, layer.len() as int)
}

/// Distance from the origin to layer `l` along the layer axis.
pub open spec fn rank_offset(nodes: Seq<NodeData>, cfg: LayoutConfig, ls: Seq<Seq<Seq<char>>>, l: int) -> int
    decreases l,
{
    if l <= 0 {
        0
    } else {
        rank_offset(nodes, cfg, ls, l - 1) + slot(nodes, cfg.flow, ls[l - 1]) + cfg.rank_spacing
    }
}

/// Distance from the start of its layer to member `j` of `layer`.
pub open spec fn order_offset(nodes: Seq<NodeData>, cfg: LayoutConfig, layer: Seq<Seq<char>>, j: int) -> int
    decreases j,
{
    if j <= 0 {
        0
    } else {
        order_offset(nodes, cfg, layer, j - 1) + order_size(node_for(nodes, layer[j - 1]), cfg.flow)
            + cfg.node_spacing
    }
}

/// Coordinate on the layer axis of member `j` of layer `l`: the offset for
/// east and south; for west and north the mirror image, so that the node's far
/// side lies at the negated offset.
pub open spec fn rank_coord(nodes: Seq<NodeData>, cfg: LayoutConfig, ls: Seq<Seq<Seq<char>>>, l: int, j: int) -> int {
    let off = rank_offset(nodes, cfg, ls, l);
    if cfg.flow.is_reversed() {
        -(off + rank_size(node_for(nodes, ls[l][j]), cfg.flow))
    } else {
        off
    }
}

/// x of the top-left corner of member `j` of layer `l`.
pub open spec fn pos_x(nodes: Seq<NodeData>, cfg: LayoutConfig, ls: Seq<Seq<Seq<char>>>, l: int, j: int) -> int {
    if cfg.flow.is_horizontal() {
        rank_coord(nodes, cfg, ls, l, j)
    } else {
        order_offset(nodes, cfg, ls[l], j)
    }
}

/// y of the top-left corner of member `j` of layer `l`.
pub open spec fn pos_y(nodes: Seq<NodeData>, cfg: LayoutConfig, ls: Seq<Seq<Seq<char>>>, l: int, j: int) -> int {
    if cfg.flow.is_horizontal() {
        order_offset(nodes, cfg, ls[l], j)
    } else {
        rank_coord(nodes, cfg, ls, l, j)
    }
}

pub open spec fn fits_i64(v: int) -> bool {
    i64::MIN <= v <= i64::MAX
}

/// Member `j` of layer `l` has a size that fits `u32` and a rectangle whose
/// corners fit `i64`.
pub open spec fn member_fits(nodes: Seq<NodeData>, cfg: LayoutConfig, ls: Seq<Seq<Seq<char>>>, l: int, j: int) -> bool {
    let n = node_for(nodes, ls[l][j]);
    let x = pos_x(nodes, cfg, ls, l, j);
    let y = pos_y(nodes, cfg, ls, l, j);
    &&& resolved_width(n) <= u32::MAX
    &&& fits_i64(x)
    &&& fits_i64(y)
    &&& fits_i64(x + resolved_width(n))
    &&& fits_i64(y + resolved_height(n))
}

/// The far corner of `p` fits `i64`.
pub open spec fn position_fits(p: NodePosition) -> bool {
    p.x + p.width <= i64::MAX && p.y + p.height <= i64::MAX
}

/// Every member of every layer fits.
pub open spec fn layout_fits(nodes: Seq<NodeData>, cfg: LayoutConfig, ls: Seq<Seq<Seq<char>>>) -> bool {
    forall|l: int, j: int| 0 <= l < ls.len() && 0 <= j < ls[l].len() ==> #[trigger] member_fits(nodes, cfg, ls, l, j)
}

/// Number of members in the layers before layer `l`.
pub open spec fn flat_start(ls: Seq<Seq<Seq<char>>>, l: int) -> int
    decreases l,
{
    if l <= 0 { 0 } else { flat_start(ls, l - 1) + ls[l - 1].len() }
}

/// `p` is where member `j` of layer `l` goes.
pub open spec fn placed_as(p: NodePosition, nodes: Seq<NodeData>, cfg: LayoutConfig, ls: Seq<Seq<Seq<char>>>, l: int, j: int) -> bool {
    let n = node_for(nodes, ls[l][j]);
    &&& p.id@ == ls[l][j]
    &&& p.x == pos_x(nodes, cfg, ls, l, j)
    &&& p.y == pos_y(nodes, cfg, ls, l, j)
    &&& p.width == resolved_width(n)
    &&& p.height == resolved_height(n)
    &&& p.label@ == resolved_label(n)
}

/// The positions of all members, layer after layer, each layer in order.
pub open spec fn positions_spec(ps: Seq<NodePosition>, nodes: Seq<NodeData>, cfg: LayoutConfig, ls: Seq<Seq<Seq<char>>>) -> bool {
    &&& ps.len() == flat_start(ls, ls.len() as int)
    &&& forall|l: int, j: int|
        0 <= l < ls.len() && 0 <= j < ls[l].len() ==> #[trigger] placed_as(
            ps[flat_start(ls, l) + j],
            nodes,
            cfg,
            ls,
            l,
            j,
        )
}

/// Resolved width and height of `n`, or `None` when the width does not fit `u32`.
pub fn resolve_size(n: &NodeData) -> (r: Option<(u32, u32)>)
    ensures
        match r {
            Some((w, h)) => w == resolved_width(*n) && h == resolved_height(*n),
            None => resolved_width(*n) > u32::MAX,
        },
{
    let h = if n.height > 0 { n.height } else { DEFAULT_HEIGHT };
    if n.width > 0 {
        return Some((n.width, h));
    }
    let ll = n.label.as_str().unicode_len();
    let nl = n.name.as_str().unicode_len();
    let t = if ll > nl { ll } else { nl };
    let t = if (t as u64) > MIN_TEXT_WIDTH { t as u64 } else { MIN_TEXT_WIDTH };
    if t > (u32::MAX as u64) - TEXT_PADDING {
        return None;
    }
    Some(((t + TEXT_PADDING) as u32, h))
}

/// The label shown for `n`.
pub fn resolve_label(n: &NodeData) -> (r: String)
    ensures
        r@ == resolved_label(*n),
{
    if n.label.as_str().unicode_len() > 0 {
        n.label.clone()
    } else {
        n.name.clone()
    }
}

/// Index of the node with id `id`.
pub fn node_index(nodes: &Vec<NodeData>, id: &String) -> (r: Option<usize>)
    ensures
        match r {
            Some(i) => i < nodes@.len() && nodes@[i as int].id@ == id@,
            None => !has_node(nodes@, id@),
        },
{
    let mut i: usize = 0;
    while i < nodes.len()
        invariant
            i <= nodes@.len(),
            forall|q: int| 0 <= q < i ==> nodes@[q].id@ != id@,
        decreases nodes@.len() - i,
    {
        if nodes[i].id == *id {
            return Some(i);
        }
        i = i + 1;
    }
    None
}

proof fn lemma_node_for(nodes: Seq<NodeData>, i: int)
    requires
        unique_ids(nodes),
        0 <= i < nodes.len(),
    ensures
        node_for(nodes, nodes[i].id@) == nodes[i],
{
    let id = nodes[i].id@;
    let c = choose|c: int| 0 <= c < nodes.len() && nodes[c].id@ == id;
    if c < i {
        assert(nodes[c].id@ != nodes[i].id@);
    } else if c > i {
        assert(nodes[i].id@ != nodes[c].id@);
    }
}


pub proof fn lemma_flat_start_grows(ls: Seq<Seq<Seq<char>>>, a: int, b: int)
    requires
        0 <= a <= b,
    ensures
        flat_start(ls, a) <= flat_start(ls, b),
    decreases b - a,
{
    if a < b {
        lemma_flat_start_grows(ls, a, b - 1);
    }
}

/// Bound on one step of the offsets along either axis: a size of at most
/// `u32::MAX` plus a gap of at most `u32::MAX`.
pub const STEP: u64 = 0x2_0000_0000;

/// Places the members of `layers`, layer after layer: layer `l` starts at the
/// sum of the extents of the layers before it, each the size of its largest
/// member plus the rank spacing; within a layer each member follows the one
/// before it by that one's size plus the node spacing. Fails with `TooLarge`
/// exactly when some member's size or corners do not fit.
pub fn assign_positions(
    layers: &Vec<Vec<String>>,
    nodes: &Vec<NodeData>,
    config: &LayoutConfig,
) -> (r: Result<Vec<NodePosition>, LayoutError>)
    requires
        unique_ids(nodes@),
        forall|l: int, j: int|
            0 <= l < layers@.len() && 0 <= j < layers@[l]@.len() ==> has_node(
                nodes@,
                #[trigger] layers@[l]@[j]@,
            ),
    ensures
        match r {
            Ok(ps) => layout_fits(nodes@, *config, layers_view(layers@)) && positions_spec(
                ps@,
                nodes@,
                *config,
                layers_view(layers@),
            ) && forall|k: int| 0 <= k < ps@.len() ==> #[trigger] position_fits(ps@[k]),
            Err(e) => e is TooLarge && !layout_fits(nodes@, *config, layers_view(layers@)),
        },
{
    let ghost ls = layers_view(layers@);
    let ghost cfg = *config;
    let horizontal = config.flow == Flow::East || config.flow == Flow::West;
    let reversed = config.flow == Flow::West || config.flow == Flow::North;
    let rs = config.rank_spacing as i128;
    let ns = config.node_spacing as i128;
    let mut ps: Vec<NodePosition> = Vec::new();
    let mut rank_off: i128 = 0;
    let mut l: usize = 0;
    while l < layers.len()
        invariant
            ls == layers_view(layers@),
            cfg == *config,
            horizontal == cfg.flow.is_horizontal(),
            reversed == cfg.flow.is_reversed(),
            rs == cfg.rank_spacing,
            ns == cfg.node_spacing,
            unique_ids(nodes@),
            forall|l: int, j: int|
                0 <= l < layers@.len() && 0 <= j < layers@[l]@.len() ==> has_node(
                    nodes@,
                    #[trigger] layers@[l]@[j]@,
                ),
            l <= layers@.len(),
            rank_off == rank_offset(nodes@, cfg, ls, l as int),
            0 <= rank_off <= l * STEP,
            ps@.len() == flat_start(ls, l as int),
            forall|k: int| 0 <= k < ps@.len() ==> #[trigger] position_fits(ps@[k]),
            forall|a: int, j: int|
                0 <= a < l && 0 <= j < ls[a].len() ==> #[trigger] placed_as(
                    ps@[flat_start(ls, a) + j],
                    nodes@,
                    cfg,
                    ls,
                    a,
                    j,
                ),
            forall|a: int, j: int| 0 <= a < l && 0 <= j < ls[a].len() ==> #[trigger] member_fits(nodes@, cfg, ls, a, j),
        decreases layers@.len() - l,
    {
        let layer: &Vec<String> = &layers[l];
        assert(ls[l as int] == layer@.map_values(|s: String| s@));
        let mut widest: i128 = 0;
        let mut j: usize = 0;
        while j < layer.len()
            invariant
                ls == layers_view(layers@),
                cfg == *config,
                horizontal == cfg.flow.is_horizontal(),
                l < layers@.len(),
                *layer == layers@[l as int],
                ls[l as int] == layer@.map_values(|s: String| s@),
                unique_ids(nodes@),
                forall|j: int| 0 <= j < layer@.len() ==> has_node(nodes@, #[trigger] layer@[j]@),
                j <= layer@.len(),
                widest == slot_upto(nodes@, cfg.flow, ls[l as int], j as int),
                0 <= widest <= u32::MAX,
            decreases layer@.len() - j,
        {
            assert(has_node(nodes@, layer@[j as int]@));
            let i = match node_index(nodes, &layer[j]) {
                Some(i) => i,
                None => {
                    return Err(LayoutError::TooLarge);
                },
            };
            proof {
                lemma_node_for(nodes@, i as int);
            }
            let (w, h) = match resolve_size(&nodes[i]) {
                Some(p) => p,
                None => {
                    assert(!member_fits(nodes@, cfg, ls, l as int, j as int));
                    return Err(LayoutError::TooLarge);
                },
            };
            let sz: i128 = if horizontal { w as i128 } else { h as i128 };
            if sz > widest {
                widest = sz;
            }
            j = j + 1;
        }
        let mut order_off: i128 = 0;
        let mut j: usize = 0;
        while j < layer.len()
            invariant
                ls == layers_view(layers@),
                cfg == *config,
                horizontal == cfg.flow.is_horizontal(),
                reversed == cfg.flow.is_reversed(),
                ns == cfg.node_spacing,
                l < layers@.len(),
                *layer == layers@[l as int],
                ls[l as int] == layer@.map_values(|s: String| s@),
                unique_ids(nodes@),
                forall|j: int| 0 <= j < layer@.len() ==> has_node(nodes@, #[trigger] layer@[j]@),
                j <= layer@.len(),
                rank_off == rank_offset(nodes@, cfg, ls, l as int),
                0 <= rank_off <= l * STEP,
                order_off == order_offset(nodes@, cfg, ls[l as int], j as int),
                0 <= order_off <= j * STEP,
                ps@.len() == flat_start(ls, l as int) + j,
                forall|k: int| 0 <= k < ps@.len() ==> #[trigger] position_fits(ps@[k]),
                forall|a: int, q: int|
                    0 <= a < l && 0 <= q < ls[a].len() ==> #[trigger] placed_as(
                        ps@[flat_start(ls, a) + q],
                        nodes@,
                        cfg,
                        ls,
                        a,
                        q,
                    ),
                forall|q: int|
                    0 <= q < j ==> #[trigger] placed_as(
                        ps@[flat_start(ls, l as int) + q],
                        nodes@,
                        cfg,
                        ls,
                        l as int,
                        q,
                    ),
                forall|a: int, q: int| 0 <= a < l && 0 <= q < ls[a].len() ==> #[trigger] member_fits(nodes@, cfg, ls, a, q),
                forall|q: int| 0 <= q < j ==> #[trigger] member_fits(nodes@, cfg, ls, l as int, q),
            decreases layer@.len() - j,
        {
            assert(has_node(nodes@, layer@[j as int]@));
            let i = match node_index(nodes, &layer[j]) {
                Some(i) => i,
                None => {
                    return Err(LayoutError::TooLarge);
                },
            };
            proof {
                lemma_node_for(nodes@, i as int);
            }
            let (w, h) = match resolve_size(&nodes[i]) {
                Some(p) => p,
                None => {
                    assert(!member_fits(nodes@, cfg, ls, l as int, j as int));
                    return Err(LayoutError::TooLarge);
                },
            };
            let along: i128 = if horizontal { w as i128 } else { h as i128 };
            let across: i128 = if horizontal { h as i128 } else { w as i128 };
            let rc: i128 = if reversed { -(rank_off + along) } else { rank_off };
            let x: i128 = if horizontal { rc } else { order_off };
            let y: i128 = if horizontal { order_off } else { rc };
            if x < i64::MIN as i128 || x > i64::MAX as i128 || y < i64::MIN as i128 || y > i64::MAX as i128
                || x + w as i128 > i64::MAX as i128 || y + h as i128 > i64::MAX as i128 {
                assert(!member_fits(nodes@, cfg, ls, l as int, j as int));
                return Err(LayoutError::TooLarge);
            }
            let label = resolve_label(&nodes[i]);
            let ghost old_ps = ps@;
            ps.push(NodePosition { id: layer[j].clone(), x: x as i64, y: y as i64, width: w, height: h, label });
            proof {
                assert forall|k: int| 0 <= k < ps@.len() implies #[trigger] position_fits(ps@[k]) by {
                    if k < old_ps.len() {
                        assert(ps@[k] == old_ps[k]);
                    }
                }
                assert(placed_as(ps@[flat_start(ls, l as int) + j], nodes@, cfg, ls, l as int, j as int));
                assert(member_fits(nodes@, cfg, ls, l as int, j as int));
                assert forall|a: int, q: int|
                    0 <= a < l && 0 <= q < ls[a].len() implies #[trigger] placed_as(
                        ps@[flat_start(ls, a) + q],
                        nodes@,
                        cfg,
                        ls,
                        a,
                        q,
                    ) by {
                    lemma_flat_start_grows(ls, a + 1, l as int);
                    lemma_flat_start_grows(ls, 0, a);
                    assert(flat_start(ls, a + 1) == flat_start(ls, a) + ls[a].len());
                    assert(ps@[flat_start(ls, a) + q] == old_ps[flat_start(ls, a) + q]);
                }
                assert forall|q: int| 0 <= q < j + 1 implies #[trigger] placed_as(
                    ps@[flat_start(ls, l as int) + q],
                    nodes@,
                    cfg,
                    ls,
                    l as int,
                    q,
                ) by {
                    if q < j {
                        lemma_flat_start_grows(ls, 0, l as int);
                        assert(ps@[flat_start(ls, l as int) + q] == old_ps[flat_start(ls, l as int) + q]);
                    }
                }
            }
            order_off = order_off + across + ns;
            j = j + 1;
        }
        assert(widest == slot(nodes@, cfg.flow, ls[l as int]));
        rank_off = rank_off + widest + rs;
        l = l + 1;
    }
    Ok(ps)
}


/// A node without an explicit width is at least seven wide, and at least four
/// wider than its label and than its name.
pub proof fn lemma_width_floor(n: NodeData)
    requires
        n.width == 0,
    ensures
        resolved_width(n) >= 7,
        resolved_width(n) >= n.label@.len() + 4,
        resolved_width(n) >= n.name@.len() + 4,
{
}


/// Two node lists give the same node for every id of `ls`.
pub open spec fn same_nodes_for(n1: Seq<NodeData>, n2: Seq<NodeData>, ls: Seq<Seq<Seq<char>>>) -> bool {
    forall|l: int, j: int|
        0 <= l < ls.len() && 0 <= j < ls[l].len() ==> node_for(n1, #[trigger] ls[l][j]) == node_for(n2, ls[l][j])
}

proof fn lemma_slot_same(n1: Seq<NodeData>, n2: Seq<NodeData>, flow: Flow, ls: Seq<Seq<Seq<char>>>, l: int, k: int)
    requires
        same_nodes_for(n1, n2, ls),
        0 <= l < ls.len(),
        k <= ls[l].len(),
    ensures
        slot_upto(n1, flow, ls[l], k) == slot_upto(n2, flow, ls[l], k),
    decreases k,
{
    if k > 0 {
        lemma_slot_same(n1, n2, flow, ls, l, k - 1);
        assert(node_for(n1, ls[l][k - 1]) == node_for(n2, ls[l][k - 1]));
    }
}

proof fn lemma_rank_offset_same(n1: Seq<NodeData>, n2: Seq<NodeData>, cfg: LayoutConfig, ls: Seq<Seq<Seq<char>>>, l: int)
    requires
        same_nodes_for(n1, n2, ls),
        l <= ls.len(),
    ensures
        rank_offset(n1, cfg, ls, l) == rank_offset(n2, cfg, ls, l),
    decreases l,
{
    if l > 0 {
        lemma_rank_offset_same(n1, n2, cfg, ls, l - 1);
        lemma_slot_same(n1, n2, cfg.flow, ls, l - 1, ls[l - 1].len() as int);
    }
}

proof fn lemma_order_offset_same(n1: Seq<NodeData>, n2: Seq<NodeData>, cfg: LayoutConfig, ls: Seq<Seq<Seq<char>>>, l: int, j: int)
    requires
        same_nodes_for(n1, n2, ls),
        0 <= l < ls.len(),
        j <= ls[l].len(),
    ensures
        order_offset(n1, cfg, ls[l], j) == order_offset(n2, cfg, ls[l], j),
    decreases j,
{
    if j > 0 {
        lemma_order_offset_same(n1, n2, cfg, ls, l, j - 1);
        assert(node_for(n1, ls[l][j - 1]) == node_for(n2, ls[l][j - 1]));
    }
}

/// Two positions agree in every field.
pub open spec fn same_position(p: NodePosition, q: NodePosition) -> bool {
    &&& p.id@ == q.id@
    &&& p.x == q.x
    &&& p.y == q.y
    &&& p.width == q.width
    &&& p.height == q.height
    &&& p.label@ == q.label@
}

/// Positions placed from the same layers with the same nodes agree.
pub proof fn lemma_positions_same(
    ps1: Seq<NodePosition>,
    ps2: Seq<NodePosition>,
    n1: Seq<NodeData>,
    n2: Seq<NodeData>,
    cfg: LayoutConfig,
    ls: Seq<Seq<Seq<char>>>,
)
    requires
        same_nodes_for(n1, n2, ls),
        positions_spec(ps1, n1, cfg, ls),
        positions_spec(ps2, n2, cfg, ls),
    ensures
        ps1.len() == ps2.len(),
        forall|k: int| 0 <= k < ps1.len() ==> #[trigger] same_position(ps1[k], ps2[k]),
{
    assert forall|k: int| 0 <= k < ps1.len() implies #[trigger] same_position(ps1[k], ps2[k]) by {
        lemma_flat_index(ls, ls.len() as int, k);
        let (l, j) = choose|l: int, j: int| l < ls.len() && #[trigger] flat_slot(ls, k, l, j);
        assert(placed_as(ps1[flat_start(ls, l) + j], n1, cfg, ls, l, j));
        assert(placed_as(ps2[flat_start(ls, l) + j], n2, cfg, ls, l, j));
        assert(node_for(n1, ls[l][j]) == node_for(n2, ls[l][j]));
        lemma_rank_offset_same(n1, n2, cfg, ls, l);
        lemma_order_offset_same(n1, n2, cfg, ls, l, j);
    }
}

/// Index `k` of the flat list is member `j` of layer `l`.
pub open spec fn flat_slot(ls: Seq<Seq<Seq<char>>>, k: int, l: int, j: int) -> bool {
    0 <= l && 0 <= j < ls[l].len() && k == flat_start(ls, l) + j
}

/// Every index below the start of layer `m` lies in some earlier layer.
proof fn lemma_flat_index(ls: Seq<Seq<Seq<char>>>, m: int, k: int)
    requires
        0 <= m <= ls.len(),
        0 <= k < flat_start(ls, m),
    ensures
        exists|l: int, j: int| l < m && #[trigger] flat_slot(ls, k, l, j),
    decreases m,
{
    if m > 0 {
        if k < flat_start(ls, m - 1) {
            lemma_flat_index(ls, m - 1, k);
            let (l, j) = choose|l: int, j: int| l < m - 1 && #[trigger] flat_slot(ls, k, l, j);
            assert(l < m && flat_slot(ls, k, l, j));
        } else {
            let j = k - flat_start(ls, m - 1);
            assert(m - 1 < m && flat_slot(ls, k, m - 1, j));
        }
    }
}

} // verus!
