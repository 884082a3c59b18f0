//! The deck and its per-tick diffusion engine.
//!
//! A tick runs in five passes over one frozen deck: vents pre-transfer stored
//! air into room air, every pool becomes a flow node, pressure differences
//! between connected nodes of one resource are recorded as damped changes,
//! the changes are applied in discovery order against the live node amounts,
//! exposed room air decays toward unoccupied neighbouring cells, and the node
//! amounts are written back into their owning blocks.

use vstd::prelude::*;

use vstd::arithmetic::div_mod::{
    lemma_div_is_ordered, lemma_div_multiples_vanish, lemma_div_pos_is_pos,
};
use vstd::arithmetic::mul::{
    lemma_mul_inequality, lemma_mul_nonnegative, lemma_mul_strictly_positive,
    lemma_mul_upper_bound,
};

use crate::block::{
    min_int, set_amount_seq, vent_pre, wf_block, wf_pool, Block, BlockModel, PoolModel, Resource,
    MAX_QUANTITY,
};

verus! {

/// Decay weight of an unoccupied orthogonal neighbour: 1, scaled by a
/// million.
pub const W_ORTH: u64 = 1_000_000;

/// Decay weight of an unoccupied diagonal neighbour: the inverse of the
/// square root of two, scaled by a million and rounded to the nearest
/// integer.
pub const W_DIAG: u64 = 707_107;

/// Denominator of the decay factor `1 - weight / 100`, at the weights'
/// scale: one hundred times a million.
pub const DECAY_DEN: u64 = 100_000_000;

/// One flow node: the pool of one resource of one block, exposed for one
/// tick, remembering the owning block's index and position.
#[derive(Clone, Copy, Debug)]
struct Node {
    i: usize,
    x: usize,
    y: usize,
    resource: Resource,
    amount: u64,
    capacity: u64,
}

/// One pending change: a damped flow from node `i` to node `j`, with the
/// pressure difference held as the exact fraction `num / den`.
#[derive(Clone, Copy, Debug)]
struct Change {
    i: usize,
    j: usize,
    num: u128,
    den: u128,
}

/// Mathematical model of a flow node.
pub ghost struct NodeModel {
    pub i: int,
    pub x: int,
    pub y: int,
    pub resource: Resource,
    pub amount: int,
    pub capacity: int,
}

/// Mathematical model of a pending change. `num / den` is half the pressure
/// difference between the frozen source and destination nodes.
pub ghost struct ChangeModel {
    pub i: int,
    pub j: int,
    pub num: int,
    pub den: int,
}

impl View for Node {
    type V = NodeModel;

    closed spec fn view(&self) -> NodeModel {
        NodeModel {
            i: self.i as int,
            x: self.x as int,
            y: self.y as int,
            resource: self.resource,
            amount: self.amount as int,
            capacity: self.capacity as int,
        }
    }
}

impl View for Change {
    type V = ChangeModel;

    closed spec fn view(&self) -> ChangeModel {
        ChangeModel {
            i: self.i as int,
            j: self.j as int,
            num: self.num as int,
            den: self.den as int,
        }
    }
}

/// The models of a sequence of blocks.
pub open spec fn block_views(s: Seq<Block>) -> Seq<BlockModel> {
    s.map(|k: int, b: Block| b@)
}

/// The models of a sequence of nodes.
spec fn node_views(s: Seq<Node>) -> Seq<NodeModel> {
    s.map(|k: int, n: Node| n@)
}

/// The models of a sequence of changes.
spec fn change_views(s: Seq<Change>) -> Seq<ChangeModel> {
    s.map(|k: int, c: Change| c@)
}

/// Two nodes are connected when they sit on the same cell or exactly one
/// grid step apart along one axis. Four-connectivity: no diagonals.
pub open spec fn connected(a: NodeModel, b: NodeModel) -> bool {
    ||| (a.x == b.x && a.y == b.y)
    ||| (a.x + 1 == b.x && a.y == b.y)
    ||| (a.x == b.x + 1 && a.y == b.y)
    ||| (a.x == b.x && a.y + 1 == b.y)
    ||| (a.x == b.x && a.y == b.y + 1)
}

/// Strict pressure comparison `a.amount / a.capacity > b.amount / b.capacity`
/// by cross-multiplication. A node with zero capacity has no defined
/// pressure and never takes part in a flow.
pub open spec fn pressure_gt(a: NodeModel, b: NodeModel) -> bool {
    a.capacity > 0 && b.capacity > 0 && a.amount * b.capacity > b.amount * a.capacity
}

/// A flow is recorded from `a` to `b` when the nodes are connected, carry
/// the same resource, and `a` has strictly higher pressure.
pub open spec fn eligible(a: NodeModel, b: NodeModel) -> bool {
    connected(a, b) && a.resource == b.resource && pressure_gt(a, b)
}

/// The change recorded for the frozen pair `(ns[i], ns[j])`: half the
/// pressure difference, as the exact fraction
/// `(ns[i].amount / ns[i].capacity - ns[j].amount / ns[j].capacity) / 2`.
pub open spec fn change_between(ns: Seq<NodeModel>, i: int, j: int) -> ChangeModel {
    ChangeModel {
        i,
        j,
        num: ns[i].amount * ns[j].capacity - ns[j].amount * ns[i].capacity,
        den: 2 * ns[i].capacity * ns[j].capacity,
    }
}

/// The changes with source `i` and destinations `j < j_end`, in destination
/// order.
pub open spec fn changes_row(ns: Seq<NodeModel>, i: int, j_end: int) -> Seq<ChangeModel>
    decreases j_end,
{
    if j_end <= 0 {
        Seq::empty()
    } else {
        let pre = changes_row(ns, i, j_end - 1);
        if j_end - 1 != i && eligible(ns[i], ns[j_end - 1]) {
            pre.push(change_between(ns, i, j_end - 1))
        } else {
            pre
        }
    }
}

/// The changes with sources `i < i_end`, in source-major order.
pub open spec fn changes_upto(ns: Seq<NodeModel>, i_end: int) -> Seq<ChangeModel>
    decreases i_end,
{
    if i_end <= 0 {
        Seq::empty()
    } else {
        changes_upto(ns, i_end - 1) + changes_row(ns, i_end - 1, ns.len() as int)
    }
}

/// Every change of one tick, computed from the frozen node snapshot, in
/// discovery order.
pub open spec fn changes_of(ns: Seq<NodeModel>) -> Seq<ChangeModel> {
    changes_upto(ns, ns.len() as int)
}

/// The room a destination node has left. A destination already above its
/// capacity accepts nothing.
pub open spec fn room_of(n: NodeModel) -> int {
    if n.capacity >= n.amount {
        n.capacity - n.amount
    } else {
        0
    }
}

/// `m` scaled by the factor `num / den` clamped to at most one, truncating
/// toward zero.
pub open spec fn transfer_scaled(num: int, den: int, m: int) -> int {
    min_int(num, den) * m / den
}

/// The quantity one change moves, computed against the live node amounts:
/// the clamped damped pressure difference times the smaller of what the
/// source holds and what the destination has room for.
pub open spec fn transfer_of(ns: Seq<NodeModel>, c: ChangeModel) -> int {
    transfer_scaled(c.num, c.den, min_int(ns[c.i].amount, room_of(ns[c.j])))
}

/// A node with its amount replaced.
pub open spec fn node_with_amount(n: NodeModel, v: int) -> NodeModel {
    NodeModel { i: n.i, x: n.x, y: n.y, resource: n.resource, amount: v, capacity: n.capacity }
}

/// A change applies against the live amounts: the transferred quantity
/// leaves the source and enters the destination.
pub open spec fn apply_change(ns: Seq<NodeModel>, c: ChangeModel) -> Seq<NodeModel> {
    if 0 <= c.i < ns.len() && 0 <= c.j < ns.len() && c.i != c.j && c.den > 0 {
        let t = transfer_of(ns, c);
        ns.update(c.i, node_with_amount(ns[c.i], ns[c.i].amount - t)).update(
            c.j,
            node_with_amount(ns[c.j], ns[c.j].amount + t),
        )
    } else {
        ns
    }
}

/// All changes applied in list order, each seeing the effects of the
/// previous ones.
pub open spec fn apply_changes(ns: Seq<NodeModel>, cs: Seq<ChangeModel>) -> Seq<NodeModel>
    decreases cs.len(),
{
    if cs.len() == 0 {
        ns
    } else {
        apply_change(apply_changes(ns, cs.drop_last()), cs.last())
    }
}

/// A cell is occupied when some block sits on it.
pub open spec fn occupied(blocks: Seq<BlockModel>, cx: int, cy: int) -> bool {
    exists|k: int| 0 <= k < blocks.len() && (#[trigger] blocks[k]).x == cx && blocks[k].y == cy
}

/// The decay weight one neighbouring cell contributes: its inverse distance
/// if unoccupied, nothing if occupied.
pub open spec fn cell_weight(blocks: Seq<BlockModel>, cx: int, cy: int, w: int) -> int {
    if occupied(blocks, cx, cy) {
        0
    } else {
        w
    }
}

/// The total vacuum exposure of the cell `(x, y)`: the sum of the inverse
/// distances to its unoccupied neighbours, orthogonal ones at weight one and
/// diagonal ones at weight one over the square root of two, at the weights'
/// scale. The centre cell itself never contributes: its own block occupies
/// it.
pub open spec fn vacuum_weight(blocks: Seq<BlockModel>, x: int, y: int) -> int {
    cell_weight(blocks, x - 1, y - 1, W_DIAG as int) + cell_weight(blocks, x, y - 1, W_ORTH as int)
        + cell_weight(blocks, x + 1, y - 1, W_DIAG as int) + cell_weight(
        blocks,
        x - 1,
        y,
        W_ORTH as int,
    ) + cell_weight(blocks, x + 1, y, W_ORTH as int) + cell_weight(
        blocks,
        x - 1,
        y + 1,
        W_DIAG as int,
    ) + cell_weight(blocks, x, y + 1, W_ORTH as int) + cell_weight(blocks, x + 1, y + 1, W_DIAG as int)
}

/// An amount attenuated by the decay factor `1 - w / 100` at the weights'
/// scale, truncating toward zero.
pub open spec fn decayed_amount(amount: int, w: int) -> int {
    amount * (DECAY_DEN - w) / (DECAY_DEN as int)
}

/// Vacuum decay of one node: room air whose cell has unoccupied neighbours
/// bleeds out; everything else is untouched.
pub open spec fn decay_node(blocks: Seq<BlockModel>, n: NodeModel) -> NodeModel {
    if n.resource == Resource::FreeAir && n.amount > 0 {
        let w = vacuum_weight(blocks, n.x, n.y);
        if w > 0 {
            node_with_amount(n, decayed_amount(n.amount, w))
        } else {
            n
        }
    } else {
        n
    }
}

/// Vacuum decay over all nodes.
pub open spec fn decay_nodes(blocks: Seq<BlockModel>, ns: Seq<NodeModel>) -> Seq<NodeModel> {
    ns.map(|k: int, n: NodeModel| decay_node(blocks, n))
}

/// The nodes one block contributes: one per pool, in the mapping's order.
pub open spec fn block_nodes(i: int, b: BlockModel) -> Seq<NodeModel> {
    b.resources.map(
        |k: int, p: (Resource, PoolModel)|
            NodeModel {
                i,
                x: b.x,
                y: b.y,
                resource: p.0,
                amount: p.1.amount,
                capacity: p.1.capacity,
            },
    )
}

/// The nodes of a whole deck, in block-major, pool-minor order.
pub open spec fn extract_nodes(blocks: Seq<BlockModel>) -> Seq<NodeModel>
    decreases blocks.len(),
{
    if blocks.len() == 0 {
        Seq::empty()
    } else {
        extract_nodes(blocks.drop_last()) + block_nodes(blocks.len() - 1, blocks.last())
    }
}

/// Vent pre-processing over all blocks.
pub open spec fn vent_all(blocks: Seq<BlockModel>) -> Seq<BlockModel> {
    blocks.map(|k: int, b: BlockModel| vent_pre(b))
}

/// Writing one node's amount back into its owning block's pool.
pub open spec fn write_node(blocks: Seq<BlockModel>, n: NodeModel) -> Seq<BlockModel> {
    if 0 <= n.i < blocks.len() {
        let b = blocks[n.i];
        blocks.update(
            n.i,
            BlockModel {
                x: b.x,
                y: b.y,
                kind: b.kind,
                resources: set_amount_seq(b.resources, n.resource, n.amount),
            },
        )
    } else {
        blocks
    }
}

/// Writing all nodes back, in node order.
pub open spec fn write_back(blocks: Seq<BlockModel>, ns: Seq<NodeModel>) -> Seq<BlockModel>
    decreases ns.len(),
{
    if ns.len() == 0 {
        blocks
    } else {
        write_node(write_back(blocks, ns.drop_last()), ns.last())
    }
}

/// One whole tick over a deck's blocks.
pub open spec fn tick_blocks(blocks: Seq<BlockModel>) -> Seq<BlockModel> {
    let vented = vent_all(blocks);
    let ns = extract_nodes(vented);
    let flowed = apply_changes(ns, changes_of(ns));
    let decayed = decay_nodes(vented, flowed);
    write_back(vented, decayed)
}

/// A tick reports a redraw exactly when it recorded at least one change.
/// Vent pre-transfers and vacuum decay alone do not.
pub open spec fn tick_redraw(blocks: Seq<BlockModel>) -> bool {
    changes_of(extract_nodes(vent_all(blocks))).len() > 0
}

/// A node's quantities fit the engine's bound.
pub open spec fn wf_node(n: NodeModel) -> bool {
    &&& 0 <= n.amount <= MAX_QUANTITY
    &&& 0 <= n.capacity <= MAX_QUANTITY
    &&& 0 <= n.i
}

pub open spec fn wf_nodes(ns: Seq<NodeModel>) -> bool {
    forall|k: int| 0 <= k < ns.len() ==> wf_node(#[trigger] ns[k])
}

pub open spec fn wf_blocks(blocks: Seq<BlockModel>) -> bool {
    forall|k: int| 0 <= k < blocks.len() ==> wf_block(#[trigger] blocks[k])
}

/// Two nodes that differ at most in their amount: flows and decay never
/// move a node, change its resource, its capacity, or its owning block.
pub open spec fn same_place(a: NodeModel, b: NodeModel) -> bool {
    &&& a.i == b.i
    &&& a.x == b.x
    &&& a.y == b.y
    &&& a.resource == b.resource
    &&& a.capacity == b.capacity
}

/// Every change of a list is a recorded eligible pair of the frozen
/// snapshot `ns`, with its fraction computed from that snapshot.
pub open spec fn changes_ok(ns: Seq<NodeModel>, cs: Seq<ChangeModel>) -> bool {
    forall|k: int|
        0 <= k < cs.len() ==> {
            let c = #[trigger] cs[k];
            &&& 0 <= c.i < ns.len()
            &&& 0 <= c.j < ns.len()
            &&& c.i != c.j
            &&& eligible(ns[c.i], ns[c.j])
            &&& c == change_between(ns, c.i, c.j)
        }
}

proof fn lemma_changes_row_ok(ns: Seq<NodeModel>, i: int, j_end: int)
    requires
        0 <= i < ns.len(),
        0 <= j_end <= ns.len(),
    ensures
        forall|k: int|
            0 <= k < changes_row(ns, i, j_end).len() ==> {
                let c = #[trigger] changes_row(ns, i, j_end)[k];
                &&& c.i == i
                &&& 0 <= c.j < j_end
                &&& c.i != c.j
                &&& eligible(ns[c.i], ns[c.j])
                &&& c == change_between(ns, c.i, c.j)
            },
    decreases j_end,
{
    if j_end > 0 {
        lemma_changes_row_ok(ns, i, j_end - 1);
        let pre = changes_row(ns, i, j_end - 1);
        let full = changes_row(ns, i, j_end);
        if j_end - 1 != i && eligible(ns[i], ns[j_end - 1]) {
            assert(full == pre.push(change_between(ns, i, j_end - 1)));
            assert forall|k: int| 0 <= k < full.len() implies {
                let c = #[trigger] full[k];
                &&& c.i == i
                &&& 0 <= c.j < j_end
                &&& c.i != c.j
                &&& eligible(ns[c.i], ns[c.j])
                &&& c == change_between(ns, c.i, c.j)
            } by {
                if k < pre.len() {
                    assert(full[k] == pre[k]);
                } else {
                    assert(full[k] == change_between(ns, i, j_end - 1));
                }
            }
        }
    }
}

proof fn lemma_changes_upto_ok(ns: Seq<NodeModel>, i_end: int)
    requires
        0 <= i_end <= ns.len(),
    ensures
        changes_ok(ns, changes_upto(ns, i_end)),
    decreases i_end,
{
    if i_end > 0 {
        lemma_changes_upto_ok(ns, i_end - 1);
        lemma_changes_row_ok(ns, i_end - 1, ns.len() as int);
    }
}

/// The tick's change list records eligible pairs of its frozen snapshot.
pub proof fn lemma_changes_of_ok(ns: Seq<NodeModel>)
    ensures
        changes_ok(ns, changes_of(ns)),
{
    lemma_changes_upto_ok(ns, ns.len() as int);
}

/// Numeric bounds of a recorded change over a well-formed snapshot.
pub proof fn lemma_change_bounds(ns: Seq<NodeModel>, c: ChangeModel)
    requires
        wf_nodes(ns),
        0 <= c.i < ns.len(),
        0 <= c.j < ns.len(),
        eligible(ns[c.i], ns[c.j]),
        c == change_between(ns, c.i, c.j),
    ensures
        0 < c.num <= (MAX_QUANTITY as int) * (MAX_QUANTITY as int),
        0 < c.den <= 2 * (MAX_QUANTITY as int) * (MAX_QUANTITY as int),
{
    let a = ns[c.i];
    let b = ns[c.j];
    lemma_mul_strictly_positive(2 * a.capacity, b.capacity);
    lemma_mul_upper_bound(2 * a.capacity, 2 * (MAX_QUANTITY as int), b.capacity, MAX_QUANTITY as int);
    lemma_mul_upper_bound(a.amount, MAX_QUANTITY as int, b.capacity, MAX_QUANTITY as int);
    lemma_mul_nonnegative(b.amount, a.capacity);
}

/// Product of two quantities, widened so it cannot overflow.
fn mul_wide(a: u64, b: u64) -> (r: u128)
    ensures
        r as int == (a as int) * (b as int),
{
    proof {
        lemma_mul_upper_bound(a as int, u64::MAX as int, b as int, u64::MAX as int);
    }
    (a as u128) * (b as u128)
}

fn min_u64(a: u64, b: u64) -> (r: u64)
    ensures
        r as int == min_int(a as int, b as int),
{
    if a <= b {
        a
    } else {
        b
    }
}

/// The quantity one change moves: `m` scaled by `num / den` clamped to at
/// most one, truncating toward zero. Never more than `m`.
fn transfer_amount(num: u128, den: u128, m: u64) -> (t: u64)
    requires
        0 < den,
        den <= 2 * (MAX_QUANTITY as int) * (MAX_QUANTITY as int),
        m <= MAX_QUANTITY,
    ensures
        t as int == transfer_scaled(num as int, den as int, m as int),
        t <= m,
{
    let clamped = if num >= den {
        den
    } else {
        num
    };
    proof {
        lemma_mul_upper_bound(
            clamped as int,
            2 * (MAX_QUANTITY as int) * (MAX_QUANTITY as int),
            m as int,
            MAX_QUANTITY as int,
        );
        lemma_mul_nonnegative(clamped as int, m as int);
        lemma_mul_inequality(clamped as int, den as int, m as int);
        lemma_div_is_ordered((clamped as int) * (m as int), (den as int) * (m as int), den as int);
        lemma_div_multiples_vanish(m as int, den as int);
        lemma_div_pos_is_pos((clamped as int) * (m as int), den as int);
    }
    let t128 = clamped * (m as u128) / den;
    t128 as u64
}

fn node_connected(a: &Node, b: &Node) -> (r: bool)
    ensures
        r == connected(a@, b@),
{
    if a.x == b.x && a.y == b.y {
        return true;
    }
    if a.y == b.y && b.x > a.x && b.x - a.x == 1 {
        return true;
    }
    if a.y == b.y && a.x > b.x && a.x - b.x == 1 {
        return true;
    }
    if a.x == b.x && b.y > a.y && b.y - a.y == 1 {
        return true;
    }
    if a.x == b.x && a.y > b.y && a.y - b.y == 1 {
        return true;
    }
    false
}

fn node_pressure_gt(a: &Node, b: &Node) -> (r: bool)
    ensures
        r == pressure_gt(a@, b@),
{
    if a.capacity == 0 || b.capacity == 0 {
        return false;
    }
    let lhs = mul_wide(a.amount, b.capacity);
    let rhs = mul_wide(b.amount, a.capacity);
    lhs > rhs
}

/// A deck: a named, ordered collection of blocks sharing one grid.
pub struct Deck {
    pub name: String,
    pub blocks: Vec<Block>,
}

/// Mathematical model of a deck.
#[verifier::ext_equal]
pub ghost struct DeckModel {
    pub name: Seq<char>,
    pub blocks: Seq<BlockModel>,
}

impl View for Deck {
    type V = DeckModel;

    open spec fn view(&self) -> DeckModel {
        DeckModel { name: self.name@, blocks: block_views(self.blocks@) }
    }
}

impl Deck {
    /// Every block's resource mapping is well formed.
    pub open spec fn wf(&self) -> bool {
        wf_blocks(self@.blocks)
    }

    /// Vent pre-processing and node extraction: every block first performs
    /// its vent pre-transfer in place, then exposes one node per pool.
    fn vent_and_extract(&mut self) -> (nodes: Vec<Node>)
        requires
            old(self).wf(),
        ensures
            final(self).wf(),
            final(self)@.name == old(self)@.name,
            final(self)@.blocks == vent_all(old(self)@.blocks),
            node_views(nodes@) == extract_nodes(vent_all(old(self)@.blocks)),
            wf_nodes(node_views(nodes@)),
            forall|k: int|
                0 <= k < node_views(nodes@).len() ==> 0 <= (#[trigger] node_views(nodes@)[k]).i
                    < old(self)@.blocks.len(),
    {
        let ghost blocks0 = old(self)@.blocks;
        let ghost vblocks = vent_all(blocks0);
        let mut nodes: Vec<Node> = Vec::new();
        let mut done: Vec<Block> = Vec::new();
        let nb = self.blocks.len();
        proof {
            assert(vblocks.take(0) =~= Seq::<BlockModel>::empty());
            assert(node_views(nodes@) =~= Seq::<NodeModel>::empty());
            assert(block_views(done@) =~= Seq::<BlockModel>::empty());
            assert(block_views(self.blocks@) =~= blocks0.skip(0));
        }
        let mut i: usize = 0;
        while i < nb
            invariant
                i <= nb,
                nb == blocks0.len(),
                blocks0 == old(self)@.blocks,
                vblocks == vent_all(blocks0),
                wf_blocks(blocks0),
                self.name@ == old(self)@.name,
                self.blocks@.len() == nb - i,
                block_views(self.blocks@) == blocks0.skip(i as int),
                done@.len() == i,
                block_views(done@) == vblocks.take(i as int),
                forall|k: int| 0 <= k < i ==> (#[trigger] done@[k]).wf(),
                node_views(nodes@) == extract_nodes(vblocks.take(i as int)),
                wf_nodes(node_views(nodes@)),
                forall|k: int|
                    0 <= k < node_views(nodes@).len() ==> 0 <= (#[trigger] node_views(
                        nodes@,
                    )[k]).i < i,
            decreases nb - i,
        {
            let ghost pre = self.blocks@;
            let mut b = self.blocks.remove(0);
            proof {
                assert(block_views(pre)[0] == b@);
                assert(b@ == blocks0[i as int]);
                assert forall|k: int| 0 <= k < self.blocks@.len() implies #[trigger] block_views(
                    self.blocks@,
                )[k] == blocks0.skip(i as int + 1)[k] by {
                    assert(self.blocks@[k] == pre[k + 1]);
                    assert(block_views(pre)[k + 1] == pre[k + 1]@);
                    assert(blocks0.skip(i as int)[k + 1] == blocks0[i as int + 1 + k]);
                }
                assert(block_views(self.blocks@) =~= blocks0.skip(i as int + 1));
                assert(wf_block(blocks0[i as int]));
            }
            b.vent_preprocess();
            proof {
                assert(b@ == vent_pre(blocks0[i as int]));
                assert(vblocks[i as int] == vent_pre(blocks0[i as int]));
            }
            let ghost bm = b@;
            let bx = b.x;
            let by = b.y;
            let nr = b.resources.len();
            proof {
                assert(block_nodes(i as int, bm).take(0) =~= Seq::<NodeModel>::empty());
                assert(node_views(nodes@) + block_nodes(i as int, bm).take(0) =~= node_views(
                    nodes@,
                ));
            }
            let mut q: usize = 0;
            while q < nr
                invariant
                    q <= nr,
                    i < nb,
                    nb == blocks0.len(),
                    vblocks == vent_all(blocks0),
                    nr == b.resources@.len(),
                    bm == b@,
                    bm == vblocks[i as int],
                    b.wf(),
                    bx == b.x,
                    by == b.y,
                    node_views(nodes@) == extract_nodes(vblocks.take(i as int)) + block_nodes(
                        i as int,
                        bm,
                    ).take(q as int),
                    wf_nodes(node_views(nodes@)),
                    forall|k: int|
                        0 <= k < node_views(nodes@).len() ==> 0 <= (#[trigger] node_views(
                            nodes@,
                        )[k]).i <= i,
                decreases nr - q,
            {
                let entry = b.resources[q];
                proof {
                    assert(b@.resources[q as int] == (entry.0, entry.1@));
                    assert(wf_pool(b@.resources[q as int].1));
                }
                let node = Node {
                    i,
                    x: bx,
                    y: by,
                    resource: entry.0,
                    amount: entry.1.amount,
                    capacity: entry.1.capacity,
                };
                let ghost nodes_pre = nodes@;
                nodes.push(node);
                proof {
                    assert(node@ == block_nodes(i as int, bm)[q as int]);
                    assert(wf_node(node@));
                    let hd = extract_nodes(vblocks.take(i as int));
                    let target = hd + block_nodes(i as int, bm).take(q as int + 1);
                    assert(target.len() == nodes_pre.len() + 1);
                    assert forall|k: int| 0 <= k < nodes@.len() implies #[trigger] node_views(
                        nodes@,
                    )[k] == target[k] && wf_node(node_views(nodes@)[k]) && 0 <= node_views(
                        nodes@,
                    )[k].i <= i by {
                        assert(node_views(nodes@)[k] == nodes@[k]@);
                        if k < nodes_pre.len() {
                            assert(nodes@[k] == nodes_pre[k]);
                            assert(node_views(nodes_pre)[k] == nodes_pre[k]@);
                            if k >= hd.len() {
                                assert(block_nodes(i as int, bm).take(q as int + 1)[k - hd.len()]
                                    == block_nodes(i as int, bm).take(q as int)[k - hd.len()]);
                            }
                        } else {
                            assert(nodes@[k] == node);
                        }
                    }
                    assert(node_views(nodes@) =~= target);
                }
                q += 1;
            }
            proof {
                assert(block_nodes(i as int, bm).take(nr as int) =~= block_nodes(i as int, bm));
                let tk1 = vblocks.take(i as int + 1);
                assert(tk1.drop_last() =~= vblocks.take(i as int));
                assert(tk1.last() == vblocks[i as int]);
                assert(extract_nodes(tk1) == extract_nodes(tk1.drop_last()) + block_nodes(
                    tk1.len() - 1,
                    tk1.last(),
                ));
                assert(node_views(nodes@) == extract_nodes(tk1));
            }
            done.push(b);
            proof {
                assert(block_views(done@) =~= vblocks.take(i as int + 1));
            }
            i += 1;
        }
        proof {
            assert(vblocks.take(nb as int) =~= vblocks);
        }
        self.blocks = done;
        proof {
            assert(self@.blocks == vblocks);
            assert forall|k: int| 0 <= k < self@.blocks.len() implies wf_block(
                #[trigger] self@.blocks[k],
            ) by {
                assert(self@.blocks[k] == self.blocks@[k]@);
            }
        }
        nodes
    }
}

/// The tick's change list: for every ordered pair of distinct connected
/// same-resource nodes with a strict pressure drop, one change, in
/// source-major discovery order, all computed from the frozen snapshot.
fn compute_changes(nodes: &Vec<Node>) -> (changes: Vec<Change>)
    requires
        wf_nodes(node_views(nodes@)),
    ensures
        change_views(changes@) == changes_of(node_views(nodes@)),
{
    let ghost ns = node_views(nodes@);
    let mut changes: Vec<Change> = Vec::new();
    let n = nodes.len();
    proof {
        assert(change_views(changes@) =~= Seq::<ChangeModel>::empty());
    }
    let mut i: usize = 0;
    while i < n
        invariant
            i <= n,
            n == nodes@.len(),
            ns == node_views(nodes@),
            ns.len() == n,
            wf_nodes(ns),
            change_views(changes@) == changes_upto(ns, i as int),
        decreases n - i,
    {
        proof {
            assert(changes_row(ns, i as int, 0) == Seq::<ChangeModel>::empty());
            assert(change_views(changes@) =~= changes_upto(ns, i as int) + changes_row(
                ns,
                i as int,
                0,
            ));
        }
        let mut j: usize = 0;
        while j < n
            invariant
                j <= n,
                i < n,
                n == nodes@.len(),
                ns == node_views(nodes@),
                ns.len() == n,
                wf_nodes(ns),
                change_views(changes@) == changes_upto(ns, i as int) + changes_row(
                    ns,
                    i as int,
                    j as int,
                ),
            decreases n - j,
        {
            let ghost row_pre = changes_row(ns, i as int, j as int);
            let ghost changes_pre = changes@;
            let mut pushed = false;
            if j != i {
                let a = nodes[i];
                let b = nodes[j];
                proof {
                    assert(ns[i as int] == nodes@[i as int]@);
                    assert(ns[j as int] == nodes@[j as int]@);
                    assert(wf_node(ns[i as int]));
                    assert(wf_node(ns[j as int]));
                }
                if node_connected(&a, &b) {
                    if a.resource == b.resource {
                        if node_pressure_gt(&a, &b) {
                            let c = make_change(i, j, &a, &b);
                            proof {
                                assert(c@ == change_between(ns, i as int, j as int));
                            }
                            changes.push(c);
                            pushed = true;
                            proof {
                                assert(eligible(ns[i as int], ns[j as int]));
                                let cb = change_between(ns, i as int, j as int);
                                let au = changes_upto(ns, i as int);
                                let row1 = changes_row(ns, i as int, j as int + 1);
                                assert(row1 == row_pre.push(cb));
                                assert(change_views(changes_pre).len() == changes_pre.len());
                                assert(change_views(changes@).len() == changes@.len());
                                assert(changes_pre.len() == au.len() + row_pre.len());
                                assert forall|k: int| 0 <= k < changes@.len() implies #[trigger]
                                change_views(changes@)[k] == (au + row1)[k] by {
                                    assert(change_views(changes@)[k] == changes@[k]@);
                                    if k < changes_pre.len() {
                                        assert(changes@[k] == changes_pre[k]);
                                        assert(change_views(changes_pre)[k] == changes_pre[k]@);
                                        assert(change_views(changes_pre)[k] == (au + row_pre)[k]);
                                        if k < au.len() {
                                            assert((au + row_pre)[k] == au[k]);
                                            assert((au + row1)[k] == au[k]);
                                        } else {
                                            assert((au + row_pre)[k] == row_pre[k - au.len()]);
                                            assert(row1[k - au.len()] == row_pre[k - au.len()]);
                                            assert((au + row1)[k] == row1[k - au.len()]);
                                        }
                                    } else {
                                        assert(changes@[k] == c);
                                        assert(row1[k - au.len()] == cb);
                                        assert((au + row1)[k] == row1[k - au.len()]);
                                    }
                                }
                                assert(change_views(changes@) =~= au + row1);
                            }
                        }
                    }
                }
            }
            proof {
                if !pushed {
                    assert(j as int != i as int ==> !eligible(ns[i as int], ns[j as int]));
                    assert(changes_row(ns, i as int, j as int + 1) == row_pre);
                    assert(change_views(changes@) == changes_upto(ns, i as int) + changes_row(
                        ns,
                        i as int,
                        j as int + 1,
                    ));
                }
            }
            j += 1;
        }
        proof {
            assert(changes_upto(ns, i as int + 1) == changes_upto(ns, i as int) + changes_row(
                ns,
                i as int,
                ns.len() as int,
            ));
        }
        i += 1;
    }
    changes
}

/// Apply every change in list order against the live node amounts: the
/// transferred quantity leaves the source and enters the destination, later
/// changes seeing the effects of earlier ones.
fn apply_all_changes(nodes: &mut Vec<Node>, changes: &Vec<Change>)
    requires
        wf_nodes(node_views(old(nodes)@)),
        changes_ok(node_views(old(nodes)@), change_views(changes@)),
    ensures
        node_views(final(nodes)@) == apply_changes(
            node_views(old(nodes)@),
            change_views(changes@),
        ),
        wf_nodes(node_views(final(nodes)@)),
        final(nodes)@.len() == old(nodes)@.len(),
        forall|m: int|
            0 <= m < old(nodes)@.len() ==> same_place(
                #[trigger] node_views(final(nodes)@)[m],
                node_views(old(nodes)@)[m],
            ),
{
    let ghost ns0 = node_views(old(nodes)@);
    let ghost cs = change_views(changes@);
    let len0 = nodes.len();
    let nc = changes.len();
    proof {
        assert(cs.take(0) =~= Seq::<ChangeModel>::empty());
    }
    let mut k: usize = 0;
    while k < nc
        invariant
            k <= nc,
            nc == changes@.len(),
            cs == change_views(changes@),
            cs.len() == nc,
            ns0 == node_views(old(nodes)@),
            ns0.len() == len0,
            nodes@.len() == len0,
            wf_nodes(ns0),
            changes_ok(ns0, cs),
            node_views(nodes@) == apply_changes(ns0, cs.take(k as int)),
            wf_nodes(node_views(nodes@)),
            forall|m: int|
                0 <= m < len0 ==> same_place(#[trigger] node_views(nodes@)[m], ns0[m]),
        decreases nc - k,
    {
        let c = changes[k];
        proof {
            assert(cs[k as int] == changes@[k as int]@);
            assert(cs[k as int] == c@);
            lemma_change_bounds(ns0, c@);
        }
        let ci = c.i;
        let cj = c.j;
        let from = nodes[ci];
        let to = nodes[cj];
        proof {
            assert(node_views(nodes@)[ci as int] == nodes@[ci as int]@);
            assert(node_views(nodes@)[cj as int] == nodes@[cj as int]@);
            assert(wf_node(from@));
            assert(wf_node(to@));
        }
        let room = if to.capacity >= to.amount {
            to.capacity - to.amount
        } else {
            0
        };
        let m = min_u64(from.amount, room);
        let t = transfer_amount(c.num, c.den, m);
        proof {
            assert(room as int == room_of(to@));
            assert(m as int <= from@.amount);
            assert(to@.amount + t <= MAX_QUANTITY);
        }
        let new_from = from.amount - t;
        let new_to = to.amount + t;
        let mut nf = from;
        nf.amount = new_from;
        let mut nt = to;
        nt.amount = new_to;
        let ghost nodes_pre = nodes@;
        nodes.set(ci, nf);
        nodes.set(cj, nt);
        proof {
            let prev = apply_changes(ns0, cs.take(k as int));
            let stepped = apply_change(prev, c@);
            assert(prev == node_views(nodes_pre));
            assert(prev[c@.i] == from@);
            assert(prev[c@.j] == to@);
            assert(t as int == transfer_of(prev, c@));
            assert(stepped == prev.update(
                c@.i,
                node_with_amount(prev[c@.i], prev[c@.i].amount - t),
            ).update(c@.j, node_with_amount(prev[c@.j], prev[c@.j].amount + t)));
            assert forall|mm: int| 0 <= mm < nodes@.len() implies #[trigger] node_views(
                nodes@,
            )[mm] == stepped[mm] && wf_node(node_views(nodes@)[mm]) && same_place(
                node_views(nodes@)[mm],
                ns0[mm],
            ) by {
                assert(node_views(nodes@)[mm] == nodes@[mm]@);
                assert(node_views(nodes_pre)[mm] == nodes_pre[mm]@);
                if mm == c@.j {
                    assert(nodes@[mm] == nt);
                    assert(stepped[mm] == node_with_amount(prev[c@.j], prev[c@.j].amount + t));
                } else if mm == c@.i {
                    assert(nodes@[mm] == nf);
                    assert(stepped[mm] == node_with_amount(prev[c@.i], prev[c@.i].amount - t));
                } else {
                    assert(nodes@[mm] == nodes_pre[mm]);
                    assert(stepped[mm] == prev[mm]);
                }
            }
            assert(node_views(nodes@) =~= stepped);
            assert(cs.take(k as int + 1).drop_last() =~= cs.take(k as int));
            assert(cs.take(k as int + 1).last() == cs[k as int]);
            assert(apply_changes(ns0, cs.take(k as int + 1)) == apply_change(
                apply_changes(ns0, cs.take(k as int + 1).drop_last()),
                cs.take(k as int + 1).last(),
            ));
        }
        k += 1;
    }
    proof {
        assert(cs.take(nc as int) =~= cs);
    }
}

impl Deck {
    /// Whether some block sits on the cell `(cx, cy)`.
    fn cell_occupied(&self, cx: usize, cy: usize) -> (r: bool)
        ensures
            r == occupied(self@.blocks, cx as int, cy as int),
    {
        let n = self.blocks.len();
        let mut k: usize = 0;
        while k < n
            invariant
                k <= n,
                n == self.blocks@.len(),
                forall|m: int|
                    0 <= m < k ==> !((#[trigger] self@.blocks[m]).x == cx as int
                        && self@.blocks[m].y == cy as int),
            decreases n - k,
        {
            let b = &self.blocks[k];
            proof {
                assert(self@.blocks[k as int] == self.blocks@[k as int]@);
            }
            if b.x == cx && b.y == cy {
                proof {
                    assert(occupied(self@.blocks, cx as int, cy as int));
                }
                return true;
            }
            k += 1;
        }
        proof {
            assert(!occupied(self@.blocks, cx as int, cy as int));
        }
        false
    }

    /// Whether the cell one step of `(dx, dy)` away from `(x, y)` is
    /// occupied. A cell off the grid (a negative coordinate, or one past the
    /// largest address) holds no block.
    fn offset_occupied(&self, x: usize, y: usize, dx: i8, dy: i8) -> (r: bool)
        requires
            -1 <= dx <= 1,
            -1 <= dy <= 1,
        ensures
            r == occupied(self@.blocks, x as int + dx as int, y as int + dy as int),
    {
        proof {
            assert forall|m: int| 0 <= m < self@.blocks.len() implies 0 <= (
            #[trigger] self@.blocks[m]).x <= usize::MAX && 0 <= self@.blocks[m].y
                <= usize::MAX by {
                assert(self@.blocks[m] == self.blocks@[m]@);
            }
        }
        let cx: usize;
        if dx < 0 {
            if x == 0 {
                return false;
            }
            cx = x - 1;
        } else if dx > 0 {
            if x == usize::MAX {
                return false;
            }
            cx = x + 1;
        } else {
            cx = x;
        }
        let cy: usize;
        if dy < 0 {
            if y == 0 {
                return false;
            }
            cy = y - 1;
        } else if dy > 0 {
            if y == usize::MAX {
                return false;
            }
            cy = y + 1;
        } else {
            cy = y;
        }
        self.cell_occupied(cx, cy)
    }

    /// The vacuum exposure of the cell `(x, y)`: summed inverse-distance
    /// weights of its unoccupied neighbours.
    fn vacuum_weight_at(&self, x: usize, y: usize) -> (w: u64)
        ensures
            w as int == vacuum_weight(self@.blocks, x as int, y as int),
            w <= 4 * W_ORTH + 4 * W_DIAG,
    {
        let mut w: u64 = 0;
        if !self.offset_occupied(x, y, -1, -1) {
            w += W_DIAG;
        }
        if !self.offset_occupied(x, y, 0, -1) {
            w += W_ORTH;
        }
        if !self.offset_occupied(x, y, 1, -1) {
            w += W_DIAG;
        }
        if !self.offset_occupied(x, y, -1, 0) {
            w += W_ORTH;
        }
        if !self.offset_occupied(x, y, 1, 0) {
            w += W_ORTH;
        }
        if !self.offset_occupied(x, y, -1, 1) {
            w += W_DIAG;
        }
        if !self.offset_occupied(x, y, 0, 1) {
            w += W_ORTH;
        }
        if !self.offset_occupied(x, y, 1, 1) {
            w += W_DIAG;
        }
        w
    }

    /// Vacuum decay over all nodes: room air with exposed neighbours bleeds
    /// out, everything else is untouched.
    fn apply_vacuum_decay(&self, nodes: &mut Vec<Node>)
        requires
            wf_nodes(node_views(old(nodes)@)),
        ensures
            node_views(final(nodes)@) == decay_nodes(self@.blocks, node_views(old(nodes)@)),
            wf_nodes(node_views(final(nodes)@)),
            final(nodes)@.len() == old(nodes)@.len(),
            forall|m: int|
                0 <= m < old(nodes)@.len() ==> same_place(
                    #[trigger] node_views(final(nodes)@)[m],
                    node_views(old(nodes)@)[m],
                ),
    {
        let ghost bs = self@.blocks;
        let ghost ns1 = node_views(old(nodes)@);
        let n = nodes.len();
        let mut k: usize = 0;
        while k < n
            invariant
                k <= n,
                n == nodes@.len(),
                ns1 == node_views(old(nodes)@),
                ns1.len() == n,
                bs == self@.blocks,
                wf_nodes(ns1),
                forall|m: int|
                    0 <= m < k ==> #[trigger] node_views(nodes@)[m] == decay_node(bs, ns1[m]),
                forall|m: int| k <= m < n ==> #[trigger] node_views(nodes@)[m] == ns1[m],
                wf_nodes(node_views(nodes@)),
            decreases n - k,
        {
            let nd = nodes[k];
            proof {
                assert(node_views(nodes@)[k as int] == nodes@[k as int]@);
                assert(nd@ == ns1[k as int]);
                assert(wf_node(nd@));
            }
            let ghost nodes_pre = nodes@;
            let mut is_exposed = false;
            if nd.amount > 0 {
                match nd.resource {
                    Resource::FreeAir => {
                        is_exposed = true;
                    },
                    _ => {},
                }
            }
            if is_exposed {
                let w = self.vacuum_weight_at(nd.x, nd.y);
                if w > 0 {
                    let factor = DECAY_DEN - w;
                    proof {
                        lemma_mul_upper_bound(
                            nd@.amount,
                            MAX_QUANTITY as int,
                            factor as int,
                            DECAY_DEN as int,
                        );
                        lemma_mul_nonnegative(nd@.amount, factor as int);
                        lemma_mul_inequality(factor as int, DECAY_DEN as int, nd@.amount);
                        lemma_div_is_ordered(
                            nd@.amount * (factor as int),
                            (DECAY_DEN as int) * nd@.amount,
                            DECAY_DEN as int,
                        );
                        lemma_div_multiples_vanish(nd@.amount, DECAY_DEN as int);
                        lemma_div_pos_is_pos(nd@.amount * (factor as int), DECAY_DEN as int);
                        assert(nd@.amount * (factor as int) == (factor as int) * nd@.amount)
                            by (nonlinear_arith);
                    }
                    let prod = (nd.amount as u128) * (factor as u128);
                    let t128 = prod / (DECAY_DEN as u128);
                    let mut nn = nd;
                    nn.amount = t128 as u64;
                    nodes.set(k, nn);
                    proof {
                        assert(nn@ == node_with_amount(nd@, decayed_amount(nd@.amount, w as int)));
                        assert(nn@ == decay_node(bs, ns1[k as int]));
                    }
                }
            }
            proof {
                assert(node_views(nodes@)[k as int] == nodes@[k as int]@);
                assert(node_views(nodes@)[k as int] == decay_node(bs, ns1[k as int]));
                assert forall|m: int| 0 <= m < n && m != k implies #[trigger] node_views(
                    nodes@,
                )[m] == node_views(nodes_pre)[m] by {
                    assert(node_views(nodes@)[m] == nodes@[m]@);
                    assert(node_views(nodes_pre)[m] == nodes_pre[m]@);
                    assert(nodes@[m] == nodes_pre[m]);
                }
            }
            k += 1;
        }
        proof {
            assert(node_views(nodes@) =~= decay_nodes(bs, ns1));
            assert forall|m: int| 0 <= m < n implies same_place(
                #[trigger] node_views(nodes@)[m],
                ns1[m],
            ) by {
                assert(node_views(nodes@)[m] == decay_node(bs, ns1[m]));
            }
        }
    }
}

impl Deck {
    /// Write every node's final amount back into its owning block's pool,
    /// in node order.
    fn write_back_nodes(&mut self, nodes: &Vec<Node>)
        requires
            old(self).wf(),
            forall|k: int|
                0 <= k < node_views(nodes@).len() ==> 0 <= (#[trigger] node_views(nodes@)[k]).i
                    < old(self)@.blocks.len() && 0 <= node_views(nodes@)[k].amount <= MAX_QUANTITY,
        ensures
            final(self).wf(),
            final(self)@.name == old(self)@.name,
            final(self)@.blocks == write_back(old(self)@.blocks, node_views(nodes@)),
    {
        let ghost blocks1 = old(self)@.blocks;
        let ghost nvs = node_views(nodes@);
        let nn = nodes.len();
        proof {
            assert(nvs.take(0) =~= Seq::<NodeModel>::empty());
            assert forall|m: int| 0 <= m < self.blocks@.len() implies (
            #[trigger] self.blocks@[m]).wf() by {
                assert(self@.blocks[m] == self.blocks@[m]@);
                assert(wf_block(self@.blocks[m]));
            }
        }
        let mut k: usize = 0;
        while k < nn
            invariant
                k <= nn,
                nn == nodes@.len(),
                nvs == node_views(nodes@),
                nvs.len() == nn,
                blocks1 == old(self)@.blocks,
                self.blocks@.len() == blocks1.len(),
                self.name@ == old(self)@.name,
                forall|m: int|
                    0 <= m < nn ==> 0 <= (#[trigger] nvs[m]).i < blocks1.len() && 0 <= nvs[m].amount
                        <= MAX_QUANTITY,
                block_views(self.blocks@) == write_back(blocks1, nvs.take(k as int)),
                forall|m: int| 0 <= m < self.blocks@.len() ==> (#[trigger] self.blocks@[m]).wf(),
            decreases nn - k,
        {
            let nd = nodes[k];
            proof {
                assert(nvs[k as int] == nodes@[k as int]@);
            }
            let bi = nd.i;
            let ghost pre = self.blocks@;
            let mut b = self.blocks.remove(bi);
            let ghost mid = self.blocks@;
            proof {
                assert(b == pre[bi as int]);
            }
            b.set_amount(nd.resource, nd.amount);
            self.blocks.insert(bi, b);
            proof {
                assert(self.blocks@.len() == pre.len());
                assert(self.blocks@[bi as int] == b);
                assert forall|m: int|
                    0 <= m < pre.len() && m != bi as int implies #[trigger] self.blocks@[m]
                    == pre[m] by {
                    if m < bi as int {
                        assert(mid[m] == pre[m]);
                        assert(self.blocks@[m] == mid[m]);
                    } else {
                        assert(mid[m - 1] == pre[m]);
                        assert(self.blocks@[m] == mid[m - 1]);
                    }
                }
                let wprev = write_back(blocks1, nvs.take(k as int));
                let wnext = write_node(wprev, nvs[k as int]);
                assert(block_views(pre)[bi as int] == pre[bi as int]@);
                assert(wprev[bi as int] == pre[bi as int]@);
                assert(wnext == wprev.update(
                    nvs[k as int].i,
                    BlockModel {
                        x: wprev[bi as int].x,
                        y: wprev[bi as int].y,
                        kind: wprev[bi as int].kind,
                        resources: set_amount_seq(
                            wprev[bi as int].resources,
                            nvs[k as int].resource,
                            nvs[k as int].amount,
                        ),
                    },
                ));
                assert forall|m: int| 0 <= m < self.blocks@.len() implies #[trigger] block_views(
                    self.blocks@,
                )[m] == wnext[m] && self.blocks@[m].wf() by {
                    assert(block_views(self.blocks@)[m] == self.blocks@[m]@);
                    if m == bi as int {
                        assert(self.blocks@[m] == b);
                    } else {
                        assert(self.blocks@[m] == pre[m]);
                        assert(block_views(pre)[m] == pre[m]@);
                        assert(wnext[m] == wprev[m]);
                        assert(pre[m].wf());
                    }
                }
                assert(block_views(self.blocks@) =~= wnext);
                assert(nvs.take(k as int + 1).drop_last() =~= nvs.take(k as int));
                assert(nvs.take(k as int + 1).last() == nvs[k as int]);
                assert(write_back(blocks1, nvs.take(k as int + 1)) == write_node(
                    write_back(blocks1, nvs.take(k as int + 1).drop_last()),
                    nvs.take(k as int + 1).last(),
                ));
            }
            k += 1;
        }
        proof {
            assert(nvs.take(nn as int) =~= nvs);
            assert forall|m: int| 0 <= m < self@.blocks.len() implies wf_block(
                #[trigger] self@.blocks[m],
            ) by {
                assert(self@.blocks[m] == self.blocks@[m]@);
            }
        }
    }

    /// One tick of the diffusion engine over this deck. Returns whether the
    /// visible state is stale: true exactly when at least one flow change
    /// was recorded (vent pre-transfers and vacuum decay alone do not
    /// report).
    pub fn update(&mut self) -> (redraw: bool)
        requires
            old(self).wf(),
        ensures
            final(self).wf(),
            final(self)@.name == old(self)@.name,
            final(self)@.blocks == tick_blocks(old(self)@.blocks),
            redraw == tick_redraw(old(self)@.blocks),
    {
        let ghost blocks0 = old(self)@.blocks;
        let mut nodes = self.vent_and_extract();
        let ghost ns = node_views(nodes@);
        proof {
            lemma_changes_of_ok(ns);
        }
        let changes = compute_changes(&nodes);
        let redraw = changes.len() > 0;
        proof {
            assert(change_views(changes@).len() == changes@.len());
        }
        apply_all_changes(&mut nodes, &changes);
        self.apply_vacuum_decay(&mut nodes);
        proof {
            assert forall|k: int| 0 <= k < node_views(nodes@).len() implies 0 <= (
            #[trigger] node_views(nodes@)[k]).i < self@.blocks.len() && 0 <= node_views(
                nodes@,
            )[k].amount <= MAX_QUANTITY by {
                assert(same_place(node_views(nodes@)[k], ns[k]));
                assert(wf_node(node_views(nodes@)[k]));
            }
        }
        self.write_back_nodes(&nodes);
        proof {
            assert(self@.blocks == tick_blocks(blocks0));
            assert(redraw == tick_redraw(blocks0));
        }
        redraw
    }
}

/// The change recorded for an eligible frozen pair, with the damped
/// pressure difference held as the exact fraction `num / den`.
fn make_change(i: usize, j: usize, a: &Node, b: &Node) -> (c: Change)
    requires
        wf_node(a@),
        wf_node(b@),
        pressure_gt(a@, b@),
    ensures
        c@ == (ChangeModel {
            i: i as int,
            j: j as int,
            num: a@.amount * b@.capacity - b@.amount * a@.capacity,
            den: 2 * a@.capacity * b@.capacity,
        }),
{
    let lhs = mul_wide(a.amount, b.capacity);
    let rhs = mul_wide(b.amount, a.capacity);
    let cc = mul_wide(a.capacity, b.capacity);
    proof {
        lemma_mul_upper_bound(
            a@.capacity,
            MAX_QUANTITY as int,
            b@.capacity,
            MAX_QUANTITY as int,
        );
        assert(2 * (a@.capacity * b@.capacity) == 2 * a@.capacity * b@.capacity) by (nonlinear_arith);
    }
    Change { i, j, num: lhs - rhs, den: 2 * cc }
}

} // verus!
