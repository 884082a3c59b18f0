//! Engine-wide laws, stated and proved over the tick's model.
//!
//! The lemmas here are the library's statements about whole ticks: flows
//! conserve each resource, receipts never overfill a pool, an equilibrated
//! deck is a fixed point, two adjacent nodes converge without overshoot,
//! vents and decay respect their bounds, and distant nodes never interact.

use vstd::prelude::*;

use vstd::arithmetic::div_mod::{
    lemma_div_is_ordered, lemma_div_multiples_vanish, lemma_div_pos_is_pos,
    lemma_fundamental_div_mod, lemma_mod_bound,
};
use vstd::arithmetic::mul::{
    lemma_mul_inequality, lemma_mul_nonnegative, lemma_mul_strictly_positive,
};

use crate::block::{
    lemma_pool_of_at, lemma_pool_of_some, min_int, pool_of, resource_rank, set_amount_seq,
    vent_pre, vent_transfer, wf_block, wf_pool, BlockKind, BlockModel, PoolModel, Resource,
};
use crate::deck::{
    apply_change, apply_changes, block_nodes, change_between, changes_of, changes_ok, changes_row,
    changes_upto, connected, decay_node, decay_nodes, decayed_amount, eligible, extract_nodes,
    node_with_amount, pressure_gt, room_of, same_place, tick_blocks, tick_redraw, transfer_of,
    transfer_scaled, vacuum_weight, vent_all, wf_blocks, write_back, write_node, ChangeModel,
    NodeModel, DECAY_DEN, W_DIAG, W_ORTH,
};

verus! {

/// The summed amount of one resource across a node list.
pub open spec fn total_nodes(ns: Seq<NodeModel>, r: Resource) -> int
    decreases ns.len(),
{
    if ns.len() == 0 {
        0
    } else {
        total_nodes(ns.drop_last(), r) + if ns.last().resource == r {
            ns.last().amount
        } else {
            0
        }
    }
}

/// The summed amount of one resource across a block's pools.
pub open spec fn total_pools(rs: Seq<(Resource, PoolModel)>, r: Resource) -> int
    decreases rs.len(),
{
    if rs.len() == 0 {
        0
    } else {
        total_pools(rs.drop_last(), r) + if rs.last().0 == r {
            rs.last().1.amount
        } else {
            0
        }
    }
}

/// The amount one block stores of one resource (nothing when the pool is
/// absent).
pub open spec fn pool_amount(b: BlockModel, r: Resource) -> int {
    match pool_of(b.resources, r) {
        Some(p) => p.amount,
        None => 0,
    }
}

/// The summed amount of one resource across a deck's blocks.
pub open spec fn total_blocks(blocks: Seq<BlockModel>, r: Resource) -> int
    decreases blocks.len(),
{
    if blocks.len() == 0 {
        0
    } else {
        total_blocks(blocks.drop_last(), r) + pool_amount(blocks.last(), r)
    }
}

/// Totals add over concatenation.
proof fn lemma_total_nodes_concat(a: Seq<NodeModel>, b: Seq<NodeModel>, r: Resource)
    ensures
        total_nodes(a + b, r) == total_nodes(a, r) + total_nodes(b, r),
    decreases b.len(),
{
    if b.len() == 0 {
        assert(a + b =~= a);
    } else {
        lemma_total_nodes_concat(a, b.drop_last(), r);
        assert((a + b).drop_last() =~= a + b.drop_last());
        assert((a + b).last() == b.last());
    }
}

/// Replacing one node adjusts the total by the difference of its
/// contributions.
proof fn lemma_total_nodes_update(ns: Seq<NodeModel>, k: int, n2: NodeModel, r: Resource)
    requires
        0 <= k < ns.len(),
    ensures
        total_nodes(ns.update(k, n2), r) == total_nodes(ns, r) - (if ns[k].resource == r {
            ns[k].amount
        } else {
            0
        }) + (if n2.resource == r {
            n2.amount
        } else {
            0
        }),
    decreases ns.len(),
{
    let upd = ns.update(k, n2);
    if k == ns.len() - 1 {
        assert(upd.drop_last() =~= ns.drop_last());
        assert(upd.last() == n2);
    } else {
        assert(upd.drop_last() =~= ns.drop_last().update(k, n2));
        assert(upd.last() == ns.last());
        lemma_total_nodes_update(ns.drop_last(), k, n2, r);
    }
}

/// What one change can move: never negative, never more than the source
/// holds, never more than the destination's remaining room.
pub proof fn lemma_transfer_bounds(ns: Seq<NodeModel>, c: ChangeModel)
    requires
        0 <= c.i < ns.len(),
        0 <= c.j < ns.len(),
        0 <= ns[c.i].amount,
        0 < c.num,
        0 < c.den,
    ensures
        0 <= transfer_of(ns, c),
        transfer_of(ns, c) <= ns[c.i].amount,
        transfer_of(ns, c) <= room_of(ns[c.j]),
{
    let m = min_int(ns[c.i].amount, room_of(ns[c.j]));
    let clamped = min_int(c.num, c.den);
    lemma_mul_nonnegative(clamped, m);
    lemma_div_pos_is_pos(clamped * m, c.den);
    lemma_mul_inequality(clamped, c.den, m);
    lemma_div_is_ordered(clamped * m, c.den * m, c.den);
    lemma_div_multiples_vanish(m, c.den);
}

/// Applying one change moves every node at most in its amount: positions,
/// resources, capacities and owners are untouched.
pub proof fn lemma_apply_change_same_place(ns: Seq<NodeModel>, c: ChangeModel)
    ensures
        apply_change(ns, c).len() == ns.len(),
        forall|m: int|
            0 <= m < ns.len() ==> same_place(#[trigger] apply_change(ns, c)[m], ns[m]),
{
}

/// Applying a change list moves every node at most in its amount.
pub proof fn lemma_apply_changes_same_place(ns: Seq<NodeModel>, cs: Seq<ChangeModel>)
    ensures
        apply_changes(ns, cs).len() == ns.len(),
        forall|m: int|
            0 <= m < ns.len() ==> same_place(#[trigger] apply_changes(ns, cs)[m], ns[m]),
    decreases cs.len(),
{
    if cs.len() > 0 {
        lemma_apply_changes_same_place(ns, cs.drop_last());
        lemma_apply_change_same_place(apply_changes(ns, cs.drop_last()), cs.last());
    }
}

/// One change between two nodes of one resource conserves that resource's
/// total (and touches no other).
proof fn lemma_apply_change_total(ns: Seq<NodeModel>, c: ChangeModel, r: Resource)
    requires
        0 <= c.i < ns.len(),
        0 <= c.j < ns.len(),
        c.i != c.j,
        ns[c.i].resource == ns[c.j].resource,
    ensures
        total_nodes(apply_change(ns, c), r) == total_nodes(ns, r),
{
    if c.den > 0 {
        let t = transfer_of(ns, c);
        let ns1 = ns.update(c.i, node_with_amount(ns[c.i], ns[c.i].amount - t));
        lemma_total_nodes_update(ns, c.i, node_with_amount(ns[c.i], ns[c.i].amount - t), r);
        lemma_total_nodes_update(ns1, c.j, node_with_amount(ns1[c.j], ns1[c.j].amount + t), r);
    }
}

/// Applying a recorded change list conserves every resource's total: flows
/// move quantity between nodes of one resource, never create or destroy it.
proof fn lemma_apply_changes_total(
    ns0: Seq<NodeModel>,
    ns: Seq<NodeModel>,
    cs: Seq<ChangeModel>,
    r: Resource,
)
    requires
        changes_ok(ns0, cs),
        ns.len() == ns0.len(),
        forall|m: int| 0 <= m < ns.len() ==> same_place(#[trigger] ns[m], ns0[m]),
    ensures
        total_nodes(apply_changes(ns, cs), r) == total_nodes(ns, r),
    decreases cs.len(),
{
    if cs.len() > 0 {
        let pre = cs.drop_last();
        assert(forall|k: int| 0 <= k < pre.len() ==> #[trigger] pre[k] == cs[k]);
        lemma_apply_changes_total(ns0, ns, pre, r);
        let mid = apply_changes(ns, pre);
        lemma_apply_changes_same_place(ns, pre);
        let c = cs.last();
        assert(cs[cs.len() - 1] == c);
        assert(eligible(ns0[c.i], ns0[c.j]));
        assert(same_place(mid[c.i], ns[c.i]));
        assert(same_place(mid[c.j], ns[c.j]));
        lemma_apply_change_total(mid, c, r);
    }
}

/// Conservation of flows: over one tick's flow pass, the summed amount of
/// every resource across the nodes is exactly unchanged. Vent pre-transfers
/// and vacuum decay are the only parts of a tick that alter totals.
pub proof fn lemma_flows_conserve_total(ns: Seq<NodeModel>, r: Resource)
    ensures
        total_nodes(apply_changes(ns, changes_of(ns)), r) == total_nodes(ns, r),
{
    crate::deck::lemma_changes_of_ok(ns);
    lemma_apply_changes_total(ns, ns, changes_of(ns), r);
}

/// A snapshot without any eligible pair records no change at all.
pub proof fn lemma_changes_of_empty(ns: Seq<NodeModel>)
    requires
        forall|i: int, j: int|
            0 <= i < ns.len() && 0 <= j < ns.len() && i != j ==> !eligible(
                #[trigger] ns[i],
                #[trigger] ns[j],
            ),
    ensures
        changes_of(ns) == Seq::<ChangeModel>::empty(),
{
    assert forall|i: int| 0 <= i < ns.len() implies changes_row(ns, i, ns.len() as int)
        =~= Seq::<ChangeModel>::empty() by {
        lemma_changes_row_empty(ns, i, ns.len() as int);
    }
    lemma_changes_upto_empty(ns, ns.len() as int);
}

proof fn lemma_changes_row_empty(ns: Seq<NodeModel>, i: int, j_end: int)
    requires
        0 <= i < ns.len(),
        j_end <= ns.len(),
        forall|j: int| 0 <= j < ns.len() && j != i ==> !eligible(ns[i], #[trigger] ns[j]),
    ensures
        changes_row(ns, i, j_end) == Seq::<ChangeModel>::empty(),
    decreases j_end,
{
    if j_end > 0 {
        lemma_changes_row_empty(ns, i, j_end - 1);
    }
}

proof fn lemma_changes_upto_empty(ns: Seq<NodeModel>, i_end: int)
    requires
        i_end <= ns.len(),
        forall|i: int, j: int|
            0 <= i < ns.len() && 0 <= j < ns.len() && i != j ==> !eligible(
                #[trigger] ns[i],
                #[trigger] ns[j],
            ),
    ensures
        changes_upto(ns, i_end) == Seq::<ChangeModel>::empty(),
    decreases i_end,
{
    if i_end > 0 {
        lemma_changes_upto_empty(ns, i_end - 1);
        lemma_changes_row_empty(ns, i_end - 1, ns.len() as int);
        assert(changes_upto(ns, i_end) =~= Seq::<ChangeModel>::empty());
    }
}

/// Symmetry of convergence: over one tick's flow pass, two adjacent nodes
/// of one resource with a strict pressure drop move quantity from the higher
/// toward the lower. The pressure order is kept (no overshoot past equality)
/// and the pressure gap never grows, so repeated ticks drive the gap
/// monotonically toward zero without oscillation.
pub proof fn lemma_two_node_convergence(a: NodeModel, b: NodeModel)
    requires
        connected(a, b),
        a.resource == b.resource,
        0 < a.capacity,
        0 < b.capacity,
        0 <= a.amount <= a.capacity,
        0 <= b.amount <= b.capacity,
        pressure_gt(a, b),
    ensures
        changes_of(seq![a, b]).len() == 1,
        ({
            let after = apply_changes(seq![a, b], changes_of(seq![a, b]));
            let gap0 = a.amount * b.capacity - b.amount * a.capacity;
            let gap1 = after[0].amount * b.capacity - after[1].amount * a.capacity;
            &&& after.len() == 2
            &&& same_place(after[0], a)
            &&& same_place(after[1], b)
            &&& 0 <= gap1 <= gap0
            &&& 0 <= after[0].amount <= a.capacity
            &&& 0 <= after[1].amount <= b.capacity
            &&& after[0].amount + after[1].amount == a.amount + b.amount
        }),
{
    let ns = seq![a, b];
    let ca = a.capacity;
    let cb = b.capacity;
    assert(ns[0] == a && ns[1] == b);
    assert(!pressure_gt(b, a));
    let ch = change_between(ns, 0, 1);
    assert(changes_row(ns, 0, 0) == Seq::<ChangeModel>::empty());
    assert(changes_row(ns, 0, 1) == changes_row(ns, 0, 0));
    assert(eligible(ns[0], ns[1]));
    assert(changes_row(ns, 0, 2) == changes_row(ns, 0, 1).push(ch));
    assert(!eligible(ns[1], ns[0]));
    assert(changes_row(ns, 1, 0) == Seq::<ChangeModel>::empty());
    assert(changes_row(ns, 1, 1) == changes_row(ns, 1, 0));
    assert(changes_row(ns, 1, 2) == changes_row(ns, 1, 1));
    assert(changes_upto(ns, 0) == Seq::<ChangeModel>::empty());
    assert(changes_upto(ns, 1) == changes_upto(ns, 0) + changes_row(ns, 0, 2));
    assert(changes_upto(ns, 2) == changes_upto(ns, 1) + changes_row(ns, 1, 2));
    let cs = changes_of(ns);
    assert(cs =~= seq![ch]);
    assert(cs.drop_last() =~= Seq::<ChangeModel>::empty());
    assert(apply_changes(ns, cs.drop_last()) == ns);
    assert(apply_changes(ns, cs) == apply_change(ns, ch));
    let num = ch.num;
    let den = ch.den;
    assert(num == a.amount * cb - b.amount * ca);
    assert(den == 2 * ca * cb);
    lemma_mul_strictly_positive(2 * ca, cb);
    assert(0 < den);
    assert(0 < num);
    let after = apply_change(ns, ch);
    lemma_transfer_bounds(ns, ch);
    let t = transfer_of(ns, ch);
    assert(room_of(ns[1]) == cb - b.amount);
    let m = min_int(a.amount, cb - b.amount);
    assert(t == transfer_scaled(num, den, m));
    assert(after[0] == node_with_amount(a, a.amount - t));
    assert(after[1] == node_with_amount(b, b.amount + t));
    // m * (ca + cb) <= den
    lemma_mul_inequality(m, cb, ca);
    lemma_mul_inequality(m, ca, cb);
    assert(m * (ca + cb) <= den) by (nonlinear_arith)
        requires
            m * ca <= cb * ca,
            m * cb <= ca * cb,
            den == 2 * ca * cb,
    ;
    // t * (ca + cb) <= num
    if num >= den {
        lemma_div_multiples_vanish(m, den);
        assert(t == m);
        assert(t * (ca + cb) <= num);
    } else {
        lemma_fundamental_div_mod(num * m, den);
        lemma_mod_bound(num * m, den);
        assert(den * t <= num * m);
        lemma_mul_nonnegative(num, m);
        assert(t * (ca + cb) <= num) by (nonlinear_arith)
            requires
                den * t <= num * m,
                m * (ca + cb) <= den,
                0 <= num,
                0 < den,
                0 <= t,
                0 <= m,
                0 < ca,
                0 < cb,
        ;
    }
    lemma_mul_nonnegative(t, ca + cb);
    assert((a.amount - t) * cb - (b.amount + t) * ca == (a.amount * cb - b.amount * ca) - t * (ca
        + cb)) by (nonlinear_arith);
}

/// Looking a name up after replacing one name's amount: the capacity is
/// kept, every other name is untouched, and no name appears or disappears.
pub proof fn lemma_pool_of_set_amount(
    rs: Seq<(Resource, PoolModel)>,
    r: Resource,
    v: int,
    r2: Resource,
)
    ensures
        pool_of(set_amount_seq(rs, r, v), r2) == (if r2 == r {
            match pool_of(rs, r) {
                Some(p) => Some(PoolModel { amount: v, capacity: p.capacity }),
                None => None,
            }
        } else {
            pool_of(rs, r2)
        }),
    decreases rs.len(),
{
    if rs.len() > 0 {
        assert(set_amount_seq(rs, r, v)[0] == (if rs[0].0 == r {
            (rs[0].0, PoolModel { amount: v, capacity: rs[0].1.capacity })
        } else {
            rs[0]
        }));
        assert(set_amount_seq(rs, r, v).skip(1) =~= set_amount_seq(rs.skip(1), r, v));
        lemma_pool_of_set_amount(rs.skip(1), r, v, r2);
    }
}

/// The block a group of nodes writes into, one node after the other.
pub open spec fn write_group(b: BlockModel, group: Seq<NodeModel>) -> BlockModel
    decreases group.len(),
{
    if group.len() == 0 {
        b
    } else {
        let b1 = write_group(b, group.drop_last());
        BlockModel {
            x: b1.x,
            y: b1.y,
            kind: b1.kind,
            resources: set_amount_seq(
                b1.resources,
                group.last().resource,
                group.last().amount,
            ),
        }
    }
}

proof fn lemma_write_group_shape(b: BlockModel, group: Seq<NodeModel>)
    ensures
        write_group(b, group).x == b.x,
        write_group(b, group).y == b.y,
        write_group(b, group).kind == b.kind,
        write_group(b, group).resources.len() == b.resources.len(),
    decreases group.len(),
{
    if group.len() > 0 {
        lemma_write_group_shape(b, group.drop_last());
    }
}

/// Writing a group that mirrors the block's own pools (one node per pool,
/// in pool order) replaces exactly each pool's amount by its node's amount.
proof fn lemma_write_group_prefix(b: BlockModel, group: Seq<NodeModel>, m: int)
    requires
        forall|k1: int, k2: int|
            0 <= k1 < k2 < b.resources.len() ==> resource_rank(#[trigger] b.resources[k1].0)
                < resource_rank(#[trigger] b.resources[k2].0),
        group.len() == b.resources.len(),
        forall|q: int|
            0 <= q < group.len() ==> (#[trigger] group[q]).resource == b.resources[q].0,
        0 <= m <= group.len(),
    ensures
        write_group(b, group.take(m)).x == b.x,
        write_group(b, group.take(m)).y == b.y,
        write_group(b, group.take(m)).kind == b.kind,
        write_group(b, group.take(m)).resources.len() == b.resources.len(),
        forall|q: int|
            0 <= q < b.resources.len() ==> #[trigger] write_group(b, group.take(m)).resources[q]
                == (if q < m {
                (
                    b.resources[q].0,
                    PoolModel { amount: group[q].amount, capacity: b.resources[q].1.capacity },
                )
            } else {
                b.resources[q]
            }),
    decreases m,
{
    if m == 0 {
        assert(group.take(0) =~= Seq::<NodeModel>::empty());
    } else {
        lemma_write_group_prefix(b, group, m - 1);
        let gtm = group.take(m);
        assert(gtm.drop_last() =~= group.take(m - 1));
        assert(gtm.last() == group[m - 1]);
        let b1 = write_group(b, group.take(m - 1));
        assert(write_group(b, gtm) == (BlockModel {
            x: b1.x,
            y: b1.y,
            kind: b1.kind,
            resources: set_amount_seq(b1.resources, group[m - 1].resource, group[m - 1].amount),
        }));
        assert forall|q: int| 0 <= q < b.resources.len() implies #[trigger] write_group(
            b,
            gtm,
        ).resources[q] == (if q < m {
            (
                b.resources[q].0,
                PoolModel { amount: group[q].amount, capacity: b.resources[q].1.capacity },
            )
        } else {
            b.resources[q]
        }) by {
            assert(b1.resources[q].0 == b.resources[q].0);
            if q != m - 1 && b.resources[q].0 == b.resources[m - 1].0 {
                if q < m - 1 {
                    assert(resource_rank(b.resources[q].0) < resource_rank(b.resources[m - 1].0));
                } else {
                    assert(resource_rank(b.resources[m - 1].0) < resource_rank(b.resources[q].0));
                }
            }
        }
    }
}

/// Writing a concatenation is writing the first part, then the second.
proof fn lemma_write_back_concat(blocks: Seq<BlockModel>, n1: Seq<NodeModel>, n2: Seq<NodeModel>)
    ensures
        write_back(blocks, n1 + n2) == write_back(write_back(blocks, n1), n2),
    decreases n2.len(),
{
    if n2.len() == 0 {
        assert(n1 + n2 =~= n1);
    } else {
        assert((n1 + n2).drop_last() =~= n1 + n2.drop_last());
        assert((n1 + n2).last() == n2.last());
        lemma_write_back_concat(blocks, n1, n2.drop_last());
    }
}

proof fn lemma_write_back_len(blocks: Seq<BlockModel>, ns: Seq<NodeModel>)
    ensures
        write_back(blocks, ns).len() == blocks.len(),
    decreases ns.len(),
{
    if ns.len() > 0 {
        lemma_write_back_len(blocks, ns.drop_last());
    }
}

/// Nodes that target earlier blocks never touch a block appended at the
/// end.
proof fn lemma_write_back_push(blocks: Seq<BlockModel>, b: BlockModel, ns: Seq<NodeModel>)
    requires
        forall|k: int| 0 <= k < ns.len() ==> 0 <= (#[trigger] ns[k]).i < blocks.len(),
    ensures
        write_back(blocks.push(b), ns) == write_back(blocks, ns).push(b),
    decreases ns.len(),
{
    if ns.len() > 0 {
        assert(forall|k: int|
            0 <= k < ns.drop_last().len() ==> #[trigger] ns.drop_last()[k] == ns[k]);
        lemma_write_back_push(blocks, b, ns.drop_last());
        let x = write_back(blocks, ns.drop_last());
        lemma_write_back_len(blocks, ns.drop_last());
        let n = ns.last();
        assert(ns[ns.len() - 1] == n);
        assert(0 <= n.i < blocks.len());
        assert(write_node(x.push(b), n) == write_node(x, n).push(b)) by {
            assert(x.push(b)[n.i] == x[n.i]);
            assert(write_node(x.push(b), n) =~= write_node(x, n).push(b));
        }
    }
}

/// Nodes that all target one block replace just that block by the group's
/// written result.
proof fn lemma_write_back_last(blocks: Seq<BlockModel>, group: Seq<NodeModel>, g: int)
    requires
        0 <= g,
        g == blocks.len() - 1,
        forall|k: int| 0 <= k < group.len() ==> (#[trigger] group[k]).i == g,
    ensures
        write_back(blocks, group) == blocks.update(g, write_group(blocks[g], group)),
    decreases group.len(),
{
    if group.len() == 0 {
        assert(blocks.update(g, blocks[g]) =~= blocks);
    } else {
        assert(forall|k: int|
            0 <= k < group.drop_last().len() ==> #[trigger] group.drop_last()[k] == group[k]);
        lemma_write_back_last(blocks, group.drop_last(), g);
        let s = blocks.update(g, write_group(blocks[g], group.drop_last()));
        let n = group.last();
        assert(group[group.len() - 1] == n);
        assert(n.i == g);
        assert(s[g] == write_group(blocks[g], group.drop_last()));
        lemma_write_group_shape(blocks[g], group.drop_last());
        assert(write_node(s, n) =~= blocks.update(g, write_group(blocks[g], group)));
    }
}

/// Totals over pools and over nodes agree when they list the same resources
/// and amounts position by position.
proof fn lemma_sums_pointwise(rs: Seq<(Resource, PoolModel)>, ns: Seq<NodeModel>, r: Resource)
    requires
        rs.len() == ns.len(),
        forall|q: int|
            0 <= q < rs.len() ==> (#[trigger] rs[q]).0 == ns[q].resource && rs[q].1.amount
                == ns[q].amount,
    ensures
        total_pools(rs, r) == total_nodes(ns, r),
    decreases rs.len(),
{
    if rs.len() > 0 {
        assert(forall|q: int|
            0 <= q < rs.drop_last().len() ==> #[trigger] rs.drop_last()[q] == rs[q]);
        assert(forall|q: int|
            0 <= q < ns.drop_last().len() ==> #[trigger] ns.drop_last()[q] == ns[q]);
        lemma_sums_pointwise(rs.drop_last(), ns.drop_last(), r);
        assert(rs[rs.len() - 1] == rs.last());
        assert(ns[ns.len() - 1] == ns.last());
    }
}

proof fn lemma_total_pools_absent(rs: Seq<(Resource, PoolModel)>, r: Resource)
    requires
        forall|k: int| 0 <= k < rs.len() ==> (#[trigger] rs[k]).0 != r,
    ensures
        total_pools(rs, r) == 0,
    decreases rs.len(),
{
    if rs.len() > 0 {
        assert(forall|k: int|
            0 <= k < rs.drop_last().len() ==> #[trigger] rs.drop_last()[k] == rs[k]);
        lemma_total_pools_absent(rs.drop_last(), r);
        assert(rs[rs.len() - 1] == rs.last());
    }
}

proof fn lemma_pool_of_drop_last(rs: Seq<(Resource, PoolModel)>, r: Resource)
    requires
        rs.len() > 0,
        rs.last().0 != r,
    ensures
        pool_of(rs, r) == pool_of(rs.drop_last(), r),
    decreases rs.len(),
{
    if rs.len() == 1 {
        assert(rs.drop_last() =~= Seq::<(Resource, PoolModel)>::empty());
    } else if rs[0].0 == r {
        assert(rs.drop_last()[0] == rs[0]);
    } else {
        assert(rs.skip(1).last() == rs.last());
        lemma_pool_of_drop_last(rs.skip(1), r);
        assert(rs.skip(1).drop_last() =~= rs.drop_last().skip(1));
        assert(rs.drop_last()[0] == rs[0]);
    }
}

/// With unique (sorted) names, a block's total of one resource is its one
/// pool's amount.
proof fn lemma_total_pools_single(rs: Seq<(Resource, PoolModel)>, r: Resource)
    requires
        forall|k1: int, k2: int|
            0 <= k1 < k2 < rs.len() ==> resource_rank(#[trigger] rs[k1].0) < resource_rank(
                #[trigger] rs[k2].0,
            ),
    ensures
        total_pools(rs, r) == (match pool_of(rs, r) {
            Some(p) => p.amount,
            None => 0,
        }),
    decreases rs.len(),
{
    if rs.len() > 0 {
        let pre = rs.drop_last();
        assert(forall|k: int| 0 <= k < pre.len() ==> #[trigger] pre[k] == rs[k]);
        assert(rs[rs.len() - 1] == rs.last());
        if rs.last().0 == r {
            lemma_pool_of_at(rs, r, rs.len() - 1);
            assert forall|k: int| 0 <= k < pre.len() implies (#[trigger] pre[k]).0 != r by {
                assert(resource_rank(rs[k].0) < resource_rank(rs[rs.len() - 1].0));
            }
            lemma_total_pools_absent(pre, r);
        } else {
            lemma_pool_of_drop_last(rs, r);
            lemma_total_pools_single(pre, r);
        }
    }
}

/// Every pool of every block holds no more than its capacity.
pub open spec fn pools_within_capacity(blocks: Seq<BlockModel>) -> bool {
    forall|g: int, q: int|
        0 <= g < blocks.len() && 0 <= q < blocks[g].resources.len() ==> (
        #[trigger] blocks[g].resources[q]).1.amount <= blocks[g].resources[q].1.capacity
}

/// Every extracted node points into the deck.
proof fn lemma_extract_indices(blocks: Seq<BlockModel>)
    ensures
        forall|k: int|
            0 <= k < extract_nodes(blocks).len() ==> 0 <= (#[trigger] extract_nodes(
                blocks,
            )[k]).i < blocks.len(),
    decreases blocks.len(),
{
    if blocks.len() > 0 {
        let bs1 = blocks.drop_last();
        let row = block_nodes(blocks.len() - 1, blocks.last());
        lemma_extract_indices(bs1);
        assert forall|k: int| 0 <= k < extract_nodes(blocks).len() implies 0 <= (
        #[trigger] extract_nodes(blocks)[k]).i < blocks.len() by {
            if k < extract_nodes(bs1).len() {
                assert(extract_nodes(blocks)[k] == extract_nodes(bs1)[k]);
            } else {
                assert(extract_nodes(blocks)[k] == row[k - extract_nodes(bs1).len()]);
            }
        }
    }
}

/// Every extracted node carries exactly its pool's amount and capacity.
proof fn lemma_extract_pool_match(blocks: Seq<BlockModel>)
    requires
        wf_blocks(blocks),
    ensures
        forall|k: int|
            0 <= k < extract_nodes(blocks).len() ==> {
                let n = #[trigger] extract_nodes(blocks)[k];
                &&& 0 <= n.i < blocks.len()
                &&& pool_of(blocks[n.i].resources, n.resource) == Some(
                    PoolModel { amount: n.amount, capacity: n.capacity },
                )
            },
    decreases blocks.len(),
{
    if blocks.len() > 0 {
        let bs1 = blocks.drop_last();
        let b = blocks.last();
        let g = blocks.len() - 1;
        let row = block_nodes(g, b);
        assert(forall|m: int| 0 <= m < bs1.len() ==> #[trigger] bs1[m] == blocks[m]);
        assert(wf_blocks(bs1));
        lemma_extract_pool_match(bs1);
        assert(wf_block(b));
        assert forall|k: int| 0 <= k < extract_nodes(blocks).len() implies {
            let n = #[trigger] extract_nodes(blocks)[k];
            &&& 0 <= n.i < blocks.len()
            &&& pool_of(blocks[n.i].resources, n.resource) == Some(
                PoolModel { amount: n.amount, capacity: n.capacity },
            )
        } by {
            if k < extract_nodes(bs1).len() {
                assert(extract_nodes(blocks)[k] == extract_nodes(bs1)[k]);
                let n = extract_nodes(bs1)[k];
                assert(blocks[n.i] == bs1[n.i]);
            } else {
                let q = k - extract_nodes(bs1).len();
                assert(extract_nodes(blocks)[k] == row[q]);
                assert(row[q].resource == b.resources[q].0);
                lemma_pool_of_at(b.resources, b.resources[q].0, q);
            }
        }
    }
}

/// Every extracted node of a deck whose pools sit within their capacities
/// holds no more than its capacity.
proof fn lemma_extract_within(blocks: Seq<BlockModel>)
    requires
        wf_blocks(blocks),
        pools_within_capacity(blocks),
    ensures
        forall|k: int|
            0 <= k < extract_nodes(blocks).len() ==> 0 <= (#[trigger] extract_nodes(
                blocks,
            )[k]).amount <= extract_nodes(blocks)[k].capacity,
{
    lemma_extract_pool_match(blocks);
    assert forall|k: int| 0 <= k < extract_nodes(blocks).len() implies 0 <= (
    #[trigger] extract_nodes(blocks)[k]).amount <= extract_nodes(blocks)[k].capacity by {
        let n = extract_nodes(blocks)[k];
        lemma_pool_of_some(blocks[n.i].resources, n.resource);
        let q = choose|q: int|
            0 <= q < blocks[n.i].resources.len() && #[trigger] blocks[n.i].resources[q].0
                == n.resource && blocks[n.i].resources[q].1 == pool_of(
                blocks[n.i].resources,
                n.resource,
            )->Some_0;
        assert(blocks[n.i].resources[q].1.amount <= blocks[n.i].resources[q].1.capacity);
        assert(wf_pool(blocks[n.i].resources[q].1));
    }
}

/// The shared shape of the write-back inductions: the last block's group of
/// nodes mirrors its pools, and the rest write into the front.
proof fn lemma_write_back_split(blocks: Seq<BlockModel>, ns: Seq<NodeModel>)
    requires
        blocks.len() > 0,
        ns.len() == extract_nodes(blocks).len(),
        forall|k: int|
            0 <= k < ns.len() ==> same_place(#[trigger] ns[k], extract_nodes(blocks)[k]),
    ensures
        ({
            let bs1 = blocks.drop_last();
            let b = blocks.last();
            let g = blocks.len() - 1;
            let off = extract_nodes(bs1).len() as int;
            let na = ns.take(off);
            let nb2 = ns.skip(off);
            &&& ns.len() == off + block_nodes(g, b).len()
            &&& na.len() == off
            &&& nb2.len() == b.resources.len()
            &&& forall|k: int| 0 <= k < na.len() ==> same_place(#[trigger] na[k], extract_nodes(bs1)[k])
            &&& forall|q: int| 0 <= q < nb2.len() ==> same_place(#[trigger] nb2[q], block_nodes(g, b)[q])
            &&& forall|q: int| 0 <= q < nb2.len() ==> (#[trigger] nb2[q]).i == g
            &&& forall|q: int| 0 <= q < nb2.len() ==> (#[trigger] nb2[q]).resource == b.resources[q].0
            &&& forall|q: int| 0 <= q < nb2.len() ==> (#[trigger] nb2[q]).capacity == b.resources[q].1.capacity
            &&& write_back(blocks, ns) == write_back(write_back(blocks.drop_last(), na).push(b), nb2)
        }),
{
    let bs1 = blocks.drop_last();
    let b = blocks.last();
    let g = blocks.len() - 1;
    let ext1 = extract_nodes(bs1);
    let row = block_nodes(g, b);
    assert(extract_nodes(blocks) == ext1 + row);
    let off = ext1.len() as int;
    let na = ns.take(off);
    let nb2 = ns.skip(off);
    assert(ns =~= na + nb2);
    assert forall|k: int| 0 <= k < na.len() implies same_place(#[trigger] na[k], ext1[k]) by {
        assert(na[k] == ns[k]);
        assert((ext1 + row)[k] == ext1[k]);
        assert(same_place(ns[k], extract_nodes(blocks)[k]));
    }
    assert forall|q: int| 0 <= q < nb2.len() implies same_place(#[trigger] nb2[q], row[q])
        && nb2[q].i == g && nb2[q].resource == b.resources[q].0 && nb2[q].capacity
        == b.resources[q].1.capacity by {
        assert(nb2[q] == ns[off + q]);
        assert((ext1 + row)[off + q] == row[q]);
        assert(same_place(ns[off + q], extract_nodes(blocks)[off + q]));
        assert(row[q] == (NodeModel {
            i: g,
            x: b.x,
            y: b.y,
            resource: b.resources[q].0,
            amount: b.resources[q].1.amount,
            capacity: b.resources[q].1.capacity,
        }));
    }
    lemma_extract_indices(bs1);
    assert forall|k: int| 0 <= k < na.len() implies 0 <= (#[trigger] na[k]).i < bs1.len() by {
        assert(same_place(na[k], ext1[k]));
    }
    lemma_write_back_concat(blocks, na, nb2);
    assert(write_back(blocks, ns) == write_back(write_back(blocks, na), nb2));
    assert(blocks =~= bs1.push(b));
    lemma_write_back_push(bs1, b, na);
}

/// Writing a skeleton-matching node list back: the deck's total of every
/// resource afterwards is the node list's total. Every pool is overwritten
/// by exactly its one node.
proof fn lemma_write_back_total(blocks: Seq<BlockModel>, ns: Seq<NodeModel>, r: Resource)
    requires
        wf_blocks(blocks),
        ns.len() == extract_nodes(blocks).len(),
        forall|k: int|
            0 <= k < ns.len() ==> same_place(#[trigger] ns[k], extract_nodes(blocks)[k]),
    ensures
        total_blocks(write_back(blocks, ns), r) == total_nodes(ns, r),
    decreases blocks.len(),
{
    if blocks.len() == 0 {
        assert(ns.len() == 0);
    } else {
        let bs1 = blocks.drop_last();
        let b = blocks.last();
        let g = blocks.len() - 1;
        let off = extract_nodes(bs1).len() as int;
        let na = ns.take(off);
        let nb2 = ns.skip(off);
        lemma_write_back_split(blocks, ns);
        assert(forall|m: int| 0 <= m < bs1.len() ==> #[trigger] bs1[m] == blocks[m]);
        assert(wf_blocks(bs1));
        lemma_write_back_total(bs1, na, r);
        let x = write_back(bs1, na);
        lemma_write_back_len(bs1, na);
        lemma_write_back_last(x.push(b), nb2, g);
        let wg = write_group(b, nb2);
        assert(x.push(b)[g] == b);
        assert(x.push(b).update(g, wg) =~= x.push(wg));
        assert(wf_block(b));
        lemma_write_group_prefix(b, nb2, nb2.len() as int);
        assert(nb2.take(nb2.len() as int) =~= nb2);
        let wrs = wg.resources;
        assert forall|q: int| 0 <= q < wrs.len() implies (#[trigger] wrs[q]).0 == nb2[q].resource
            && wrs[q].1.amount == nb2[q].amount by {
            assert(wrs[q] == (
                b.resources[q].0,
                PoolModel { amount: nb2[q].amount, capacity: b.resources[q].1.capacity },
            ));
        }
        lemma_sums_pointwise(wrs, nb2, r);
        assert forall|k1: int, k2: int| 0 <= k1 < k2 < wrs.len() implies resource_rank(
            (#[trigger] wrs[k1]).0,
        ) < resource_rank((#[trigger] wrs[k2]).0) by {
            assert(wrs[k1].0 == b.resources[k1].0);
            assert(wrs[k2].0 == b.resources[k2].0);
        }
        lemma_total_pools_single(wrs, r);
        assert((x.push(wg)).drop_last() =~= x);
        assert((x.push(wg)).last() == wg);
        assert(total_blocks(x.push(wg), r) == total_blocks(x, r) + pool_amount(wg, r));
        lemma_total_nodes_concat(na, nb2, r);
        assert(na + nb2 =~= ns);
    }
}

/// Writing the freshly extracted, unmodified nodes back is the identity.
proof fn lemma_write_back_identity(blocks: Seq<BlockModel>)
    requires
        wf_blocks(blocks),
    ensures
        write_back(blocks, extract_nodes(blocks)) == blocks,
    decreases blocks.len(),
{
    let ns = extract_nodes(blocks);
    if blocks.len() > 0 {
        let bs1 = blocks.drop_last();
        let b = blocks.last();
        let g = blocks.len() - 1;
        let off = extract_nodes(bs1).len() as int;
        let na = ns.take(off);
        let nb2 = ns.skip(off);
        assert forall|k: int| 0 <= k < ns.len() implies same_place(#[trigger] ns[k], ns[k]) by {}
        lemma_write_back_split(blocks, ns);
        assert(na =~= extract_nodes(bs1));
        assert(forall|m: int| 0 <= m < bs1.len() ==> #[trigger] bs1[m] == blocks[m]);
        assert(wf_blocks(bs1));
        lemma_write_back_identity(bs1);
        let x = write_back(bs1, na);
        assert(x == bs1);
        lemma_write_back_last(x.push(b), nb2, g);
        let wg = write_group(b, nb2);
        assert(x.push(b)[g] == b);
        assert(wf_block(b));
        lemma_write_group_prefix(b, nb2, nb2.len() as int);
        assert(nb2.take(nb2.len() as int) =~= nb2);
        assert forall|q: int| 0 <= q < b.resources.len() implies #[trigger] wg.resources[q]
            == b.resources[q] by {
            let row = block_nodes(g, b);
            assert(nb2[q] == row[q]);
            assert(row[q].amount == b.resources[q].1.amount);
            assert(wg.resources[q] == (
                b.resources[q].0,
                PoolModel { amount: nb2[q].amount, capacity: b.resources[q].1.capacity },
            ));
        }
        assert(wg.resources =~= b.resources);
        assert(wg =~= b);
        assert(x.push(b).update(g, wg) =~= blocks);
    }
}

/// Writing back nodes that sit within their capacities leaves every pool of
/// the deck within its capacity.
proof fn lemma_write_back_caps(blocks: Seq<BlockModel>, ns: Seq<NodeModel>)
    requires
        wf_blocks(blocks),
        ns.len() == extract_nodes(blocks).len(),
        forall|k: int|
            0 <= k < ns.len() ==> same_place(#[trigger] ns[k], extract_nodes(blocks)[k]),
        forall|k: int| 0 <= k < ns.len() ==> 0 <= (#[trigger] ns[k]).amount <= ns[k].capacity,
    ensures
        pools_within_capacity(write_back(blocks, ns)),
    decreases blocks.len(),
{
    if blocks.len() == 0 {
        assert(ns.len() == 0);
    } else {
        let bs1 = blocks.drop_last();
        let b = blocks.last();
        let g = blocks.len() - 1;
        let off = extract_nodes(bs1).len() as int;
        let na = ns.take(off);
        let nb2 = ns.skip(off);
        lemma_write_back_split(blocks, ns);
        assert(forall|m: int| 0 <= m < bs1.len() ==> #[trigger] bs1[m] == blocks[m]);
        assert(wf_blocks(bs1));
        assert(forall|k: int| 0 <= k < na.len() ==> #[trigger] na[k] == ns[k]);
        lemma_write_back_caps(bs1, na);
        let x = write_back(bs1, na);
        lemma_write_back_len(bs1, na);
        lemma_write_back_last(x.push(b), nb2, g);
        let wg = write_group(b, nb2);
        assert(x.push(b)[g] == b);
        assert(wf_block(b));
        lemma_write_group_prefix(b, nb2, nb2.len() as int);
        assert(nb2.take(nb2.len() as int) =~= nb2);
        let res = x.push(b).update(g, wg);
        assert(res =~= x.push(wg));
        assert forall|g2: int, q: int|
            0 <= g2 < res.len() && 0 <= q < res[g2].resources.len() implies (
        #[trigger] res[g2].resources[q]).1.amount <= res[g2].resources[q].1.capacity by {
            if g2 == g {
                assert(res[g2] == wg);
                assert(wg.resources[q] == (
                    b.resources[q].0,
                    PoolModel { amount: nb2[q].amount, capacity: b.resources[q].1.capacity },
                ));
                assert(nb2[q] == ns[off + q]);
                assert(0 <= ns[off + q].amount <= ns[off + q].capacity);
                assert(nb2[q].capacity == b.resources[q].1.capacity);
            } else {
                assert(res[g2] == x[g2]);
                assert(x[g2].resources[q].1.amount <= x[g2].resources[q].1.capacity);
            }
        }
    }
}

/// Vent transfer bound: the pre-transfer moves exactly `vent_transfer`
/// units, never negative, never more than the stored air, and never past
/// the room-air pool's capacity; every other pool and every capacity is
/// untouched.
pub proof fn lemma_vent_transfer_bound(b: BlockModel)
    requires
        b.kind == BlockKind::Vent,
        pool_of(b.resources, Resource::Air) is Some,
        pool_of(b.resources, Resource::FreeAir) is Some,
    ensures
        ({
            let air = pool_of(b.resources, Resource::Air)->Some_0;
            let fa = pool_of(b.resources, Resource::FreeAir)->Some_0;
            let t = vent_transfer(b);
            &&& 0 <= t
            &&& t <= if air.amount >= 0 {
                air.amount
            } else {
                0
            }
            &&& pool_of(vent_pre(b).resources, Resource::Air) == Some(
                PoolModel { amount: air.amount - t, capacity: air.capacity },
            )
            &&& pool_of(vent_pre(b).resources, Resource::FreeAir) == Some(
                PoolModel { amount: fa.amount + t, capacity: fa.capacity },
            )
            &&& (fa.amount <= fa.capacity ==> fa.amount + t <= fa.capacity)
        }),
        forall|r2: Resource|
            r2 != Resource::Air && r2 != Resource::FreeAir ==> #[trigger] pool_of(
                vent_pre(b).resources,
                r2,
            ) == pool_of(b.resources, r2),
{
    let air = pool_of(b.resources, Resource::Air)->Some_0;
    let fa = pool_of(b.resources, Resource::FreeAir)->Some_0;
    let t = vent_transfer(b);
    if air.amount > 0 && fa.amount < fa.capacity {
        let set1 = set_amount_seq(b.resources, Resource::Air, air.amount - t);
        lemma_pool_of_set_amount(b.resources, Resource::Air, air.amount - t, Resource::Air);
        lemma_pool_of_set_amount(b.resources, Resource::Air, air.amount - t, Resource::FreeAir);
        lemma_pool_of_set_amount(set1, Resource::FreeAir, fa.amount + t, Resource::Air);
        lemma_pool_of_set_amount(set1, Resource::FreeAir, fa.amount + t, Resource::FreeAir);
        assert forall|r2: Resource|
            r2 != Resource::Air && r2 != Resource::FreeAir implies #[trigger] pool_of(
            vent_pre(b).resources,
            r2,
        ) == pool_of(b.resources, r2) by {
            lemma_pool_of_set_amount(b.resources, Resource::Air, air.amount - t, r2);
            lemma_pool_of_set_amount(set1, Resource::FreeAir, fa.amount + t, r2);
        }
    }
}

/// A vent whose pre-transfer is zero leaves its block exactly as it is; a
/// deck of such blocks is untouched by the vent pass.
pub proof fn lemma_vent_all_inactive(blocks: Seq<BlockModel>)
    requires
        forall|g: int| 0 <= g < blocks.len() ==> vent_transfer(#[trigger] blocks[g]) == 0,
    ensures
        vent_all(blocks) == blocks,
{
    assert forall|g: int| 0 <= g < blocks.len() implies vent_pre(#[trigger] blocks[g])
        == blocks[g] by {}
    assert(vent_all(blocks) =~= blocks);
}

/// The vent pre-transfer keeps a block well formed, and keeps every pool
/// within its capacity if they all were.
proof fn lemma_vent_pre_wf(b: BlockModel)
    requires
        wf_block(b),
    ensures
        wf_block(vent_pre(b)),
        vent_pre(b).x == b.x,
        vent_pre(b).y == b.y,
        vent_pre(b).kind == b.kind,
        vent_pre(b).resources.len() == b.resources.len(),
        forall|q: int|
            0 <= q < b.resources.len() ==> (#[trigger] vent_pre(b).resources[q]).0
                == b.resources[q].0 && vent_pre(b).resources[q].1.capacity
                == b.resources[q].1.capacity,
        (forall|q: int|
            0 <= q < b.resources.len() ==> (#[trigger] b.resources[q]).1.amount
                <= b.resources[q].1.capacity) ==> (forall|q: int|
            0 <= q < vent_pre(b).resources.len() ==> (#[trigger] vent_pre(b).resources[q]).1.amount
                <= vent_pre(b).resources[q].1.capacity),
{
    let vb = vent_pre(b);
    if b.kind == BlockKind::Vent && pool_of(b.resources, Resource::Air) is Some && pool_of(
        b.resources,
        Resource::FreeAir,
    ) is Some {
        let air = pool_of(b.resources, Resource::Air)->Some_0;
        let fa = pool_of(b.resources, Resource::FreeAir)->Some_0;
        if air.amount > 0 && fa.amount < fa.capacity {
            let t = min_int(air.amount, fa.capacity - fa.amount);
            lemma_pool_of_some(b.resources, Resource::Air);
            lemma_pool_of_some(b.resources, Resource::FreeAir);
            let ka = choose|k: int|
                0 <= k < b.resources.len() && #[trigger] b.resources[k].0 == Resource::Air
                    && b.resources[k].1 == air;
            let kf = choose|k: int|
                0 <= k < b.resources.len() && #[trigger] b.resources[k].0 == Resource::FreeAir
                    && b.resources[k].1 == fa;
            assert forall|q: int| 0 <= q < vb.resources.len() implies wf_pool(
                (#[trigger] vb.resources[q]).1,
            ) && vb.resources[q].0 == b.resources[q].0 && vb.resources[q].1.capacity
                == b.resources[q].1.capacity && ((forall|q2: int|
                0 <= q2 < b.resources.len() ==> (#[trigger] b.resources[q2]).1.amount
                    <= b.resources[q2].1.capacity) ==> vb.resources[q].1.amount
                <= vb.resources[q].1.capacity) by {
                assert(wf_pool(b.resources[q].1));
                if b.resources[q].0 == Resource::Air {
                    if q != ka {
                        assert(resource_rank(b.resources[q].0) != resource_rank(
                            b.resources[ka].0,
                        )) by {
                            if q < ka {
                                assert(resource_rank(b.resources[q].0) < resource_rank(
                                    b.resources[ka].0,
                                ));
                            } else {
                                assert(resource_rank(b.resources[ka].0) < resource_rank(
                                    b.resources[q].0,
                                ));
                            }
                        }
                    }
                    assert(q == ka);
                } else if b.resources[q].0 == Resource::FreeAir {
                    if q != kf {
                        if q < kf {
                            assert(resource_rank(b.resources[q].0) < resource_rank(
                                b.resources[kf].0,
                            ));
                        } else {
                            assert(resource_rank(b.resources[kf].0) < resource_rank(
                                b.resources[q].0,
                            ));
                        }
                    }
                    assert(q == kf);
                }
            }
        }
    }
}

/// The vent pass keeps a deck well formed and its pools within capacity.
proof fn lemma_vent_all_wf(blocks: Seq<BlockModel>)
    requires
        wf_blocks(blocks),
    ensures
        wf_blocks(vent_all(blocks)),
        pools_within_capacity(blocks) ==> pools_within_capacity(vent_all(blocks)),
{
    assert forall|g: int| 0 <= g < vent_all(blocks).len() implies wf_block(
        #[trigger] vent_all(blocks)[g],
    ) by {
        assert(vent_all(blocks)[g] == vent_pre(blocks[g]));
        lemma_vent_pre_wf(blocks[g]);
    }
    if pools_within_capacity(blocks) {
        assert forall|g: int, q: int|
            0 <= g < vent_all(blocks).len() && 0 <= q < vent_all(blocks)[g].resources.len() implies (
        #[trigger] vent_all(blocks)[g].resources[q]).1.amount
            <= vent_all(blocks)[g].resources[q].1.capacity by {
            assert(vent_all(blocks)[g] == vent_pre(blocks[g]));
            lemma_vent_pre_wf(blocks[g]);
            assert(forall|q2: int|
                0 <= q2 < blocks[g].resources.len() ==> (#[trigger] blocks[g].resources[q2]).1.amount
                    <= blocks[g].resources[q2].1.capacity);
        }
    }
}

/// The vacuum exposure of any cell: at least nothing, at most all eight
/// neighbours empty.
pub proof fn lemma_vacuum_weight_range(blocks: Seq<BlockModel>, x: int, y: int)
    ensures
        0 <= vacuum_weight(blocks, x, y) <= 4 * (W_ORTH as int) + 4 * (W_DIAG as int),
{
}

/// Vacuum decay magnitude: decay scales an amount by `1 - w / 100` at the
/// weights' scale, truncating toward zero; it never makes air and never
/// empties a pool below zero.
pub proof fn lemma_decay_bounds(amount: int, w: int)
    requires
        0 <= amount,
        0 <= w <= DECAY_DEN,
    ensures
        0 <= decayed_amount(amount, w) <= amount,
{
    lemma_mul_nonnegative(amount, (DECAY_DEN - w) as int);
    lemma_div_pos_is_pos(amount * ((DECAY_DEN - w) as int), DECAY_DEN as int);
    lemma_mul_inequality((DECAY_DEN - w) as int, DECAY_DEN as int, amount);
    lemma_div_is_ordered(
        amount * ((DECAY_DEN - w) as int),
        (DECAY_DEN as int) * amount,
        DECAY_DEN as int,
    );
    lemma_div_multiples_vanish(amount, DECAY_DEN as int);
    assert(amount * ((DECAY_DEN - w) as int) == ((DECAY_DEN - w) as int) * amount)
        by (nonlinear_arith);
}

/// Decay moves no node and only ever lowers a room-air amount.
pub proof fn lemma_decay_node_bounds(blocks: Seq<BlockModel>, n: NodeModel)
    requires
        0 <= n.amount,
    ensures
        same_place(decay_node(blocks, n), n),
        0 <= decay_node(blocks, n).amount <= n.amount,
{
    if n.resource == Resource::FreeAir && n.amount > 0 {
        let w = vacuum_weight(blocks, n.x, n.y);
        lemma_vacuum_weight_range(blocks, n.x, n.y);
        if w > 0 {
            lemma_decay_bounds(n.amount, w);
        }
    }
}

/// Capacity non-violation on receipt, for one change: the destination ends
/// at most exactly full, the source at least exactly empty.
pub proof fn lemma_apply_change_caps(ns: Seq<NodeModel>, c: ChangeModel)
    requires
        forall|m: int| 0 <= m < ns.len() ==> 0 <= (#[trigger] ns[m]).amount <= ns[m].capacity,
        0 <= c.i < ns.len(),
        0 <= c.j < ns.len(),
        c.i != c.j,
        0 < c.num,
        0 < c.den,
    ensures
        forall|m: int|
            0 <= m < ns.len() ==> 0 <= (#[trigger] apply_change(ns, c)[m]).amount <= apply_change(
                ns,
                c,
            )[m].capacity,
{
    lemma_transfer_bounds(ns, c);
}

/// Capacity non-violation over a whole recorded change list.
proof fn lemma_apply_changes_caps(ns0: Seq<NodeModel>, ns: Seq<NodeModel>, cs: Seq<ChangeModel>)
    requires
        changes_ok(ns0, cs),
        ns.len() == ns0.len(),
        forall|m: int| 0 <= m < ns.len() ==> same_place(#[trigger] ns[m], ns0[m]),
        forall|m: int| 0 <= m < ns.len() ==> 0 <= (#[trigger] ns[m]).amount <= ns[m].capacity,
    ensures
        forall|m: int|
            0 <= m < ns.len() ==> 0 <= (#[trigger] apply_changes(ns, cs)[m]).amount
                <= apply_changes(ns, cs)[m].capacity,
    decreases cs.len(),
{
    if cs.len() > 0 {
        let pre = cs.drop_last();
        assert(forall|k: int| 0 <= k < pre.len() ==> #[trigger] pre[k] == cs[k]);
        lemma_apply_changes_caps(ns0, ns, pre);
        let mid = apply_changes(ns, pre);
        lemma_apply_changes_same_place(ns, pre);
        let c = cs.last();
        assert(cs[cs.len() - 1] == c);
        assert(eligible(ns0[c.i], ns0[c.j]));
        assert(c == change_between(ns0, c.i, c.j));
        lemma_mul_strictly_positive(2 * ns0[c.i].capacity, ns0[c.j].capacity);
        lemma_apply_change_caps(mid, c);
    }
}

/// Conservation: for a tick in which no vent pre-transfer fires and no
/// block holds a room-air pool, the deck-wide total of every resource is
/// exactly unchanged: flows only move quantity between connected pools.
pub proof fn lemma_tick_conserves_resource(blocks: Seq<BlockModel>, r: Resource)
    requires
        wf_blocks(blocks),
        forall|g: int| 0 <= g < blocks.len() ==> vent_transfer(#[trigger] blocks[g]) == 0,
        forall|g: int|
            0 <= g < blocks.len() ==> pool_of(
                (#[trigger] blocks[g]).resources,
                Resource::FreeAir,
            ) is None,
    ensures
        total_blocks(tick_blocks(blocks), r) == total_blocks(blocks, r),
{
    lemma_vent_all_inactive(blocks);
    let ns = extract_nodes(blocks);
    let cs = changes_of(ns);
    let flowed = apply_changes(ns, cs);
    lemma_extract_pool_match(blocks);
    assert forall|k: int| 0 <= k < ns.len() implies (#[trigger] ns[k]).resource
        != Resource::FreeAir by {
        if ns[k].resource == Resource::FreeAir {
            assert(pool_of(blocks[ns[k].i].resources, Resource::FreeAir) is Some);
        }
    }
    lemma_apply_changes_same_place(ns, cs);
    assert forall|k: int| 0 <= k < flowed.len() implies #[trigger] decay_node(blocks, flowed[k])
        == flowed[k] by {
        assert(same_place(flowed[k], ns[k]));
    }
    assert(decay_nodes(blocks, flowed) =~= flowed);
    lemma_flows_conserve_total(ns, r);
    lemma_extract_total(blocks, r);
    lemma_write_back_total(blocks, flowed, r);
}

/// The total of every resource across an extracted node list is the deck's
/// total of that resource.
pub proof fn lemma_extract_total(blocks: Seq<BlockModel>, r: Resource)
    requires
        wf_blocks(blocks),
    ensures
        total_nodes(extract_nodes(blocks), r) == total_blocks(blocks, r),
    decreases blocks.len(),
{
    if blocks.len() > 0 {
        let bs1 = blocks.drop_last();
        let b = blocks.last();
        let row = block_nodes(blocks.len() - 1, b);
        assert(forall|m: int| 0 <= m < bs1.len() ==> #[trigger] bs1[m] == blocks[m]);
        assert(wf_blocks(bs1));
        lemma_extract_total(bs1, r);
        lemma_total_nodes_concat(extract_nodes(bs1), row, r);
        assert(wf_block(b));
        assert forall|q: int| 0 <= q < b.resources.len() implies (#[trigger] b.resources[q]).0
            == row[q].resource && b.resources[q].1.amount == row[q].amount by {
            assert(row[q] == (NodeModel {
                i: blocks.len() - 1,
                x: b.x,
                y: b.y,
                resource: b.resources[q].0,
                amount: b.resources[q].1.amount,
                capacity: b.resources[q].1.capacity,
            }));
        }
        lemma_sums_pointwise(b.resources, row, r);
        lemma_total_pools_single(b.resources, r);
    }
}

/// Capacity non-violation over a whole tick: a deck whose pools all sit
/// within their capacities still does after the tick. Receipts are clamped
/// at exactly filling the destination; decay only lowers amounts.
pub proof fn lemma_tick_respects_capacity(blocks: Seq<BlockModel>)
    requires
        wf_blocks(blocks),
        pools_within_capacity(blocks),
    ensures
        pools_within_capacity(tick_blocks(blocks)),
{
    lemma_vent_all_wf(blocks);
    let vented = vent_all(blocks);
    let ns = extract_nodes(vented);
    let cs = changes_of(ns);
    let flowed = apply_changes(ns, cs);
    let decayed = decay_nodes(vented, flowed);
    lemma_extract_within(vented);
    crate::deck::lemma_changes_of_ok(ns);
    assert(forall|k: int| 0 <= k < ns.len() ==> same_place(#[trigger] ns[k], ns[k]));
    lemma_apply_changes_caps(ns, ns, cs);
    lemma_apply_changes_same_place(ns, cs);
    assert forall|k: int| 0 <= k < decayed.len() implies same_place(
        #[trigger] decayed[k],
        extract_nodes(vented)[k],
    ) && 0 <= decayed[k].amount <= decayed[k].capacity by {
        assert(decayed[k] == decay_node(vented, flowed[k]));
        lemma_decay_node_bounds(vented, flowed[k]);
        assert(same_place(flowed[k], ns[k]));
    }
    lemma_write_back_caps(vented, decayed);
}

/// Idempotence at equilibrium: when no vent pre-transfer fires, every pair
/// of connected same-resource nodes with defined pressures has equal
/// pressure, and no positive room-air pool is exposed to vacuum, a tick
/// records no change, reports no redraw, and leaves the deck exactly as it
/// is.
pub proof fn lemma_tick_equilibrium(blocks: Seq<BlockModel>)
    requires
        wf_blocks(blocks),
        forall|g: int| 0 <= g < blocks.len() ==> vent_transfer(#[trigger] blocks[g]) == 0,
        forall|i: int, j: int|
            #![trigger extract_nodes(blocks)[i], extract_nodes(blocks)[j]]
            (0 <= i < extract_nodes(blocks).len() && 0 <= j < extract_nodes(blocks).len() && i != j
                && connected(extract_nodes(blocks)[i], extract_nodes(blocks)[j])
                && extract_nodes(blocks)[i].resource == extract_nodes(blocks)[j].resource
                && extract_nodes(blocks)[i].capacity > 0 && extract_nodes(blocks)[j].capacity > 0)
                ==> extract_nodes(blocks)[i].amount * extract_nodes(blocks)[j].capacity
                == extract_nodes(blocks)[j].amount * extract_nodes(blocks)[i].capacity,
        forall|k: int|
            #![trigger extract_nodes(blocks)[k]]
            (0 <= k < extract_nodes(blocks).len() && extract_nodes(blocks)[k].resource
                == Resource::FreeAir && extract_nodes(blocks)[k].amount > 0) ==> vacuum_weight(
                blocks,
                extract_nodes(blocks)[k].x,
                extract_nodes(blocks)[k].y,
            ) == 0,
    ensures
        tick_blocks(blocks) == blocks,
        !tick_redraw(blocks),
{
    lemma_vent_all_inactive(blocks);
    let ns = extract_nodes(blocks);
    assert forall|i: int, j: int|
        0 <= i < ns.len() && 0 <= j < ns.len() && i != j implies !eligible(
        #[trigger] ns[i],
        #[trigger] ns[j],
    ) by {}
    lemma_changes_of_empty(ns);
    assert(apply_changes(ns, changes_of(ns)) == ns);
    assert forall|k: int| 0 <= k < ns.len() implies #[trigger] decay_node(blocks, ns[k])
        == ns[k] by {}
    assert(decay_nodes(blocks, ns) =~= ns);
    lemma_write_back_identity(blocks);
}

/// Symmetry of convergence over a whole tick: a deck of two adjacent
/// blocks, each holding one pool of one resource other than room air, with
/// a strict pressure drop between them, converges: the tick conserves the
/// pair's total, both pools stay within their capacities, the pressure
/// order is kept, the pressure gap never grows, and the tick reports a
/// redraw. Repeated ticks therefore drive the gap monotonically toward
/// zero.
pub proof fn lemma_tick_two_block_convergence(blocks: Seq<BlockModel>, r: Resource)
    requires
        wf_blocks(blocks),
        blocks.len() == 2,
        blocks[0].resources.len() == 1,
        blocks[1].resources.len() == 1,
        blocks[0].resources[0].0 == r,
        blocks[1].resources[0].0 == r,
        r != Resource::FreeAir,
        ({
            ||| (blocks[0].x == blocks[1].x && blocks[0].y == blocks[1].y)
            ||| (blocks[0].x + 1 == blocks[1].x && blocks[0].y == blocks[1].y)
            ||| (blocks[0].x == blocks[1].x + 1 && blocks[0].y == blocks[1].y)
            ||| (blocks[0].x == blocks[1].x && blocks[0].y + 1 == blocks[1].y)
            ||| (blocks[0].x == blocks[1].x && blocks[0].y == blocks[1].y + 1)
        }),
        0 < blocks[0].resources[0].1.capacity,
        0 < blocks[1].resources[0].1.capacity,
        0 <= blocks[0].resources[0].1.amount <= blocks[0].resources[0].1.capacity,
        0 <= blocks[1].resources[0].1.amount <= blocks[1].resources[0].1.capacity,
        blocks[0].resources[0].1.amount * blocks[1].resources[0].1.capacity
            > blocks[1].resources[0].1.amount * blocks[0].resources[0].1.capacity,
    ensures
        tick_redraw(blocks),
        ({
            let out = tick_blocks(blocks);
            let p0 = blocks[0].resources[0].1;
            let p1 = blocks[1].resources[0].1;
            &&& out.len() == 2
            &&& pool_of(out[0].resources, r) is Some
            &&& pool_of(out[1].resources, r) is Some
            &&& ({
                let q0 = pool_of(out[0].resources, r)->Some_0;
                let q1 = pool_of(out[1].resources, r)->Some_0;
                &&& q0.capacity == p0.capacity
                &&& q1.capacity == p1.capacity
                &&& 0 <= q0.amount <= q0.capacity
                &&& 0 <= q1.amount <= q1.capacity
                &&& q0.amount + q1.amount == p0.amount + p1.amount
                &&& 0 <= q0.amount * p1.capacity - q1.amount * p0.capacity <= p0.amount
                    * p1.capacity - p1.amount * p0.capacity
            })
        }),
{
    let b0 = blocks[0];
    let b1 = blocks[1];
    let p0 = b0.resources[0].1;
    let p1 = b1.resources[0].1;
    // A single pool cannot hold both stored air and room air, so the vent
    // pass is inert whatever the kinds.
    assert forall|g: int| 0 <= g < blocks.len() implies vent_transfer(#[trigger] blocks[g])
        == 0 by {
        let rs = blocks[g].resources;
        assert(rs.skip(1) =~= Seq::<(Resource, PoolModel)>::empty());
        assert(pool_of(rs.skip(1), Resource::FreeAir) is None);
        assert(pool_of(rs.skip(1), Resource::Air) is None);
        if rs[0].0 == Resource::Air {
            assert(pool_of(rs, Resource::FreeAir) is None);
        } else {
            assert(pool_of(rs, Resource::Air) is None);
        }
    }
    lemma_vent_all_inactive(blocks);
    // The deck's nodes are exactly the two pools.
    let ns = extract_nodes(blocks);
    let n0 = NodeModel {
        i: 0,
        x: b0.x,
        y: b0.y,
        resource: r,
        amount: p0.amount,
        capacity: p0.capacity,
    };
    let n1 = NodeModel {
        i: 1,
        x: b1.x,
        y: b1.y,
        resource: r,
        amount: p1.amount,
        capacity: p1.capacity,
    };
    assert(blocks.drop_last() =~= seq![b0]);
    assert(seq![b0].drop_last() =~= Seq::<BlockModel>::empty());
    assert(extract_nodes(Seq::<BlockModel>::empty()) =~= Seq::<NodeModel>::empty());
    assert(block_nodes(0, b0) =~= seq![n0]);
    assert(block_nodes(1, b1) =~= seq![n1]);
    assert(extract_nodes(seq![b0]) =~= seq![n0]);
    assert(blocks.last() == b1);
    assert(extract_nodes(blocks) == extract_nodes(blocks.drop_last()) + block_nodes(1, b1));
    assert(ns =~= seq![n0, n1]);
    assert(connected(n0, n1));
    assert(pressure_gt(n0, n1));
    lemma_two_node_convergence(n0, n1);
    let after = apply_changes(seq![n0, n1], changes_of(seq![n0, n1]));
    assert(apply_changes(ns, changes_of(ns)) == after);
    // No room air anywhere, so the decay pass is the identity.
    assert forall|k: int| 0 <= k < after.len() implies #[trigger] decay_node(blocks, after[k])
        == after[k] by {
        assert(same_place(after[0], n0));
        assert(same_place(after[1], n1));
    }
    assert(decay_nodes(blocks, after) =~= after);
    // Writing the two nodes back touches exactly the two pools.
    let m0 = after[0];
    let m1 = after[1];
    assert(after.drop_last() =~= seq![m0]);
    assert(seq![m0].drop_last() =~= Seq::<NodeModel>::empty());
    let w0 = write_node(blocks, m0);
    let out = write_node(w0, m1);
    assert(write_back(blocks, Seq::<NodeModel>::empty()) == blocks);
    assert(write_back(blocks, seq![m0]) == w0);
    assert(after.last() == m1);
    assert(write_back(blocks, after) == write_node(
        write_back(blocks, after.drop_last()),
        after.last(),
    ));
    assert(write_back(blocks, after) == out);
    assert(same_place(m0, n0));
    assert(same_place(m1, n1));
    assert(set_amount_seq(b0.resources, r, m0.amount) =~= seq![
        (r, PoolModel { amount: m0.amount, capacity: p0.capacity }),
    ]);
    assert(w0[1] == b1);
    assert(set_amount_seq(b1.resources, r, m1.amount) =~= seq![
        (r, PoolModel { amount: m1.amount, capacity: p1.capacity }),
    ]);
    assert(out[0].resources[0] == (r, PoolModel { amount: m0.amount, capacity: p0.capacity }));
    assert(out[1].resources[0] == (r, PoolModel { amount: m1.amount, capacity: p1.capacity }));
    assert(out[0].resources.skip(1) =~= Seq::<(Resource, PoolModel)>::empty());
    assert(out[1].resources.skip(1) =~= Seq::<(Resource, PoolModel)>::empty());
    assert(pool_of(out[0].resources, r) == Some(
        PoolModel { amount: m0.amount, capacity: p0.capacity },
    ));
    assert(pool_of(out[1].resources, r) == Some(
        PoolModel { amount: m1.amount, capacity: p1.capacity },
    ));
    assert(tick_blocks(blocks) == out);
}

/// Two nodes two or more grid steps apart are not connected, in either
/// direction: no pressure difference between them ever records a change.
pub proof fn lemma_distant_not_connected(a: NodeModel, b: NodeModel)
    requires
        (if a.x >= b.x {
            a.x - b.x
        } else {
            b.x - a.x
        }) + (if a.y >= b.y {
            a.y - b.y
        } else {
            b.y - a.y
        }) >= 2,
    ensures
        !connected(a, b),
        !connected(b, a),
{
}

/// No-op on disconnected nodes: a deck of two nodes two or more cells apart
/// records no change and reports no redraw, whatever their pressures.
pub proof fn lemma_disconnected_nodes_no_change(a: NodeModel, b: NodeModel)
    requires
        (if a.x >= b.x {
            a.x - b.x
        } else {
            b.x - a.x
        }) + (if a.y >= b.y {
            a.y - b.y
        } else {
            b.y - a.y
        }) >= 2,
    ensures
        changes_of(seq![a, b]) == Seq::<ChangeModel>::empty(),
        apply_changes(seq![a, b], changes_of(seq![a, b])) == seq![a, b],
{
    let ns = seq![a, b];
    lemma_distant_not_connected(a, b);
    assert forall|i: int, j: int|
        0 <= i < ns.len() && 0 <= j < ns.len() && i != j implies !eligible(
        #[trigger] ns[i],
        #[trigger] ns[j],
    ) by {
        assert(ns[0] == a);
        assert(ns[1] == b);
    }
    lemma_changes_of_empty(ns);
}

} // verus!
