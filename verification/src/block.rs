//! Blocks: placed structural elements holding resource pools.
//!
//! A block sits on one grid cell and maps resource names to pools. The
//! mapping is kept as a vector sorted by resource name, mirroring an ordered
//! map; the order decides in which sequence pools are exposed to the engine.

use vstd::prelude::*;

verus! {

/// Largest amount or capacity a well-formed pool may hold. The bound keeps
/// every intermediate product of the flow computation inside `u128`.
pub const MAX_QUANTITY: u64 = 1_000_000_000_000;

/// The fixed vocabulary of resources, in name order (the order an ordered
/// map over the names "air", "electricity", "free_air", "fuel", "water"
/// would iterate them).
#[derive(Clone, Copy, Debug, PartialEq, Eq, Structural)]
pub enum Resource {
    Air,
    Electricity,
    FreeAir,
    Fuel,
    Water,
}

/// The closed vocabulary of block kinds. Only `Vent` changes the engine's
/// behaviour; every other kind exposes its pools unmodified.
#[derive(Clone, Copy, Debug, PartialEq, Eq, Structural)]
pub enum BlockKind {
    Tank,
    Conduit,
    Vent,
    Floor,
    Hull,
    Other,
}

/// One resource pool: a stored amount and a capacity, as fixed-point
/// quantities at whatever scale the caller picked.
#[derive(Clone, Copy, Debug, Default, PartialEq, Eq, Structural)]
pub struct BlockResource {
    pub amount: u64,
    pub capacity: u64,
}

/// A placed block: a grid position, a kind, and its resource pools.
#[derive(Clone, Debug)]
pub struct Block {
    pub x: usize,
    pub y: usize,
    pub kind: BlockKind,
    pub resources: Vec<(Resource, BlockResource)>,
}

/// Mathematical model of a pool.
pub ghost struct PoolModel {
    pub amount: int,
    pub capacity: int,
}

/// Mathematical model of a block.
#[verifier::ext_equal]
pub ghost struct BlockModel {
    pub x: int,
    pub y: int,
    pub kind: BlockKind,
    pub resources: Seq<(Resource, PoolModel)>,
}

impl View for BlockResource {
    type V = PoolModel;

    open spec fn view(&self) -> PoolModel {
        PoolModel { amount: self.amount as int, capacity: self.capacity as int }
    }
}

impl View for Block {
    type V = BlockModel;

    open spec fn view(&self) -> BlockModel {
        BlockModel {
            x: self.x as int,
            y: self.y as int,
            kind: self.kind,
            resources: self.resources@.map(|k: int, p: (Resource, BlockResource)| (p.0, p.1@)),
        }
    }
}

/// Position of a resource in name order.
pub open spec fn resource_rank(r: Resource) -> int {
    match r {
        Resource::Air => 0,
        Resource::Electricity => 1,
        Resource::FreeAir => 2,
        Resource::Fuel => 3,
        Resource::Water => 4,
    }
}

/// The smaller of two integers.
pub open spec fn min_int(a: int, b: int) -> int {
    if a <= b {
        a
    } else {
        b
    }
}

/// A pool is well formed when both quantities fit the engine's bound.
/// An amount above the capacity is permitted: the engine absorbs such
/// seeded data rather than validating it.
pub open spec fn wf_pool(p: PoolModel) -> bool {
    &&& 0 <= p.amount <= MAX_QUANTITY
    &&& 0 <= p.capacity <= MAX_QUANTITY
}

/// A resource mapping is well formed when its keys are strictly sorted by
/// name order (hence unique) and every pool is well formed.
pub open spec fn wf_resources(rs: Seq<(Resource, PoolModel)>) -> bool {
    &&& forall|k1: int, k2: int|
        0 <= k1 < k2 < rs.len() ==> resource_rank(#[trigger] rs[k1].0) < resource_rank(
            #[trigger] rs[k2].0,
        )
    &&& forall|k: int| 0 <= k < rs.len() ==> wf_pool(#[trigger] rs[k].1)
}

pub open spec fn wf_block(b: BlockModel) -> bool {
    wf_resources(b.resources)
}

/// The pool stored under a resource name, by first match.
pub open spec fn pool_of(rs: Seq<(Resource, PoolModel)>, r: Resource) -> Option<PoolModel>
    decreases rs.len(),
{
    if rs.len() == 0 {
        None
    } else if rs[0].0 == r {
        Some(rs[0].1)
    } else {
        pool_of(rs.skip(1), r)
    }
}

/// The mapping with the amount under `r` replaced by `v` (every entry with
/// that name; with unique keys, the one entry). Entries of other names, and
/// all capacities, are untouched; a missing name leaves the mapping as it is.
pub open spec fn set_amount_seq(rs: Seq<(Resource, PoolModel)>, r: Resource, v: int) -> Seq<
    (Resource, PoolModel),
> {
    rs.map(
        |k: int, p: (Resource, PoolModel)|
            if p.0 == r {
                (p.0, PoolModel { amount: v, capacity: p.1.capacity })
            } else {
                p
            },
    )
}

/// How much stored air a vent moves into its room-air pool this tick:
/// the stored amount, capped at the room the room-air pool has left.
pub open spec fn vent_transfer(b: BlockModel) -> int {
    if b.kind == BlockKind::Vent {
        match (pool_of(b.resources, Resource::Air), pool_of(b.resources, Resource::FreeAir)) {
            (Some(air), Some(fa)) => {
                if air.amount > 0 && fa.amount < fa.capacity {
                    min_int(air.amount, fa.capacity - fa.amount)
                } else {
                    0
                }
            },
            _ => 0,
        }
    } else {
        0
    }
}

/// Vent pre-processing: a vent holding both an air and a room-air pool moves
/// `vent_transfer` units from the former to the latter before the block's
/// pools are exposed as flow nodes. Every other block is left unchanged.
pub open spec fn vent_pre(b: BlockModel) -> BlockModel {
    if b.kind == BlockKind::Vent {
        match (pool_of(b.resources, Resource::Air), pool_of(b.resources, Resource::FreeAir)) {
            (Some(air), Some(fa)) => {
                if air.amount > 0 && fa.amount < fa.capacity {
                    let t = min_int(air.amount, fa.capacity - fa.amount);
                    BlockModel {
                        x: b.x,
                        y: b.y,
                        kind: b.kind,
                        resources: set_amount_seq(
                            set_amount_seq(b.resources, Resource::Air, air.amount - t),
                            Resource::FreeAir,
                            fa.amount + t,
                        ),
                    }
                } else {
                    b
                }
            },
            _ => b,
        }
    } else {
        b
    }
}

/// Every pool named by `pool_of` sits in the sequence.
pub proof fn lemma_pool_of_some(rs: Seq<(Resource, PoolModel)>, r: Resource)
    requires
        pool_of(rs, r) is Some,
    ensures
        exists|k: int|
            0 <= k < rs.len() && #[trigger] rs[k].0 == r && rs[k].1 == pool_of(rs, r)->Some_0,
    decreases rs.len(),
{
    if rs.len() == 0 {
    } else if rs[0].0 == r {
        assert(rs[0].0 == r && rs[0].1 == pool_of(rs, r)->Some_0);
    } else {
        lemma_pool_of_some(rs.skip(1), r);
        let k = choose|k: int|
            0 <= k < rs.skip(1).len() && #[trigger] rs.skip(1)[k].0 == r && rs.skip(1)[k].1
                == pool_of(rs.skip(1), r)->Some_0;
        assert(rs[k + 1].0 == r && rs[k + 1].1 == pool_of(rs, r)->Some_0);
    }
}

/// In a sequence with sorted (hence unique) keys, `pool_of` finds the entry
/// at any index whose key matches.
pub proof fn lemma_pool_of_at(rs: Seq<(Resource, PoolModel)>, r: Resource, k: int)
    requires
        forall|k1: int, k2: int|
            0 <= k1 < k2 < rs.len() ==> resource_rank(#[trigger] rs[k1].0) < resource_rank(
                #[trigger] rs[k2].0,
            ),
        0 <= k < rs.len(),
        rs[k].0 == r,
    ensures
        pool_of(rs, r) == Some(rs[k].1),
    decreases rs.len(),
{
    if k == 0 {
    } else {
        assert(resource_rank(rs[0].0) < resource_rank(rs[k].0));
        assert(rs.skip(1)[k - 1] == rs[k]);
        lemma_pool_of_at(rs.skip(1), r, k - 1);
    }
}

/// A name no entry carries is not found.
pub proof fn lemma_pool_of_absent(rs: Seq<(Resource, PoolModel)>, r: Resource)
    requires
        forall|k: int| 0 <= k < rs.len() ==> #[trigger] rs[k].0 != r,
    ensures
        pool_of(rs, r) is None,
    decreases rs.len(),
{
    if rs.len() == 0 {
    } else {
        assert(forall|k: int|
            0 <= k < rs.skip(1).len() ==> #[trigger] rs.skip(1)[k].0 == rs[k + 1].0);
        lemma_pool_of_absent(rs.skip(1), r);
    }
}

/// A name that is not found is carried by no entry.
pub proof fn lemma_pool_of_none(rs: Seq<(Resource, PoolModel)>, r: Resource)
    requires
        pool_of(rs, r) is None,
    ensures
        forall|k: int| 0 <= k < rs.len() ==> #[trigger] rs[k].0 != r,
    decreases rs.len(),
{
    if rs.len() == 0 {
    } else {
        lemma_pool_of_none(rs.skip(1), r);
        assert(forall|k: int|
            1 <= k < rs.len() ==> #[trigger] rs[k].0 == rs.skip(1)[k - 1].0);
    }
}

/// Equal ranks name the same resource.
pub proof fn lemma_rank_injective(r1: Resource, r2: Resource)
    ensures
        resource_rank(r1) == resource_rank(r2) ==> r1 == r2,
{
}

/// Position of a resource in name order, computed.
pub fn resource_order(r: Resource) -> (n: u8)
    ensures
        n as int == resource_rank(r),
{
    match r {
        Resource::Air => 0,
        Resource::Electricity => 1,
        Resource::FreeAir => 2,
        Resource::Fuel => 3,
        Resource::Water => 4,
    }
}

impl Block {
    /// Well-formedness of the block's resource mapping.
    pub open spec fn wf(&self) -> bool {
        wf_block(self@)
    }

    /// A fresh block at a position, with no resource pools yet.
    pub fn new(x: usize, y: usize, kind: BlockKind) -> (b: Block)
        ensures
            b.wf(),
            b@ == (BlockModel { x: x as int, y: y as int, kind, resources: Seq::empty() }),
    {
        let b = Block { x, y, kind, resources: Vec::new() };
        proof {
            assert(b@.resources =~= Seq::<(Resource, PoolModel)>::empty());
            assert(b@ =~= (BlockModel {
                x: x as int,
                y: y as int,
                kind,
                resources: Seq::empty(),
            }));
        }
        b
    }

    /// The pool stored under a resource name, if any.
    pub fn get(&self, r: Resource) -> (res: Option<BlockResource>)
        ensures
            match res {
                Some(p) => pool_of(self@.resources, r) == Some(p@),
                None => pool_of(self@.resources, r) is None,
            },
    {
        let ghost m = self@.resources;
        proof {
            assert(m.skip(0) =~= m);
        }
        let mut idx: usize = 0;
        while idx < self.resources.len()
            invariant
                idx <= self.resources@.len(),
                m == self@.resources,
                m.len() == self.resources@.len(),
                pool_of(m, r) == pool_of(m.skip(idx as int), r),
            decreases self.resources@.len() - idx,
        {
            let entry = self.resources[idx];
            proof {
                assert(self@.resources[idx as int] == (entry.0, entry.1@));
                assert(m[idx as int] == (entry.0, entry.1@));
                assert(m.skip(idx as int)[0] == m[idx as int]);
            }
            if entry.0 == r {
                return Some(entry.1);
            }
            proof {
                let s = m.skip(idx as int);
                assert(s[0].0 != r);
                assert(pool_of(s, r) == pool_of(s.skip(1), r));
                assert(s.skip(1) =~= m.skip(idx as int + 1));
            }
            idx += 1;
        }
        proof {
            assert(m.skip(idx as int) =~= Seq::<(Resource, PoolModel)>::empty());
        }
        None
    }

    /// Replace the amount stored under a resource name, leaving its capacity
    /// and every other pool untouched. A missing name is a no-op.
    pub fn set_amount(&mut self, r: Resource, v: u64)
        ensures
            final(self)@.x == old(self)@.x,
            final(self)@.y == old(self)@.y,
            final(self)@.kind == old(self)@.kind,
            final(self)@.resources == set_amount_seq(old(self)@.resources, r, v as int),
            old(self).wf() && v <= MAX_QUANTITY ==> final(self).wf(),
    {
        let ghost rs0 = old(self)@.resources;
        let n = self.resources.len();
        let mut idx: usize = 0;
        while idx < n
            invariant
                idx <= n,
                n == self.resources@.len(),
                self@.x == old(self)@.x,
                self@.y == old(self)@.y,
                self@.kind == old(self)@.kind,
                rs0 == old(self)@.resources,
                rs0.len() == n,
                forall|k: int|
                    0 <= k < idx ==> self@.resources[k] == (if (#[trigger] rs0[k]).0 == r {
                        (rs0[k].0, PoolModel { amount: v as int, capacity: rs0[k].1.capacity })
                    } else {
                        rs0[k]
                    }),
                forall|k: int| idx <= k < n ==> self@.resources[k] == #[trigger] rs0[k],
            decreases n - idx,
        {
            let entry = self.resources[idx];
            proof {
                assert(self@.resources[idx as int] == rs0[idx as int]);
                assert(self@.resources[idx as int] == (entry.0, entry.1@));
            }
            if entry.0 == r {
                self.resources.set(
                    idx,
                    (entry.0, BlockResource { amount: v, capacity: entry.1.capacity }),
                );
            }
            idx += 1;
        }
        proof {
            assert(self@.resources =~= set_amount_seq(rs0, r, v as int));
        }
    }

    /// Store a pool under a resource name, replacing the pool already there
    /// if the name is present, keeping the mapping sorted by name order.
    pub fn insert(&mut self, r: Resource, pool: BlockResource)
        requires
            old(self).wf(),
            pool.amount <= MAX_QUANTITY,
            pool.capacity <= MAX_QUANTITY,
        ensures
            final(self).wf(),
            final(self)@.x == old(self)@.x,
            final(self)@.y == old(self)@.y,
            final(self)@.kind == old(self)@.kind,
            pool_of(final(self)@.resources, r) == Some(pool@),
            forall|r2: Resource|
                r2 != r ==> #[trigger] pool_of(final(self)@.resources, r2) == pool_of(
                    old(self)@.resources,
                    r2,
                ),
    {
        let ghost rs0 = old(self)@.resources;
        let n = self.resources.len();
        let mut idx: usize = 0;
        while idx < n
            invariant_except_break
                idx <= n,
                n == self.resources@.len(),
                self@ == old(self)@,
                rs0 == old(self)@.resources,
                rs0.len() == n,
                forall|k: int|
                    0 <= k < idx ==> resource_rank((#[trigger] rs0[k]).0) < resource_rank(r),
            ensures
                idx <= n,
                n == self.resources@.len(),
                self@ == old(self)@,
                rs0 == old(self)@.resources,
                rs0.len() == n,
                forall|k: int|
                    0 <= k < idx ==> resource_rank((#[trigger] rs0[k]).0) < resource_rank(r),
                idx < n ==> resource_rank(rs0[idx as int].0) >= resource_rank(r),
            decreases n - idx,
        {
            proof {
                assert(self@.resources[idx as int] == rs0[idx as int]);
            }
            if resource_order(self.resources[idx].0) >= resource_order(r) {
                break ;
            }
            idx += 1;
        }
        let mut replace = false;
        if idx < n {
            proof {
                assert(self@.resources[idx as int] == rs0[idx as int]);
            }
            if self.resources[idx].0 == r {
                replace = true;
            }
        }
        if replace {
            self.resources.set(idx, (r, pool));
            proof {
                let m1 = self@.resources;
                assert(m1[idx as int] == (r, pool@));
                assert(forall|k: int|
                    0 <= k < n && k != idx ==> #[trigger] m1[k] == rs0[k]);
                assert(wf_resources(m1));
                lemma_pool_of_at(m1, r, idx as int);
                assert forall|r2: Resource| r2 != r implies #[trigger] pool_of(m1, r2) == pool_of(
                    rs0,
                    r2,
                ) by {
                    lemma_insert_frame(rs0, m1, r2, idx as int);
                }
            }
        } else {
            self.resources.insert(idx, (r, pool));
            proof {
                let m1 = self@.resources;
                assert(m1.len() == n + 1);
                assert(m1[idx as int] == (r, pool@));
                assert(forall|k: int| 0 <= k < idx ==> #[trigger] m1[k] == rs0[k]);
                assert(forall|k: int|
                    idx < k < m1.len() ==> #[trigger] m1[k] == rs0[k - 1]);
                if idx < n {
                    lemma_rank_injective(rs0[idx as int].0, r);
                }
                assert forall|k1: int, k2: int| 0 <= k1 < k2 < m1.len() implies resource_rank(
                    (#[trigger] m1[k1]).0,
                ) < resource_rank((#[trigger] m1[k2]).0) by {
                    if k2 == idx {
                        assert(m1[k1] == rs0[k1]);
                    } else if k1 == idx {
                        assert(m1[k2] == rs0[k2 - 1]);
                        assert(resource_rank(rs0[idx as int].0) <= resource_rank(rs0[k2 - 1].0));
                    }
                }
                assert(wf_resources(m1));
                lemma_pool_of_at(m1, r, idx as int);
                assert forall|r2: Resource| r2 != r implies #[trigger] pool_of(m1, r2) == pool_of(
                    rs0,
                    r2,
                ) by {
                    match pool_of(rs0, r2) {
                        Some(_) => {
                            lemma_pool_of_some(rs0, r2);
                            let k = choose|k: int|
                                0 <= k < rs0.len() && #[trigger] rs0[k].0 == r2 && rs0[k].1
                                    == pool_of(rs0, r2)->Some_0;
                            if k < idx {
                                lemma_pool_of_at(m1, r2, k);
                            } else {
                                lemma_pool_of_at(m1, r2, k + 1);
                            }
                        },
                        None => {
                            lemma_pool_of_none(rs0, r2);
                            lemma_pool_of_absent(m1, r2);
                        },
                    }
                }
            }
        }
    }

    /// Vent pre-processing, in place: move stored air into the room-air pool,
    /// capped at the room it has left. Blocks of any other kind, and vents
    /// lacking either pool, are left unchanged.
    pub fn vent_preprocess(&mut self)
        requires
            old(self).wf(),
        ensures
            final(self).wf(),
            final(self)@ == vent_pre(old(self)@),
    {
        if self.kind == BlockKind::Vent {
            let air_opt = self.get(Resource::Air);
            let fa_opt = self.get(Resource::FreeAir);
            if let (Some(air), Some(fa)) = (air_opt, fa_opt) {
                if air.amount > 0 && fa.amount < fa.capacity {
                    proof {
                        lemma_pool_of_some(old(self)@.resources, Resource::Air);
                        lemma_pool_of_some(old(self)@.resources, Resource::FreeAir);
                    }
                    let room = fa.capacity - fa.amount;
                    let t = if air.amount <= room {
                        air.amount
                    } else {
                        room
                    };
                    self.set_amount(Resource::Air, air.amount - t);
                    self.set_amount(Resource::FreeAir, fa.amount + t);
                    proof {
                        assert(self@ =~= vent_pre(old(self)@));
                    }
                }
            }
        }
    }
}

/// Replacing one entry by another of the same name leaves every other name's
/// lookup unchanged.
proof fn lemma_insert_frame(
    rs0: Seq<(Resource, PoolModel)>,
    m1: Seq<(Resource, PoolModel)>,
    r2: Resource,
    idx: int,
)
    requires
        wf_resources(rs0),
        wf_resources(m1),
        rs0.len() == m1.len(),
        0 <= idx < rs0.len(),
        forall|k: int| 0 <= k < rs0.len() && k != idx ==> #[trigger] m1[k] == rs0[k],
        m1[idx].0 == rs0[idx].0,
        r2 != rs0[idx].0,
    ensures
        pool_of(m1, r2) == pool_of(rs0, r2),
{
    match pool_of(rs0, r2) {
        Some(_) => {
            lemma_pool_of_some(rs0, r2);
            let k = choose|k: int|
                0 <= k < rs0.len() && #[trigger] rs0[k].0 == r2 && rs0[k].1 == pool_of(
                    rs0,
                    r2,
                )->Some_0;
            lemma_pool_of_at(m1, r2, k);
        },
        None => {
            lemma_pool_of_none(rs0, r2);
            lemma_pool_of_absent(m1, r2);
        },
    }
}

} // verus!
