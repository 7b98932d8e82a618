//! What changing a chunk's level of detail asks of the physics and GPU-buffer
//! collaborators: the old representation is removed first, then the new one
//! is put in place.
use vstd::prelude::*;
use crate::lod::{ChunkPosition, Lod};

verus! {

/// Entity identifier of a renderable or physical piece of terrain.
pub type EntityId = u64;

/// One call into a collaborator.
#[derive(Clone, Copy, Debug, PartialEq, Eq, Structural)]
pub enum Effect {
    /// Delete the physical placeholder of a pending chunk.
    RemovePlaceholder(ChunkPosition),
    /// Create the physical placeholder of a pending chunk.
    InsertPlaceholder(ChunkPosition),
    /// Remove a terrain shape from physics.
    RemovePhysics(EntityId),
    /// Remove an entity's slot from the GPU buffers.
    RemoveFromGpu(EntityId),
    /// Release the GPU storage of a chunk at one level.
    FreeBlockData(u32, ChunkPosition),
    /// Insert the physics bounds of a terrain shape.
    InsertPhysics(EntityId),
    /// Push a chunk's generated vertex and material data to the GPU buffers.
    PushToGpu(ChunkPosition, u32),
}

/// The entity identifiers of a generated terrain block: its renderable
/// pieces and the shapes of its physics bounds.
#[derive(Debug)]
pub struct BlockIds {
    pub ids: Vec<EntityId>,
    pub bound_ids: Vec<EntityId>,
}

/// Whether an effect takes away part of a chunk's present representation.
pub open spec fn is_removal(e: Effect) -> bool {
    match e {
        Effect::RemovePlaceholder(_) | Effect::RemovePhysics(_) | Effect::RemoveFromGpu(_)
        | Effect::FreeBlockData(_, _) => true,
        _ => false,
    }
}

/// Whether an effect puts part of a chunk's new representation in place.
pub open spec fn is_insertion(e: Effect) -> bool {
    match e {
        Effect::InsertPlaceholder(_) | Effect::InsertPhysics(_) | Effect::PushToGpu(_, _) => true,
        _ => false,
    }
}

/// Removing the physics shape and GPU slot of each entity, in order.
pub open spec fn removals(ids: Seq<EntityId>) -> Seq<Effect>
    decreases ids.len(),
{
    if ids.len() == 0 {
        Seq::empty()
    } else {
        removals(ids.drop_last()) + seq![
            Effect::RemovePhysics(ids.last()),
            Effect::RemoveFromGpu(ids.last()),
        ]
    }
}

/// Taking away what is loaded at `loaded` for `pos`, where `old_ids` are the
/// entities of the block loaded there.
pub open spec fn unload_plan(pos: ChunkPosition, loaded: Option<Lod>, old_ids: Seq<EntityId>) -> Seq<Effect> {
    match loaded {
        None => Seq::empty(),
        Some(Lod::Placeholder) => seq![Effect::RemovePlaceholder(pos)],
        Some(Lod::LodIndex(k)) => removals(old_ids) + seq![Effect::FreeBlockData(k, pos)],
    }
}

/// Inserting every physics bound of a block, then pushing its data to the
/// GPU buffers unless it has no entity.
pub open spec fn block_load_plan(pos: ChunkPosition, lod: u32, block: BlockIds) -> Seq<Effect> {
    block.bound_ids@.map_values(|id: EntityId| Effect::InsertPhysics(id)) + if block.ids@.len() == 0 {
        Seq::empty()
    } else {
        seq![Effect::PushToGpu(pos, lod)]
    }
}

/// Putting the representation for `desired` in place.
pub open spec fn load_plan(pos: ChunkPosition, desired: Option<Lod>, block: BlockIds) -> Seq<Effect> {
    match desired {
        None => Seq::empty(),
        Some(Lod::Placeholder) => seq![Effect::InsertPlaceholder(pos)],
        Some(Lod::LodIndex(k)) => block_load_plan(pos, k, block),
    }
}

/// Taking back the physics insertions of a load whose GPU push was refused.
pub open spec fn undo_plan(block: BlockIds) -> Seq<Effect> {
    block.bound_ids@.map_values(|id: EntityId| Effect::RemovePhysics(id))
}

proof fn lemma_removals_are_removals(ids: Seq<EntityId>)
    ensures
        forall|i: int| 0 <= i < removals(ids).len() ==> is_removal(#[trigger] removals(ids)[i]),
    decreases ids.len(),
{
    if ids.len() > 0 {
        lemma_removals_are_removals(ids.drop_last());
        let a = removals(ids.drop_last());
        let r = removals(ids);
        assert forall|i: int| 0 <= i < r.len() implies is_removal(#[trigger] r[i]) by {
            if i < a.len() {
                assert(r[i] == a[i]);
            }
        }
    }
}

fn removal_effects(ids: &Vec<EntityId>) -> (r: Vec<Effect>)
    ensures
        r@ == removals(ids@),
{
    let mut out: Vec<Effect> = Vec::new();
    let mut i: usize = 0;
    while i < ids.len()
        invariant
            i <= ids@.len(),
            out@ == removals(ids@.subrange(0, i as int)),
        decreases ids@.len() - i,
    {
        let id = ids[i];
        out.push(Effect::RemovePhysics(id));
        out.push(Effect::RemoveFromGpu(id));
        proof {
            let s1 = ids@.subrange(0, i + 1);
            assert(s1.drop_last() =~= ids@.subrange(0, i as int));
            assert(out@ =~= removals(s1));
        }
        i = i + 1;
    }
    proof {
        assert(ids@.subrange(0, ids@.len() as int) =~= ids@);
    }
    out
}

fn physics_effects(ids: &Vec<EntityId>, insert: bool) -> (r: Vec<Effect>)
    ensures
        insert ==> r@ == ids@.map_values(|id: EntityId| Effect::InsertPhysics(id)),
        !insert ==> r@ == ids@.map_values(|id: EntityId| Effect::RemovePhysics(id)),
{
    let mut out: Vec<Effect> = Vec::new();
    let mut i: usize = 0;
    while i < ids.len()
        invariant
            i <= ids@.len(),
            out@.len() == i,
            forall|j: int| 0 <= j < i ==> #[trigger] out@[j] == if insert {
                Effect::InsertPhysics(ids@[j])
            } else {
                Effect::RemovePhysics(ids@[j])
            },
        decreases ids@.len() - i,
    {
        if insert {
            out.push(Effect::InsertPhysics(ids[i]));
        } else {
            out.push(Effect::RemovePhysics(ids[i]));
        }
        i = i + 1;
    }
    proof {
        if insert {
            assert(out@ =~= ids@.map_values(|id: EntityId| Effect::InsertPhysics(id)));
        } else {
            assert(out@ =~= ids@.map_values(|id: EntityId| Effect::RemovePhysics(id)));
        }
    }
    out
}

/// The calls that take away what is loaded at `loaded` for `pos`.
pub fn unload_effects(pos: ChunkPosition, loaded: Option<Lod>, old_ids: &Vec<EntityId>) -> (r: Vec<Effect>)
    ensures
        r@ == unload_plan(pos, loaded, old_ids@),
{
    match loaded {
        None => Vec::new(),
        Some(Lod::Placeholder) => {
            let mut v: Vec<Effect> = Vec::new();
            v.push(Effect::RemovePlaceholder(pos));
            proof {
                assert(v@ =~= seq![Effect::RemovePlaceholder(pos)]);
            }
            v
        },
        Some(Lod::LodIndex(k)) => {
            let mut v = removal_effects(old_ids);
            let ghost a = v@;
            v.push(Effect::FreeBlockData(k, pos));
            proof {
                assert(v@ =~= a + seq![Effect::FreeBlockData(k, pos)]);
            }
            v
        },
    }
}

/// The calls that put the representation for `desired` in place, where
/// `block` is the generated block when `desired` is a concrete level.
pub fn load_effects(pos: ChunkPosition, desired: Option<Lod>, block: &BlockIds) -> (r: Vec<Effect>)
    ensures
        r@ == load_plan(pos, desired, *block),
{
    match desired {
        None => Vec::new(),
        Some(Lod::Placeholder) => {
            let mut v: Vec<Effect> = Vec::new();
            v.push(Effect::InsertPlaceholder(pos));
            proof {
                assert(v@ =~= seq![Effect::InsertPlaceholder(pos)]);
            }
            v
        },
        Some(Lod::LodIndex(k)) => {
            let mut v = physics_effects(&block.bound_ids, true);
            let ghost a = v@;
            if block.ids.len() == 0 {
                proof {
                    assert(v@ =~= a + Seq::<Effect>::empty());
                }
            } else {
                v.push(Effect::PushToGpu(pos, k));
                proof {
                    assert(v@ =~= a + seq![Effect::PushToGpu(pos, k)]);
                }
            }
            v
        },
    }
}

/// The calls that take back the physics insertions of a failed load.
pub fn undo_effects(block: &BlockIds) -> (r: Vec<Effect>)
    ensures
        r@ == undo_plan(*block),
{
    physics_effects(&block.bound_ids, false)
}

/// The calls that move `pos` from `loaded` to `desired`: the old
/// representation is taken away in full before the new one is put in place.
pub fn re_lod_effects(
    pos: ChunkPosition,
    loaded: Option<Lod>,
    desired: Option<Lod>,
    old_ids: &Vec<EntityId>,
    block: &BlockIds,
) -> (r: Vec<Effect>)
    ensures
        r@ == unload_plan(pos, loaded, old_ids@) + load_plan(pos, desired, *block),
{
    let mut v = unload_effects(pos, loaded, old_ids);
    let mut w = load_effects(pos, desired, block);
    let ghost a = v@;
    let ghost b = w@;
    v.append(&mut w);
    proof {
        assert(v@ =~= a + b);
    }
    v
}

/// No double residency: in the calls that move a chunk from one level to
/// another, every removal of old data comes before any insertion of new data.
pub proof fn lemma_unload_before_load(
    pos: ChunkPosition,
    loaded: Option<Lod>,
    desired: Option<Lod>,
    old_ids: Seq<EntityId>,
    block: BlockIds,
)
    ensures
        ({
            let plan = unload_plan(pos, loaded, old_ids) + load_plan(pos, desired, block);
            forall|i: int, j: int|
                0 <= i < plan.len() && 0 <= j < plan.len() && is_insertion(#[trigger] plan[i])
                    && is_removal(#[trigger] plan[j]) ==> j < i
        }),
{
    let u = unload_plan(pos, loaded, old_ids);
    let l = load_plan(pos, desired, block);
    let plan = u + l;
    lemma_removals_are_removals(old_ids);
    assert forall|i: int| 0 <= i < u.len() implies is_removal(#[trigger] u[i]) by {
        if let Some(Lod::LodIndex(k)) = loaded {
            let rs = removals(old_ids);
            if i < rs.len() {
                assert(u[i] == rs[i]);
            }
        }
    }
    assert forall|i: int| 0 <= i < l.len() implies is_insertion(#[trigger] l[i]) by {
        if let Some(Lod::LodIndex(k)) = desired {
            let ins = block.bound_ids@.map_values(|id: EntityId| Effect::InsertPhysics(id));
            if i < ins.len() {
                assert(l[i] == ins[i]);
            }
        }
    }
    assert forall|i: int, j: int|
        0 <= i < plan.len() && 0 <= j < plan.len() && is_insertion(#[trigger] plan[i])
            && is_removal(#[trigger] plan[j]) implies j < i by {
        if i < u.len() {
            assert(plan[i] == u[i]);
        }
        if j >= u.len() {
            assert(plan[j] == l[j - u.len()]);
        }
    }
}

} // verus!
