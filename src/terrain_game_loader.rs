//! Loads and unloads terrain blocks for the game. Each block can be demanded
//! by several owners, each at its own level of detail; the finest demand is
//! the one that is loaded. A change is applied by the collaborators in
//! between two calls: `increase_lod` or `decrease_lod` records the demand and
//! reports the change, `re_lod_block` gives the calls that apply it, and
//! `settle_increase` or `settle_decrease` rolls the demand back if applying
//! it failed.
use vstd::prelude::*;
use crate::lod::{ChunkPosition, OwnerId, Lod, finer_or_equal};
use crate::lod_map::{
    DemandModel, LodMap, LodChange, demand_of, aggregate, change_between, after_increase,
    after_decrease,
};
use crate::in_progress_terrain::InProgressTerrain;
use crate::streamer::{EntityId, BlockIds, Effect, unload_plan, load_plan, re_lod_effects};

verus! {

/// The pending chunks after moving `pos` from `loaded` to `desired`.
pub open spec fn placeholders_after(
    s: Set<ChunkPosition>,
    pos: ChunkPosition,
    loaded: Option<Lod>,
    desired: Option<Lod>,
) -> Set<ChunkPosition> {
    let cleared = if loaded == Some(Lod::Placeholder) {
        s.remove(pos)
    } else {
        s
    };
    if desired == Some(Lod::Placeholder) {
        cleared.insert(pos)
    } else {
        cleared
    }
}

pub struct TerrainGameLoader {
    lod_map: LodMap,
    in_progress_terrain: InProgressTerrain,
}

impl TerrainGameLoader {
    pub closed spec fn wf(&self) -> bool {
        self.lod_map.wf() && self.in_progress_terrain.wf()
    }

    /// Every owner's demand on every chunk.
    pub closed spec fn demands(&self) -> DemandModel {
        self.lod_map@
    }

    /// The chunks that stand as placeholders.
    pub closed spec fn placeholders(&self) -> Set<ChunkPosition> {
        self.in_progress_terrain@
    }

    pub fn new() -> (r: TerrainGameLoader)
        ensures
            r.wf(),
            r.demands() == Map::<(ChunkPosition, OwnerId), Lod>::empty(),
            r.placeholders() == Set::<ChunkPosition>::empty(),
    {
        TerrainGameLoader { lod_map: LodMap::new(), in_progress_terrain: InProgressTerrain::new() }
    }

    /// The level that the chunk at `pos` is loaded at.
    pub fn loaded_lod(&self, pos: ChunkPosition) -> (r: Option<Lod>)
        requires
            self.wf(),
        ensures
            r == aggregate(self.demands(), pos),
    {
        self.lod_map.loaded_lod(pos)
    }

    /// What `owner` demands of the chunk at `pos`.
    pub fn demand(&self, pos: ChunkPosition, owner: OwnerId) -> (r: Option<Lod>)
        requires
            self.wf(),
        ensures
            r == demand_of(self.demands(), pos, owner),
    {
        self.lod_map.demand(pos, owner)
    }

    /// Whether `pos` stands as a placeholder.
    pub fn is_placeholder(&self, pos: ChunkPosition) -> (r: bool)
        ensures
            r == self.placeholders().contains(pos),
    {
        self.in_progress_terrain.contains(pos)
    }

    /// Records that `owner` wants at least `target` for `pos`. Returns the
    /// owner's previous demand and the change to apply, if any.
    pub fn increase_lod(&mut self, pos: ChunkPosition, target: Lod, owner: OwnerId) -> (r: (
        Option<Lod>,
        Option<LodChange>,
    ))
        requires
            old(self).wf(),
            match demand_of(old(self).demands(), pos, owner) {
                None => true,
                Some(d) => finer_or_equal(target, d),
            },
        ensures
            final(self).wf(),
            final(self).demands() == after_increase(old(self).demands(), pos, target, owner),
            final(self).placeholders() == old(self).placeholders(),
            r.0 == demand_of(old(self).demands(), pos, owner),
            r.1 == change_between(aggregate(old(self).demands(), pos), aggregate(final(self).demands(), pos)),
    {
        self.lod_map.increase_lod(pos, target, owner)
    }

    /// Records that `owner` now wants no more than `target` for `pos`
    /// (`None`: nothing). Returns the owner's previous demand and the change
    /// to apply, if any.
    pub fn decrease_lod(&mut self, pos: ChunkPosition, target: Option<Lod>, owner: OwnerId) -> (r: (
        Option<Lod>,
        Option<LodChange>,
    ))
        requires
            old(self).wf(),
            match demand_of(old(self).demands(), pos, owner) {
                None => false,
                Some(d) => match target {
                    None => true,
                    Some(t) => finer_or_equal(d, t),
                },
            },
        ensures
            final(self).wf(),
            final(self).demands() == after_decrease(old(self).demands(), pos, target, owner),
            final(self).placeholders() == old(self).placeholders(),
            r.0 == demand_of(old(self).demands(), pos, owner),
            r.1 == change_between(aggregate(old(self).demands(), pos), aggregate(final(self).demands(), pos)),
    {
        self.lod_map.decrease_lod(pos, target, owner)
    }

    /// The calls that move `pos` as `change` says, where `old_ids` are the
    /// entities of the block loaded at `change.loaded` and `block` is the
    /// block generated for `change.desired`. Keeps the set of pending chunks
    /// in step.
    pub fn re_lod_block(
        &mut self,
        pos: ChunkPosition,
        change: LodChange,
        old_ids: &Vec<EntityId>,
        block: &BlockIds,
    ) -> (r: Vec<Effect>)
        requires
            old(self).wf(),
        ensures
            final(self).wf(),
            final(self).demands() == old(self).demands(),
            final(self).placeholders() == placeholders_after(
                old(self).placeholders(),
                pos,
                change.loaded,
                change.desired,
            ),
            r@ == unload_plan(pos, change.loaded, old_ids@) + load_plan(pos, change.desired, *block),
    {
        match change.loaded {
            Some(Lod::Placeholder) => {
                self.in_progress_terrain.remove(pos);
            },
            _ => {},
        }
        match change.desired {
            Some(Lod::Placeholder) => {
                self.in_progress_terrain.insert(pos);
            },
            _ => {},
        }
        re_lod_effects(pos, change.loaded, change.desired, old_ids, block)
    }

    /// Ends an increase of `owner`'s demand on `pos` to `target`, whose
    /// previous demand was `prev`: if applying the change failed, the demand
    /// goes back to `prev`. Returns `success`.
    pub fn settle_increase(
        &mut self,
        pos: ChunkPosition,
        target: Lod,
        owner: OwnerId,
        prev: Option<Lod>,
        success: bool,
    ) -> (r: bool)
        requires
            old(self).wf(),
            demand_of(old(self).demands(), pos, owner) == Some(target),
            match prev {
                None => true,
                Some(p) => finer_or_equal(target, p),
            },
        ensures
            final(self).wf(),
            r == success,
            final(self).placeholders() == old(self).placeholders(),
            final(self).demands() == if success {
                old(self).demands()
            } else {
                after_decrease(old(self).demands(), pos, prev, owner)
            },
    {
        if !success {
            self.lod_map.decrease_lod(pos, prev, owner);
        }
        success
    }

    /// Ends a decrease of `owner`'s demand on `pos` to `target`, whose
    /// previous demand was `prev`: if applying the change failed, the demand
    /// goes back to `prev`. Returns `success`.
    pub fn settle_decrease(
        &mut self,
        pos: ChunkPosition,
        target: Option<Lod>,
        owner: OwnerId,
        prev: Option<Lod>,
        success: bool,
    ) -> (r: bool)
        requires
            old(self).wf(),
            demand_of(old(self).demands(), pos, owner) == target,
            match (prev, target) {
                (Some(p), Some(t)) => finer_or_equal(p, t),
                _ => true,
            },
        ensures
            final(self).wf(),
            r == success,
            final(self).placeholders() == old(self).placeholders(),
            final(self).demands() == match (success, prev) {
                (false, Some(p)) => after_increase(old(self).demands(), pos, p, owner),
                _ => old(self).demands(),
            },
    {
        if !success {
            match prev {
                Some(p) => {
                    self.lod_map.increase_lod(pos, p, owner);
                },
                None => {},
            }
        }
        success
    }
}

} // verus!
