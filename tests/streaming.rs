use terrain_stream::in_progress_terrain::InProgressTerrain;
use terrain_stream::lod::{ChunkPosition, Lod, OwnerId};
use terrain_stream::lod_map::LodChange;
use terrain_stream::streamer::{load_effects, re_lod_effects, undo_effects, unload_effects, BlockIds, Effect};
use terrain_stream::terrain_game_loader::TerrainGameLoader;

fn pos() -> ChunkPosition {
    ChunkPosition { x: 3, y: 0, z: -2 }
}

fn block(ids: Vec<u64>, bound_ids: Vec<u64>) -> BlockIds {
    BlockIds { ids, bound_ids }
}

#[test]
fn unload_then_load_between_concrete_levels() {
    let old_ids = vec![10, 11];
    let b = block(vec![20], vec![21, 22]);
    let effects = re_lod_effects(pos(), Some(Lod::LodIndex(2)), Some(Lod::LodIndex(0)), &old_ids, &b);
    assert_eq!(
        effects,
        vec![
            Effect::RemovePhysics(10),
            Effect::RemoveFromGpu(10),
            Effect::RemovePhysics(11),
            Effect::RemoveFromGpu(11),
            Effect::FreeBlockData(2, pos()),
            Effect::InsertPhysics(21),
            Effect::InsertPhysics(22),
            Effect::PushToGpu(pos(), 0),
        ]
    );
    let last_removal = effects
        .iter()
        .rposition(|e| matches!(e, Effect::RemovePhysics(_) | Effect::RemoveFromGpu(_) | Effect::FreeBlockData(_, _)))
        .unwrap();
    let first_insert = effects
        .iter()
        .position(|e| matches!(e, Effect::InsertPhysics(_) | Effect::PushToGpu(_, _)))
        .unwrap();
    assert!(last_removal < first_insert);
}

#[test]
fn placeholder_transitions() {
    let empty = block(vec![], vec![]);
    assert_eq!(
        re_lod_effects(pos(), None, Some(Lod::Placeholder), &vec![], &empty),
        vec![Effect::InsertPlaceholder(pos())]
    );
    let b = block(vec![5], vec![6]);
    assert_eq!(
        re_lod_effects(pos(), Some(Lod::Placeholder), Some(Lod::LodIndex(1)), &vec![], &b),
        vec![Effect::RemovePlaceholder(pos()), Effect::InsertPhysics(6), Effect::PushToGpu(pos(), 1)]
    );
}

#[test]
fn pure_unload_and_empty_block() {
    assert_eq!(unload_effects(pos(), None, &vec![1]), vec![]);
    assert_eq!(
        unload_effects(pos(), Some(Lod::LodIndex(3)), &vec![]),
        vec![Effect::FreeBlockData(3, pos())]
    );
    let empty = block(vec![], vec![4]);
    assert_eq!(load_effects(pos(), Some(Lod::LodIndex(1)), &empty), vec![Effect::InsertPhysics(4)]);
    assert_eq!(load_effects(pos(), None, &empty), vec![]);
}

#[test]
fn undo_removes_inserted_bounds() {
    let b = block(vec![1, 2], vec![8, 9]);
    assert_eq!(undo_effects(&b), vec![Effect::RemovePhysics(8), Effect::RemovePhysics(9)]);
}

#[test]
fn placeholder_set() {
    let mut s = InProgressTerrain::new();
    assert!(s.insert(pos()));
    assert!(!s.insert(pos()));
    assert!(s.contains(pos()));
    assert!(s.remove(pos()));
    assert!(!s.remove(pos()));
    assert!(!s.contains(pos()));
}

#[test]
fn loader_rolls_back_failed_load() {
    let mut loader = TerrainGameLoader::new();
    let a = OwnerId { id: 1 };
    let p = pos();
    let (prev, change) = loader.increase_lod(p, Lod::Placeholder, a);
    let change = change.unwrap();
    let effects = loader.re_lod_block(p, change, &vec![], &block(vec![], vec![]));
    assert_eq!(effects, vec![Effect::InsertPlaceholder(p)]);
    assert!(loader.is_placeholder(p));
    assert!(loader.settle_increase(p, Lod::Placeholder, a, prev, true));

    let (prev, change) = loader.increase_lod(p, Lod::LodIndex(1), a);
    assert_eq!(prev, Some(Lod::Placeholder));
    let change = change.unwrap();
    assert_eq!(change, LodChange { loaded: Some(Lod::Placeholder), desired: Some(Lod::LodIndex(1)) });
    let b = block(vec![30], vec![31]);
    let effects = loader.re_lod_block(p, change, &vec![], &b);
    assert_eq!(
        effects,
        vec![Effect::RemovePlaceholder(p), Effect::InsertPhysics(31), Effect::PushToGpu(p, 1)]
    );
    assert!(!loader.is_placeholder(p));
    // The GPU buffers refused the data.
    assert!(!loader.settle_increase(p, Lod::LodIndex(1), a, prev, false));
    assert_eq!(loader.demand(p, a), Some(Lod::Placeholder));
    assert_eq!(loader.loaded_lod(p), Some(Lod::Placeholder));
}

#[test]
fn loader_rolls_back_failed_decrease() {
    let mut loader = TerrainGameLoader::new();
    let a = OwnerId { id: 1 };
    let p = pos();
    loader.increase_lod(p, Lod::LodIndex(0), a);
    let (prev, change) = loader.decrease_lod(p, Some(Lod::LodIndex(2)), a);
    assert_eq!(prev, Some(Lod::LodIndex(0)));
    assert!(change.is_some());
    assert!(!loader.settle_decrease(p, Some(Lod::LodIndex(2)), a, prev, false));
    assert_eq!(loader.loaded_lod(p), Some(Lod::LodIndex(0)));
}
