use terrain_stream::lod::{ChunkPosition, Lod, OwnerId};
use terrain_stream::lod_map::{LodChange, LodMap};

fn origin() -> ChunkPosition {
    ChunkPosition { x: 0, y: 0, z: 0 }
}

fn owner(id: u32) -> OwnerId {
    OwnerId { id }
}

#[test]
fn two_owners_scenario() {
    let mut map = LodMap::new();
    let a = owner(1);
    let b = owner(2);
    let p = origin();

    let (prev, change) = map.increase_lod(p, Lod::LodIndex(2), a);
    assert_eq!(prev, None);
    assert_eq!(change, Some(LodChange { loaded: None, desired: Some(Lod::LodIndex(2)) }));

    let (prev, change) = map.increase_lod(p, Lod::LodIndex(0), b);
    assert_eq!(prev, None);
    assert_eq!(
        change,
        Some(LodChange { loaded: Some(Lod::LodIndex(2)), desired: Some(Lod::LodIndex(0)) })
    );

    let (prev, change) = map.decrease_lod(p, None, b);
    assert_eq!(prev, Some(Lod::LodIndex(0)));
    assert_eq!(
        change,
        Some(LodChange { loaded: Some(Lod::LodIndex(0)), desired: Some(Lod::LodIndex(2)) })
    );

    let (prev, change) = map.decrease_lod(p, None, a);
    assert_eq!(prev, Some(Lod::LodIndex(2)));
    assert_eq!(change, Some(LodChange { loaded: Some(Lod::LodIndex(2)), desired: None }));
    assert!(!map.contains_chunk(p));
    assert_eq!(map.loaded_lod(p), None);
}

#[test]
fn repeated_increase_gives_no_delta() {
    let mut map = LodMap::new();
    let p = origin();
    let (_, first) = map.increase_lod(p, Lod::LodIndex(1), owner(7));
    assert!(first.is_some());
    let (prev, second) = map.increase_lod(p, Lod::LodIndex(1), owner(7));
    assert_eq!(prev, Some(Lod::LodIndex(1)));
    assert_eq!(second, None);
    assert_eq!(map.loaded_lod(p), Some(Lod::LodIndex(1)));
}

#[test]
fn rollback_of_increase_restores_state() {
    let mut map = LodMap::new();
    let p = origin();
    let q = ChunkPosition { x: 1, y: -1, z: 3 };
    map.increase_lod(p, Lod::LodIndex(3), owner(1));
    map.increase_lod(p, Lod::Placeholder, owner(2));
    map.increase_lod(q, Lod::LodIndex(1), owner(1));

    let (prev, change) = map.increase_lod(p, Lod::LodIndex(0), owner(2));
    assert_eq!(prev, Some(Lod::Placeholder));
    assert_eq!(
        change,
        Some(LodChange { loaded: Some(Lod::LodIndex(3)), desired: Some(Lod::LodIndex(0)) })
    );
    // The load failed: undo.
    let (_, undo) = map.decrease_lod(p, prev, owner(2));
    assert_eq!(
        undo,
        Some(LodChange { loaded: Some(Lod::LodIndex(0)), desired: Some(Lod::LodIndex(3)) })
    );
    assert_eq!(map.demand(p, owner(1)), Some(Lod::LodIndex(3)));
    assert_eq!(map.demand(p, owner(2)), Some(Lod::Placeholder));
    assert_eq!(map.demand(q, owner(1)), Some(Lod::LodIndex(1)));
    assert_eq!(map.loaded_lod(p), Some(Lod::LodIndex(3)));
    assert_eq!(map.loaded_lod(q), Some(Lod::LodIndex(1)));
}

#[test]
fn rollback_of_first_demand_removes_chunk() {
    let mut map = LodMap::new();
    let p = origin();
    let (prev, _) = map.increase_lod(p, Lod::LodIndex(2), owner(4));
    assert_eq!(prev, None);
    let (_, undo) = map.decrease_lod(p, prev, owner(4));
    assert_eq!(undo, Some(LodChange { loaded: Some(Lod::LodIndex(2)), desired: None }));
    assert!(!map.contains_chunk(p));
    assert_eq!(map.demand(p, owner(4)), None);
}

#[test]
fn aggregate_is_finest_demand() {
    let mut map = LodMap::new();
    let p = ChunkPosition { x: -5, y: 2, z: 9 };
    map.increase_lod(p, Lod::Placeholder, owner(1));
    assert_eq!(map.loaded_lod(p), Some(Lod::Placeholder));
    map.increase_lod(p, Lod::LodIndex(3), owner(2));
    assert_eq!(map.loaded_lod(p), Some(Lod::LodIndex(3)));
    map.increase_lod(p, Lod::LodIndex(1), owner(3));
    assert_eq!(map.loaded_lod(p), Some(Lod::LodIndex(1)));
    let (_, change) = map.decrease_lod(p, Some(Lod::LodIndex(2)), owner(3));
    assert_eq!(
        change,
        Some(LodChange { loaded: Some(Lod::LodIndex(1)), desired: Some(Lod::LodIndex(2)) })
    );
    let (_, change) = map.decrease_lod(p, None, owner(2));
    assert_eq!(change, None);
    let (_, change) = map.decrease_lod(p, None, owner(3));
    assert_eq!(
        change,
        Some(LodChange { loaded: Some(Lod::LodIndex(2)), desired: Some(Lod::Placeholder) })
    );
    assert!(map.contains_chunk(p));
}

#[test]
fn coarser_demand_of_second_owner_gives_no_delta() {
    let mut map = LodMap::new();
    let p = origin();
    map.increase_lod(p, Lod::LodIndex(0), owner(1));
    let (_, change) = map.increase_lod(p, Lod::LodIndex(2), owner(2));
    assert_eq!(change, None);
    let (_, change) = map.increase_lod(p, Lod::LodIndex(0), owner(2));
    assert_eq!(change, None);
}

#[test]
fn chunks_are_independent() {
    let mut map = LodMap::new();
    let p = origin();
    let q = ChunkPosition { x: 0, y: 0, z: 1 };
    map.increase_lod(p, Lod::LodIndex(0), owner(1));
    let (_, change) = map.increase_lod(q, Lod::LodIndex(2), owner(1));
    assert_eq!(change, Some(LodChange { loaded: None, desired: Some(Lod::LodIndex(2)) }));
    assert_eq!(map.loaded_lod(p), Some(Lod::LodIndex(0)));
}
