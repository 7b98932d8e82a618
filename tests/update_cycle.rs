use terrain_stream::lod::ChunkPosition;
use terrain_stream::surroundings::{
    distance_between, lg_sample_size, lod_index_of_distance, surroundings, LoadType,
};
use terrain_stream::update_cycle::{
    budget_step, clock_check_due, on_load_result, over_budget, surroundings_step, ChunkRequest, LoadResult,
    PendingRequests, SurroundingsStep, MAX_OUTSTANDING_TERRAIN_REQUESTS,
};

fn at(x: i32, y: i32, z: i32) -> ChunkPosition {
    ChunkPosition { x, y, z }
}

#[test]
fn duplicate_request_sent_once() {
    let mut pending = PendingRequests::new(4);
    let p = at(1, 2, 3);
    let first = on_load_result(&mut pending, p, 1, LoadResult::ChunkMissing, 100, 9);
    assert_eq!(
        first,
        Some(ChunkRequest { time_requested_ns: 100, client_id: 9, position: p, lg_voxel_size: 1 })
    );
    let second = on_load_result(&mut pending, p, 1, LoadResult::ChunkMissing, 200, 9);
    assert_eq!(second, None);
    assert_eq!(pending.len(), 1);
    // Another granularity is another request.
    assert!(on_load_result(&mut pending, p, 2, LoadResult::ChunkMissing, 300, 9).is_some());
}

#[test]
fn loaded_results_send_nothing() {
    let mut pending = PendingRequests::new(4);
    assert_eq!(on_load_result(&mut pending, at(0, 0, 0), 0, LoadResult::Success, 1, 1), None);
    assert_eq!(on_load_result(&mut pending, at(0, 0, 0), 0, LoadResult::AlreadyLoaded, 1, 1), None);
    assert_eq!(pending.len(), 0);
}

#[test]
fn backpressure_caps_outstanding_requests() {
    let mut pending = PendingRequests::new(MAX_OUTSTANDING_TERRAIN_REQUESTS);
    assert!(!pending.at_capacity());
    assert!(pending.register((at(0, 0, 0), 0)));
    assert!(pending.at_capacity());
    assert!(!pending.register((at(1, 0, 0), 0)));
    assert_eq!(pending.len(), 1);
    let step = surroundings_step(&pending, at(0, 0, 0), (at(1, 0, 0), LoadType::Load));
    assert_eq!(step, SurroundingsStep::Stop);
    assert!(pending.complete((at(0, 0, 0), 0)));
    assert!(!pending.complete((at(0, 0, 0), 0)));
    assert!(!pending.at_capacity());
    let step = surroundings_step(&pending, at(0, 0, 0), (at(5, 0, 0), LoadType::Load));
    assert_eq!(step, SurroundingsStep::TryLoad(at(5, 0, 0), 1));
    let step = surroundings_step(&pending, at(0, 0, 0), (at(50, 0, 0), LoadType::Unload));
    assert_eq!(step, SurroundingsStep::Unload(at(50, 0, 0)));
}

#[test]
fn clock_budget() {
    assert!(!clock_check_due(9));
    assert!(clock_check_due(10));
    assert!(!over_budget(1_000, 1_999));
    assert!(over_budget(1_000, 1_001_000));
    assert!(!over_budget(5, 1));
    assert_eq!(budget_step(0, 3), (false, 4));
    assert_eq!(budget_step(0, 0), (false, 1));
    // Started at the end of time: the budget cannot be used up yet.
    assert_eq!(budget_step(u64::MAX, 10), (false, 1));
    assert_eq!(budget_step(u64::MAX, 12).1, 3);
    // Started at zero: a real clock has long passed the budget.
    assert_eq!(budget_step(0, 10), (true, 1));
}

#[test]
fn distance_and_levels() {
    assert_eq!(distance_between(at(0, 0, 0), at(3, -7, 2)), 7);
    assert_eq!(distance_between(at(i32::MIN, 0, 0), at(i32::MAX, 0, 0)), 4_294_967_295);
    assert_eq!(lod_index_of_distance(0), 0);
    assert_eq!(lod_index_of_distance(2), 0);
    assert_eq!(lod_index_of_distance(3), 1);
    assert_eq!(lod_index_of_distance(16), 1);
    assert_eq!(lod_index_of_distance(17), 2);
    assert_eq!(lod_index_of_distance(33), 3);
    assert_eq!(lg_sample_size(2), 2);
}

#[test]
fn surroundings_from_nothing_loaded() {
    let r = surroundings(at(0, 0, 0), 1, &vec![]);
    assert_eq!(r.len(), 27);
    assert_eq!(r[0], (at(0, 0, 0), LoadType::Load));
    for w in r.windows(2) {
        assert!(
            distance_between(at(0, 0, 0), w[0].0) <= distance_between(at(0, 0, 0), w[1].0)
        );
    }
    assert!(r.iter().all(|e| e.1 == LoadType::Load));
}

#[test]
fn surroundings_classifies_known_chunks() {
    let known = vec![
        (at(0, 0, 0), 0),     // right level
        (at(3, 0, 0), 0),     // finer than distance 3 calls for
        (at(1, 0, 0), 2),     // coarser than it should be
        (at(9, 9, 9), 1),     // beyond the radius
    ];
    let r = surroundings(at(0, 0, 0), 3, &known);
    assert!(!r.iter().any(|e| e.0 == at(0, 0, 0)));
    assert!(r.contains(&(at(3, 0, 0), LoadType::Downgrade)));
    assert!(r.contains(&(at(1, 0, 0), LoadType::Load)));
    assert_eq!(r.last(), Some(&(at(9, 9, 9), LoadType::Unload)));
    assert_eq!(r.len(), 7 * 7 * 7 - 1 + 1);
}

#[test]
fn surroundings_near_the_edge_of_the_world() {
    let r = surroundings(at(i32::MAX, 0, 0), 1, &vec![]);
    assert_eq!(r.len(), 18);
    assert!(r.iter().all(|e| e.0.x >= i32::MAX - 1));
}

#[test]
fn unloads_come_nearest_first() {
    let known = vec![(at(20, 0, 0), 3), (at(0, 9, 0), 1), (at(0, 0, -5), 1), (at(0, 0, 0), 0)];
    let r = surroundings(at(0, 0, 0), 2, &known);
    let unloads: Vec<ChunkPosition> =
        r.iter().filter(|e| e.1 == LoadType::Unload).map(|e| e.0).collect();
    assert_eq!(unloads, vec![at(0, 0, -5), at(0, 9, 0), at(20, 0, 0)]);
    assert_eq!(r.len(), 5 * 5 * 5 - 1 + 3);
    assert_eq!(&r[r.len() - 3..], &[
        (at(0, 0, -5), LoadType::Unload),
        (at(0, 9, 0), LoadType::Unload),
        (at(20, 0, 0), LoadType::Unload),
    ]);
}
