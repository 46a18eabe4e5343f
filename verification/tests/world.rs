use bicycle_chain::camera::{
    CameraPanDirection, CameraPanEvent, CameraState, CameraZoomDirection, CameraZoomEvent,
    CycleCameraModeEvent,
};
use bicycle_chain::groupset::{
    Axle, CassetteRadius, ChainringRadius, Cog, Groupset, SpawnAttachedEvent, SpawnGroupsetEvent,
    INITIAL_COG_RADIUS,
};
use bicycle_chain::queue::BoundedQueue;
use bicycle_chain::wheel::{
    Bicycle, BicycleWheel, FrameGeometry, SpawnWheelEvent, WheelPlugin, WHEEL_SIZE,
};
use bicycle_chain::world::{
    MaxTerrainChunkCount, Terrain, TerrainChunk, TerrainSeed, WorldTerrainPlugin, CHUNK_WIDTH,
    SUBSTEP_COUNT,
};

#[test]
fn chunk_index_rounds_to_the_nearest_chunk() {
    assert_eq!(WorldTerrainPlugin::x_pos_to_chunk_index(0), 0);
    assert_eq!(WorldTerrainPlugin::x_pos_to_chunk_index(1_023_999), 0);
    assert_eq!(WorldTerrainPlugin::x_pos_to_chunk_index(1_024_000), 1);
    assert_eq!(WorldTerrainPlugin::x_pos_to_chunk_index(2_048_000), 1);
    assert_eq!(WorldTerrainPlugin::x_pos_to_chunk_index(3_071_999), 1);
    assert_eq!(WorldTerrainPlugin::x_pos_to_chunk_index(3_072_000), 2);
    assert_eq!(WorldTerrainPlugin::x_pos_to_chunk_index(-1_023_999), 0);
    assert_eq!(WorldTerrainPlugin::x_pos_to_chunk_index(-1_024_000), -1);
    assert_eq!(WorldTerrainPlugin::x_pos_to_chunk_index(-3_072_000), -2);
    assert_eq!(WorldTerrainPlugin::x_pos_to_chunk_index(i64::MAX), 4_503_599_627_370);
    assert_eq!(WorldTerrainPlugin::x_pos_to_chunk_index(i64::MIN), -4_503_599_627_370);
    assert_eq!((CHUNK_WIDTH, SUBSTEP_COUNT), (2_048_000, 20));
}

#[test]
fn missing_chunks_fill_the_window() {
    let none: Vec<TerrainChunk> = vec![];
    assert_eq!(
        WorldTerrainPlugin::missing_chunks(0, 4, &none),
        vec![TerrainChunk(-2), TerrainChunk(-1), TerrainChunk(0), TerrainChunk(1)]
    );
    let some = vec![TerrainChunk(1), TerrainChunk(-2), TerrainChunk(7), TerrainChunk(1)];
    assert_eq!(
        WorldTerrainPlugin::missing_chunks(0, 4, &some),
        vec![TerrainChunk(-1), TerrainChunk(0)]
    );
    assert_eq!(
        WorldTerrainPlugin::missing_chunks(5 * CHUNK_WIDTH, 5, &some),
        vec![TerrainChunk(3), TerrainChunk(4), TerrainChunk(5), TerrainChunk(6)]
    );
    assert_eq!(WorldTerrainPlugin::missing_chunks(0, 0, &none), vec![]);
    assert_eq!(WorldTerrainPlugin::missing_chunks(0, 1, &none), vec![]);
    assert_eq!(WorldTerrainPlugin::missing_chunks(i64::MIN, 255, &none).len(), 254);
    assert_eq!(
        WorldTerrainPlugin::missing_chunks(i64::MAX, 2, &none),
        vec![TerrainChunk(4_503_599_627_369), TerrainChunk(4_503_599_627_370)]
    );
}

#[test]
fn chunks_far_from_the_camera_are_stale() {
    assert!(!WorldTerrainPlugin::chunk_is_stale(&TerrainChunk(0), 0, 4));
    assert!(!WorldTerrainPlugin::chunk_is_stale(&TerrainChunk(2), 0, 4));
    assert!(!WorldTerrainPlugin::chunk_is_stale(&TerrainChunk(-2), 0, 4));
    assert!(WorldTerrainPlugin::chunk_is_stale(&TerrainChunk(3), 0, 4));
    assert!(WorldTerrainPlugin::chunk_is_stale(&TerrainChunk(-3), 0, 4));
    assert!(WorldTerrainPlugin::chunk_is_stale(&TerrainChunk(0), 3 * CHUNK_WIDTH, 4));
    assert!(!WorldTerrainPlugin::chunk_is_stale(&TerrainChunk(1), 3 * CHUNK_WIDTH, 4));
    assert!(WorldTerrainPlugin::chunk_is_stale(&TerrainChunk(i128::MAX), 0, 255));
    assert!(WorldTerrainPlugin::chunk_is_stale(&TerrainChunk(i128::MIN), 0, 255));
    for chunk in WorldTerrainPlugin::missing_chunks(12345678, 9, &vec![]) {
        assert!(!WorldTerrainPlugin::chunk_is_stale(&chunk, 12345678, 9));
    }
}

#[test]
fn terrain_defaults() {
    assert_eq!(MaxTerrainChunkCount::default(), MaxTerrainChunkCount(4));
    let seeds: Vec<u32> = (0..8).map(|_| TerrainSeed::default().0).collect();
    assert!(seeds.iter().any(|s| *s != seeds[0]));
    assert_eq!(Terrain, Terrain);
}

#[test]
fn cog_defaults() {
    assert_eq!(ChainringRadius::default(), ChainringRadius(5000));
    assert_eq!(CassetteRadius::default(), CassetteRadius(5000));
    assert_eq!(INITIAL_COG_RADIUS, 5000);
    assert_ne!(Cog::FrontChainring, Cog::RearCassette);
    assert_ne!(Axle::FRONT, Axle::REAR);
    assert_eq!(SpawnAttachedEvent { cog: Cog::RearCassette }.cog, Cog::RearCassette);
    assert_eq!(SpawnGroupsetEvent, SpawnGroupsetEvent);
    assert_eq!(Groupset, Groupset);
}

#[test]
fn wheels() {
    assert_eq!(BicycleWheel::size(), 20000);
    assert_eq!(WHEEL_SIZE, 20000);
    assert_ne!(BicycleWheel::Front, BicycleWheel::Back);
    assert_eq!(SpawnWheelEvent { wheel: BicycleWheel::Back }.wheel, BicycleWheel::Back);
    assert_eq!(Bicycle, Bicycle);
    assert_eq!(WheelPlugin::mounting_point(BicycleWheel::Front), FrameGeometry::FrontHub);
    assert_eq!(WheelPlugin::mounting_point(BicycleWheel::Back), FrameGeometry::RearHub);
    assert!(FrameGeometry::RearHub < FrameGeometry::FrontHub);
    assert!(FrameGeometry::FrontHub < FrameGeometry::BottomBracket);
    assert!(FrameGeometry::BottomBracket < FrameGeometry::SeatClamp);
    assert!(FrameGeometry::SeatClamp < FrameGeometry::StemClamp);
}

#[test]
fn camera_pans_by_unit_steps() {
    assert_eq!(CameraPanDirection::Up.as_dvec2(), (0, 1));
    assert_eq!(CameraPanDirection::Down.as_dvec2(), (0, -1));
    assert_eq!(CameraPanDirection::Left.as_dvec2(), (-1, 0));
    assert_eq!(CameraPanDirection::Right.as_dvec2(), (1, 0));
    assert_eq!(CameraPanEvent(CameraPanDirection::Left).0, CameraPanDirection::Left);
    assert_eq!(CameraZoomEvent(CameraZoomDirection::In).0, CameraZoomDirection::In);
    assert_ne!(CameraZoomDirection::In, CameraZoomDirection::Out);
    assert_eq!(CycleCameraModeEvent, CycleCameraModeEvent);
}

#[test]
fn camera_cycles_between_its_two_modes() {
    assert_eq!(CameraState::default(), CameraState::Follow);
    assert_eq!(CameraState::Follow.cycled(), CameraState::Free);
    assert_eq!(CameraState::Free.cycled(), CameraState::Follow);
    assert_eq!(CameraState::Follow.cycled().cycled(), CameraState::Follow);
}

#[test]
fn bounded_queue_forgets_the_oldest() {
    let mut queue: BoundedQueue<u32> = BoundedQueue::new(3);
    assert!(queue.is_empty());
    assert_eq!(queue.len(), 0);
    assert_eq!(queue.peek(), None);
    assert_eq!(queue.dequeue(), None);
    queue.enqueue(1);
    queue.enqueue(2);
    queue.enqueue(3);
    assert_eq!(queue.len(), 3);
    assert_eq!(queue.peek(), Some(&1));
    queue.enqueue(4);
    assert_eq!(queue.len(), 3);
    assert_eq!(queue.peek(), Some(&2));
    assert_eq!(queue.get(0), Some(&2));
    assert_eq!(queue.get(1), Some(&3));
    assert_eq!(queue.get(2), Some(&4));
    assert_eq!(queue.get(3), None);
    assert_eq!(queue.get(usize::MAX), None);
    assert_eq!(queue.dequeue(), Some(2));
    assert_eq!(queue.dequeue(), Some(3));
    assert_eq!(queue.len(), 1);
    assert!(!queue.is_empty());
    queue.enqueue(5);
    queue.enqueue(6);
    queue.enqueue(7);
    assert_eq!(queue.dequeue(), Some(5));
    assert_eq!(queue.dequeue(), Some(6));
    assert_eq!(queue.dequeue(), Some(7));
    assert_eq!(queue.dequeue(), None);
}

#[test]
fn bounded_queue_without_room() {
    let mut queue: BoundedQueue<&str> = BoundedQueue::new(0);
    queue.enqueue("a");
    assert_eq!(queue.len(), 1);
    queue.enqueue("b");
    assert_eq!(queue.len(), 2);
    assert_eq!(queue.peek(), Some(&"a"));
    let mut single: BoundedQueue<&str> = BoundedQueue::new(1);
    single.enqueue("a");
    single.enqueue("b");
    assert_eq!(single.len(), 1);
    assert_eq!(single.peek(), Some(&"b"));
}
