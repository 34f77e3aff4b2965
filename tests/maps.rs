use chunked_tiles::chunks::ChunkCoord;
use chunked_tiles::maps::TileMap;

fn has_chunk(map: &TileMap<u64, 2>, c: [i32; 2]) -> bool {
    map.get_from_chunk(ChunkCoord(c)).is_some()
}

#[test]
fn new_map_is_empty() {
    let map: TileMap<u64, 2> = TileMap::new(16);
    assert_eq!(map.get_chunk_size(), 16);
    assert_eq!(map.get_at([0, 0]), None);
    assert!(!has_chunk(&map, [0, 0]));
}

#[test]
fn insert_then_get() {
    let mut map: TileMap<u64, 2> = TileMap::new(16);
    assert_eq!(map.insert_tile([3, -4], 10), None);
    assert_eq!(map.get_at([3, -4]), Some(&10));
    assert_eq!(map.get_at([3, 4]), None);
    assert_eq!(map.get_at([-4, 3]), None);
}

#[test]
fn insert_then_remove_restores_empty() {
    let mut map: TileMap<u64, 2> = TileMap::new(16);
    assert_eq!(map.insert_tile([5, 5], 1), None);
    assert_eq!(map.take_tile([5, 5]), Some(1));
    assert_eq!(map.get_at([5, 5]), None);
    assert_eq!(map.take_tile([5, 5]), None);
    assert!(!has_chunk(&map, [0, 0]));
}

#[test]
fn insert_twice_replaces_first() {
    let mut map: TileMap<u64, 2> = TileMap::new(16);
    assert_eq!(map.insert_tile([1, 2], 1), None);
    assert_eq!(map.insert_tile([1, 2], 2), Some(1));
    assert_eq!(map.get_at([1, 2]), Some(&2));
    assert_eq!(map.take_tile([1, 2]), Some(2));
    assert_eq!(map.get_at([1, 2]), None);
}

#[test]
fn chunk_lifecycle() {
    let mut map: TileMap<u64, 2> = TileMap::new(16);
    assert!(!has_chunk(&map, [-1, 0]));
    map.insert_tile([-1, 0], 1);
    assert!(has_chunk(&map, [-1, 0]));
    assert!(!has_chunk(&map, [0, 0]));
    map.insert_tile([-16, 15], 2);
    assert_eq!(map.get_from_chunk(ChunkCoord([-1, 0])).map(|c| c.get_count()), Some(2));
    map.take_tile([-1, 0]);
    assert!(has_chunk(&map, [-1, 0]));
    map.take_tile([-16, 15]);
    assert!(!has_chunk(&map, [-1, 0]));
}

#[test]
fn get_from_tile_finds_owning_chunk() {
    let mut map: TileMap<u64, 2> = TileMap::new(4);
    map.insert_tile([-5, 9], 3);
    let chunk = map.get_from_tile([-8, 8]).expect("chunk");
    assert_eq!(chunk.get(7), Some(&3));
    assert!(map.get_from_tile([-4, 8]).is_none());
}

#[test]
fn get_at_mut_writes_through() {
    let mut map: TileMap<u64, 2> = TileMap::new(16);
    map.insert_tile([20, -20], 1);
    if let Some(v) = map.get_at_mut([20, -20]) {
        *v = 99;
    }
    assert_eq!(map.get_at([20, -20]), Some(&99));
    assert!(map.get_at_mut([21, -20]).is_none());
}

#[test]
fn move_to_empty() {
    let mut map: TileMap<u64, 2> = TileMap::new(16);
    map.insert_tile([0, 0], 7);
    assert_eq!(map.move_tile([0, 0], [40, -3]), None);
    assert_eq!(map.get_at([0, 0]), None);
    assert_eq!(map.get_at([40, -3]), Some(&7));
    assert!(!has_chunk(&map, [0, 0]));
    assert!(has_chunk(&map, [2, -1]));
}

#[test]
fn move_onto_occupied_returns_prior() {
    let mut map: TileMap<u64, 2> = TileMap::new(16);
    map.insert_tile([1, 1], 1);
    map.insert_tile([2, 2], 2);
    assert_eq!(map.move_tile([1, 1], [2, 2]), Some(2));
    assert_eq!(map.get_at([1, 1]), None);
    assert_eq!(map.get_at([2, 2]), Some(&1));
}

#[test]
fn move_same_or_empty_is_noop() {
    let mut map: TileMap<u64, 2> = TileMap::new(16);
    map.insert_tile([1, 1], 1);
    map.insert_tile([2, 2], 2);
    assert_eq!(map.move_tile([1, 1], [1, 1]), None);
    assert_eq!(map.get_at([1, 1]), Some(&1));
    assert_eq!(map.move_tile([3, 3], [2, 2]), None);
    assert_eq!(map.get_at([2, 2]), Some(&2));
}

#[test]
fn swap_both_occupied() {
    let mut map: TileMap<u64, 2> = TileMap::new(16);
    map.insert_tile([0, 0], 1);
    map.insert_tile([1, 0], 2);
    map.swap_tiles([0, 0], [1, 0]);
    assert_eq!(map.get_at([0, 0]), Some(&2));
    assert_eq!(map.get_at([1, 0]), Some(&1));
}

#[test]
fn swap_across_chunks() {
    let mut map: TileMap<u64, 2> = TileMap::new(16);
    map.insert_tile([-1, -1], 1);
    map.insert_tile([100, 100], 2);
    map.swap_tiles([100, 100], [-1, -1]);
    assert_eq!(map.get_at([-1, -1]), Some(&2));
    assert_eq!(map.get_at([100, 100]), Some(&1));
}

#[test]
fn swap_with_empty_is_move() {
    let mut map: TileMap<u64, 2> = TileMap::new(16);
    map.insert_tile([0, 0], 1);
    map.swap_tiles([0, 0], [50, 0]);
    assert_eq!(map.get_at([0, 0]), None);
    assert_eq!(map.get_at([50, 0]), Some(&1));
    assert!(!has_chunk(&map, [0, 0]));
    map.swap_tiles([0, 0], [50, 0]);
    assert_eq!(map.get_at([0, 0]), Some(&1));
    assert_eq!(map.get_at([50, 0]), None);
}

#[test]
fn swap_same_is_noop() {
    let mut map: TileMap<u64, 2> = TileMap::new(16);
    map.insert_tile([4, 4], 1);
    map.swap_tiles([4, 4], [4, 4]);
    assert_eq!(map.get_at([4, 4]), Some(&1));
}

#[test]
fn three_dimensional_map() {
    let mut map: TileMap<u64, 3> = TileMap::new(4);
    map.insert_tile([-1, 2, 9], 1);
    map.insert_tile([3, 2, 9], 2);
    assert_eq!(map.get_at([-1, 2, 9]), Some(&1));
    assert_eq!(map.get_at([3, 2, 9]), Some(&2));
    assert!(map.get_from_chunk(ChunkCoord([-1, 0, 2])).is_some());
    assert!(map.get_from_chunk(ChunkCoord([0, 0, 2])).is_some());
}

#[test]
fn kept_empty_chunks_stay_registered() {
    let mut map: TileMap<u64, 2> = TileMap::with_policy(16, true);
    assert!(map.keeps_empty());
    map.insert_tile([1, 1], 1);
    assert_eq!(map.take_tile([1, 1]), Some(1));
    assert!(has_chunk(&map, [0, 0]));
    assert_eq!(map.get_from_chunk(ChunkCoord([0, 0])).map(|c| c.get_count()), Some(0));
    assert_eq!(map.get_at([1, 1]), None);
    map.insert_tile([2, 2], 2);
    assert_eq!(map.get_at([2, 2]), Some(&2));
}

#[test]
fn default_policy_drops_empty_chunks() {
    let map: TileMap<u64, 2> = TileMap::new(16);
    assert!(!map.keeps_empty());
}

#[test]
fn spawn_chunk_follows_policy() {
    let mut kept: TileMap<u64, 2> = TileMap::with_policy(8, true);
    kept.spawn_chunk([3, -3]);
    assert!(kept.get_from_chunk(ChunkCoord([3, -3])).is_some());
    assert_eq!(kept.get_at([24, -24]), None);
    let mut dropped: TileMap<u64, 2> = TileMap::new(8);
    dropped.spawn_chunk([3, -3]);
    assert!(dropped.get_from_chunk(ChunkCoord([3, -3])).is_none());
}

#[test]
fn spawn_chunk_keeps_existing_tiles() {
    let mut map: TileMap<u64, 2> = TileMap::with_policy(8, true);
    map.insert_tile([1, 1], 5);
    map.spawn_chunk([0, 0]);
    assert_eq!(map.get_at([1, 1]), Some(&5));
}

#[test]
fn despawn_chunk_returns_its_tiles() {
    let mut map: TileMap<u64, 2> = TileMap::new(4);
    map.insert_tile([0, 0], 1);
    map.insert_tile([3, 3], 2);
    map.insert_tile([4, 0], 3);
    let chunk = map.despawn_chunk([0, 0]).expect("chunk");
    assert_eq!(chunk.get_count(), 2);
    assert_eq!(chunk.get(0), Some(&1));
    assert_eq!(chunk.get(15), Some(&2));
    assert_eq!(map.get_at([0, 0]), None);
    assert_eq!(map.get_at([3, 3]), None);
    assert_eq!(map.get_at([4, 0]), Some(&3));
    assert!(map.despawn_chunk([0, 0]).is_none());
}

#[test]
fn chunk_coords_lists_each_chunk() {
    let mut map: TileMap<u64, 2> = TileMap::new(4);
    map.insert_tile([0, 0], 1);
    map.insert_tile([1, 1], 2);
    map.insert_tile([-1, 9], 3);
    let mut coords: Vec<[i32; 2]> = map.chunk_coords().into_iter().map(|c| c.0).collect();
    coords.sort();
    assert_eq!(coords, vec![[-1, 2], [0, 0]]);
}
