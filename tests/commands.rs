use chunked_tiles::maps::TileMap;

#[test]
fn insert_batch_last_write_wins() {
    let mut map: TileMap<u64, 2> = TileMap::new(8);
    map.insert_tile([0, 0], 1);
    let replaced = map.insert_tile_batch(vec![([0, 0], 2), ([9, 9], 3), ([0, 0], 4), ([-1, 0], 5)]);
    assert_eq!(replaced, vec![1, 2]);
    assert_eq!(map.get_at([0, 0]), Some(&4));
    assert_eq!(map.get_at([9, 9]), Some(&3));
    assert_eq!(map.get_at([-1, 0]), Some(&5));
}

#[test]
fn take_batch_returns_found() {
    let mut map: TileMap<u64, 2> = TileMap::new(8);
    map.insert_tile([0, 0], 1);
    map.insert_tile([20, 0], 2);
    let taken = map.take_tile_batch(vec![[20, 0], [5, 5], [0, 0], [20, 0]]);
    assert_eq!(taken, vec![([20, 0], 2), ([0, 0], 1)]);
    assert_eq!(map.get_at([0, 0]), None);
    assert_eq!(map.get_at([20, 0]), None);
}

#[test]
fn move_batch_moves_simultaneously() {
    let mut map: TileMap<u64, 2> = TileMap::new(8);
    map.insert_tile([0, 0], 1);
    map.insert_tile([1, 0], 2);
    map.insert_tile([5, 5], 3);
    let replaced = map.move_tile_batch(vec![([0, 0], [1, 0]), ([1, 0], [2, 0]), ([3, 3], [5, 5])]);
    assert_eq!(replaced, Vec::<u64>::new());
    assert_eq!(map.get_at([0, 0]), None);
    assert_eq!(map.get_at([1, 0]), Some(&1));
    assert_eq!(map.get_at([2, 0]), Some(&2));
    assert_eq!(map.get_at([5, 5]), Some(&3));
}

#[test]
fn move_batch_replaces_destination() {
    let mut map: TileMap<u64, 2> = TileMap::new(8);
    map.insert_tile([0, 0], 1);
    map.insert_tile([9, 9], 2);
    let replaced = map.move_tile_batch(vec![([0, 0], [9, 9]), ([0, 0], [4, 4])]);
    assert_eq!(replaced, vec![2]);
    assert_eq!(map.get_at([9, 9]), Some(&1));
    assert_eq!(map.get_at([4, 4]), None);
}

#[test]
fn swap_batch_exchanges_pairs() {
    let mut map: TileMap<u64, 2> = TileMap::new(8);
    map.insert_tile([0, 0], 1);
    map.insert_tile([1, 0], 2);
    map.insert_tile([-9, 3], 3);
    let replaced = map.swap_tile_batch(vec![([0, 0], [1, 0]), ([-9, 3], [30, 30])]);
    assert_eq!(replaced, Vec::<u64>::new());
    assert_eq!(map.get_at([0, 0]), Some(&2));
    assert_eq!(map.get_at([1, 0]), Some(&1));
    assert_eq!(map.get_at([-9, 3]), None);
    assert_eq!(map.get_at([30, 30]), Some(&3));
}
