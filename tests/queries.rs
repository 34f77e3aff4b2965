use chunked_tiles::chunks::ChunkCoord;
use chunked_tiles::maps::TileMap;

fn collect(map: &TileMap<u64, 2>, c1: [i32; 2], c2: [i32; 2]) -> Vec<u64> {
    let mut iter = map.iter_in(c1, c2);
    let mut out = Vec::new();
    while let Some(v) = iter.next() {
        out.push(*v);
    }
    out
}

#[test]
fn iter_in_skips_empty_in_order() {
    let mut map: TileMap<u64, 2> = TileMap::new(4);
    map.insert_tile([1, 0], 10);
    map.insert_tile([-1, 0], 20);
    map.insert_tile([0, 1], 30);
    map.insert_tile([5, 5], 40);
    assert_eq!(collect(&map, [-1, 0], [1, 1]), vec![20, 10, 30]);
    assert_eq!(collect(&map, [1, 1], [-1, 0]), vec![20, 10, 30]);
    assert_eq!(collect(&map, [2, 2], [3, 3]), Vec::<u64>::new());
    assert_eq!(collect(&map, [5, 5], [5, 5]), vec![40]);
}

#[test]
fn iter_in_chunk_covers_chunk() {
    let mut map: TileMap<u64, 2> = TileMap::new(4);
    map.insert_tile([-4, -4], 1);
    map.insert_tile([-1, -1], 2);
    map.insert_tile([0, 0], 3);
    let mut iter = map.iter_in_chunk([-1, -1]);
    assert_eq!(iter.next(), Some(&1));
    assert_eq!(iter.next(), Some(&2));
    assert_eq!(iter.next(), None);
}

#[test]
fn iter_in_chunks_covers_range() {
    let mut map: TileMap<u64, 2> = TileMap::new(4);
    map.insert_tile([-4, -4], 1);
    map.insert_tile([7, 3], 2);
    map.insert_tile([8, 0], 3);
    let mut iter = map.iter_in_chunks([-1, -1], [1, 0]);
    assert_eq!(iter.next(), Some(&1));
    assert_eq!(iter.next(), Some(&2));
    assert_eq!(iter.next(), None);
}

#[test]
fn iter_in_mut_visits_each_once() {
    let mut map: TileMap<u64, 2> = TileMap::new(4);
    for x in -3..3 {
        map.insert_tile([x, x], 1);
    }
    let mut iter = map.iter_in_mut([-3, -3], [2, 2]);
    let mut visited = 0;
    while let Some(v) = iter.next(&mut map) {
        *v += 1;
        visited += 1;
    }
    assert_eq!(visited, 6);
    for x in -3..3 {
        assert_eq!(map.get_at([x, x]), Some(&2));
    }
}

#[test]
fn full_chunk_scenario() {
    let mut map: TileMap<u64, 2> = TileMap::new(16);
    let mut n = 0;
    for y in 0..16 {
        for x in 0..16 {
            assert_eq!(map.insert_tile([x, y], n), None);
            n += 1;
        }
    }
    assert_eq!(map.get_from_chunk(ChunkCoord([0, 0])).map(|c| c.get_count()), Some(256));
    assert_eq!(map.take_tile([7, 7]), Some(7 + 7 * 16));
    let mut iter = map.iter_in_chunk([0, 0]);
    let mut count = 0;
    while iter.next().is_some() {
        count += 1;
    }
    assert_eq!(count, 255);
    for y in 0..16 {
        for x in 0..16 {
            if (x, y) != (7, 7) {
                assert!(map.take_tile([x, y]).is_some());
            }
        }
    }
    assert!(map.get_from_chunk(ChunkCoord([0, 0])).is_none());
    assert_eq!(map.iter_in_chunk([0, 0]).next(), None);
}

#[test]
fn iter_in_chunk_mut_updates_chunk_only() {
    let mut map: TileMap<u64, 2> = TileMap::new(4);
    map.insert_tile([1, 1], 1);
    map.insert_tile([3, 0], 2);
    map.insert_tile([4, 4], 3);
    let mut iter = map.iter_in_chunk_mut([0, 0]);
    while let Some(v) = iter.next(&mut map) {
        *v *= 10;
    }
    assert_eq!(map.get_at([1, 1]), Some(&10));
    assert_eq!(map.get_at([3, 0]), Some(&20));
    assert_eq!(map.get_at([4, 4]), Some(&3));
}

#[test]
fn iter_in_chunks_mut_spans_chunks() {
    let mut map: TileMap<u64, 2> = TileMap::new(4);
    map.insert_tile([-4, 0], 1);
    map.insert_tile([7, 7], 2);
    map.insert_tile([8, 8], 3);
    let mut iter = map.iter_in_chunks_mut([-1, 0], [1, 1]);
    let mut seen = Vec::new();
    while let Some(v) = iter.next(&mut map) {
        seen.push(*v);
        *v = 0;
    }
    assert_eq!(seen, vec![1, 2]);
    assert_eq!(map.get_at([-4, 0]), Some(&0));
    assert_eq!(map.get_at([8, 8]), Some(&3));
}
