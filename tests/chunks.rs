use chunked_tiles::chunks::{ChunkCoord, ChunkData};

#[test]
fn new_chunk_is_empty() {
    let chunk: ChunkData<u64> = ChunkData::new(16);
    assert_eq!(chunk.get_count(), 0);
    for i in 0..16 {
        assert_eq!(chunk.get(i), None);
    }
    assert_eq!(chunk.get(16), None);
}

#[test]
fn insert_counts_new_slots_only() {
    let mut chunk: ChunkData<u64> = ChunkData::new(4);
    assert_eq!(chunk.insert(2, 7), None);
    assert_eq!(chunk.get_count(), 1);
    assert_eq!(chunk.insert(2, 8), Some(7));
    assert_eq!(chunk.get_count(), 1);
    assert_eq!(chunk.insert(0, 9), None);
    assert_eq!(chunk.get_count(), 2);
    assert_eq!(chunk.get(2), Some(&8));
    assert_eq!(chunk.get(0), Some(&9));
}

#[test]
fn take_empties_slot() {
    let mut chunk: ChunkData<u64> = ChunkData::new(4);
    chunk.insert(1, 5);
    assert_eq!(chunk.take(1), Some(5));
    assert_eq!(chunk.get_count(), 0);
    assert_eq!(chunk.take(1), None);
    assert_eq!(chunk.get_count(), 0);
    assert_eq!(chunk.take(10), None);
}

#[test]
fn get_mut_writes_through() {
    let mut chunk: ChunkData<u64> = ChunkData::new(4);
    chunk.insert(3, 1);
    if let Some(v) = chunk.get_mut(3) {
        *v = 42;
    }
    assert_eq!(chunk.get(3), Some(&42));
    assert!(chunk.get_mut(2).is_none());
    assert!(chunk.get_mut(9).is_none());
    assert_eq!(chunk.get_count(), 1);
}

#[test]
fn chunk_coord_compares_by_value() {
    assert_eq!(ChunkCoord([1, -2]), ChunkCoord([1, -2]));
    assert_ne!(ChunkCoord([1, -2]), ChunkCoord([-2, 1]));
}
