use chunked_tiles::coords::{
    calculate_chunk_coordinate, calculate_chunk_relative_tile_coordinate, calculate_tile_coordinate,
    calculate_tile_index, max_tile_index, CoordIterator,
};

fn make_range(val_1: i32, val_2: i32) -> std::ops::RangeInclusive<i32> {
    if val_1 < val_2 {
        val_1..=val_2
    } else {
        val_2..=val_1
    }
}

fn check_coord_iter(corner_1: [i32; 3], corner_2: [i32; 3]) {
    let mut iter = CoordIterator::new(corner_1, corner_2);
    for z in make_range(corner_1[2], corner_2[2]) {
        for y in make_range(corner_1[1], corner_2[1]) {
            for x in make_range(corner_1[0], corner_2[0]) {
                assert_eq!(Some([x, y, z]), iter.next());
            }
        }
    }
    assert_eq!(None, iter.next());
    assert_eq!(None, iter.next());
}

#[test]
fn coord_iter_ascending() {
    check_coord_iter([0, 0, 0], [3, 3, 3]);
}

#[test]
fn coord_iter_descending() {
    check_coord_iter([3, 3, 3], [0, 0, 0]);
}

#[test]
fn coord_iter_mixed_corners() {
    check_coord_iter([0, 3, 0], [3, 0, 3]);
}

#[test]
fn coord_iter_flat_axis() {
    check_coord_iter([0, 3, 0], [3, 3, 3]);
}

#[test]
fn coord_iter_line() {
    check_coord_iter([0, 3, 0], [0, 0, 3]);
}

#[test]
fn coord_iter_single_point() {
    check_coord_iter([3, 3, 3], [3, 3, 3]);
}

#[test]
fn coord_iter_negative_box_order() {
    let mut iter = CoordIterator::new([0, -1], [-1, 0]);
    assert_eq!(iter.next(), Some([-1, -1]));
    assert_eq!(iter.next(), Some([0, -1]));
    assert_eq!(iter.next(), Some([-1, 0]));
    assert_eq!(iter.next(), Some([0, 0]));
    assert_eq!(iter.next(), None);
}

#[test]
fn coord_iter_counts_every_point_once() {
    let mut iter = CoordIterator::new([-2, 5, 1], [2, 3, -1]);
    let mut seen = Vec::new();
    while let Some(c) = iter.next() {
        assert!(!seen.contains(&c));
        seen.push(c);
    }
    assert_eq!(seen.len(), 5 * 3 * 3);
}

#[test]
fn chunk_coordinate_floors() {
    assert_eq!(calculate_chunk_coordinate([-1], 16), [-1]);
    assert_eq!(calculate_chunk_coordinate([-16], 16), [-1]);
    assert_eq!(calculate_chunk_coordinate([-17], 16), [-2]);
    assert_eq!(calculate_chunk_coordinate([15], 16), [0]);
    assert_eq!(calculate_chunk_coordinate([16], 16), [1]);
    assert_eq!(calculate_chunk_coordinate([0], 16), [0]);
}

#[test]
fn chunk_coordinate_extremes() {
    assert_eq!(calculate_chunk_coordinate([i32::MIN, i32::MAX], 16), [-134217728, 134217727]);
    assert_eq!(calculate_chunk_coordinate([i32::MIN], 3), [-715827883]);
}

#[test]
fn relative_coordinate_is_non_negative() {
    assert_eq!(calculate_chunk_relative_tile_coordinate([-1, 17], 16), [15, 1]);
    assert_eq!(calculate_chunk_relative_tile_coordinate([-16, 16], 16), [0, 0]);
    assert_eq!(calculate_chunk_relative_tile_coordinate([i32::MIN], 3), [1]);
}

#[test]
fn tile_index_test_x_edge() {
    assert_eq!(calculate_tile_index([15, 0], 16), 15);
}

#[test]
fn tile_index_test_y_edge() {
    assert_eq!(calculate_tile_index([0, 15], 16), 240);
}

#[test]
fn tile_index_test_far_corner() {
    assert_eq!(calculate_tile_index([15, 15], 16), 255);
}

#[test]
fn tile_index_test_negative_corner() {
    assert_eq!(calculate_tile_index([-1, -1], 16), 255);
}

#[test]
fn tile_index_test_negative_origin() {
    assert_eq!(calculate_tile_index([-16, -16], 16), 0);
}

#[test]
fn tile_index_test_negative_zero() {
    assert_eq!(calculate_tile_index([-8, -0], 8), 0);
}

#[test]
fn tile_index_three_dimensions() {
    assert_eq!(calculate_tile_index([1, 2, 3], 4), 1 + 2 * 4 + 3 * 16);
}

#[test]
fn tile_coordinate_from_index() {
    assert_eq!(calculate_tile_coordinate([1, -1], 255, 16), [31, -1]);
    assert_eq!(calculate_tile_coordinate([0, 0], 0, 16), [0, 0]);
    assert_eq!(calculate_tile_coordinate([0, 0, 0], 1 + 2 * 4 + 3 * 16, 4), [1, 2, 3]);
    assert_eq!(calculate_tile_coordinate([-1, 2, 0], 63, 4), [-1, 11, 3]);
}

#[test]
fn coordinate_round_trip() {
    for &s in &[1usize, 3, 16] {
        for x in -40..40 {
            for y in [-33, -1, 0, 7, 32] {
                let c = [x, y];
                let chunk = calculate_chunk_coordinate(c, s);
                let index = calculate_tile_index(c, s);
                assert!(index < s * s);
                assert_eq!(calculate_tile_coordinate(chunk, index, s), c);
            }
        }
    }
}

#[test]
fn max_tile_index_is_last_slot() {
    assert_eq!(max_tile_index::<2>(16), 255);
    assert_eq!(max_tile_index::<3>(4), 63);
    assert_eq!(max_tile_index::<1>(1), 0);
}
