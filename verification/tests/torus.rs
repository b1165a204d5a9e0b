use conway::partition::partition_rows;
use conway::torus::{get_index_from_position, get_position_from_index, wrap_coordinate};

#[test]
fn wrap_coordinate_in_range_is_identity() {
    for x in 0..7 {
        assert_eq!(wrap_coordinate(x, 7), x);
    }
}

#[test]
fn wrap_coordinate_wraps_past_the_end() {
    assert_eq!(wrap_coordinate(7, 7), 0);
    assert_eq!(wrap_coordinate(8, 7), 1);
    assert_eq!(wrap_coordinate(20, 7), 6);
    assert_eq!(wrap_coordinate(i32::MAX, 10), 7);
}

#[test]
fn wrap_coordinate_wraps_negative_values() {
    assert_eq!(wrap_coordinate(-1, 7), 6);
    assert_eq!(wrap_coordinate(-6, 7), 1);
    assert_eq!(wrap_coordinate(-8, 7), 6);
    assert_eq!(wrap_coordinate(i32::MIN, 10), 2);
}

#[test]
fn wrap_coordinate_of_a_negative_multiple_is_zero() {
    assert_eq!(wrap_coordinate(-7, 7), 0);
    assert_eq!(wrap_coordinate(-14, 7), 0);
    assert_eq!(wrap_coordinate(-1, 1), 0);
    assert_eq!(wrap_coordinate(i32::MIN, 1), 0);
    assert_eq!(wrap_coordinate(i32::MIN, 2), 0);
}

#[test]
fn index_is_row_major() {
    // width 5, height 4
    assert_eq!(get_index_from_position((0, 0), (5, 4)), 0);
    assert_eq!(get_index_from_position((0, 4), (5, 4)), 4);
    assert_eq!(get_index_from_position((1, 0), (5, 4)), 5);
    assert_eq!(get_index_from_position((2, 3), (5, 4)), 13);
    assert_eq!(get_index_from_position((3, 4), (5, 4)), 19);
}

#[test]
fn index_wraps_both_coordinates() {
    assert_eq!(get_index_from_position((-1, -1), (5, 4)), 19);
    assert_eq!(get_index_from_position((4, 5), (5, 4)), 0);
    assert_eq!(get_index_from_position((-1, 0), (5, 4)), 15);
    assert_eq!(get_index_from_position((0, -1), (5, 4)), 4);
    assert_eq!(get_index_from_position((9, 12), (5, 4)), 7);
}

#[test]
fn index_of_a_negative_multiple_stays_in_its_row() {
    assert_eq!(get_index_from_position((0, -5), (5, 4)), 0);
    assert_eq!(get_index_from_position((3, -5), (5, 4)), 15);
    assert_eq!(get_index_from_position((-4, 2), (5, 4)), 2);
    assert_eq!(get_index_from_position((-4, -5), (5, 4)), 0);
}

#[test]
fn index_is_always_inside_the_buffer() {
    for row in -13..13 {
        for col in -13..13 {
            let index = get_index_from_position((row, col), (5, 4));
            assert!(index < 20);
            let same = get_index_from_position((row + 4, col - 5), (5, 4));
            assert_eq!(index, same);
        }
    }
}

#[test]
fn index_at_the_extremes() {
    assert_eq!(get_index_from_position((i32::MAX, i32::MAX), (1, 1)), 0);
    assert_eq!(get_index_from_position((i32::MIN, i32::MIN), (1, 1)), 0);
    assert_eq!(get_index_from_position((i32::MIN, i32::MAX), (10, 10)), 27);
}

#[test]
fn position_of_an_index() {
    assert_eq!(get_position_from_index(0, (5, 4)), (0, 0));
    assert_eq!(get_position_from_index(4, (5, 4)), (0, 4));
    assert_eq!(get_position_from_index(5, (5, 4)), (1, 0));
    assert_eq!(get_position_from_index(13, (5, 4)), (2, 3));
    assert_eq!(get_position_from_index(19, (5, 4)), (3, 4));
}

#[test]
fn position_and_index_round_trip() {
    for index in 0..20usize {
        let position = get_position_from_index(index, (5, 4));
        assert_eq!(get_index_from_position(position, (5, 4)), index);
    }
}

#[test]
fn partitions_split_rows_evenly_with_remainder_in_the_last() {
    assert_eq!(partition_rows(10, 3, 0), (0, 3));
    assert_eq!(partition_rows(10, 3, 1), (3, 6));
    assert_eq!(partition_rows(10, 3, 2), (6, 10));
}

#[test]
fn partitions_of_an_exact_split() {
    assert_eq!(partition_rows(100, 20, 0), (0, 5));
    assert_eq!(partition_rows(100, 20, 7), (35, 40));
    assert_eq!(partition_rows(100, 20, 19), (95, 100));
}

#[test]
fn single_partition_is_the_whole_board() {
    assert_eq!(partition_rows(17, 1, 0), (0, 17));
    assert_eq!(partition_rows(0, 1, 0), (0, 0));
}

#[test]
fn more_partitions_than_rows_leaves_all_rows_to_the_last() {
    for k in 0..19usize {
        assert_eq!(partition_rows(6, 20, k), (0, 0));
    }
    assert_eq!(partition_rows(6, 20, 19), (0, 6));
}

#[test]
fn partitions_cover_every_row_once() {
    for height in 0..40 {
        for partitions in 1..25usize {
            let mut next_row = 0;
            for k in 0..partitions {
                let (start, end) = partition_rows(height, partitions, k);
                assert_eq!(start, next_row);
                assert!(start <= end);
                next_row = end;
            }
            assert_eq!(next_row, height);
        }
    }
}
