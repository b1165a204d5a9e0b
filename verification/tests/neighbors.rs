use conway::cell::Cell;
use conway::grid::{get_neighbors, get_state_at, wake_up_neighbors};

fn cells_from_rows(rows: &[&str]) -> Vec<Cell> {
    let mut cells = Vec::new();
    for row in rows {
        for c in row.chars() {
            cells.push(Cell { frames_alive: 0, state: c == '#', should_update: false });
        }
    }
    cells
}

fn awake_indices(cells: &Vec<Cell>) -> Vec<usize> {
    let mut awake = Vec::new();
    for i in 0..cells.len() {
        if cells[i].should_update {
            awake.push(i);
        }
    }
    awake
}

#[test]
fn state_at_reads_the_wrapped_cell() {
    let cells = cells_from_rows(&["#..", "...", "..#"]);
    assert!(get_state_at(&cells, (0, 0), (3, 3)));
    assert!(!get_state_at(&cells, (0, 1), (3, 3)));
    assert!(get_state_at(&cells, (2, 2), (3, 3)));
    assert!(get_state_at(&cells, (-1, -1), (3, 3)));
    assert!(get_state_at(&cells, (3, 3), (3, 3)));
    assert!(get_state_at(&cells, (-3, -3), (3, 3)));
    assert!(!get_state_at(&cells, (1, 1), (3, 3)));
}

#[test]
fn neighbors_of_an_empty_board_are_zero() {
    let cells = cells_from_rows(&["....", "....", "....", "...."]);
    for row in 0..4 {
        for col in 0..4 {
            assert_eq!(get_neighbors(&cells, (row, col), (4, 4)), 0);
        }
    }
}

#[test]
fn neighbors_do_not_count_the_cell_itself() {
    let cells = cells_from_rows(&[".....", ".....", "..#..", ".....", "....."]);
    assert_eq!(get_neighbors(&cells, (2, 2), (5, 5)), 0);
    assert_eq!(get_neighbors(&cells, (1, 1), (5, 5)), 1);
    assert_eq!(get_neighbors(&cells, (1, 2), (5, 5)), 1);
    assert_eq!(get_neighbors(&cells, (3, 3), (5, 5)), 1);
    assert_eq!(get_neighbors(&cells, (0, 0), (5, 5)), 0);
    assert_eq!(get_neighbors(&cells, (2, 4), (5, 5)), 0);
}

#[test]
fn neighbors_count_all_eight() {
    let cells = cells_from_rows(&["###", "#.#", "###"]);
    assert_eq!(get_neighbors(&cells, (1, 1), (3, 3)), 8);
    let full = cells_from_rows(&["#####", "#####", "#####", "#####", "#####"]);
    assert_eq!(get_neighbors(&full, (2, 2), (5, 5)), 8);
    assert_eq!(get_neighbors(&full, (0, 0), (5, 5)), 8);
}

#[test]
fn neighbors_wrap_around_the_edges() {
    let cells = cells_from_rows(&["....#", ".....", ".....", "#...#"]);
    // (0, 0) sees (3, 4) diagonally, (3, 0) above and (0, 4) to the left
    assert_eq!(get_neighbors(&cells, (0, 0), (5, 4)), 3);
    // (3, 0) sees (3, 4) to the left and (0, 4) diagonally below
    assert_eq!(get_neighbors(&cells, (3, 0), (5, 4)), 2);
    assert_eq!(get_neighbors(&cells, (0, 4), (5, 4)), 2);
    assert_eq!(get_neighbors(&cells, (3, 4), (5, 4)), 2);
    assert_eq!(get_neighbors(&cells, (1, 2), (5, 4)), 0);
}

#[test]
fn neighbors_of_a_position_outside_the_board() {
    let cells = cells_from_rows(&["....#", ".....", ".....", "#...#"]);
    assert_eq!(get_neighbors(&cells, (4, 5), (5, 4)), 3);
    assert_eq!(get_neighbors(&cells, (-4, -5), (5, 4)), 3);
    assert_eq!(get_neighbors(&cells, (-1, 0), (5, 4)), 2);
}

#[test]
fn neighbors_at_the_extreme_positions() {
    let cells = cells_from_rows(&["#..", "...", "..."]);
    // i32::MAX wraps to 1 and i32::MIN to 1 on a side of three
    assert_eq!(get_neighbors(&cells, (i32::MAX, i32::MAX), (3, 3)), 1);
    assert_eq!(get_neighbors(&cells, (i32::MIN, i32::MIN), (3, 3)), 1);
}

#[test]
fn neighbors_on_a_board_of_one_cell() {
    let alive = cells_from_rows(&["#"]);
    assert_eq!(get_neighbors(&alive, (0, 0), (1, 1)), 8);
    let dead = cells_from_rows(&["."]);
    assert_eq!(get_neighbors(&dead, (0, 0), (1, 1)), 0);
}

#[test]
fn neighbors_on_a_board_two_wide() {
    let cells = cells_from_rows(&["#.", ".."]);
    // the one live cell is seen once diagonally (four times over), never as itself
    assert_eq!(get_neighbors(&cells, (1, 1), (2, 2)), 4);
    assert_eq!(get_neighbors(&cells, (0, 1), (2, 2)), 2);
    assert_eq!(get_neighbors(&cells, (1, 0), (2, 2)), 2);
    assert_eq!(get_neighbors(&cells, (0, 0), (2, 2)), 0);
}

#[test]
fn wake_up_marks_the_eight_around() {
    let mut cells = cells_from_rows(&[".....", ".....", ".....", ".....", "....."]);
    wake_up_neighbors(&mut cells, (2, 2), (5, 5));
    assert_eq!(awake_indices(&cells), vec![6, 7, 8, 11, 13, 16, 17, 18]);
}

#[test]
fn wake_up_leaves_the_center_alone() {
    let mut cells = cells_from_rows(&[".....", ".....", ".....", ".....", "....."]);
    wake_up_neighbors(&mut cells, (2, 2), (5, 5));
    assert!(!cells[12].should_update);
}

#[test]
fn wake_up_wraps_around_the_corner() {
    let mut cells = cells_from_rows(&[".....", ".....", ".....", "....."]);
    wake_up_neighbors(&mut cells, (0, 0), (5, 4));
    assert_eq!(awake_indices(&cells), vec![1, 4, 5, 6, 9, 15, 16, 19]);
}

#[test]
fn wake_up_changes_flags_only() {
    let mut cells = cells_from_rows(&["#.#", ".#.", "#.#"]);
    for cell in cells.iter_mut() {
        cell.frames_alive = 1;
    }
    let before = cells.clone();
    wake_up_neighbors(&mut cells, (1, 1), (3, 3));
    assert_eq!(cells.len(), before.len());
    for i in 0..cells.len() {
        assert_eq!(cells[i].state, before[i].state);
        assert_eq!(cells[i].frames_alive, before[i].frames_alive);
        assert_eq!(cells[i].should_update, i != 4);
    }
}

#[test]
fn wake_up_keeps_cells_that_are_awake() {
    let mut cells = cells_from_rows(&[".....", ".....", ".....", ".....", "....."]);
    cells[0].should_update = true;
    cells[12].should_update = true;
    wake_up_neighbors(&mut cells, (2, 2), (5, 5));
    assert_eq!(awake_indices(&cells), vec![0, 6, 7, 8, 11, 12, 13, 16, 17, 18]);
}

#[test]
fn wake_up_on_a_board_of_one_cell_wakes_it() {
    let mut cells = cells_from_rows(&["."]);
    wake_up_neighbors(&mut cells, (0, 0), (1, 1));
    assert!(cells[0].should_update);
}

#[test]
fn wake_up_from_a_position_outside_the_board() {
    let mut inside = cells_from_rows(&[".....", ".....", ".....", "....."]);
    let mut outside = inside.clone();
    let mut extreme = inside.clone();
    wake_up_neighbors(&mut inside, (1, 2), (5, 4));
    wake_up_neighbors(&mut outside, (-3, 7), (5, 4));
    assert_eq!(inside, outside);
    // i32::MAX wraps to row 3 and column 2
    wake_up_neighbors(&mut extreme, (i32::MAX, i32::MAX), (5, 4));
    assert_eq!(awake_indices(&extreme), vec![1, 2, 3, 11, 12, 13, 16, 18]);
}
