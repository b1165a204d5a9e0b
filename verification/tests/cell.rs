use conway::cell::{
    check_cell_conway, check_cell_test, Cell, CellColor, Conway, FourSurvives, Rule,
};
use conway::TIME_TO_RED;

#[test]
fn new_cell_has_no_age_and_is_awake() {
    let alive = Cell::new(true);
    assert_eq!(alive, Cell { frames_alive: 0, state: true, should_update: true });
    let dead = Cell::new(false);
    assert_eq!(dead, Cell { frames_alive: 0, state: false, should_update: true });
}

#[test]
fn default_cell_is_dead_and_awake() {
    assert_eq!(Cell::default(), Cell { frames_alive: 0, state: false, should_update: true });
}

#[test]
fn set_state_to_dead_resets_age() {
    let mut cell = Cell { frames_alive: 2, state: true, should_update: false };
    cell.set_state(false);
    assert_eq!(cell, Cell { frames_alive: 0, state: false, should_update: true });
}

#[test]
fn set_state_to_alive_keeps_age() {
    let mut cell = Cell { frames_alive: 1, state: true, should_update: false };
    cell.set_state(true);
    assert_eq!(cell, Cell { frames_alive: 1, state: true, should_update: true });
}

#[test]
fn set_state_wakes_even_without_a_change() {
    let mut cell = Cell { frames_alive: 0, state: false, should_update: false };
    cell.set_state(false);
    assert!(cell.should_update);
    assert!(!cell.state);
}

#[test]
fn set_state_birth_starts_without_age() {
    let mut cell = Cell { frames_alive: 0, state: false, should_update: false };
    cell.set_state(true);
    assert_eq!(cell, Cell { frames_alive: 0, state: true, should_update: true });
}

#[test]
fn age_adds_a_frame_below_the_cap() {
    let mut cell = Cell { frames_alive: 0, state: true, should_update: false };
    cell.age();
    assert_eq!(cell, Cell { frames_alive: 1, state: true, should_update: false });
    cell.age();
    assert_eq!(cell.frames_alive, 2);
}

#[test]
fn age_stops_at_the_cap() {
    let mut cell = Cell { frames_alive: TIME_TO_RED, state: true, should_update: true };
    cell.age();
    assert_eq!(cell.frames_alive, TIME_TO_RED);
    let mut over = Cell { frames_alive: 9, state: true, should_update: true };
    over.age();
    assert_eq!(over.frames_alive, 9);
}

#[test]
fn age_leaves_a_dead_cell_alone() {
    let mut cell = Cell { frames_alive: 0, state: false, should_update: true };
    cell.age();
    assert_eq!(cell, Cell { frames_alive: 0, state: false, should_update: true });
}

#[test]
fn time_to_red_is_two_generations() {
    assert_eq!(TIME_TO_RED, 2);
}

#[test]
fn dead_cell_has_background_color() {
    let cell = Cell { frames_alive: 0, state: false, should_update: true };
    assert_eq!(cell.get_color(), CellColor::Background);
    let stale = Cell { frames_alive: 7, state: false, should_update: false };
    assert_eq!(stale.get_color(), CellColor::Background);
}

#[test]
fn live_cell_blends_by_age() {
    let young = Cell { frames_alive: 0, state: true, should_update: true };
    assert_eq!(young.get_color(), CellColor::Blend { elapsed: 0, time_to_red: 2 });
    let middle = Cell { frames_alive: 1, state: true, should_update: false };
    assert_eq!(middle.get_color(), CellColor::Blend { elapsed: 1, time_to_red: 2 });
    let red = Cell { frames_alive: 2, state: true, should_update: false };
    assert_eq!(red.get_color(), CellColor::Blend { elapsed: 2, time_to_red: 2 });
}

#[test]
fn live_cell_color_is_clamped_at_red() {
    let old = Cell { frames_alive: 500, state: true, should_update: false };
    assert_eq!(old.get_color(), CellColor::Blend { elapsed: 2, time_to_red: 2 });
    let oldest = Cell { frames_alive: u16::MAX, state: true, should_update: false };
    assert_eq!(oldest.get_color(), CellColor::Blend { elapsed: 2, time_to_red: 2 });
}

#[test]
fn get_color_has_no_side_effect() {
    let cell = Cell { frames_alive: 1, state: true, should_update: false };
    let first = cell.get_color();
    let second = cell.get_color();
    assert_eq!(first, second);
    assert_eq!(cell, Cell { frames_alive: 1, state: true, should_update: false });
}

#[test]
fn conway_table_for_a_live_cell() {
    let expected = [false, false, true, true, false, false, false, false, false, false];
    for n in 0..10u8 {
        assert_eq!(check_cell_conway(true, n), expected[n as usize], "neighbors {}", n);
    }
}

#[test]
fn conway_table_for_a_dead_cell() {
    let expected = [false, false, false, true, false, false, false, false, false, false];
    for n in 0..10u8 {
        assert_eq!(check_cell_conway(false, n), expected[n as usize], "neighbors {}", n);
    }
}

#[test]
fn conway_table_is_total() {
    for n in 9..=u8::MAX {
        assert!(!check_cell_conway(true, n));
        assert!(!check_cell_conway(false, n));
    }
}

#[test]
fn variant_table_for_a_live_cell() {
    let expected = [false, false, true, true, true, false, false, false, false, false];
    for n in 0..10u8 {
        assert_eq!(check_cell_test(true, n), expected[n as usize], "neighbors {}", n);
    }
}

#[test]
fn variant_table_for_a_dead_cell() {
    let expected = [false, false, false, true, false, false, false, false, false, false];
    for n in 0..10u8 {
        assert_eq!(check_cell_test(false, n), expected[n as usize], "neighbors {}", n);
    }
}

#[test]
fn variant_table_is_total() {
    for n in 9..=u8::MAX {
        assert!(!check_cell_test(true, n));
        assert!(!check_cell_test(false, n));
    }
}

#[test]
fn variant_differs_from_conway_only_on_four() {
    for n in 0..=u8::MAX {
        for alive in [false, true] {
            let differs = check_cell_conway(alive, n) != check_cell_test(alive, n);
            assert_eq!(differs, alive && n == 4);
        }
    }
}

#[test]
fn rule_values_look_up_their_tables() {
    for n in 0..=u8::MAX {
        for alive in [false, true] {
            assert_eq!(Conway.next_state(alive, n), check_cell_conway(alive, n));
            assert_eq!(FourSurvives.next_state(alive, n), check_cell_test(alive, n));
        }
    }
}
