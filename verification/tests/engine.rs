// The move engine: shifting, merging and tile insertion.

use auto2048::game::{Board, Cell, Direction, Game, ModRow};

fn set(b: &mut Board, x: usize, y: usize, e: u32) {
    b.get_mut_cell(x, y).set_score(e);
}

fn get(b: &Board, x: usize, y: usize) -> Option<u32> {
    b.get_cell(x, y).get_score()
}

fn occupied(b: &Board) -> usize {
    let mut n = 0;
    for c in b.board_data().iter() {
        if c.is_set() {
            n += 1;
        }
    }
    n
}

#[test]
fn new_board_is_empty_4x4() {
    let b = Board::new();
    assert_eq!(b.width(), 4);
    assert_eq!(b.height(), 4);
    assert_eq!(occupied(&b), 0);
}

#[test]
fn adjacent_equal_tiles_merge_left() {
    let mut b = Board::new();
    set(&mut b, 0, 0, 1);
    set(&mut b, 1, 0, 1);
    assert!(b.step_rows(Direction::LEFT));
    assert_eq!(get(&b, 0, 0), Some(2));
    assert_eq!(get(&b, 1, 0), None);
}

#[test]
fn merge_does_not_cascade() {
    // [1, 1, 2, _] -> [2, 2, _, _]: the fresh 2 must not eat the old 2.
    let mut b = Board::new();
    set(&mut b, 0, 0, 1);
    set(&mut b, 1, 0, 1);
    set(&mut b, 2, 0, 2);
    assert!(b.step_rows(Direction::LEFT));
    assert_eq!(get(&b, 0, 0), Some(2));
    assert_eq!(get(&b, 1, 0), Some(2));
    assert_eq!(get(&b, 2, 0), None);
    assert_eq!(get(&b, 3, 0), None);
}

#[test]
fn each_tile_merges_at_most_once() {
    // [1, 1, 1, 1] -> [2, 2, _, _], and [1, 1, 1, _] -> [2, 1, _, _].
    let mut b = Board::new();
    set(&mut b, 0, 0, 1);
    set(&mut b, 1, 0, 1);
    set(&mut b, 2, 0, 1);
    set(&mut b, 3, 0, 1);
    set(&mut b, 0, 1, 1);
    set(&mut b, 1, 1, 1);
    set(&mut b, 2, 1, 1);
    assert!(b.step_rows(Direction::LEFT));
    assert_eq!(get(&b, 0, 0), Some(2));
    assert_eq!(get(&b, 1, 0), Some(2));
    assert_eq!(get(&b, 2, 0), None);
    assert_eq!(get(&b, 0, 1), Some(2));
    assert_eq!(get(&b, 1, 1), Some(1));
    assert_eq!(get(&b, 2, 1), None);
}

#[test]
fn tiles_slide_over_gaps() {
    // [_, 1, _, 1] -> RIGHT -> [_, _, _, 2].
    let mut b = Board::new();
    set(&mut b, 1, 2, 1);
    set(&mut b, 3, 2, 1);
    assert!(b.step_rows(Direction::RIGHT));
    assert_eq!(get(&b, 3, 2), Some(2));
    assert_eq!(get(&b, 0, 2), None);
    assert_eq!(get(&b, 1, 2), None);
    assert_eq!(get(&b, 2, 2), None);
}

#[test]
fn vertical_shifts_move_columns() {
    let mut b = Board::new();
    set(&mut b, 2, 1, 3);
    set(&mut b, 2, 2, 3);
    assert!(b.step_rows(Direction::UP));
    assert_eq!(get(&b, 2, 0), Some(4));
    assert_eq!(get(&b, 2, 1), None);

    let mut c = Board::new();
    set(&mut c, 1, 0, 5);
    assert!(c.step_rows(Direction::DOWN));
    assert_eq!(get(&c, 1, 0), None);
    assert_eq!(get(&c, 1, 3), Some(5));
}

#[test]
fn packed_distinct_rows_do_not_change() {
    let mut b = Board::new();
    for y in 0..4 {
        for x in 0..4 {
            set(&mut b, x, y, (x + 1) as u32);
        }
    }
    assert!(!b.step_rows(Direction::LEFT));
    for y in 0..4 {
        for x in 0..4 {
            assert_eq!(get(&b, x, y), Some((x + 1) as u32));
        }
    }
}

#[test]
fn deterministic_placement_reports_occupied_slots() {
    let mut b = Board::new();
    // The insertion edge for UP is the bottom row.
    assert!(b.step_add_index(Direction::UP, 2));
    assert_eq!(get(&b, 2, 3), Some(0));
    // The same slot a second time is occupied.
    assert!(!b.step_add_index(Direction::UP, 2));
    assert_eq!(get(&b, 2, 3), Some(0));
    assert_eq!(occupied(&b), 1);
}

#[test]
fn deterministic_placement_edges() {
    let mut b = Board::new();
    assert!(b.step_add_index(Direction::DOWN, 1));
    assert_eq!(get(&b, 1, 0), Some(0));
    assert!(b.step_add_index(Direction::LEFT, 2));
    assert_eq!(get(&b, 3, 2), Some(0));
    assert!(b.step_add_index(Direction::RIGHT, 3));
    assert_eq!(get(&b, 0, 3), Some(0));
}

#[test]
fn random_insertion_fills_exactly_one_edge_cell() {
    // Were the sampler wrong, the pick could land outside the edge or
    // out of bounds; the new tile must be a single 0 in row 0.
    for _ in 0..20 {
        let mut b = Board::new();
        assert!(b.step_add(Direction::DOWN));
        assert_eq!(occupied(&b), 1);
        let mut found = 0;
        for x in 0..4 {
            if let Some(e) = get(&b, x, 0) {
                assert_eq!(e, 0);
                found += 1;
            }
        }
        assert_eq!(found, 1);
    }
}

#[test]
fn random_insertion_fails_on_full_edge() {
    let mut b = Board::new();
    for x in 0..4 {
        set(&mut b, x, 0, (x + 1) as u32);
    }
    assert!(!b.step_add(Direction::DOWN));
    assert_eq!(occupied(&b), 4);
}

#[test]
fn move_from_single_tile_keeps_it_and_adds_one() {
    // An empty board with a single tile of exponent 1 at (0, 0),
    // shifted LEFT: the tile stays put (already at the boundary) and
    // one new tile of exponent 0 lands on the right-hand edge column.
    let mut b = Board::new();
    set(&mut b, 0, 0, 1);
    assert!(b.step(Direction::LEFT));
    assert_eq!(get(&b, 0, 0), Some(1));
    assert_eq!(occupied(&b), 2);
    let mut fresh = 0;
    for y in 0..4 {
        if let Some(e) = get(&b, 3, y) {
            assert_eq!(e, 0);
            fresh += 1;
        }
    }
    assert_eq!(fresh, 1);
}

#[test]
fn dead_end_direction_returns_false() {
    // The shift changes nothing and the insertion edge is full, so
    // the whole move reports false and leaves the board alone.
    let mut b = Board::new();
    for y in 0..4 {
        for x in 0..4 {
            set(&mut b, x, y, (x + 1) as u32);
        }
    }
    assert!(!b.step(Direction::LEFT));
    for y in 0..4 {
        for x in 0..4 {
            assert_eq!(get(&b, x, y), Some((x + 1) as u32));
        }
    }
}

#[test]
fn occupancy_grows_by_one_on_successful_insertion() {
    let mut b = Board::new();
    set(&mut b, 0, 0, 1);
    set(&mut b, 2, 1, 3);
    let before = occupied(&b);
    assert!(b.step_add_index(Direction::UP, 0));
    assert_eq!(occupied(&b), before + 1);
    // A failed insertion leaves the count alone.
    let again = occupied(&b);
    assert!(!b.step_add_index(Direction::UP, 0));
    assert_eq!(occupied(&b), again);
}

#[test]
fn rows_and_columns_read_back() {
    let mut b = Board::new();
    set(&mut b, 0, 2, 7);
    set(&mut b, 3, 2, 9);
    let row = b.get_row(2);
    assert_eq!(row[0].get_score(), Some(7));
    assert_eq!(row[1].get_score(), None);
    assert_eq!(row[3].get_score(), Some(9));
    let col = b.get_col(3);
    assert_eq!(col[2].get_score(), Some(9));
    assert_eq!(col[0].get_score(), None);
}

#[test]
fn cell_accessors_round_trip() {
    let mut b = Board::new();
    assert!(!b.get_cell(1, 1).is_set());
    b.get_mut_cell(1, 1).set_score(4);
    assert!(b.get_cell(1, 1).is_set());
    assert_eq!(b.get_cell(1, 1).get_score(), Some(4));
    assert!(b.get_mut_cell(1, 1).incr_score());
    assert_eq!(b.get_cell(1, 1).get_score(), Some(5));
    b.get_mut_cell(1, 1).set_none();
    assert_eq!(b.get_cell(1, 1).get_score(), None);
    assert!(!b.get_mut_cell(1, 1).incr_score());
}

#[test]
fn cell_symbols_and_values() {
    let mut b = Board::new();
    set(&mut b, 0, 0, 3);
    assert_eq!(b.get_cell(0, 0).as_symbol(), "3");
    assert_eq!(b.get_cell(0, 0).as_string(), "8");
    assert_eq!(b.get_cell(1, 0).as_symbol(), "*");
    assert_eq!(b.get_cell(1, 0).as_string(), "");
    set(&mut b, 2, 0, 10);
    assert_eq!(b.get_cell(2, 0).as_symbol(), "10");
    assert_eq!(b.get_cell(2, 0).as_string(), "1024");
}

#[test]
fn game_score_counts_values_and_cells() {
    let mut g = Game::new();
    // Empty: 0 - 0 + 1.
    assert_eq!(g.get_score(), 1);
    set(g.get_mut_board(), 0, 0, 1);
    set(g.get_mut_board(), 1, 0, 2);
    // 2 + 4 - 2 + 1.
    assert_eq!(g.get_score(), 5);
}

#[test]
fn game_win_is_target_exponent() {
    let mut g = Game::new();
    set(g.get_mut_board(), 2, 2, 10);
    assert!(!g.has_won());
    set(g.get_mut_board(), 1, 3, 11);
    assert!(g.has_won());
}

#[test]
fn game_reset_clears_the_board() {
    let mut g = Game::new();
    set(g.get_mut_board(), 2, 2, 6);
    assert!(g.get_board().get_cell(2, 2).is_set());
    g.reset();
    assert!(!g.get_board().get_cell(2, 2).is_set());
    assert_eq!(g.get_score(), 1);
}

#[test]
fn game_step_moves_the_live_board() {
    let mut g = Game::new();
    set(g.get_mut_board(), 0, 0, 1);
    assert!(g.step(Direction::LEFT));
    assert_eq!(g.get_board().get_cell(0, 0).get_score(), Some(1));
}

#[test]
fn mod_row_combines_a_line_in_place() {
    let mut row: Vec<Cell> = vec![Cell::new(), Cell::new(), Cell::new(), Cell::new()];
    row[1].set_score(2);
    row[2].set_score(2);
    assert!(row.combine_row());
    assert_eq!(row[0].get_score(), Some(3));
    assert_eq!(row[1].get_score(), None);
    // A packed distinct line stays put and says so.
    let mut quiet: Vec<Cell> = vec![Cell::new(), Cell::new()];
    quiet[0].set_score(1);
    quiet[1].set_score(2);
    assert!(!quiet.combine_row());
    assert_eq!(quiet[0].get_score(), Some(1));
    assert_eq!(quiet[1].get_score(), Some(2));
}

#[test]
fn mod_row_fills_one_empty_cell() {
    let mut line: Vec<Cell> = vec![Cell::new(), Cell::new(), Cell::new()];
    line[0].set_score(4);
    assert!(line.add_random_zero());
    let zeros = line.iter().filter(|c| c.get_score() == Some(0)).count();
    assert_eq!(zeros, 1);
    assert_eq!(line[0].get_score(), Some(4));
    // A full line cannot take another tile.
    line[1].set_score(1);
    line[2].set_score(1);
    assert!(!line.add_random_zero());
}

#[test]
fn boards_print_without_panicking() {
    let mut g = Game::new();
    set(g.get_mut_board(), 0, 0, 1);
    g.print_board();
    g.get_board().print_board();
}
