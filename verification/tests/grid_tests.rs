use grid::{Grid, GridError};

fn parsed(text: &str) -> Grid {
    match Grid::from(text) {
        Ok(grid) => grid,
        Err(e) => panic!("{:?}", e),
    }
}

#[test]
fn should_create_grid() {
    assert_eq!(Grid::new(2, 3).to_string(), "##\n##\n##\n");
}

#[test]
fn should_change_tile() {
    let mut grid = Grid::new(2, 3);
    grid.set(1, 2, 'x');
    assert_eq!(grid.to_string(), "##\n##\n#x\n");
    assert_eq!(grid.get(1, 2).unwrap(), 'x');
}

#[test]
fn should_return_true_only_if_successfully_set_tile() {
    let mut grid = Grid::new(1, 1);
    assert!(!grid.set(1, 0, '@'));
    assert_eq!(grid.to_string(), "#\n");
    assert!(grid.set(0, 0, '@'));
    assert_eq!(grid.to_string(), "@\n");
}

#[test]
fn should_return_correct_dimmensions() {
    let grid = Grid::new(5, 8);
    assert_eq!(grid.width(), 5);
    assert_eq!(grid.height(), 8);
}

#[test]
fn filled_grid_renders_its_character() {
    let grid = Grid::filled_with(2, 2, 'x');
    assert_eq!(&grid.to_string(), "xx\nxx\n");
}

#[test]
fn filled_grid_counts_every_tile() {
    let grid = Grid::filled_with(3, 4, 'x');
    assert_eq!(grid.count('x'), 12);
    assert_eq!(grid.count('y'), 0);
    assert_eq!(grid.count('#'), 0);
}

#[test]
fn grid_without_rows_or_columns_is_empty() {
    let flat = Grid::filled_with(3, 0, 'x');
    assert_eq!(flat.width(), 3);
    assert_eq!(flat.height(), 0);
    assert_eq!(flat.count('x'), 0);
    assert_eq!(flat.get(0, 0), None);
    assert_eq!(flat.to_string(), "");
    assert_eq!(flat.neighbours(0, 0), vec![]);

    let mut thin = Grid::filled_with(0, 5, 'x');
    assert_eq!(thin.width(), 0);
    assert_eq!(thin.height(), 0);
    assert_eq!(thin.get(0, 0), None);
    assert!(!thin.set(0, 0, 'y'));
    assert_eq!(thin.to_string(), "");
    assert_eq!(thin.neighbours(0, 0), vec![]);
    thin.fill(0, 0, 'z');
    assert_eq!(thin.count('z'), 0);
}

#[test]
fn get_returns_what_set_wrote() {
    let mut grid = Grid::new(4, 3);
    for y in 0..3 {
        for x in 0..4 {
            assert_eq!(grid.get(x, y), Some('#'));
            assert!(grid.set(x, y, 'v'));
            assert_eq!(grid.get(x, y), Some('v'));
        }
    }
    assert_eq!(grid.count('v'), 12);
}

#[test]
fn set_changes_one_tile_only() {
    let mut grid = parsed("abc\ndef\nghi");
    assert!(grid.set(1, 1, '*'));
    assert_eq!(grid.to_string(), "abc\nd*f\nghi\n");
}

#[test]
fn coordinates_outside_are_rejected_even_when_the_position_aliases() {
    let mut grid = parsed("abc\ndef\nghi");
    // Position 3 of the buffer is the tile (0, 1).
    assert_eq!(grid.get(3, 0), None);
    assert_eq!(grid.get(5, 1), None);
    assert_eq!(grid.get(0, 3), None);
    assert_eq!(grid.get(3, 3), None);
    assert!(!grid.set(3, 0, '*'));
    assert!(!grid.set(4, 1, '*'));
    assert!(!grid.set(0, 3, '*'));
    assert_eq!(grid.to_string(), "abc\ndef\nghi\n");
    assert_eq!(grid.get(2, 2), Some('i'));
}

#[test]
fn reads_grid_from_text() {
    let grid = parsed("#*#\n| |\n+-+");
    assert_eq!(grid.width(), 3);
    assert_eq!(grid.height(), 3);
    assert_eq!(grid.to_string(), "#*#\n| |\n+-+\n");
    assert_eq!(grid.get(1, 0), Some('*'));
    assert_eq!(grid.get(1, 1), Some(' '));
    assert_eq!(grid.get(0, 2), Some('+'));
}

#[test]
fn reads_text_with_or_without_final_newline() {
    assert_eq!(parsed("ab\ncd").to_string(), "ab\ncd\n");
    assert_eq!(parsed("ab\ncd\n").to_string(), "ab\ncd\n");
    assert_eq!(parsed("a").to_string(), "a\n");
    assert_eq!(parsed("a\n").height(), 1);
}

#[test]
fn reads_text_with_carriage_returns() {
    let grid = parsed("ab\r\ncd\r\n");
    assert_eq!(grid.width(), 2);
    assert_eq!(grid.height(), 2);
    assert_eq!(grid.to_string(), "ab\ncd\n");
    // Without a newline behind it a carriage return is a tile.
    assert_eq!(Grid::from("ab\r\ncd\r").err(), Some(GridError::MalformedInput));
    let bare = parsed("ab\r");
    assert_eq!(bare.width(), 3);
    assert_eq!(bare.height(), 1);
    assert_eq!(bare.get(2, 0), Some('\r'));
    // Only the one before the newline goes.
    let inner = parsed("a\rb\r\r\n");
    assert_eq!(inner.width(), 4);
    assert_eq!(inner.get(1, 0), Some('\r'));
    assert_eq!(inner.get(3, 0), Some('\r'));
}

#[test]
fn width_counts_characters() {
    let grid = parsed("\u{e9}#\n#\u{e9}");
    assert_eq!(grid.width(), 2);
    assert_eq!(grid.height(), 2);
    assert_eq!(grid.get(0, 0), Some('\u{e9}'));
    assert_eq!(grid.get(1, 1), Some('\u{e9}'));
    assert_eq!(grid.count('\u{e9}'), 2);
    assert_eq!(grid.to_string(), "\u{e9}#\n#\u{e9}\n");
}

#[test]
fn text_without_a_line_is_malformed() {
    assert_eq!(Grid::from("").err(), Some(GridError::MalformedInput));
}

#[test]
fn text_with_uneven_lines_is_malformed() {
    assert_eq!(Grid::from("ab\nc").err(), Some(GridError::MalformedInput));
    assert_eq!(Grid::from("ab\ncde\n").err(), Some(GridError::MalformedInput));
    assert_eq!(Grid::from("\nab").err(), Some(GridError::MalformedInput));
    assert_eq!(Grid::from("ab\n\ncd").err(), Some(GridError::MalformedInput));
}

#[test]
fn text_of_empty_lines_has_no_width() {
    assert_eq!(Grid::from("\n").err(), Some(GridError::DegenerateDimensions));
    assert_eq!(Grid::from("\n\n\n").err(), Some(GridError::DegenerateDimensions));
    assert_eq!(Grid::from("\r\n").err(), Some(GridError::DegenerateDimensions));
}

#[test]
fn text_round_trip_gives_the_same_grid() {
    let mut grid = Grid::new(4, 3);
    grid.set(0, 0, 'a');
    grid.set(3, 0, 'b');
    grid.set(1, 1, ' ');
    grid.set(3, 2, 'z');
    let text = grid.to_string();
    assert_eq!(text, "a##b\n# ##\n###z\n");
    let again = parsed(&text);
    assert_eq!(again.width(), grid.width());
    assert_eq!(again.height(), grid.height());
    for y in 0..3 {
        for x in 0..4 {
            assert_eq!(again.get(x, y), grid.get(x, y));
        }
    }
    assert_eq!(again.to_string(), text);
}

#[test]
fn counts_tiles() {
    let grid = parsed("#.\n##");
    assert_eq!(grid.count('.'), 1);
    assert_eq!(grid.count('#'), 3);
    assert_eq!(grid.count('x'), 0);
}

#[test]
fn neighbours_come_in_fixed_order() {
    let grid = Grid::new(10, 10);
    assert_eq!(
        grid.neighbours(5, 5),
        vec![(5, 4), (6, 5), (5, 6), (4, 5), (6, 6), (6, 4), (4, 4), (4, 6)]
    );
    assert_eq!(grid.neighbours(0, 0), vec![(1, 0), (0, 1), (1, 1)]);
    assert_eq!(grid.neighbours(9, 9), vec![(9, 8), (8, 9), (8, 8)]);
    assert_eq!(grid.neighbours(100, 100), vec![]);
    assert_eq!(grid.neighbours(0, 100), vec![]);
    assert_eq!(grid.neighbours(100, 0), vec![]);
}

#[test]
fn neighbours_at_the_other_corners_and_edges() {
    let grid = Grid::new(10, 10);
    assert_eq!(grid.neighbours(9, 0), vec![(9, 1), (8, 0), (8, 1)]);
    assert_eq!(grid.neighbours(0, 9), vec![(0, 8), (1, 9), (1, 8)]);
    assert_eq!(grid.neighbours(5, 0), vec![(6, 0), (5, 1), (4, 0), (6, 1), (4, 1)]);
    assert_eq!(grid.neighbours(0, 5), vec![(0, 4), (1, 5), (0, 6), (1, 6), (1, 4)]);
    assert_eq!(grid.neighbours(9, 5), vec![(9, 4), (9, 6), (8, 5), (8, 4), (8, 6)]);
    assert_eq!(grid.neighbours(5, 9), vec![(5, 8), (6, 9), (4, 9), (6, 8), (4, 8)]);
}

#[test]
fn neighbours_of_a_point_just_outside_are_none() {
    let grid = Grid::new(10, 10);
    assert_eq!(grid.neighbours(10, 5), vec![]);
    assert_eq!(grid.neighbours(5, 10), vec![]);
    assert_eq!(grid.neighbours(10, 10), vec![]);
}

#[test]
fn neighbours_in_a_single_tile_grid() {
    let grid = Grid::new(1, 1);
    assert_eq!(grid.neighbours(0, 0), vec![]);
    let row = Grid::new(3, 1);
    assert_eq!(row.neighbours(1, 0), vec![(2, 0), (0, 0)]);
}

#[test]
fn fill_replaces_the_enclosed_block() {
    let mut grid = parsed("########\n#......#\n#.####.#\n#.####.#\n#......#\n########");
    grid.fill(2, 2, '.');
    assert_eq!(
        &grid.to_string(),
        "########\n#......#\n#......#\n#......#\n#......#\n########\n"
    );
}

#[test]
fn fill_spreads_over_diagonals() {
    let mut grid = parsed("#..#\n####");
    grid.fill(1, 0, '+');
    assert_eq!(grid.to_string(), "++++\n++++\n");
}

#[test]
fn fill_stops_at_tiles_that_hold_the_character() {
    let mut grid = parsed("a.b\n...\nc.d");
    grid.fill(0, 0, '.');
    assert_eq!(grid.to_string(), "..b\n...\nc.d\n");
    let mut walled = parsed("ab+cd\nab+cd");
    walled.fill(0, 0, '+');
    assert_eq!(walled.to_string(), "+++cd\n+++cd\n");
}

#[test]
fn fill_twice_is_fill_once() {
    let mut once = parsed("########\n#......#\n#.####.#\n#.####.#\n#......#\n########");
    once.fill(0, 0, 'o');
    let first = once.to_string();
    assert_eq!(first, "oooooooo\noooooooo\noooooooo\noooooooo\noooooooo\noooooooo\n");
    once.fill(0, 0, 'o');
    assert_eq!(once.to_string(), first);

    let mut other = parsed("ab+cd\nab+cd");
    other.fill(1, 1, '+');
    let text = other.to_string();
    other.fill(1, 1, '+');
    assert_eq!(other.to_string(), text);
}

#[test]
fn fill_from_a_tile_amid_its_own_character_changes_nothing() {
    let mut grid = parsed("....#\n....#\n....#");
    grid.fill(1, 1, '.');
    assert_eq!(grid.to_string(), "....#\n....#\n....#\n");
}

#[test]
fn fill_from_a_tile_of_its_own_character_still_visits_the_neighbours() {
    let mut grid = parsed("#.#");
    grid.fill(1, 0, '.');
    assert_eq!(grid.to_string(), "...\n");
}

#[test]
fn fill_from_outside_changes_nothing() {
    let mut grid = parsed("ab\ncd");
    grid.fill(2, 0, 'x');
    grid.fill(0, 2, 'x');
    grid.fill(100, 100, 'x');
    assert_eq!(grid.to_string(), "ab\ncd\n");
}

#[test]
fn fill_covers_a_large_grid() {
    let mut grid = Grid::new(60, 60);
    grid.fill(30, 30, '.');
    assert_eq!(grid.count('.'), 3600);
    assert_eq!(grid.count('#'), 0);
}

#[test]
fn clone_is_independent() {
    let mut grid = Grid::new(2, 2);
    let copy = grid.clone();
    grid.set(0, 0, 'x');
    assert_eq!(copy.to_string(), "##\n##\n");
    assert_eq!(grid.to_string(), "x#\n##\n");
}

#[test]
fn newline_tile_reads_back_as_a_line_break() {
    let mut grid = Grid::new(2, 1);
    grid.set(0, 0, '\n');
    assert_eq!(grid.to_string(), "\n#\n");
    assert_eq!(Grid::from(&grid.to_string()).err(), Some(GridError::MalformedInput));
}

#[test]
fn row_ending_in_carriage_return_reads_back_shorter() {
    let mut grid = Grid::new(2, 1);
    grid.set(1, 0, '\r');
    assert_eq!(grid.to_string(), "#\r\n");
    let again = parsed(&grid.to_string());
    assert_eq!(again.width(), 1);
    assert_eq!(again.to_string(), "#\n");
}

#[test]
fn height_is_the_number_of_lines() {
    assert_eq!(parsed("abc").height(), 1);
    assert_eq!(parsed("a\nb\nc\nd").height(), 4);
    assert_eq!(parsed("a\nb\nc\nd").width(), 1);
    assert_eq!(Grid::filled_with(7, 3, ' ').height(), 3);
}
