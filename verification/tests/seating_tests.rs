use automata::seating::{parse_chars, parse_lines, part_one, part_two, run_board, Board, Cell,
    Error, Position, Vector, all_directions, count_cells_in};

fn sample_layout() -> Vec<String> {
    vec![
        "L.LL.LL.LL".to_string(),
        "LLLLLLL.LL".to_string(),
        "L.L.L..L..".to_string(),
        "LLLL.LL.LL".to_string(),
        "L.LL.LL.LL".to_string(),
        "L.LLLLL.LL".to_string(),
        "..L.L.....".to_string(),
        "LLLLLLLLLL".to_string(),
        "L.LLLLLL.L".to_string(),
        "L.LLLLL.LL".to_string(),
    ]
}

#[test]
fn parse_chars_maps_each_character() {
    let cells = parse_chars("L#.").unwrap();
    assert_eq!(cells, vec![Cell::EmptySeat, Cell::OccupiedSeat, Cell::Floor]);
}

#[test]
fn parse_chars_names_the_bad_token() {
    let err = parse_chars("L%#").unwrap_err();
    assert_eq!(err, Error::BadToken { token: '%', row: 0, col: 1 });
}

#[test]
fn parse_lines_names_row_and_column() {
    let lines = vec!["..".to_string(), ".X".to_string()];
    let err = parse_lines(&lines).unwrap_err();
    assert_eq!(err, Error::BadToken { token: 'X', row: 1, col: 1 });
}

#[test]
fn board_new_rejects_irregular_shape() {
    let rows = vec![vec![Cell::Floor, Cell::Floor], vec![Cell::Floor]];
    let err = Board::new(rows).unwrap_err();
    assert_eq!(err, Error::IrregularShape);
}

#[test]
fn try_get_cell_checks_bounds() {
    let board = Board::new(vec![vec![Cell::EmptySeat, Cell::Floor]]).unwrap();
    assert_eq!(board.try_get_cell(Position::new(1, 0)), Some(Cell::Floor));
    assert_eq!(board.try_get_cell(Position::new(2, 0)), None);
    assert_eq!(board.try_get_cell(Position::new(0, 1)), None);
}

#[test]
fn adjacent_ring_sizes() {
    let rows = parse_lines(&vec![
        "...".to_string(),
        ".L.".to_string(),
        "...".to_string(),
    ])
    .unwrap();
    let board = Board::new(rows).unwrap();
    assert_eq!(board.adjacent(Position::new(1, 1)).len(), 8);
    assert_eq!(board.adjacent(Position::new(0, 0)).len(), 3);
    assert_eq!(board.adjacent(Position::new(2, 1)).len(), 5);
}

#[test]
fn visible_looks_past_floor() {
    let rows = parse_lines(&vec!["#..L".to_string()]).unwrap();
    let board = Board::new(rows).unwrap();
    let seen = board.visible(Position::new(3, 0));
    assert_eq!(count_cells_in(&seen, Cell::OccupiedSeat), 1);
    assert_eq!(seen.len(), 1);
}

#[test]
fn all_directions_count() {
    let dirs = all_directions();
    assert_eq!(dirs.len(), 8);
    assert_eq!(dirs[0], Vector::new(-1, -1));
    assert_eq!(dirs[7], Vector::new(1, 1));
}

#[test]
fn empty_seats_fill_when_unwatched() {
    let rows = parse_lines(&vec!["LL".to_string(), "LL".to_string()]).unwrap();
    let mut board = Board::new(rows).unwrap();
    board.tick();
    assert_eq!(board.count_occupied_seats(), 4);
}

#[test]
fn crowded_seats_empty_under_adjacent_rule() {
    let rows = parse_lines(&vec!["###".to_string(), "###".to_string(), "###".to_string()])
        .unwrap();
    let mut board = Board::new(rows).unwrap();
    board.tick();
    // The centre sees eight occupied neighbours, edge middles five, corners
    // three: all but the corners are vacated.
    assert_eq!(board.count_occupied_seats(), 4);
}

#[test]
fn floor_never_changes() {
    let rows = parse_lines(&vec!["...".to_string(), "...".to_string()]).unwrap();
    let mut board = Board::new(rows).unwrap();
    board.tick();
    board.tick2();
    assert_eq!(board.count_occupied_seats(), 0);
    let cells = board.cells();
    assert_eq!(cells.len(), 6);
    for c in cells {
        assert_eq!(c, Cell::Floor);
    }
}

#[test]
fn positioned_cells_row_major_order() {
    let board = Board::new(vec![
        vec![Cell::EmptySeat, Cell::Floor],
        vec![Cell::OccupiedSeat, Cell::EmptySeat],
    ])
    .unwrap();
    let pairs = board.positioned_cells();
    assert_eq!(pairs.len(), 4);
    assert_eq!(pairs[0], (Position::new(0, 0), Cell::EmptySeat));
    assert_eq!(pairs[1], (Position::new(1, 0), Cell::Floor));
    assert_eq!(pairs[2], (Position::new(0, 1), Cell::OccupiedSeat));
    assert_eq!(pairs[3], (Position::new(1, 1), Cell::EmptySeat));
}

#[test]
fn set_and_apply_changes() {
    let mut board = Board::new(vec![vec![Cell::EmptySeat, Cell::EmptySeat]]).unwrap();
    board.set_cell(Position::new(0, 0), Cell::OccupiedSeat);
    assert_eq!(board.get_cell(Position::new(0, 0)), Cell::OccupiedSeat);
    board.apply_changes(vec![
        (Position::new(0, 0), Cell::Floor),
        (Position::new(1, 0), Cell::OccupiedSeat),
    ]);
    assert_eq!(board.get_cell(Position::new(0, 0)), Cell::Floor);
    assert_eq!(board.get_cell(Position::new(1, 0)), Cell::OccupiedSeat);
}

#[test]
fn render_writes_one_line_per_row() {
    let board = Board::new(vec![
        vec![Cell::EmptySeat, Cell::OccupiedSeat],
        vec![Cell::Floor, Cell::Floor],
    ])
    .unwrap();
    assert_eq!(board.render(), "L#\n..\n");
}

#[test]
fn render_round_trips_through_parsing() {
    let rows = parse_lines(&sample_layout()).unwrap();
    let board = Board::new(rows.clone()).unwrap();
    let lines: Vec<String> = board.render().lines().map(|l| l.to_string()).collect();
    assert_eq!(parse_lines(&lines).unwrap(), rows);
}

#[test]
fn sample_converges_to_37_with_adjacent_policy() {
    let rows = parse_lines(&sample_layout()).unwrap();
    assert_eq!(part_one(&rows), 37);
}

#[test]
fn sample_converges_to_26_with_visible_policy() {
    let rows = parse_lines(&sample_layout()).unwrap();
    assert_eq!(part_two(&rows), 26);
}

#[test]
fn run_board_returns_first_repeated_count() {
    let rows = parse_lines(&vec!["L.L".to_string()]).unwrap();
    let board = Board::new(rows).unwrap();
    // Both seats fill in one generation and nothing changes afterwards.
    assert_eq!(run_board(board, false), 2);
}
