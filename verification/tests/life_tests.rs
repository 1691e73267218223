use automata::life::{all_2d_directions, all_3d_directions, all_4d_directions, parse_chars,
    parse_lines, part_one, part_two, rows_uniform, run_space, Cell, Error, Plane, Position, Row,
    Space, Vector};

fn sample_pattern() -> Vec<String> {
    vec![".#.".to_string(), "..#".to_string(), "###".to_string()]
}

#[test]
fn parse_chars_maps_pattern_characters() {
    let cells = parse_chars("#.").unwrap();
    assert_eq!(cells, vec![Cell::Active, Cell::Inactive]);
}

#[test]
fn parse_lines_names_the_bad_token() {
    let lines = vec!["#.".to_string(), "#?".to_string()];
    let err = parse_lines(&lines).unwrap_err();
    assert_eq!(err, Error::BadToken { token: '?', row: 1, col: 1 });
}

#[test]
fn rows_uniform_checks_widths() {
    let rows = parse_lines(&vec!["##".to_string(), "..".to_string()]).unwrap();
    assert!(rows_uniform(&rows));
    let ragged = vec![Row::from_cells(vec![Cell::Active]), Row::from_cells(vec![])];
    assert!(!rows_uniform(&ragged));
}

#[test]
fn row_grow_pads_both_ends() {
    let mut row = Row::from_cells(vec![Cell::Active]);
    row.grow();
    assert_eq!(row.width(), 3);
    assert_eq!(row.cells(), vec![Cell::Inactive, Cell::Active, Cell::Inactive]);
}

#[test]
fn plane_grow_shifts_cells_by_one() {
    let mut plane = Plane::new(2, 2);
    plane.set_cell(Position::new_x(1).with_y(0), Cell::Active);
    plane.grow();
    assert_eq!(plane.width(), 4);
    assert_eq!(plane.height(), 4);
    assert_eq!(plane.get_cell(Position::new_x(2).with_y(1)), Cell::Active);
    assert_eq!(plane.get_cell(Position::new_x(0).with_y(0)), Cell::Inactive);
}

#[test]
fn space_grow_extends_every_dimension_by_two() {
    let mut space = Space::new(3, 2, 1);
    space.set_cell(Position::new_x(0).with_y(0).with_z(0), Cell::Active);
    space.grow();
    assert_eq!(space.width(), 5);
    assert_eq!(space.height(), 4);
    assert_eq!(space.depth(), 3);
    assert_eq!(space.get_cell(Position::new_x(1).with_y(1).with_z(1)), Cell::Active);
    assert_eq!(space.count_active(), 1);
}

#[test]
fn direction_lists_have_full_neighborhoods() {
    assert_eq!(all_2d_directions().len(), 8);
    assert_eq!(all_3d_directions().len(), 26);
    assert_eq!(all_4d_directions().len(), 80);
    let d3 = all_3d_directions();
    for v in &d3 {
        assert!(!(v.x == 0 && v.y == 0 && v.z == 0));
        assert_eq!(v.w, 0);
    }
}

#[test]
fn vector_builders_set_one_axis() {
    assert_eq!(Vector::new_z(-1), Vector::new_x_y(0, 0).with_z(-1));
    assert_eq!(Vector::new_w(1), Vector::new_x_y(0, 0).with_w(1));
}

#[test]
fn adjacent_counts_in_a_space() {
    let space = Space::new(3, 3, 3);
    let centre = Position::new_x(1).with_y(1).with_z(1);
    assert_eq!(space.adjacent(centre).len(), 26);
    let corner = Position::new_x(0).with_y(0).with_z(0);
    assert_eq!(space.adjacent(corner).len(), 7);
}

#[test]
fn lone_active_cell_dies() {
    let rows = parse_lines(&vec!["#".to_string()]).unwrap();
    let plane = Plane::with_rows(rows);
    let mut space = Space::with_planes(vec![plane]);
    space.tick();
    assert_eq!(space.count_active(), 0);
}

#[test]
fn all_inactive_grid_stays_inactive() {
    let rows = parse_lines(&vec!["...".to_string(), "...".to_string()]).unwrap();
    let plane = Plane::with_rows(rows);
    let mut space = Space::with_planes(vec![plane]);
    space.tick();
    space.tick();
    space.tick();
    assert_eq!(space.depth(), 7);
    assert_eq!(space.height(), 8);
    assert_eq!(space.width(), 9);
    assert_eq!(space.count_active(), 0);
}

#[test]
fn empty_pattern_counts_zero_in_both_variants() {
    let rows = parse_lines(&vec!["..".to_string()]).unwrap();
    assert_eq!(part_one(&rows), 0);
    assert_eq!(part_two(&rows), 0);
}

#[test]
fn positioned_cells_cover_the_space() {
    let mut space = Space::new(2, 1, 2);
    let marked = Position::new_x(1).with_y(0).with_z(1);
    space.set_cell(marked, Cell::Active);
    let pairs = space.positioned_cells();
    assert_eq!(pairs.len(), 4);
    assert_eq!(pairs[0].0, Position::new_x(0));
    assert_eq!(pairs[3], (marked, Cell::Active));
}

#[test]
fn render_separates_planes_with_blank_lines() {
    let rows = parse_lines(&vec!["#.".to_string()]).unwrap();
    let mut space = Space::with_planes(vec![Plane::with_rows(rows)]);
    assert_eq!(space.render(), "#.\n\n");
    space.set_cell(Position::new_x(1), Cell::Active);
    assert_eq!(space.render(), "##\n\n");
}

#[test]
fn run_space_matches_part_one() {
    let rows = parse_lines(&sample_pattern()).unwrap();
    assert_eq!(run_space(&rows), part_one(&rows));
}

#[test]
fn sample_pattern_yields_112_active_cells_in_3d() {
    let rows = parse_lines(&sample_pattern()).unwrap();
    assert_eq!(part_one(&rows), 112);
}

#[test]
fn sample_pattern_yields_848_active_cells_in_4d() {
    let rows = parse_lines(&sample_pattern()).unwrap();
    assert_eq!(part_two(&rows), 848);
}
