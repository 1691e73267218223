//! Two-dimensional seating automaton.
//!
//! A rectangular board of seats is stepped one generation at a time: an
//! empty seat with no occupied neighbour becomes occupied, and an occupied
//! seat with enough occupied neighbours is vacated. Neighbours are counted
//! either over the eight adjacent squares (`tick`) or as the first seat
//! visible along each of the eight compass directions, looking past floor
//! squares (`tick2`). The driver repeats generations until the total number
//! of occupied seats stops changing.

use vstd::prelude::*;
use vstd::pervasive::VecAdditionalExecFns;
use vstd::string::StrSliceExecFns;

verus! {

/// One square of the seating layout.
#[derive(Copy, Clone, Debug, PartialEq, Eq, Structural)]
pub enum Cell {
    EmptySeat,
    OccupiedSeat,
    Floor,
}

/// A failure while building a board from text.
#[derive(Copy, Clone, Debug, PartialEq, Eq, Structural)]
pub enum Error {
    /// A character of the layout that stands for no cell, with its place.
    BadToken { token: char, row: usize, col: usize },
    /// Rows of differing length.
    IrregularShape,
}

/// The cell a layout character stands for, if any.
pub open spec fn seat_char(c: char) -> Option<Cell> {
    if c == 'L' {
        Some(Cell::EmptySeat)
    } else if c == '#' {
        Some(Cell::OccupiedSeat)
    } else if c == '.' {
        Some(Cell::Floor)
    } else {
        None
    }
}

impl Cell {
    /// Maps a layout character to its cell: `L` an empty seat, `#` an
    /// occupied seat, `.` floor.
    pub fn from_char(c: char) -> (r: Option<Cell>)
        ensures
            r == seat_char(c),
    {
        if c == 'L' {
            Some(Cell::EmptySeat)
        } else if c == '#' {
            Some(Cell::OccupiedSeat)
        } else if c == '.' {
            Some(Cell::Floor)
        } else {
            None
        }
    }
}

/// The layout character of a cell: the inverse of `seat_char`.
pub open spec fn cell_char(c: Cell) -> char {
    if c == Cell::EmptySeat {
        'L'
    } else if c == Cell::OccupiedSeat {
        '#'
    } else {
        '.'
    }
}

/// Writing a cell and reading it back gives the cell.
pub proof fn lemma_cell_char_parses(c: Cell)
    ensures
        seat_char(cell_char(c)) == Some(c),
{
}

/// Whether every character of one row stands for a cell.
pub open spec fn row_ok(s: Seq<char>) -> bool {
    forall|i: int| 0 <= i < s.len() ==> (#[trigger] seat_char(s[i])) is Some
}

/// The cells of one well-formed row of text.
pub open spec fn parse_row(s: Seq<char>) -> Seq<Cell> {
    Seq::new(s.len(), |i: int| seat_char(s[i]).unwrap())
}

/// Parses one row of the layout. Fails on the first character that stands
/// for no cell, naming it and its column (the row is reported as 0; a
/// caller that knows the row index fills it in).
pub fn parse_chars(s: &str) -> (r: Result<Vec<Cell>, Error>)
    ensures
        r is Ok <==> row_ok(s@),
        r matches Ok(v) ==> v@ == parse_row(s@),
        r matches Err(e) ==> e matches Error::BadToken { token, row, col }
            && row == 0
            && col < s@.len()
            && seat_char(s@[col as int]) is None
            && token == s@[col as int]
            && (forall|j: int| 0 <= j < col ==> (#[trigger] seat_char(s@[j])) is Some),
{
    let n = s.unicode_len();
    let mut v: Vec<Cell> = Vec::new();
    let mut i: usize = 0;
    while i < n
        invariant
            n == s@.len(),
            i <= n,
            v@.len() == i,
            forall|j: int| 0 <= j < i ==> (#[trigger] seat_char(s@[j])) is Some,
            forall|j: int| 0 <= j < i ==> #[trigger] v@[j] == seat_char(s@[j]).unwrap(),
        decreases n - i,
    {
        let c = s.get_char(i);
        match Cell::from_char(c) {
            Some(cell) => {
                v.push(cell);
            },
            None => {
                return Err(Error::BadToken { token: c, row: 0, col: i });
            },
        }
        i = i + 1;
    }
    proof {
        assert(v@ =~= parse_row(s@));
    }
    Ok(v)
}

/// The character rows of a list of lines.
pub open spec fn views_of(lines: Seq<String>) -> Seq<Seq<char>> {
    lines.map_values(|l: String| l@)
}

/// Whether every character of every line stands for a cell.
pub open spec fn lines_ok(lines: Seq<Seq<char>>) -> bool {
    forall|r: int| 0 <= r < lines.len() ==> #[trigger] row_ok(lines[r])
}

/// The cell rows of a well-formed layout.
pub open spec fn parse_grid(lines: Seq<Seq<char>>) -> Seq<Seq<Cell>> {
    Seq::new(lines.len(), |r: int| parse_row(lines[r]))
}

/// The mathematical grid a list of cell rows stands for.
pub open spec fn grid_view(rows: Seq<Vec<Cell>>) -> Seq<Seq<Cell>> {
    rows.map_values(|r: Vec<Cell>| r@)
}

/// Parses a whole layout, one line per row. Fails on the first character
/// that stands for no cell, naming it and its row and column.
pub fn parse_lines(lines: &Vec<String>) -> (r: Result<Vec<Vec<Cell>>, Error>)
    ensures
        r is Ok <==> lines_ok(views_of(lines@)),
        r matches Ok(v) ==> grid_view(v@) == parse_grid(views_of(lines@)),
        r matches Err(e) ==> e matches Error::BadToken { token, row, col }
            && row < lines@.len()
            && col < lines@[row as int]@.len()
            && seat_char(lines@[row as int]@[col as int]) is None
            && token == lines@[row as int]@[col as int]
            && (forall|j: int| 0 <= j < col ==> (#[trigger] seat_char(
                lines@[row as int]@[j],
            )) is Some)
            && (forall|q: int| 0 <= q < row ==> #[trigger] row_ok(lines@[q]@)),
{
    let mut v: Vec<Vec<Cell>> = Vec::new();
    let mut i: usize = 0;
    while i < lines.len()
        invariant
            i <= lines@.len(),
            v@.len() == i,
            forall|q: int| 0 <= q < i ==> #[trigger] row_ok(lines@[q]@),
            forall|q: int| 0 <= q < i ==> #[trigger] v@[q]@ == parse_row(lines@[q]@),
        decreases lines@.len() - i,
    {
        match parse_chars(lines[i].as_str()) {
            Ok(row) => {
                v.push(row);
            },
            Err(e) => {
                match e {
                    Error::BadToken { token, row: _, col } => {
                        proof {
                            assert(views_of(lines@)[i as int] == lines@[i as int]@);
                        }
                        return Err(Error::BadToken { token, row: i, col });
                    },
                    Error::IrregularShape => {
                        return Err(e);
                    },
                }
            },
        }
        i = i + 1;
    }
    proof {
        assert(views_of(lines@).len() == lines@.len());
        assert(grid_view(v@) =~= parse_grid(views_of(lines@)));
    }
    Ok(v)
}

/// A place on the board: column `x` of row `y`.
#[derive(Copy, Clone, Debug, PartialEq, Eq, Structural)]
pub struct Position {
    pub x: usize,
    pub y: usize,
}

impl Position {
    pub fn new(x: usize, y: usize) -> (r: Self)
        ensures
            r.x == x,
            r.y == y,
    {
        Self { x, y }
    }
}

/// A signed displacement between places.
#[derive(Copy, Clone, Debug, PartialEq, Eq, Structural)]
pub struct Vector {
    pub x: isize,
    pub y: isize,
}

impl Vector {
    pub fn new(x: isize, y: isize) -> (r: Self)
        ensures
            r.x == x,
            r.y == y,
    {
        Self { x, y }
    }
}

/// The width every row of a rectangular grid has.
pub open spec fn grid_width(g: Seq<Seq<Cell>>) -> nat {
    if g.len() == 0 {
        0
    } else {
        g[0].len()
    }
}

/// Whether the grid is rectangular: every row as long as the first.
pub open spec fn grid_wf(g: Seq<Seq<Cell>>) -> bool {
    forall|y: int| 0 <= y < g.len() ==> (#[trigger] g[y]).len() == grid_width(g)
}

/// Whether (`x`, `y`) lies on the grid.
pub open spec fn pos_valid(g: Seq<Seq<Cell>>, x: int, y: int) -> bool {
    0 <= y < g.len() && 0 <= x < g[y].len()
}

/// The grid with the cell at (`x`, `y`) replaced.
pub open spec fn grid_set(g: Seq<Seq<Cell>>, x: int, y: int, c: Cell) -> Seq<Seq<Cell>> {
    g.update(y, g[y].update(x, c))
}

/// The eight compass directions, as unit displacements.
pub open spec fn dir2(i: int) -> (int, int) {
    if i == 0 {
        (-1, -1)
    } else if i == 1 {
        (-1, 0)
    } else if i == 2 {
        (-1, 1)
    } else if i == 3 {
        (0, -1)
    } else if i == 4 {
        (0, 1)
    } else if i == 5 {
        (1, -1)
    } else if i == 6 {
        (1, 0)
    } else {
        (1, 1)
    }
}

/// The eight unit displacements towards the neighbours of a square.
pub fn all_directions() -> (r: Vec<Vector>)
    ensures
        r@.len() == 8,
        forall|i: int| 0 <= i < 8 ==> (#[trigger] r@[i]).x as int == dir2(i).0
            && r@[i].y as int == dir2(i).1,
{
    let mut r: Vec<Vector> = Vec::new();
    r.push(Vector::new(-1, -1));
    r.push(Vector::new(-1, 0));
    r.push(Vector::new(-1, 1));
    r.push(Vector::new(0, -1));
    r.push(Vector::new(0, 1));
    r.push(Vector::new(1, -1));
    r.push(Vector::new(1, 0));
    r.push(Vector::new(1, 1));
    r
}

/// The cells of the neighbours reached by the first `n` of the eight
/// directions, in direction order.
pub open spec fn adj_cells_upto(g: Seq<Seq<Cell>>, x: int, y: int, n: int) -> Seq<Cell>
    decreases n,
{
    if n <= 0 {
        Seq::empty()
    } else {
        adj_cells_upto(g, x, y, n - 1) + (if pos_valid(g, x + dir2(n - 1).0, y + dir2(n - 1).1) {
            seq![g[y + dir2(n - 1).1][x + dir2(n - 1).0]]
        } else {
            Seq::empty()
        })
    }
}

/// The cells of the squares adjacent to (`x`, `y`), in direction order.
pub open spec fn adj_cells(g: Seq<Seq<Cell>>, x: int, y: int) -> Seq<Cell> {
    adj_cells_upto(g, x, y, 8)
}

/// How many steps along the moving axis of direction (`dx`, `dy`) until a
/// walk from (`x`, `y`) leaves a rectangular grid.
pub open spec fn ray_bound(g: Seq<Seq<Cell>>, x: int, y: int, dx: int, dy: int) -> int {
    if dx > 0 {
        grid_width(g) - x
    } else if dx < 0 {
        x + 1
    } else if dy > 0 {
        g.len() - y
    } else {
        y + 1
    }
}

/// Fuel that outlasts any walk across the grid.
pub open spec fn ray_fuel(g: Seq<Seq<Cell>>) -> nat {
    (g.len() + grid_width(g)) as nat
}

/// The first cell other than floor met walking from (`x`, `y`) one step at
/// a time in direction (`dx`, `dy`), within `fuel` steps; `None` when the
/// walk leaves the grid first.
pub open spec fn ray_cell(
    g: Seq<Seq<Cell>>,
    x: int,
    y: int,
    dx: int,
    dy: int,
    fuel: nat,
) -> Option<Cell>
    decreases fuel,
{
    if fuel == 0 {
        None
    } else if !pos_valid(g, x + dx, y + dy) {
        None
    } else if g[y + dy][x + dx] != Cell::Floor {
        Some(g[y + dy][x + dx])
    } else {
        ray_cell(g, x + dx, y + dy, dx, dy, (fuel - 1) as nat)
    }
}

/// Whether (`dx`, `dy`) is one of the eight unit directions.
pub open spec fn unit_dir(dx: int, dy: int) -> bool {
    -1 <= dx <= 1 && -1 <= dy <= 1 && !(dx == 0 && dy == 0)
}

/// Any fuel at least the walk's bound gives the walk's one answer.
proof fn lemma_ray_fuel_enough(
    g: Seq<Seq<Cell>>,
    x: int,
    y: int,
    dx: int,
    dy: int,
    f1: nat,
    f2: nat,
)
    requires
        grid_wf(g),
        unit_dir(dx, dy),
        f1 >= ray_bound(g, x, y, dx, dy),
        f2 >= ray_bound(g, x, y, dx, dy),
    ensures
        ray_cell(g, x, y, dx, dy, f1) == ray_cell(g, x, y, dx, dy, f2),
    decreases f1 + f2,
{
    if pos_valid(g, x + dx, y + dy) {
        assert(g[y + dy].len() == grid_width(g));
        assert(ray_bound(g, x, y, dx, dy) >= 1);
        if g[y + dy][x + dx] == Cell::Floor {
            lemma_ray_fuel_enough(g, x + dx, y + dy, dx, dy, (f1 - 1) as nat, (f2 - 1) as nat);
        }
    } else {
        if f1 > 0 {
            assert(ray_cell(g, x, y, dx, dy, f1) is None);
        }
        if f2 > 0 {
            assert(ray_cell(g, x, y, dx, dy, f2) is None);
        }
    }
}

/// The seats visible from (`x`, `y`) by the first `n` of the eight
/// directions, in direction order.
pub open spec fn vis_cells_upto(g: Seq<Seq<Cell>>, x: int, y: int, n: int) -> Seq<Cell>
    decreases n,
{
    if n <= 0 {
        Seq::empty()
    } else {
        vis_cells_upto(g, x, y, n - 1) + (match ray_cell(
            g,
            x,
            y,
            dir2(n - 1).0,
            dir2(n - 1).1,
            ray_fuel(g),
        ) {
            Some(c) => seq![c],
            None => Seq::empty(),
        })
    }
}

/// The first seat visible in each of the eight directions from (`x`, `y`),
/// in direction order.
pub open spec fn vis_cells(g: Seq<Seq<Cell>>, x: int, y: int) -> Seq<Cell> {
    vis_cells_upto(g, x, y, 8)
}

/// How many cells of a row equal `c`.
pub open spec fn count_cell(s: Seq<Cell>, c: Cell) -> nat
    decreases s.len(),
{
    if s.len() == 0 {
        0
    } else {
        count_cell(s.drop_last(), c) + (if s.last() == c {
            1nat
        } else {
            0nat
        })
    }
}

/// A count never exceeds the length counted over.
pub proof fn lemma_count_cell_le(s: Seq<Cell>, c: Cell)
    ensures
        count_cell(s, c) <= s.len(),
    decreases s.len(),
{
    if s.len() > 0 {
        lemma_count_cell_le(s.drop_last(), c);
    }
}

/// How many cells of a collected neighbour list equal `c`.
pub fn count_cells_in(cells: &Vec<Cell>, c: Cell) -> (r: usize)
    ensures
        r == count_cell(cells@, c),
{
    let mut r: usize = 0;
    let mut i: usize = 0;
    while i < cells.len()
        invariant
            i <= cells@.len(),
            r <= i,
            r == count_cell(cells@.take(i as int), c),
        decreases cells@.len() - i,
    {
        proof {
            assert(cells@.take(i + 1).drop_last() =~= cells@.take(i as int));
            assert(cells@.take(i + 1).last() == cells@[i as int]);
        }
        if cells[i] == c {
            r = r + 1;
        }
        i = i + 1;
    }
    proof {
        assert(cells@.take(cells@.len() as int) =~= cells@);
    }
    r
}

/// A prefix of the direction list reaches at most one cell per direction.
proof fn lemma_adj_upto_len(g: Seq<Seq<Cell>>, x: int, y: int, n: int)
    requires
        0 <= n <= 8,
    ensures
        adj_cells_upto(g, x, y, n).len() <= n,
    decreases n,
{
    if n > 0 {
        lemma_adj_upto_len(g, x, y, n - 1);
    }
}

/// A square has at most eight adjacent cells.
pub proof fn lemma_adjacent_bound(g: Seq<Seq<Cell>>, x: int, y: int)
    ensures
        adj_cells(g, x, y).len() <= 8,
{
    lemma_adj_upto_len(g, x, y, 8);
}

/// Whether (`x`, `y`) lies strictly inside a rectangular grid, a full ring
/// of squares around it.
pub open spec fn interior(g: Seq<Seq<Cell>>, x: int, y: int) -> bool {
    grid_wf(g) && 1 <= y && y + 1 < g.len() && 1 <= x && x + 1 < grid_width(g)
}

/// From an interior square every direction reaches a cell.
proof fn lemma_adj_upto_full(g: Seq<Seq<Cell>>, x: int, y: int, n: int)
    requires
        interior(g, x, y),
        0 <= n <= 8,
    ensures
        adj_cells_upto(g, x, y, n).len() == n,
    decreases n,
{
    if n > 0 {
        lemma_adj_upto_full(g, x, y, n - 1);
        let dx = dir2(n - 1).0;
        let dy = dir2(n - 1).1;
        assert(g[y + dy].len() == grid_width(g));
        assert(pos_valid(g, x + dx, y + dy));
    }
}

/// An interior square has exactly eight adjacent cells.
pub proof fn lemma_adjacent_interior(g: Seq<Seq<Cell>>, x: int, y: int)
    requires
        interior(g, x, y),
    ensures
        adj_cells(g, x, y).len() == 8,
{
    lemma_adj_upto_full(g, x, y, 8);
}

/// The cells of a grid in row-major order.
pub open spec fn cells_of(g: Seq<Seq<Cell>>) -> Seq<Cell>
    decreases g.len(),
{
    if g.len() == 0 {
        Seq::empty()
    } else {
        cells_of(g.drop_last()) + g.last()
    }
}

/// The (position, cell) pairs of one row.
pub open spec fn row_positioned(row: Seq<Cell>, y: int) -> Seq<(Position, Cell)> {
    Seq::new(row.len(), |x: int| (Position { x: x as usize, y: y as usize }, row[x]))
}

/// The (position, cell) pairs of a grid in row-major order.
pub open spec fn positioned_cells_of(g: Seq<Seq<Cell>>) -> Seq<(Position, Cell)>
    decreases g.len(),
{
    if g.len() == 0 {
        Seq::empty()
    } else {
        positioned_cells_of(g.drop_last()) + row_positioned(g.last(), g.len() - 1)
    }
}

/// How many cells of the whole grid equal `c`.
pub open spec fn count_grid(g: Seq<Seq<Cell>>, c: Cell) -> nat
    decreases g.len(),
{
    if g.len() == 0 {
        0
    } else {
        count_grid(g.drop_last(), c) + count_cell(g.last(), c)
    }
}

/// How many cells the grid holds in all.
pub open spec fn total_cells(g: Seq<Seq<Cell>>) -> nat
    decreases g.len(),
{
    if g.len() == 0 {
        0
    } else {
        total_cells(g.drop_last()) + g.last().len()
    }
}

/// A grid count never exceeds the number of cells.
pub proof fn lemma_count_grid_le(g: Seq<Seq<Cell>>, c: Cell)
    ensures
        count_grid(g, c) <= total_cells(g),
    decreases g.len(),
{
    if g.len() > 0 {
        lemma_count_grid_le(g.drop_last(), c);
        lemma_count_cell_le(g.last(), c);
    }
}

/// A prefix of a grid holds no more cells than the grid.
proof fn lemma_total_prefix_le(g: Seq<Seq<Cell>>, y: int)
    requires
        0 <= y <= g.len(),
    ensures
        total_cells(g.take(y)) <= total_cells(g),
    decreases g.len() - y,
{
    if y == g.len() {
        assert(g.take(y) =~= g);
    } else {
        lemma_total_prefix_le(g, y + 1);
        assert(g.take(y + 1).drop_last() =~= g.take(y));
    }
}

/// The successor of one cell under the seating rule: an empty seat with no
/// occupied neighbour becomes occupied, an occupied seat with at least `th`
/// occupied neighbours is vacated, and every other cell is unchanged.
pub open spec fn next_cell(c: Cell, occ: nat, th: nat) -> Cell {
    if c == Cell::EmptySeat && occ == 0 {
        Cell::OccupiedSeat
    } else if c == Cell::OccupiedSeat && occ >= th {
        Cell::EmptySeat
    } else {
        c
    }
}

/// Rule totality: a (cell, count) pair that matches no row of the
/// transition table leaves the cell unchanged, whatever the count.
pub proof fn lemma_rule_total(c: Cell, occ: nat, th: nat)
    requires
        !(c == Cell::EmptySeat && occ == 0),
        !(c == Cell::OccupiedSeat && occ >= th),
    ensures
        next_cell(c, occ, th) == c,
{
}

/// Floor squares match no rule and never change.
pub proof fn lemma_floor_unchanged(occ: nat, th: nat)
    ensures
        next_cell(Cell::Floor, occ, th) == Cell::Floor,
{
}

/// How many neighbours of (`x`, `y`) are occupied, under the chosen policy.
pub open spec fn neighbor_occ(g: Seq<Seq<Cell>>, x: int, y: int, vis: bool) -> nat {
    count_cell(
        if vis {
            vis_cells(g, x, y)
        } else {
            adj_cells(g, x, y)
        },
        Cell::OccupiedSeat,
    )
}

/// The vacating threshold of the chosen policy.
pub open spec fn policy_threshold(vis: bool) -> nat {
    if vis {
        5nat
    } else {
        4nat
    }
}

/// The successor of the cell at (`x`, `y`).
pub open spec fn next_at(g: Seq<Seq<Cell>>, x: int, y: int, vis: bool) -> Cell {
    next_cell(g[y][x], neighbor_occ(g, x, y, vis), policy_threshold(vis))
}

/// One whole generation, every cell stepped against the same snapshot.
pub open spec fn step_grid(g: Seq<Seq<Cell>>, vis: bool) -> Seq<Seq<Cell>> {
    Seq::new(g.len(), |y: int| Seq::new(g[y].len(), |x: int| next_at(g, x, y, vis)))
}

/// One generation under the adjacent-neighbour policy.
pub open spec fn step_adjacent(g: Seq<Seq<Cell>>) -> Seq<Seq<Cell>> {
    step_grid(g, false)
}

/// One generation under the visible-seat policy.
pub open spec fn step_visible(g: Seq<Seq<Cell>>) -> Seq<Seq<Cell>> {
    step_grid(g, true)
}

/// A batch of changes applied in order.
pub open spec fn apply_changes_spec(
    g: Seq<Seq<Cell>>,
    cs: Seq<(Position, Cell)>,
) -> Seq<Seq<Cell>>
    decreases cs.len(),
{
    if cs.len() == 0 {
        g
    } else {
        apply_changes_spec(
            grid_set(g, cs[0].0.x as int, cs[0].0.y as int, cs[0].1),
            cs.drop_first(),
        )
    }
}

/// Appending one change applies it after the rest.
proof fn lemma_apply_push(g: Seq<Seq<Cell>>, cs: Seq<(Position, Cell)>, p: Position, c: Cell)
    ensures
        apply_changes_spec(g, cs.push((p, c))) == grid_set(
            apply_changes_spec(g, cs),
            p.x as int,
            p.y as int,
            c,
        ),
    decreases cs.len(),
{
    if cs.len() == 0 {
        let g1 = grid_set(g, p.x as int, p.y as int, c);
        assert(cs.push((p, c))[0] == (p, c));
        assert(cs.push((p, c)).drop_first() =~= Seq::<(Position, Cell)>::empty());
        assert(apply_changes_spec(g1, Seq::<(Position, Cell)>::empty()) == g1);
        assert(apply_changes_spec(g, cs) == g);
    } else {
        assert(cs.push((p, c))[0] == cs[0]);
        assert(cs.push((p, c)).drop_first() =~= cs.drop_first().push((p, c)));
        lemma_apply_push(
            grid_set(g, cs[0].0.x as int, cs[0].0.y as int, cs[0].1),
            cs.drop_first(),
            p,
            c,
        );
    }
}

/// The grid with every cell strictly before (`y`, `x`) in row-major order
/// already stepped and the rest still as in `g`.
pub open spec fn partial_step(g: Seq<Seq<Cell>>, vis: bool, y: int, x: int) -> Seq<Seq<Cell>> {
    Seq::new(
        g.len(),
        |yy: int|
            Seq::new(
                g[yy].len(),
                |xx: int|
                    if yy < y || (yy == y && xx < x) {
                        next_at(g, xx, yy, vis)
                    } else {
                        g[yy][xx]
                    },
            ),
    )
}

/// A rectangular board of cells.
#[derive(Debug)]
pub struct Board {
    rows: Vec<Vec<Cell>>,
}

impl View for Board {
    type V = Seq<Seq<Cell>>;

    closed spec fn view(&self) -> Seq<Seq<Cell>> {
        grid_view(self.rows@)
    }
}

impl Board {
    /// Wraps cell rows as a board. Rows of differing length are refused:
    /// a board is rectangular by construction.
    pub fn new(rows: Vec<Vec<Cell>>) -> (r: Result<Board, Error>)
        ensures
            r is Ok <==> grid_wf(grid_view(rows@)),
            r matches Ok(b) ==> b@ == grid_view(rows@),
            r matches Err(e) ==> e == Error::IrregularShape,
    {
        let width = if rows.len() == 0 {
            0
        } else {
            rows[0].len()
        };
        let mut y: usize = 0;
        while y < rows.len()
            invariant
                y <= rows@.len(),
                width == grid_width(grid_view(rows@)),
                forall|q: int| 0 <= q < y ==> #[trigger] grid_view(rows@)[q].len() == width,
            decreases rows@.len() - y,
        {
            if rows[y].len() != width {
                proof {
                    assert(grid_view(rows@)[y as int] == rows@[y as int]@);
                }
                return Err(Error::IrregularShape);
            }
            y = y + 1;
        }
        Ok(Board { rows })
    }

    /// Whether the position lies on the board.
    pub fn is_position_valid(&self, position: Position) -> (b: bool)
        ensures
            b == pos_valid(self@, position.x as int, position.y as int),
    {
        if position.y >= self.rows.len() {
            return false;
        }
        if position.x >= self.rows[position.y].len() {
            return false;
        }
        true
    }

    /// The cell at a position the caller has validated.
    pub fn get_cell(&self, position: Position) -> (c: Cell)
        requires
            pos_valid(self@, position.x as int, position.y as int),
        ensures
            c == self@[position.y as int][position.x as int],
    {
        self.rows[position.y][position.x]
    }

    /// The cell at the position, if it lies on the board.
    pub fn try_get_cell(&self, position: Position) -> (r: Option<Cell>)
        ensures
            r is Some <==> pos_valid(self@, position.x as int, position.y as int),
            r matches Some(c) ==> c == self@[position.y as int][position.x as int],
    {
        if self.is_position_valid(position) {
            Some(self.get_cell(position))
        } else {
            None
        }
    }

    /// The cells of the up-to-eight squares adjacent to the position, in
    /// direction order.
    pub fn adjacent(&self, position: Position) -> (r: Vec<Cell>)
        requires
            pos_valid(self@, position.x as int, position.y as int),
        ensures
            r@ == adj_cells(self@, position.x as int, position.y as int),
    {
        let ghost x = position.x as int;
        let ghost y = position.y as int;
        let row_len = self.rows[position.y].len();
        let height = self.rows.len();
        let dirs = all_directions();
        let mut r: Vec<Cell> = Vec::new();
        let mut i: usize = 0;
        while i < dirs.len()
            invariant
                pos_valid(self@, x, y),
                x == position.x as int,
                y == position.y as int,
                row_len == self@[y].len(),
                height == self@.len(),
                position.y < height,
                dirs@.len() == 8,
                forall|k: int| 0 <= k < 8 ==> (#[trigger] dirs@[k]).x as int == dir2(k).0
                    && dirs@[k].y as int == dir2(k).1,
                i <= 8,
                r@ == adj_cells_upto(self@, x, y, i as int),
            decreases 8 - i,
        {
            let v = dirs[i];
            let ghost dx = dir2(i as int).0;
            let ghost dy = dir2(i as int).1;
            if (v.x >= 0 || position.x > 0) && (v.y >= 0 || position.y > 0) {
                let nx = if v.x < 0 {
                    position.x - 1
                } else if v.x > 0 {
                    position.x + 1
                } else {
                    position.x
                };
                let ny = if v.y < 0 {
                    position.y - 1
                } else if v.y > 0 {
                    position.y + 1
                } else {
                    position.y
                };
                let p2 = Position::new(nx, ny);
                if self.is_position_valid(p2) {
                    r.push(self.get_cell(p2));
                    proof {
                        assert(r@ =~= adj_cells_upto(self@, x, y, i + 1));
                    }
                } else {
                    proof {
                        assert(r@ =~= adj_cells_upto(self@, x, y, i + 1));
                    }
                }
            } else {
                proof {
                    assert(!pos_valid(self@, x + dx, y + dy));
                    assert(r@ =~= adj_cells_upto(self@, x, y, i + 1));
                }
            }
            i = i + 1;
        }
        r
    }

    /// The first cell other than floor met walking from the position in
    /// direction `v`, or `None` when the walk leaves the board first.
    fn cast_ray(&self, position: Position, v: Vector) -> (r: Option<Cell>)
        requires
            grid_wf(self@),
            pos_valid(self@, position.x as int, position.y as int),
            unit_dir(v.x as int, v.y as int),
        ensures
            r == ray_cell(
                self@,
                position.x as int,
                position.y as int,
                v.x as int,
                v.y as int,
                ray_fuel(self@),
            ),
    {
        let ghost g = self@;
        let ghost x0 = position.x as int;
        let ghost y0 = position.y as int;
        let ghost dx = v.x as int;
        let ghost dy = v.y as int;
        let height = self.rows.len();
        let row_len = self.rows[position.y].len();
        let mut cx = position.x;
        let mut cy = position.y;
        proof {
            assert(g[y0].len() == grid_width(g));
            lemma_ray_fuel_enough(
                g,
                x0,
                y0,
                dx,
                dy,
                ray_fuel(g),
                ray_bound(g, x0, y0, dx, dy) as nat,
            );
        }
        loop
            invariant
                grid_wf(g),
                g == self@,
                unit_dir(dx, dy),
                dx == v.x as int,
                dy == v.y as int,
                x0 == position.x as int,
                y0 == position.y as int,
                height == g.len(),
                row_len == grid_width(g),
                pos_valid(g, cx as int, cy as int),
                ray_cell(g, x0, y0, dx, dy, ray_fuel(g)) == ray_cell(
                    g,
                    cx as int,
                    cy as int,
                    dx,
                    dy,
                    ray_bound(g, cx as int, cy as int, dx, dy) as nat,
                ),
            decreases ray_bound(g, cx as int, cy as int, dx, dy),
        {
            proof {
                assert(g[cy as int].len() == grid_width(g));
            }
            if (v.x < 0 && cx == 0) || (v.y < 0 && cy == 0) {
                proof {
                    assert(!pos_valid(g, cx + dx, cy + dy));
                }
                return None;
            }
            let nx = if v.x < 0 {
                cx - 1
            } else if v.x > 0 {
                cx + 1
            } else {
                cx
            };
            let ny = if v.y < 0 {
                cy - 1
            } else if v.y > 0 {
                cy + 1
            } else {
                cy
            };
            let p2 = Position::new(nx, ny);
            if !self.is_position_valid(p2) {
                return None;
            }
            let c = self.get_cell(p2);
            if c != Cell::Floor {
                return Some(c);
            }
            proof {
                assert(g[ny as int].len() == grid_width(g));
                assert(ray_bound(g, nx as int, ny as int, dx, dy) == ray_bound(
                    g,
                    cx as int,
                    cy as int,
                    dx,
                    dy,
                ) - 1);
            }
            cx = nx;
            cy = ny;
        }
    }

    /// The first seat visible in each of the eight directions, looking past
    /// floor squares, in direction order.
    pub fn visible(&self, position: Position) -> (r: Vec<Cell>)
        requires
            grid_wf(self@),
            pos_valid(self@, position.x as int, position.y as int),
        ensures
            r@ == vis_cells(self@, position.x as int, position.y as int),
    {
        let ghost x = position.x as int;
        let ghost y = position.y as int;
        let dirs = all_directions();
        let mut r: Vec<Cell> = Vec::new();
        let mut i: usize = 0;
        while i < dirs.len()
            invariant
                grid_wf(self@),
                pos_valid(self@, x, y),
                x == position.x as int,
                y == position.y as int,
                dirs@.len() == 8,
                forall|k: int| 0 <= k < 8 ==> (#[trigger] dirs@[k]).x as int == dir2(k).0
                    && dirs@[k].y as int == dir2(k).1,
                i <= 8,
                r@ == vis_cells_upto(self@, x, y, i as int),
            decreases 8 - i,
        {
            let v = dirs[i];
            match self.cast_ray(position, v) {
                Some(c) => {
                    r.push(c);
                    proof {
                        assert(r@ =~= vis_cells_upto(self@, x, y, i + 1));
                    }
                },
                None => {
                    proof {
                        assert(r@ =~= vis_cells_upto(self@, x, y, i + 1));
                    }
                },
            }
            i = i + 1;
        }
        r
    }

    /// Every cell of the board, in row-major order.
    pub fn cells(&self) -> (r: Vec<Cell>)
        ensures
            r@ == cells_of(self@),
    {
        let mut r: Vec<Cell> = Vec::new();
        let mut y: usize = 0;
        while y < self.rows.len()
            invariant
                y <= self@.len(),
                self@.len() == self.rows@.len(),
                r@ == cells_of(self@.take(y as int)),
            decreases self@.len() - y,
        {
            let mut x: usize = 0;
            while x < self.rows[y].len()
                invariant
                    y < self@.len(),
                    self@.len() == self.rows@.len(),
                    self@[y as int] == self.rows@[y as int]@,
                    x <= self@[y as int].len(),
                    r@ == cells_of(self@.take(y as int)) + self@[y as int].take(x as int),
                decreases self@[y as int].len() - x,
            {
                r.push(self.rows[y][x]);
                proof {
                    assert(r@ =~= cells_of(self@.take(y as int)) + self@[y as int].take(
                        x + 1,
                    ));
                }
                x = x + 1;
            }
            proof {
                assert(self@.take(y + 1).drop_last() =~= self@.take(y as int));
                assert(self@[y as int].take(self@[y as int].len() as int) =~= self@[y as int]);
                assert(r@ =~= cells_of(self@.take(y + 1)));
            }
            y = y + 1;
        }
        proof {
            assert(self@.take(self@.len() as int) =~= self@);
        }
        r
    }

    /// Every (position, cell) pair of the board, in row-major order.
    pub fn positioned_cells(&self) -> (r: Vec<(Position, Cell)>)
        ensures
            r@ == positioned_cells_of(self@),
    {
        let mut r: Vec<(Position, Cell)> = Vec::new();
        let mut y: usize = 0;
        while y < self.rows.len()
            invariant
                y <= self@.len(),
                self@.len() == self.rows@.len(),
                r@ == positioned_cells_of(self@.take(y as int)),
            decreases self@.len() - y,
        {
            let mut x: usize = 0;
            while x < self.rows[y].len()
                invariant
                    y < self@.len(),
                    self@.len() == self.rows@.len(),
                    self@[y as int] == self.rows@[y as int]@,
                    x <= self@[y as int].len(),
                    r@ == positioned_cells_of(self@.take(y as int)) + row_positioned(
                        self@[y as int],
                        y as int,
                    ).take(x as int),
                decreases self@[y as int].len() - x,
            {
                r.push((Position::new(x, y), self.rows[y][x]));
                proof {
                    assert(r@ =~= positioned_cells_of(self@.take(y as int)) + row_positioned(
                        self@[y as int],
                        y as int,
                    ).take(x + 1));
                }
                x = x + 1;
            }
            proof {
                assert(self@.take(y + 1).drop_last() =~= self@.take(y as int));
                assert(row_positioned(self@[y as int], y as int).take(
                    self@[y as int].len() as int,
                ) =~= row_positioned(self@[y as int], y as int));
                assert(r@ =~= positioned_cells_of(self@.take(y + 1)));
            }
            y = y + 1;
        }
        proof {
            assert(self@.take(self@.len() as int) =~= self@);
        }
        r
    }

    /// How many seats of the whole board are occupied.
    pub fn count_occupied_seats(&self) -> (r: usize)
        requires
            total_cells(self@) <= usize::MAX,
        ensures
            r == count_grid(self@, Cell::OccupiedSeat),
    {
        let mut r: usize = 0;
        let mut y: usize = 0;
        while y < self.rows.len()
            invariant
                y <= self@.len(),
                self@.len() == self.rows@.len(),
                total_cells(self@) <= usize::MAX,
                r == count_grid(self@.take(y as int), Cell::OccupiedSeat),
            decreases self@.len() - y,
        {
            let rc = count_cells_in(&self.rows[y], Cell::OccupiedSeat);
            proof {
                assert(self@[y as int] == self.rows@[y as int]@);
                assert(self@.take(y + 1).drop_last() =~= self@.take(y as int));
                lemma_count_grid_le(self@.take(y + 1), Cell::OccupiedSeat);
                lemma_total_prefix_le(self@, y + 1);
                lemma_count_cell_le(self@[y as int], Cell::OccupiedSeat);
            }
            r = r + rc;
            y = y + 1;
        }
        proof {
            assert(self@.take(self@.len() as int) =~= self@);
        }
        r
    }

    /// Replaces the cell at a position the caller has validated.
    pub fn set_cell(&mut self, pos: Position, cell: Cell)
        requires
            pos_valid(old(self)@, pos.x as int, pos.y as int),
        ensures
            final(self)@ == grid_set(old(self)@, pos.x as int, pos.y as int, cell),
    {
        self.rows[pos.y].set(pos.x, cell);
        proof {
            assert(self@ =~= grid_set(old(self)@, pos.x as int, pos.y as int, cell));
        }
    }

    /// Applies a batch of updates in order. Every read that fed the batch
    /// happened before this call, so no cell of a generation sees the
    /// generation's own future state.
    pub fn apply_changes(&mut self, changes: Vec<(Position, Cell)>)
        requires
            forall|k: int| 0 <= k < changes@.len() ==> pos_valid(
                old(self)@,
                (#[trigger] changes@[k]).0.x as int,
                changes@[k].0.y as int,
            ),
        ensures
            final(self)@ == apply_changes_spec(old(self)@, changes@),
    {
        let ghost g0 = self@;
        let mut k: usize = 0;
        while k < changes.len()
            invariant
                k <= changes@.len(),
                forall|j: int| 0 <= j < changes@.len() ==> pos_valid(
                    g0,
                    (#[trigger] changes@[j]).0.x as int,
                    changes@[j].0.y as int,
                ),
                self@.len() == g0.len(),
                forall|y: int| 0 <= y < g0.len() ==> (#[trigger] self@[y]).len() == g0[y].len(),
                self@ == apply_changes_spec(g0, changes@.take(k as int)),
            decreases changes@.len() - k,
        {
            let (pos, cell) = changes[k];
            self.set_cell(pos, cell);
            proof {
                assert(changes@.take(k + 1) =~= changes@.take(k as int).push((pos, cell)));
                lemma_apply_push(g0, changes@.take(k as int), pos, cell);
            }
            k = k + 1;
        }
        proof {
            assert(changes@.take(changes@.len() as int) =~= changes@);
        }
    }

    /// One generation under the chosen policy: scans the whole snapshot,
    /// collects the changes, and applies them as one batch.
    fn step_in_place(&mut self, use_visible: bool)
        requires
            grid_wf(old(self)@),
        ensures
            final(self)@ == step_grid(old(self)@, use_visible),
            grid_wf(final(self)@),
    {
        let ghost g0 = self@;
        let ghost vis = use_visible;
        let mut changes: Vec<(Position, Cell)> = Vec::new();
        proof {
            assert(partial_step(g0, vis, 0, 0) =~~= g0);
        }
        let mut y: usize = 0;
        while y < self.rows.len()
            invariant
                self@ == g0,
                grid_wf(g0),
                self@.len() == self.rows@.len(),
                y <= g0.len(),
                vis == use_visible,
                forall|j: int| 0 <= j < changes@.len() ==> pos_valid(
                    g0,
                    (#[trigger] changes@[j]).0.x as int,
                    changes@[j].0.y as int,
                ),
                apply_changes_spec(g0, changes@) == partial_step(g0, vis, y as int, 0),
            decreases g0.len() - y,
        {
            let mut x: usize = 0;
            while x < self.rows[y].len()
                invariant
                    self@ == g0,
                    grid_wf(g0),
                    self@.len() == self.rows@.len(),
                    y < g0.len(),
                    self@[y as int] == self.rows@[y as int]@,
                    x <= g0[y as int].len(),
                    vis == use_visible,
                    forall|j: int| 0 <= j < changes@.len() ==> pos_valid(
                        g0,
                        (#[trigger] changes@[j]).0.x as int,
                        changes@[j].0.y as int,
                    ),
                    apply_changes_spec(g0, changes@) == partial_step(g0, vis, y as int, x as int),
                decreases g0[y as int].len() - x,
            {
                let pos = Position::new(x, y);
                let cell = self.get_cell(pos);
                let neighbors = if use_visible {
                    self.visible(pos)
                } else {
                    self.adjacent(pos)
                };
                let occupied = count_cells_in(&neighbors, Cell::OccupiedSeat);
                proof {
                    assert(occupied == neighbor_occ(g0, x as int, y as int, vis));
                }
                let threshold: usize = if use_visible {
                    5
                } else {
                    4
                };
                let ghost pre = changes@;
                if cell == Cell::EmptySeat && occupied == 0 {
                    changes.push((pos, Cell::OccupiedSeat));
                    proof {
                        lemma_apply_push(g0, pre, pos, Cell::OccupiedSeat);
                        assert(partial_step(g0, vis, y as int, x + 1) =~~= grid_set(
                            partial_step(g0, vis, y as int, x as int),
                            x as int,
                            y as int,
                            Cell::OccupiedSeat,
                        ));
                    }
                } else if cell == Cell::OccupiedSeat && occupied >= threshold {
                    changes.push((pos, Cell::EmptySeat));
                    proof {
                        lemma_apply_push(g0, pre, pos, Cell::EmptySeat);
                        assert(partial_step(g0, vis, y as int, x + 1) =~~= grid_set(
                            partial_step(g0, vis, y as int, x as int),
                            x as int,
                            y as int,
                            Cell::EmptySeat,
                        ));
                    }
                } else {
                    proof {
                        assert(next_at(g0, x as int, y as int, vis) == g0[y as int][x as int]);
                        assert(partial_step(g0, vis, y as int, x + 1) =~~= partial_step(
                            g0,
                            vis,
                            y as int,
                            x as int,
                        ));
                    }
                }
                x = x + 1;
            }
            proof {
                assert(partial_step(g0, vis, y + 1, 0) =~~= partial_step(
                    g0,
                    vis,
                    y as int,
                    g0[y as int].len() as int,
                ));
            }
            y = y + 1;
        }
        self.apply_changes(changes);
        proof {
            assert(step_grid(g0, vis) =~~= partial_step(g0, vis, g0.len() as int, 0));
        }
    }

    /// One generation under the adjacent-neighbour policy.
    pub fn tick(&mut self)
        requires
            grid_wf(old(self)@),
        ensures
            final(self)@ == step_adjacent(old(self)@),
            grid_wf(final(self)@),
    {
        self.step_in_place(false);
    }

    /// One generation under the visible-seat policy.
    pub fn tick2(&mut self)
        requires
            grid_wf(old(self)@),
        ensures
            final(self)@ == step_visible(old(self)@),
            grid_wf(final(self)@),
    {
        self.step_in_place(true);
    }
}

/// One row of a textual dump: one character per cell.
pub open spec fn render_row(row: Seq<Cell>) -> Seq<char> {
    row.map_values(|c: Cell| cell_char(c))
}

/// A textual dump of a grid: rows separated by newlines.
pub open spec fn render_grid(g: Seq<Seq<Cell>>) -> Seq<char>
    decreases g.len(),
{
    if g.len() == 0 {
        Seq::empty()
    } else {
        render_grid(g.drop_last()) + render_row(g.last()) + seq!['\n']
    }
}

impl Board {
    /// A textual dump for diagnostics: one character per cell, one line
    /// per row.
    pub fn render(&self) -> (r: String)
        ensures
            r@ == render_grid(self@),
    {
        proof {
            reveal_strlit("L");
            reveal_strlit("#");
            reveal_strlit(".");
            reveal_strlit("\n");
        }
        let mut s = String::new();
        let mut y: usize = 0;
        while y < self.rows.len()
            invariant
                y <= self@.len(),
                self@.len() == self.rows@.len(),
                s@ == render_grid(self@.take(y as int)),
            decreases self@.len() - y,
        {
            proof {
                reveal_strlit("L");
                reveal_strlit("#");
                reveal_strlit(".");
                reveal_strlit("\n");
            }
            let mut x: usize = 0;
            while x < self.rows[y].len()
                invariant
                    y < self@.len(),
                    self@.len() == self.rows@.len(),
                    self@[y as int] == self.rows@[y as int]@,
                    x <= self@[y as int].len(),
                    s@ == render_grid(self@.take(y as int)) + render_row(
                        self@[y as int],
                    ).take(x as int),
                decreases self@[y as int].len() - x,
            {
                proof {
                    reveal_strlit("L");
                    reveal_strlit("#");
                    reveal_strlit(".");
                }
                match self.rows[y][x] {
                    Cell::EmptySeat => s.append("L"),
                    Cell::OccupiedSeat => s.append("#"),
                    Cell::Floor => s.append("."),
                }
                proof {
                    assert(s@ =~= render_grid(self@.take(y as int)) + render_row(
                        self@[y as int],
                    ).take(x + 1));
                }
                x = x + 1;
            }
            s.append("\n");
            proof {
                assert(self@.take(y + 1).drop_last() =~= self@.take(y as int));
                assert(render_row(self@[y as int]).take(self@[y as int].len() as int)
                    =~= render_row(self@[y as int]));
                assert(s@ =~= render_grid(self@.take(y + 1)));
            }
            y = y + 1;
        }
        proof {
            assert(self@.take(self@.len() as int) =~= self@);
        }
        s
    }
}

/// The grid after `n` generations under the chosen policy.
pub open spec fn iter_grid(g: Seq<Seq<Cell>>, vis: bool, n: nat) -> Seq<Seq<Cell>>
    decreases n,
{
    if n == 0 {
        g
    } else {
        step_grid(iter_grid(g, vis, (n - 1) as nat), vis)
    }
}

/// The occupied-seat count after `n` generations.
pub open spec fn occ_after(g: Seq<Seq<Cell>>, vis: bool, n: nat) -> nat {
    count_grid(iter_grid(g, vis, n), Cell::OccupiedSeat)
}

/// Whether generation `n + 1` leaves the occupied-seat count of generation
/// `n` unchanged: the aggregate fixed point the driver waits for. Two
/// different layouts can share one count, so this is an approximation of a
/// true fixed point, kept as the termination rule on purpose.
pub open spec fn stable_at(g: Seq<Seq<Cell>>, vis: bool, n: nat) -> bool {
    occ_after(g, vis, n + 1) == occ_after(g, vis, n)
}

/// Whether the simulation ever reaches the aggregate fixed point.
pub open spec fn converges(g: Seq<Seq<Cell>>, vis: bool) -> bool {
    exists|n: nat| stable_at(g, vis, n)
}

/// The first generation at which the occupied-seat count repeats.
pub open spec fn first_stable(g: Seq<Seq<Cell>>, vis: bool) -> nat {
    choose|n: nat|
        stable_at(g, vis, n) && (forall|k: nat| k < n ==> !stable_at(g, vis, k))
}

/// Below any stable generation lies a least one.
proof fn lemma_min_stable(g: Seq<Seq<Cell>>, vis: bool, n: nat) -> (m: nat)
    requires
        stable_at(g, vis, n),
    ensures
        m <= n,
        stable_at(g, vis, m),
        forall|k: nat| k < m ==> !stable_at(g, vis, k),
    decreases n,
{
    if exists|k: nat| k < n && stable_at(g, vis, k) {
        let k = choose|k: nat| k < n && stable_at(g, vis, k);
        lemma_min_stable(g, vis, k)
    } else {
        n
    }
}

/// A converging simulation has a well-defined first stable generation.
pub proof fn lemma_first_stable(g: Seq<Seq<Cell>>, vis: bool)
    requires
        converges(g, vis),
    ensures
        stable_at(g, vis, first_stable(g, vis)),
        forall|k: nat| k < first_stable(g, vis) ==> !stable_at(g, vis, k),
{
    let n0 = choose|n: nat| stable_at(g, vis, n);
    let m = lemma_min_stable(g, vis, n0);
    assert(stable_at(g, vis, m) && (forall|k: nat| k < m ==> !stable_at(g, vis, k)));
}

/// Grids of one shape hold the same number of cells.
proof fn lemma_total_of_same_shape(g1: Seq<Seq<Cell>>, g2: Seq<Seq<Cell>>)
    requires
        g1.len() == g2.len(),
        forall|y: int| 0 <= y < g1.len() ==> (#[trigger] g1[y]).len() == g2[y].len(),
    ensures
        total_cells(g1) == total_cells(g2),
    decreases g1.len(),
{
    if g1.len() > 0 {
        lemma_total_of_same_shape(g1.drop_last(), g2.drop_last());
    }
}

/// A fresh copy of the cell rows of a parsed layout.
fn copy_grid(rows: &Vec<Vec<Cell>>) -> (r: Vec<Vec<Cell>>)
    ensures
        grid_view(r@) == grid_view(rows@),
{
    let mut r: Vec<Vec<Cell>> = Vec::new();
    let mut y: usize = 0;
    while y < rows.len()
        invariant
            y <= rows@.len(),
            r@.len() == y,
            forall|q: int| 0 <= q < y ==> #[trigger] r@[q]@ == rows@[q]@,
        decreases rows@.len() - y,
    {
        let mut row: Vec<Cell> = Vec::new();
        let mut x: usize = 0;
        while x < rows[y].len()
            invariant
                y < rows@.len(),
                x <= rows@[y as int]@.len(),
                row@ == rows@[y as int]@.take(x as int),
            decreases rows@[y as int]@.len() - x,
        {
            row.push(rows[y][x]);
            proof {
                assert(row@ =~= rows@[y as int]@.take(x + 1));
            }
            x = x + 1;
        }
        proof {
            assert(rows@[y as int]@.take(rows@[y as int]@.len() as int) =~= rows@[y as int]@);
        }
        r.push(row);
        y = y + 1;
    }
    proof {
        assert(grid_view(r@) =~= grid_view(rows@));
    }
    r
}

/// Runs generations under the chosen policy until the occupied-seat count
/// repeats, and returns that count. The driver compares only the aggregate
/// count of successive generations, never whole layouts, so it stops at
/// the first repeated count.
pub fn run_board(board: Board, use_visible: bool) -> (r: usize)
    requires
        grid_wf(board@),
        converges(board@, use_visible),
        total_cells(board@) <= usize::MAX,
    ensures
        r == occ_after(board@, use_visible, first_stable(board@, use_visible)),
        stable_at(board@, use_visible, first_stable(board@, use_visible)),
{
    let ghost g0 = board@;
    let ghost vis = use_visible;
    proof {
        lemma_first_stable(g0, vis);
    }
    let ghost fix = first_stable(g0, vis);
    let mut b = board;
    let mut count = b.count_occupied_seats();
    let ghost mut k: nat = 0;
    loop
        invariant
            vis == use_visible,
            g0 == board@,
            grid_wf(b@),
            b@ == iter_grid(g0, vis, k),
            count == occ_after(g0, vis, k),
            total_cells(b@) <= usize::MAX,
            fix == first_stable(g0, vis),
            stable_at(g0, vis, fix),
            forall|j: nat| j < fix ==> !stable_at(g0, vis, j),
            k <= fix,
        decreases fix - k,
    {
        let ghost before = b@;
        if use_visible {
            b.tick2();
        } else {
            b.tick();
        }
        proof {
            assert(b@ == step_grid(before, vis));
            assert(b@ == iter_grid(g0, vis, k + 1));
            lemma_total_of_same_shape(b@, before);
        }
        let next_count = b.count_occupied_seats();
        if count == next_count {
            proof {
                assert(stable_at(g0, vis, k));
                assert(k == fix);
            }
            return count;
        }
        count = next_count;
        proof {
            assert(!stable_at(g0, vis, k));
            k = k + 1;
            assert(k <= fix);
        }
    }
}

/// The occupied-seat count the adjacent-neighbour simulation settles on.
pub fn part_one(rows: &Vec<Vec<Cell>>) -> (r: usize)
    requires
        grid_wf(grid_view(rows@)),
        converges(grid_view(rows@), false),
        total_cells(grid_view(rows@)) <= usize::MAX,
    ensures
        r == occ_after(grid_view(rows@), false, first_stable(grid_view(rows@), false)),
{
    let copied = copy_grid(rows);
    match Board::new(copied) {
        Ok(board) => run_board(board, false),
        Err(_) => vstd::pervasive::unreached(),
    }
}

/// The occupied-seat count the visible-seat simulation settles on.
pub fn part_two(rows: &Vec<Vec<Cell>>) -> (r: usize)
    requires
        grid_wf(grid_view(rows@)),
        converges(grid_view(rows@), true),
        total_cells(grid_view(rows@)) <= usize::MAX,
    ensures
        r == occ_after(grid_view(rows@), true, first_stable(grid_view(rows@), true)),
{
    let copied = copy_grid(rows);
    match Board::new(copied) {
        Ok(board) => run_board(board, true),
        Err(_) => vstd::pervasive::unreached(),
    }
}

} // verus!
