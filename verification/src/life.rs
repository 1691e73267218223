//! Life-like automaton in three and four dimensions.
//!
//! A two-dimensional pattern is embedded as a single slice of a
//! three-dimensional `Space` or four-dimensional `HyperSpace`. Before every
//! generation the grid grows by one inactive layer on each side of every
//! dimension, so activity never reaches the border; then every cell is
//! stepped against the snapshot: an active cell stays active only with two
//! or three active neighbours, and an inactive cell activates with exactly
//! three. The driver runs exactly six generations and reports how many
//! cells are active.

use vstd::prelude::*;
use vstd::pervasive::VecAdditionalExecFns;
use vstd::string::StrSliceExecFns;

verus! {

/// One cube of the grid.
#[derive(Copy, Clone, Debug, PartialEq, Eq, Structural)]
pub enum Cell {
    Active,
    Inactive,
}

/// The cell a pattern character stands for, if any.
pub open spec fn life_char(c: char) -> Option<Cell> {
    if c == '#' {
        Some(Cell::Active)
    } else if c == '.' {
        Some(Cell::Inactive)
    } else {
        None
    }
}

impl Cell {
    /// Maps a pattern character to its cell: `#` active, `.` inactive.
    pub fn from_char(c: char) -> (r: Option<Cell>)
        ensures
            r == life_char(c),
    {
        if c == '#' {
            Some(Cell::Active)
        } else if c == '.' {
            Some(Cell::Inactive)
        } else {
            None
        }
    }
}

/// The pattern character of a cell: the inverse of `life_char`.
pub open spec fn cell_char(c: Cell) -> char {
    if c == Cell::Active {
        '#'
    } else {
        '.'
    }
}

/// Writing a cell and reading it back gives the cell.
pub proof fn lemma_cell_char_parses(c: Cell)
    ensures
        life_char(cell_char(c)) == Some(c),
{
}

/// A failure while building a pattern from text.
#[derive(Copy, Clone, Debug, PartialEq, Eq, Structural)]
pub enum Error {
    /// A character of the pattern that stands for no cell, with its place.
    BadToken { token: char, row: usize, col: usize },
    /// Rows of differing length.
    IrregularShape,
}

/// A place in the grid: `x` along a row, `y` across rows, `z` across
/// planes, `w` across spaces. Unused higher coordinates stay zero.
#[derive(Copy, Clone, Debug, PartialEq, Eq, Structural)]
pub struct Position {
    pub x: usize,
    pub y: usize,
    pub z: usize,
    pub w: usize,
}

impl Position {
    pub fn new_x(x: usize) -> (r: Self)
        ensures
            r.x == x,
            r.y == 0,
            r.z == 0,
            r.w == 0,
    {
        Self { x, y: 0, z: 0, w: 0 }
    }

    pub fn with_y(self, y: usize) -> (r: Self)
        ensures
            r.x == self.x,
            r.y == y,
            r.z == self.z,
            r.w == self.w,
    {
        Self { y, ..self }
    }

    pub fn with_z(self, z: usize) -> (r: Self)
        ensures
            r.x == self.x,
            r.y == self.y,
            r.z == z,
            r.w == self.w,
    {
        Self { z, ..self }
    }

    pub fn with_w(self, w: usize) -> (r: Self)
        ensures
            r.x == self.x,
            r.y == self.y,
            r.z == self.z,
            r.w == w,
    {
        Self { w, ..self }
    }
}

/// A signed displacement between places. Unused higher offsets stay zero.
#[derive(Copy, Clone, Debug, PartialEq, Eq, Structural)]
pub struct Vector {
    pub x: isize,
    pub y: isize,
    pub z: isize,
    pub w: isize,
}

impl Vector {
    pub fn new_x_y(x: isize, y: isize) -> (r: Self)
        ensures
            r.x == x,
            r.y == y,
            r.z == 0,
            r.w == 0,
    {
        Self { x, y, z: 0, w: 0 }
    }

    pub fn new_z(z: isize) -> (r: Self)
        ensures
            r.x == 0,
            r.y == 0,
            r.z == z,
            r.w == 0,
    {
        Self { x: 0, y: 0, z, w: 0 }
    }

    pub fn new_w(w: isize) -> (r: Self)
        ensures
            r.x == 0,
            r.y == 0,
            r.z == 0,
            r.w == w,
    {
        Self { x: 0, y: 0, z: 0, w }
    }

    pub fn with_z(self, z: isize) -> (r: Self)
        ensures
            r.x == self.x,
            r.y == self.y,
            r.z == z,
            r.w == self.w,
    {
        Self { z, ..self }
    }

    pub fn with_w(self, w: isize) -> (r: Self)
        ensures
            r.x == self.x,
            r.y == self.y,
            r.z == self.z,
            r.w == w,
    {
        Self { w, ..self }
    }
}

/// A row of `n` inactive cells.
pub open spec fn empty_row(n: nat) -> Seq<Cell> {
    Seq::new(n, |i: int| Cell::Inactive)
}

/// A row padded with one inactive cell on each end.
pub open spec fn grow1(r: Seq<Cell>) -> Seq<Cell> {
    seq![Cell::Inactive] + r + seq![Cell::Inactive]
}

/// How many cells of a row equal `c`.
pub open spec fn count_cell(s: Seq<Cell>, c: Cell) -> nat
    decreases s.len(),
{
    if s.len() == 0 {
        0
    } else {
        count_cell(s.drop_last(), c) + (if s.last() == c {
            1nat
        } else {
            0nat
        })
    }
}

/// A count never exceeds the length counted over.
pub proof fn lemma_count_cell_le(s: Seq<Cell>, c: Cell)
    ensures
        count_cell(s, c) <= s.len(),
    decreases s.len(),
{
    if s.len() > 0 {
        lemma_count_cell_le(s.drop_last(), c);
    }
}

/// How many cells of a collected neighbour list equal `c`.
pub fn count_cells_in(cells: &Vec<Cell>, c: Cell) -> (r: usize)
    ensures
        r == count_cell(cells@, c),
{
    let mut r: usize = 0;
    let mut i: usize = 0;
    while i < cells.len()
        invariant
            i <= cells@.len(),
            r <= i,
            r == count_cell(cells@.take(i as int), c),
        decreases cells@.len() - i,
    {
        proof {
            assert(cells@.take(i + 1).drop_last() =~= cells@.take(i as int));
            assert(cells@.take(i + 1).last() == cells@[i as int]);
        }
        if cells[i] == c {
            r = r + 1;
        }
        i = i + 1;
    }
    proof {
        assert(cells@.take(cells@.len() as int) =~= cells@);
    }
    r
}

/// The (position, cell) pairs of a row, positions along `x` only.
pub open spec fn row_positions(s: Seq<Cell>) -> Seq<(Position, Cell)> {
    Seq::new(s.len(), |x: int| (Position { x: x as usize, y: 0, z: 0, w: 0 }, s[x]))
}

/// One row of the grid.
#[derive(Debug)]
pub struct Row {
    cells: Vec<Cell>,
}

impl View for Row {
    type V = Seq<Cell>;

    closed spec fn view(&self) -> Seq<Cell> {
        self.cells@
    }
}

impl Row {
    /// A row of `width` inactive cells.
    pub fn new(width: usize) -> (r: Self)
        ensures
            r@ == empty_row(width as nat),
    {
        let mut cells: Vec<Cell> = Vec::new();
        let mut i: usize = 0;
        while i < width
            invariant
                i <= width,
                cells@.len() == i,
                forall|j: int| 0 <= j < i ==> cells@[j] == Cell::Inactive,
            decreases width - i,
        {
            cells.push(Cell::Inactive);
            i = i + 1;
        }
        proof {
            assert(cells@ =~= empty_row(width as nat));
        }
        Self { cells }
    }

    /// Wraps parsed cells as a row.
    pub fn from_cells(cells: Vec<Cell>) -> (r: Self)
        ensures
            r@ == cells@,
    {
        Self { cells }
    }

    /// How many cells the row holds.
    pub fn width(&self) -> (r: usize)
        ensures
            r == self@.len(),
    {
        self.cells.len()
    }

    /// The cell at the position's `x` coordinate, which the caller has
    /// validated.
    pub fn get_cell(&self, position: Position) -> (c: Cell)
        requires
            position.x < self@.len(),
        ensures
            c == self@[position.x as int],
    {
        self.cells[position.x]
    }

    /// Replaces the cell at the position's `x` coordinate.
    pub fn set_cell(&mut self, position: Position, cell: Cell)
        requires
            position.x < old(self)@.len(),
        ensures
            final(self)@ == old(self)@.update(position.x as int, cell),
    {
        self.cells.set(position.x, cell);
    }

    /// Whether the position's `x` coordinate lies on the row.
    pub fn is_position_valid(&self, position: Position) -> (b: bool)
        ensures
            b == (position.x < self@.len()),
    {
        position.x < self.cells.len()
    }

    /// Every cell of the row, in order.
    pub fn cells(&self) -> (r: Vec<Cell>)
        ensures
            r@ == self@,
    {
        let mut r: Vec<Cell> = Vec::new();
        let mut i: usize = 0;
        while i < self.cells.len()
            invariant
                i <= self@.len(),
                self@ == self.cells@,
                r@ == self@.take(i as int),
            decreases self@.len() - i,
        {
            r.push(self.cells[i]);
            proof {
                assert(r@ =~= self@.take(i + 1));
            }
            i = i + 1;
        }
        proof {
            assert(self@.take(self@.len() as int) =~= self@);
        }
        r
    }

    /// Every (position, cell) pair of the row, positions along `x`.
    pub fn positioned_cells(&self) -> (r: Vec<(Position, Cell)>)
        ensures
            r@ == row_positions(self@),
    {
        let mut r: Vec<(Position, Cell)> = Vec::new();
        let mut i: usize = 0;
        while i < self.cells.len()
            invariant
                i <= self@.len(),
                self@ == self.cells@,
                r@ == row_positions(self@).take(i as int),
            decreases self@.len() - i,
        {
            r.push((Position::new_x(i), self.cells[i]));
            proof {
                assert(r@ =~= row_positions(self@).take(i + 1));
            }
            i = i + 1;
        }
        proof {
            assert(row_positions(self@).take(self@.len() as int) =~= row_positions(self@));
        }
        r
    }

    /// Pads the row with one inactive cell on each end.
    pub fn grow(&mut self)
        ensures
            final(self)@ == grow1(old(self)@),
    {
        self.cells.insert(0, Cell::Inactive);
        self.cells.push(Cell::Inactive);
        proof {
            assert(self@ =~= grow1(old(self)@));
        }
    }
}

/// Whether every character of one row stands for a cell.
pub open spec fn row_ok(s: Seq<char>) -> bool {
    forall|i: int| 0 <= i < s.len() ==> (#[trigger] life_char(s[i])) is Some
}

/// The cells of one well-formed row of text.
pub open spec fn parse_row(s: Seq<char>) -> Seq<Cell> {
    Seq::new(s.len(), |i: int| life_char(s[i]).unwrap())
}

/// Parses one row of the pattern. Fails on the first character that
/// stands for no cell, naming it and its column (the row is reported as 0;
/// a caller that knows the row index fills it in).
pub fn parse_chars(s: &str) -> (r: Result<Vec<Cell>, Error>)
    ensures
        r is Ok <==> row_ok(s@),
        r matches Ok(v) ==> v@ == parse_row(s@),
        r matches Err(e) ==> e matches Error::BadToken { token, row, col }
            && row == 0
            && col < s@.len()
            && life_char(s@[col as int]) is None
            && token == s@[col as int]
            && (forall|j: int| 0 <= j < col ==> (#[trigger] life_char(s@[j])) is Some),
{
    let n = s.unicode_len();
    let mut v: Vec<Cell> = Vec::new();
    let mut i: usize = 0;
    while i < n
        invariant
            n == s@.len(),
            i <= n,
            v@.len() == i,
            forall|j: int| 0 <= j < i ==> (#[trigger] life_char(s@[j])) is Some,
            forall|j: int| 0 <= j < i ==> #[trigger] v@[j] == life_char(s@[j]).unwrap(),
        decreases n - i,
    {
        let c = s.get_char(i);
        match Cell::from_char(c) {
            Some(cell) => {
                v.push(cell);
            },
            None => {
                return Err(Error::BadToken { token: c, row: 0, col: i });
            },
        }
        i = i + 1;
    }
    proof {
        assert(v@ =~= parse_row(s@));
    }
    Ok(v)
}

/// The character rows of a list of lines.
pub open spec fn views_of(lines: Seq<String>) -> Seq<Seq<char>> {
    lines.map_values(|l: String| l@)
}

/// Whether every character of every line stands for a cell.
pub open spec fn lines_ok(lines: Seq<Seq<char>>) -> bool {
    forall|r: int| 0 <= r < lines.len() ==> #[trigger] row_ok(lines[r])
}

/// The cell rows of a well-formed pattern.
pub open spec fn parse_grid(lines: Seq<Seq<char>>) -> Seq<Seq<Cell>> {
    Seq::new(lines.len(), |r: int| parse_row(lines[r]))
}

/// The mathematical plane a list of rows stands for.
pub open spec fn rows_view(rows: Seq<Row>) -> Seq<Seq<Cell>> {
    rows.map_values(|r: Row| r@)
}

/// Parses a whole pattern, one line per row. Fails on the first character
/// that stands for no cell, naming it and its row and column.
pub fn parse_lines(lines: &Vec<String>) -> (r: Result<Vec<Row>, Error>)
    ensures
        r is Ok <==> lines_ok(views_of(lines@)),
        r matches Ok(v) ==> rows_view(v@) == parse_grid(views_of(lines@)),
        r matches Err(e) ==> e matches Error::BadToken { token, row, col }
            && row < lines@.len()
            && col < lines@[row as int]@.len()
            && life_char(lines@[row as int]@[col as int]) is None
            && token == lines@[row as int]@[col as int]
            && (forall|j: int| 0 <= j < col ==> (#[trigger] life_char(
                lines@[row as int]@[j],
            )) is Some)
            && (forall|q: int| 0 <= q < row ==> #[trigger] row_ok(lines@[q]@)),
{
    let mut v: Vec<Row> = Vec::new();
    let mut i: usize = 0;
    while i < lines.len()
        invariant
            i <= lines@.len(),
            v@.len() == i,
            forall|q: int| 0 <= q < i ==> #[trigger] row_ok(lines@[q]@),
            forall|q: int| 0 <= q < i ==> #[trigger] v@[q]@ == parse_row(lines@[q]@),
        decreases lines@.len() - i,
    {
        match parse_chars(lines[i].as_str()) {
            Ok(cells) => {
                v.push(Row::from_cells(cells));
            },
            Err(e) => {
                match e {
                    Error::BadToken { token, row: _, col } => {
                        proof {
                            assert(views_of(lines@)[i as int] == lines@[i as int]@);
                        }
                        return Err(Error::BadToken { token, row: i, col });
                    },
                    Error::IrregularShape => {
                        return Err(e);
                    },
                }
            },
        }
        i = i + 1;
    }
    proof {
        assert(rows_view(v@) =~= parse_grid(views_of(lines@)));
    }
    Ok(v)
}

/// The width every row of a rectangular plane has.
pub open spec fn width2(p: Seq<Seq<Cell>>) -> nat {
    if p.len() == 0 {
        0
    } else {
        p[0].len()
    }
}

/// Whether the plane is rectangular: every row as long as the first.
pub open spec fn wf2(p: Seq<Seq<Cell>>) -> bool {
    forall|y: int| 0 <= y < p.len() ==> (#[trigger] p[y]).len() == width2(p)
}

/// Whether (`x`, `y`) lies on the plane.
pub open spec fn valid2(p: Seq<Seq<Cell>>, x: int, y: int) -> bool {
    0 <= y < p.len() && 0 <= x < p[y].len()
}

/// The plane with the cell at (`x`, `y`) replaced.
pub open spec fn grid_set2(p: Seq<Seq<Cell>>, x: int, y: int, c: Cell) -> Seq<Seq<Cell>> {
    p.update(y, p[y].update(x, c))
}

/// A plane of `h` rows of `w` inactive cells.
pub open spec fn empty_plane(h: nat, w: nat) -> Seq<Seq<Cell>> {
    Seq::new(h, |i: int| empty_row(w))
}

/// A rectangular plane padded with one inactive layer on each side of both
/// dimensions.
pub open spec fn grow2(p: Seq<Seq<Cell>>) -> Seq<Seq<Cell>> {
    Seq::new(
        p.len() + 2,
        |y: int|
            if 1 <= y <= p.len() {
                grow1(p[y - 1])
            } else {
                empty_row((width2(p) + 2) as nat)
            },
    )
}

/// The cells of a plane in row-major order.
pub open spec fn cells2_of(p: Seq<Seq<Cell>>) -> Seq<Cell>
    decreases p.len(),
{
    if p.len() == 0 {
        Seq::empty()
    } else {
        cells2_of(p.drop_last()) + p.last()
    }
}

/// The (position, cell) pairs of one row of a plane, positions in `x` and
/// `y`.
pub open spec fn prow2(row: Seq<Cell>, y: int) -> Seq<(Position, Cell)> {
    Seq::new(row.len(), |x: int| (Position { x: x as usize, y: y as usize, z: 0, w: 0 }, row[x]))
}

/// The (position, cell) pairs of a plane in row-major order.
pub open spec fn ppos2(p: Seq<Seq<Cell>>) -> Seq<(Position, Cell)>
    decreases p.len(),
{
    if p.len() == 0 {
        Seq::empty()
    } else {
        ppos2(p.drop_last()) + prow2(p.last(), p.len() - 1)
    }
}

/// How many cells of a plane equal `c`.
pub open spec fn count2(p: Seq<Seq<Cell>>, c: Cell) -> nat
    decreases p.len(),
{
    if p.len() == 0 {
        0
    } else {
        count2(p.drop_last(), c) + count_cell(p.last(), c)
    }
}

/// How many cells a plane holds in all.
pub open spec fn total2(p: Seq<Seq<Cell>>) -> nat
    decreases p.len(),
{
    if p.len() == 0 {
        0
    } else {
        total2(p.drop_last()) + p.last().len()
    }
}

/// A plane count never exceeds the number of cells.
pub proof fn lemma_count2_le(p: Seq<Seq<Cell>>, c: Cell)
    ensures
        count2(p, c) <= total2(p),
    decreases p.len(),
{
    if p.len() > 0 {
        lemma_count2_le(p.drop_last(), c);
        lemma_count_cell_le(p.last(), c);
    }
}

/// A rectangular plane of cells: one slice of the grid.
#[derive(Debug)]
pub struct Plane {
    rows: Vec<Row>,
}

impl View for Plane {
    type V = Seq<Seq<Cell>>;

    closed spec fn view(&self) -> Seq<Seq<Cell>> {
        rows_view(self.rows@)
    }
}

impl Plane {
    /// A plane of `height` rows of `width` inactive cells.
    pub fn new(width: usize, height: usize) -> (r: Self)
        ensures
            r@ == empty_plane(height as nat, width as nat),
    {
        let mut rows: Vec<Row> = Vec::new();
        let mut i: usize = 0;
        while i < height
            invariant
                i <= height,
                rows@.len() == i,
                forall|j: int| 0 <= j < i ==> #[trigger] rows@[j]@ == empty_row(width as nat),
            decreases height - i,
        {
            rows.push(Row::new(width));
            i = i + 1;
        }
        proof {
            assert(rows_view(rows@) =~= empty_plane(height as nat, width as nat));
        }
        Self { rows }
    }

    /// Wraps rows as a plane. The rows are expected to share one width;
    /// `rows_uniform` checks that.
    pub fn with_rows(rows: Vec<Row>) -> (r: Self)
        ensures
            r@ == rows_view(rows@),
    {
        Self { rows }
    }

    /// The width of the plane's first row, which a rectangular plane
    /// shares everywhere.
    pub fn width(&self) -> (r: usize)
        requires
            self@.len() > 0,
        ensures
            r == width2(self@),
    {
        self.rows[0].width()
    }

    /// How many rows the plane holds.
    pub fn height(&self) -> (r: usize)
        ensures
            r == self@.len(),
    {
        self.rows.len()
    }

    /// The cell at a position the caller has validated.
    pub fn get_cell(&self, position: Position) -> (c: Cell)
        requires
            valid2(self@, position.x as int, position.y as int),
        ensures
            c == self@[position.y as int][position.x as int],
    {
        self.rows[position.y].get_cell(position)
    }

    /// Replaces the cell at a position the caller has validated.
    pub fn set_cell(&mut self, position: Position, cell: Cell)
        requires
            valid2(old(self)@, position.x as int, position.y as int),
        ensures
            final(self)@ == grid_set2(old(self)@, position.x as int, position.y as int, cell),
    {
        self.rows[position.y].set_cell(position, cell);
        proof {
            assert(self@ =~= grid_set2(old(self)@, position.x as int, position.y as int, cell));
        }
    }

    /// Whether the position's `x` and `y` coordinates lie on the plane.
    pub fn is_position_valid(&self, position: Position) -> (b: bool)
        ensures
            b == valid2(self@, position.x as int, position.y as int),
    {
        if position.y >= self.rows.len() {
            return false;
        }
        self.rows[position.y].is_position_valid(position)
    }

    /// Every cell of the plane, in row-major order.
    pub fn cells(&self) -> (r: Vec<Cell>)
        ensures
            r@ == cells2_of(self@),
    {
        let mut r: Vec<Cell> = Vec::new();
        let mut y: usize = 0;
        while y < self.rows.len()
            invariant
                y <= self@.len(),
                self@.len() == self.rows@.len(),
                r@ == cells2_of(self@.take(y as int)),
            decreases self@.len() - y,
        {
            let mut part = self.rows[y].cells();
            r.append(&mut part);
            proof {
                assert(self@.take(y + 1).drop_last() =~= self@.take(y as int));
                assert(self@.take(y + 1).last() == self@[y as int]);
            }
            y = y + 1;
        }
        proof {
            assert(self@.take(self@.len() as int) =~= self@);
        }
        r
    }

    /// Every (position, cell) pair of the plane, in row-major order.
    pub fn positioned_cells(&self) -> (r: Vec<(Position, Cell)>)
        ensures
            r@ == ppos2(self@),
    {
        let mut r: Vec<(Position, Cell)> = Vec::new();
        let mut y: usize = 0;
        while y < self.rows.len()
            invariant
                y <= self@.len(),
                self@.len() == self.rows@.len(),
                r@ == ppos2(self@.take(y as int)),
            decreases self@.len() - y,
        {
            let rp = self.rows[y].positioned_cells();
            let mut k: usize = 0;
            while k < rp.len()
                invariant
                    y < self@.len(),
                    self@.len() == self.rows@.len(),
                    rp@ == row_positions(self@[y as int]),
                    k <= rp@.len(),
                    r@ == ppos2(self@.take(y as int)) + prow2(self@[y as int], y as int).take(
                        k as int,
                    ),
                decreases rp@.len() - k,
            {
                let (p, c) = rp[k];
                r.push((p.with_y(y), c));
                proof {
                    assert(r@ =~= ppos2(self@.take(y as int)) + prow2(
                        self@[y as int],
                        y as int,
                    ).take(k + 1));
                }
                k = k + 1;
            }
            proof {
                assert(self@.take(y + 1).drop_last() =~= self@.take(y as int));
                assert(prow2(self@[y as int], y as int).take(self@[y as int].len() as int) =~= prow2(
                    self@[y as int],
                    y as int,
                ));
                assert(r@ =~= ppos2(self@.take(y + 1)));
            }
            y = y + 1;
        }
        proof {
            assert(self@.take(self@.len() as int) =~= self@);
        }
        r
    }

    /// Pads the plane with one inactive layer on each side of both
    /// dimensions.
    pub fn grow(&mut self)
        requires
            old(self)@.len() >= 1,
            wf2(old(self)@),
        ensures
            final(self)@ == grow2(old(self)@),
    {
        let ghost p0 = self@;
        let n = self.rows.len();
        let mut i: usize = 0;
        while i < n
            invariant
                i <= n,
                n == self.rows@.len(),
                self@.len() == self.rows@.len(),
                forall|j: int| 0 <= j < i ==> #[trigger] self@[j] == grow1(p0[j]),
                forall|j: int| i <= j < n ==> #[trigger] self@[j] == p0[j],
            decreases n - i,
        {
            let ghost ventry = self@;
            let ghost before = self.rows@;
            self.rows[i].grow();
            proof {
                assert(self.rows@[i as int]@ == grow1(before[i as int]@));
                assert forall|j: int| 0 <= j < i + 1 implies #[trigger] self@[j] == grow1(
                    p0[j],
                ) by {
                    assert(self@[j] == self.rows@[j]@);
                    if j < i {
                        assert(ventry[j] == grow1(p0[j]));
                        assert(self.rows@[j] == before[j]);
                        assert(ventry[j] == before[j]@);
                    } else {
                        assert(ventry[j] == p0[j]);
                        assert(ventry[j] == before[j]@);
                    }
                }
                assert forall|j: int| i + 1 <= j < n implies #[trigger] self@[j] == p0[j] by {
                    assert(self@[j] == self.rows@[j]@);
                    assert(self.rows@[j] == before[j]);
                    assert(ventry[j] == p0[j]);
                    assert(ventry[j] == before[j]@);
                }
            }
            i = i + 1;
        }
        let width = self.rows[0].width();
        proof {
            assert(self@[0] == grow1(p0[0]));
            assert(p0[0].len() == width2(p0));
        }
        let ghost gv = self@;
        let ghost grown = self.rows@;
        let row_front = Row::new(width);
        let ghost front = row_front@;
        let mut out: Vec<Row> = Vec::new();
        out.push(row_front);
        out.append(&mut self.rows);
        let row_back = Row::new(width);
        let ghost back = row_back@;
        out.push(row_back);
        self.rows = out;
        proof {
            assert forall|y: int| 0 <= y < p0.len() + 2 implies #[trigger] self@[y] == grow2(
                p0,
            )[y] by {
                assert(self@[y] == self.rows@[y]@);
                if y == 0 {
                    assert(self.rows@[y]@ == front);
                } else if y <= p0.len() {
                    assert(self.rows@[y] == grown[y - 1]);
                    assert(gv[y - 1] == grow1(p0[y - 1]));
                    assert(gv[y - 1] == grown[y - 1]@);
                } else {
                    assert(self.rows@[y]@ == back);
                }
            }
            assert(self@ =~= grow2(p0));
        }
    }
}

/// The eight planar unit displacements, in the order the direction list is
/// built: `y` outermost, `x` innermost, the zero pair skipped.
pub open spec fn dir2(i: int) -> (int, int) {
    if i == 0 {
        (-1, -1)
    } else if i == 1 {
        (0, -1)
    } else if i == 2 {
        (1, -1)
    } else if i == 3 {
        (-1, 0)
    } else if i == 4 {
        (1, 0)
    } else if i == 5 {
        (-1, 1)
    } else if i == 6 {
        (0, 1)
    } else {
        (1, 1)
    }
}

/// The twenty-six spatial unit displacements, layered by `z`: each planar
/// direction at `z`, and the straight step along `z` alone where `z` is
/// not zero.
pub open spec fn dir3(i: int) -> (int, int, int) {
    if i < 8 {
        (dir2(i).0, dir2(i).1, -1)
    } else if i == 8 {
        (0, 0, -1)
    } else if i < 17 {
        (dir2(i - 9).0, dir2(i - 9).1, 0)
    } else if i < 25 {
        (dir2(i - 17).0, dir2(i - 17).1, 1)
    } else {
        (0, 0, 1)
    }
}

/// The eighty hyperspatial unit displacements, layered by `w` over the
/// spatial ones.
pub open spec fn dir4(i: int) -> (int, int, int, int) {
    if i < 26 {
        (dir3(i).0, dir3(i).1, dir3(i).2, -1)
    } else if i == 26 {
        (0, 0, 0, -1)
    } else if i < 53 {
        (dir3(i - 27).0, dir3(i - 27).1, dir3(i - 27).2, 0)
    } else if i < 79 {
        (dir3(i - 53).0, dir3(i - 53).1, dir3(i - 53).2, 1)
    } else {
        (0, 0, 0, 1)
    }
}

/// The eight planar unit displacements.
pub fn all_2d_directions() -> (r: Vec<Vector>)
    ensures
        r@.len() == 8,
        forall|i: int| 0 <= i < 8 ==> (#[trigger] r@[i]).x as int == dir2(i).0
            && r@[i].y as int == dir2(i).1
            && r@[i].z == 0
            && r@[i].w == 0,
{
    let mut r: Vec<Vector> = Vec::new();
    r.push(Vector::new_x_y(-1, -1));
    r.push(Vector::new_x_y(0, -1));
    r.push(Vector::new_x_y(1, -1));
    r.push(Vector::new_x_y(-1, 0));
    r.push(Vector::new_x_y(1, 0));
    r.push(Vector::new_x_y(-1, 1));
    r.push(Vector::new_x_y(0, 1));
    r.push(Vector::new_x_y(1, 1));
    r
}

/// The twenty-six spatial unit displacements.
pub fn all_3d_directions() -> (r: Vec<Vector>)
    ensures
        r@.len() == 26,
        forall|i: int| 0 <= i < 26 ==> (#[trigger] r@[i]).x as int == dir3(i).0
            && r@[i].y as int == dir3(i).1
            && r@[i].z as int == dir3(i).2
            && r@[i].w == 0,
{
    let planar = all_2d_directions();
    let mut r: Vec<Vector> = Vec::new();
    let mut k: usize = 0;
    while k < planar.len()
        invariant
            planar@.len() == 8,
            forall|i: int| 0 <= i < 8 ==> (#[trigger] planar@[i]).x as int == dir2(i).0
                && planar@[i].y as int == dir2(i).1
                && planar@[i].z == 0
                && planar@[i].w == 0,
            k <= 8,
            r@.len() == k,
            forall|i: int| 0 <= i < k ==> (#[trigger] r@[i]).x as int == dir3(i).0
                && r@[i].y as int == dir3(i).1
                && r@[i].z as int == dir3(i).2
                && r@[i].w == 0,
        decreases planar@.len() - k,
    {
        r.push(planar[k].with_z(-1));
        k = k + 1;
    }
    r.push(Vector::new_z(-1));
    let mut k2: usize = 0;
    while k2 < planar.len()
        invariant
            planar@.len() == 8,
            forall|i: int| 0 <= i < 8 ==> (#[trigger] planar@[i]).x as int == dir2(i).0
                && planar@[i].y as int == dir2(i).1
                && planar@[i].z == 0
                && planar@[i].w == 0,
            k2 <= 8,
            r@.len() == 9 + k2,
            forall|i: int| 0 <= i < 9 + k2 ==> (#[trigger] r@[i]).x as int == dir3(i).0
                && r@[i].y as int == dir3(i).1
                && r@[i].z as int == dir3(i).2
                && r@[i].w == 0,
        decreases planar@.len() - k2,
    {
        r.push(planar[k2].with_z(0));
        k2 = k2 + 1;
    }
    let mut k3: usize = 0;
    while k3 < planar.len()
        invariant
            planar@.len() == 8,
            forall|i: int| 0 <= i < 8 ==> (#[trigger] planar@[i]).x as int == dir2(i).0
                && planar@[i].y as int == dir2(i).1
                && planar@[i].z == 0
                && planar@[i].w == 0,
            k3 <= 8,
            r@.len() == 17 + k3,
            forall|i: int| 0 <= i < 17 + k3 ==> (#[trigger] r@[i]).x as int == dir3(i).0
                && r@[i].y as int == dir3(i).1
                && r@[i].z as int == dir3(i).2
                && r@[i].w == 0,
        decreases planar@.len() - k3,
    {
        r.push(planar[k3].with_z(1));
        k3 = k3 + 1;
    }
    r.push(Vector::new_z(1));
    r
}

/// The eighty hyperspatial unit displacements.
pub fn all_4d_directions() -> (r: Vec<Vector>)
    ensures
        r@.len() == 80,
        forall|i: int| 0 <= i < 80 ==> (#[trigger] r@[i]).x as int == dir4(i).0
            && r@[i].y as int == dir4(i).1
            && r@[i].z as int == dir4(i).2
            && r@[i].w as int == dir4(i).3,
{
    let spatial = all_3d_directions();
    let mut r: Vec<Vector> = Vec::new();
    let mut k: usize = 0;
    while k < spatial.len()
        invariant
            spatial@.len() == 26,
            forall|i: int| 0 <= i < 26 ==> (#[trigger] spatial@[i]).x as int == dir3(i).0
                && spatial@[i].y as int == dir3(i).1
                && spatial@[i].z as int == dir3(i).2
                && spatial@[i].w == 0,
            k <= 26,
            r@.len() == k,
            forall|i: int| 0 <= i < k ==> (#[trigger] r@[i]).x as int == dir4(i).0
                && r@[i].y as int == dir4(i).1
                && r@[i].z as int == dir4(i).2
                && r@[i].w as int == dir4(i).3,
        decreases spatial@.len() - k,
    {
        r.push(spatial[k].with_w(-1));
        k = k + 1;
    }
    r.push(Vector::new_w(-1));
    let mut k2: usize = 0;
    while k2 < spatial.len()
        invariant
            spatial@.len() == 26,
            forall|i: int| 0 <= i < 26 ==> (#[trigger] spatial@[i]).x as int == dir3(i).0
                && spatial@[i].y as int == dir3(i).1
                && spatial@[i].z as int == dir3(i).2
                && spatial@[i].w == 0,
            k2 <= 26,
            r@.len() == 27 + k2,
            forall|i: int| 0 <= i < 27 + k2 ==> (#[trigger] r@[i]).x as int == dir4(i).0
                && r@[i].y as int == dir4(i).1
                && r@[i].z as int == dir4(i).2
                && r@[i].w as int == dir4(i).3,
        decreases spatial@.len() - k2,
    {
        r.push(spatial[k2].with_w(0));
        k2 = k2 + 1;
    }
    let mut k3: usize = 0;
    while k3 < spatial.len()
        invariant
            spatial@.len() == 26,
            forall|i: int| 0 <= i < 26 ==> (#[trigger] spatial@[i]).x as int == dir3(i).0
                && spatial@[i].y as int == dir3(i).1
                && spatial@[i].z as int == dir3(i).2
                && spatial@[i].w == 0,
            k3 <= 26,
            r@.len() == 53 + k3,
            forall|i: int| 0 <= i < 53 + k3 ==> (#[trigger] r@[i]).x as int == dir4(i).0
                && r@[i].y as int == dir4(i).1
                && r@[i].z as int == dir4(i).2
                && r@[i].w as int == dir4(i).3,
        decreases spatial@.len() - k3,
    {
        r.push(spatial[k3].with_w(1));
        k3 = k3 + 1;
    }
    r.push(Vector::new_w(1));
    r
}

/// The height every plane of a uniform space has.
pub open spec fn height3(s: Seq<Seq<Seq<Cell>>>) -> nat {
    if s.len() == 0 {
        0
    } else {
        s[0].len()
    }
}

/// The width every row of a uniform space has.
pub open spec fn width3(s: Seq<Seq<Seq<Cell>>>) -> nat {
    if s.len() == 0 || s[0].len() == 0 {
        0
    } else {
        s[0][0].len()
    }
}

/// Whether the space is a box: every plane of one height, every row of one
/// width.
pub open spec fn wf3(s: Seq<Seq<Seq<Cell>>>) -> bool {
    (forall|z: int| 0 <= z < s.len() ==> (#[trigger] s[z]).len() == height3(s)) && (forall|
        z: int,
        y: int,
    |
        0 <= z < s.len() && 0 <= y < s[z].len() ==> (#[trigger] s[z][y]).len() == width3(s))
}

/// Whether (`x`, `y`, `z`) lies in the space.
pub open spec fn valid3(s: Seq<Seq<Seq<Cell>>>, x: int, y: int, z: int) -> bool {
    0 <= z < s.len() && 0 <= y < s[z].len() && 0 <= x < s[z][y].len()
}

/// The space with the cell at (`x`, `y`, `z`) replaced.
pub open spec fn grid_set3(
    s: Seq<Seq<Seq<Cell>>>,
    x: int,
    y: int,
    z: int,
    c: Cell,
) -> Seq<Seq<Seq<Cell>>> {
    s.update(z, grid_set2(s[z], x, y, c))
}

/// A space of `d` planes of `h` rows of `w` inactive cells.
pub open spec fn empty_space(d: nat, h: nat, w: nat) -> Seq<Seq<Seq<Cell>>> {
    Seq::new(d, |i: int| empty_plane(h, w))
}

/// A box space padded with one inactive layer on each side of all three
/// dimensions.
pub open spec fn grow3(s: Seq<Seq<Seq<Cell>>>) -> Seq<Seq<Seq<Cell>>> {
    Seq::new(
        s.len() + 2,
        |z: int|
            if 1 <= z <= s.len() {
                grow2(s[z - 1])
            } else {
                empty_plane((height3(s) + 2) as nat, (width3(s) + 2) as nat)
            },
    )
}

/// The cells of a space, planes in order, each in row-major order.
pub open spec fn cells3_of(s: Seq<Seq<Seq<Cell>>>) -> Seq<Cell>
    decreases s.len(),
{
    if s.len() == 0 {
        Seq::empty()
    } else {
        cells3_of(s.drop_last()) + cells2_of(s.last())
    }
}

/// The (position, cell) pairs of one plane of a space, positions in `x`,
/// `y` and `z`.
pub open spec fn prow3(p: Seq<Seq<Cell>>, z: int) -> Seq<(Position, Cell)> {
    ppos2(p).map_values(|t: (Position, Cell)| (Position { z: z as usize, ..t.0 }, t.1))
}

/// The (position, cell) pairs of a space, in plane then row-major order.
pub open spec fn ppos3(s: Seq<Seq<Seq<Cell>>>) -> Seq<(Position, Cell)>
    decreases s.len(),
{
    if s.len() == 0 {
        Seq::empty()
    } else {
        ppos3(s.drop_last()) + prow3(s.last(), s.len() - 1)
    }
}

/// How many cells of a space equal `c`.
pub open spec fn count3(s: Seq<Seq<Seq<Cell>>>, c: Cell) -> nat
    decreases s.len(),
{
    if s.len() == 0 {
        0
    } else {
        count3(s.drop_last(), c) + count2(s.last(), c)
    }
}

/// How many cells a space holds in all.
pub open spec fn total3(s: Seq<Seq<Seq<Cell>>>) -> nat
    decreases s.len(),
{
    if s.len() == 0 {
        0
    } else {
        total3(s.drop_last()) + total2(s.last())
    }
}

/// A space count never exceeds the number of cells.
pub proof fn lemma_count3_le(s: Seq<Seq<Seq<Cell>>>, c: Cell)
    ensures
        count3(s, c) <= total3(s),
    decreases s.len(),
{
    if s.len() > 0 {
        lemma_count3_le(s.drop_last(), c);
        lemma_count2_le(s.last(), c);
    }
}

/// The cells of the neighbours reached by the first `n` of the twenty-six
/// spatial directions, in direction order.
pub open spec fn adj3_upto(s: Seq<Seq<Seq<Cell>>>, x: int, y: int, z: int, n: int) -> Seq<Cell>
    decreases n,
{
    if n <= 0 {
        Seq::empty()
    } else {
        adj3_upto(s, x, y, z, n - 1) + (if valid3(
            s,
            x + dir3(n - 1).0,
            y + dir3(n - 1).1,
            z + dir3(n - 1).2,
        ) {
            seq![s[z + dir3(n - 1).2][y + dir3(n - 1).1][x + dir3(n - 1).0]]
        } else {
            Seq::empty()
        })
    }
}

/// The cells of the cubes adjacent to (`x`, `y`, `z`), in direction order.
pub open spec fn adj3(s: Seq<Seq<Seq<Cell>>>, x: int, y: int, z: int) -> Seq<Cell> {
    adj3_upto(s, x, y, z, 26)
}

/// The successor of one cell under the life rule: an active cell survives
/// only with two or three active neighbours, an inactive cell activates
/// with exactly three, and every other pair leaves the cell unchanged.
pub open spec fn life_next(c: Cell, n: nat) -> Cell {
    if c == Cell::Active && (n < 2 || n > 3) {
        Cell::Inactive
    } else if c == Cell::Inactive && n == 3 {
        Cell::Active
    } else {
        c
    }
}

/// Rule totality: a (cell, count) pair that matches no row of the
/// transition table leaves the cell unchanged, whatever the count.
pub proof fn lemma_rule_total(c: Cell, n: nat)
    requires
        !(c == Cell::Active && (n < 2 || n > 3)),
        !(c == Cell::Inactive && n == 3),
    ensures
        life_next(c, n) == c,
{
}

/// The successor of the cell at (`x`, `y`, `z`).
pub open spec fn next3_at(s: Seq<Seq<Seq<Cell>>>, x: int, y: int, z: int) -> Cell {
    life_next(s[z][y][x], count_cell(adj3(s, x, y, z), Cell::Active))
}

/// One whole generation of a space, every cell stepped against the same
/// snapshot.
pub open spec fn step3(s: Seq<Seq<Seq<Cell>>>) -> Seq<Seq<Seq<Cell>>> {
    Seq::new(
        s.len(),
        |z: int|
            Seq::new(
                s[z].len(),
                |y: int| Seq::new(s[z][y].len(), |x: int| next3_at(s, x, y, z)),
            ),
    )
}

/// A batch of space changes applied in order.
pub open spec fn apply3_spec(
    s: Seq<Seq<Seq<Cell>>>,
    cs: Seq<(Position, Cell)>,
) -> Seq<Seq<Seq<Cell>>>
    decreases cs.len(),
{
    if cs.len() == 0 {
        s
    } else {
        apply3_spec(
            grid_set3(s, cs[0].0.x as int, cs[0].0.y as int, cs[0].0.z as int, cs[0].1),
            cs.drop_first(),
        )
    }
}

/// Appending one space change applies it after the rest.
proof fn lemma_apply3_push(s: Seq<Seq<Seq<Cell>>>, cs: Seq<(Position, Cell)>, p: Position, c: Cell)
    ensures
        apply3_spec(s, cs.push((p, c))) == grid_set3(
            apply3_spec(s, cs),
            p.x as int,
            p.y as int,
            p.z as int,
            c,
        ),
    decreases cs.len(),
{
    if cs.len() == 0 {
        let s1 = grid_set3(s, p.x as int, p.y as int, p.z as int, c);
        assert(cs.push((p, c))[0] == (p, c));
        assert(cs.push((p, c)).drop_first() =~= Seq::<(Position, Cell)>::empty());
        assert(apply3_spec(s1, Seq::<(Position, Cell)>::empty()) == s1);
        assert(apply3_spec(s, cs) == s);
    } else {
        assert(cs.push((p, c))[0] == cs[0]);
        assert(cs.push((p, c)).drop_first() =~= cs.drop_first().push((p, c)));
        lemma_apply3_push(
            grid_set3(s, cs[0].0.x as int, cs[0].0.y as int, cs[0].0.z as int, cs[0].1),
            cs.drop_first(),
            p,
            c,
        );
    }
}

/// The space with every cell strictly before (`z`, `y`, `x`) in scan order
/// already stepped and the rest still as in `s`.
pub open spec fn partial3(s: Seq<Seq<Seq<Cell>>>, z: int, y: int, x: int) -> Seq<Seq<Seq<Cell>>> {
    Seq::new(
        s.len(),
        |zz: int|
            Seq::new(
                s[zz].len(),
                |yy: int|
                    Seq::new(
                        s[zz][yy].len(),
                        |xx: int|
                            if zz < z || (zz == z && (yy < y || (yy == y && xx < x))) {
                                next3_at(s, xx, yy, zz)
                            } else {
                                s[zz][yy][xx]
                            },
                    ),
            ),
    )
}

/// A prefix of a plane holds no more cells than the plane.
proof fn lemma_total2_prefix_le(p: Seq<Seq<Cell>>, y: int)
    requires
        0 <= y <= p.len(),
    ensures
        total2(p.take(y)) <= total2(p),
    decreases p.len() - y,
{
    if y == p.len() {
        assert(p.take(y) =~= p);
    } else {
        lemma_total2_prefix_le(p, y + 1);
        assert(p.take(y + 1).drop_last() =~= p.take(y));
    }
}

/// A prefix of a space holds no more cells than the space.
proof fn lemma_total3_prefix_le(s: Seq<Seq<Seq<Cell>>>, z: int)
    requires
        0 <= z <= s.len(),
    ensures
        total3(s.take(z)) <= total3(s),
    decreases s.len() - z,
{
    if z == s.len() {
        assert(s.take(z) =~= s);
    } else {
        lemma_total3_prefix_le(s, z + 1);
        assert(s.take(z + 1).drop_last() =~= s.take(z));
    }
}

/// Growing preserves the box shape and widens every dimension by two.
pub proof fn lemma_grow3_wf(s: Seq<Seq<Seq<Cell>>>)
    requires
        wf3(s),
        s.len() >= 1,
        height3(s) >= 1,
    ensures
        wf3(grow3(s)),
        grow3(s).len() == s.len() + 2,
        height3(grow3(s)) == height3(s) + 2,
        width3(grow3(s)) == width3(s) + 2,
{
    let g = grow3(s);
    assert(g[0] == empty_plane((height3(s) + 2) as nat, (width3(s) + 2) as nat));
    assert(height3(g) == height3(s) + 2);
    assert(width3(g) == width3(s) + 2);
    assert forall|z: int| 0 <= z < g.len() implies (#[trigger] g[z]).len() == height3(g) by {
        if 1 <= z <= s.len() {
            assert(s[z - 1].len() == height3(s));
        }
    }
    assert forall|z: int, y: int|
        0 <= z < g.len() && 0 <= y < g[z].len() implies (#[trigger] g[z][y]).len() == width3(
        g,
    ) by {
        if 1 <= z <= s.len() {
            assert(g[z] == grow2(s[z - 1]));
            assert(s[z - 1].len() == height3(s));
            assert(width2(s[z - 1]) == s[z - 1][0].len());
            assert(s[z - 1][0].len() == width3(s));
            if 1 <= y <= s[z - 1].len() {
                assert(s[z - 1][y - 1].len() == width3(s));
            }
        }
    }
}

/// Stepping preserves the shape of every dimension.
pub proof fn lemma_step3_shape(s: Seq<Seq<Seq<Cell>>>)
    ensures
        step3(s).len() == s.len(),
        forall|z: int| 0 <= z < s.len() ==> (#[trigger] step3(s)[z]).len() == s[z].len(),
        forall|z: int, y: int|
            0 <= z < s.len() && 0 <= y < s[z].len() ==> (#[trigger] step3(s)[z][y]).len()
                == s[z][y].len(),
        height3(step3(s)) == height3(s),
        width3(step3(s)) == width3(s),
        wf3(s) ==> wf3(step3(s)),
{
    if s.len() > 0 {
        assert(step3(s)[0].len() == s[0].len());
        if s[0].len() > 0 {
            assert(step3(s)[0][0].len() == s[0][0].len());
        }
    }
}

/// The mathematical space a list of planes stands for.
pub open spec fn planes_view(planes: Seq<Plane>) -> Seq<Seq<Seq<Cell>>> {
    planes.map_values(|p: Plane| p@)
}

/// How many cells of one plane equal `c`.
fn count_plane(plane: &Plane, c: Cell) -> (r: usize)
    requires
        total2(plane@) <= usize::MAX,
    ensures
        r == count2(plane@, c),
{
    let mut r: usize = 0;
    let mut y: usize = 0;
    while y < plane.rows.len()
        invariant
            y <= plane@.len(),
            plane@.len() == plane.rows@.len(),
            total2(plane@) <= usize::MAX,
            r == count2(plane@.take(y as int), c),
        decreases plane@.len() - y,
    {
        let rc = count_cells_in(&plane.rows[y].cells, c);
        proof {
            assert(plane@[y as int] == plane.rows@[y as int]@);
            assert(plane@.take(y + 1).drop_last() =~= plane@.take(y as int));
            lemma_count2_le(plane@.take(y + 1), c);
            lemma_total2_prefix_le(plane@, y + 1);
            lemma_count_cell_le(plane@[y as int], c);
        }
        r = r + rc;
        y = y + 1;
    }
    proof {
        assert(plane@.take(plane@.len() as int) =~= plane@);
    }
    r
}

/// A three-dimensional box of cells.
#[derive(Debug)]
pub struct Space {
    planes: Vec<Plane>,
}

impl View for Space {
    type V = Seq<Seq<Seq<Cell>>>;

    closed spec fn view(&self) -> Seq<Seq<Seq<Cell>>> {
        planes_view(self.planes@)
    }
}

impl Space {
    /// Wraps planes as a space. The planes are expected to share one
    /// shape.
    pub fn with_planes(planes: Vec<Plane>) -> (r: Self)
        ensures
            r@ == planes_view(planes@),
    {
        Self { planes }
    }

    /// A space of `depth` planes of `height` rows of `width` inactive
    /// cells.
    pub fn new(width: usize, height: usize, depth: usize) -> (r: Self)
        ensures
            r@ == empty_space(depth as nat, height as nat, width as nat),
    {
        let mut planes: Vec<Plane> = Vec::new();
        let mut i: usize = 0;
        while i < depth
            invariant
                i <= depth,
                planes@.len() == i,
                forall|j: int| 0 <= j < i ==> #[trigger] planes@[j]@ == empty_plane(
                    height as nat,
                    width as nat,
                ),
            decreases depth - i,
        {
            planes.push(Plane::new(width, height));
            i = i + 1;
        }
        proof {
            assert(planes_view(planes@) =~= empty_space(depth as nat, height as nat, width as nat));
        }
        Self { planes }
    }

    /// The width of the space's first row, which a box shares everywhere.
    pub fn width(&self) -> (r: usize)
        requires
            self@.len() > 0,
            height3(self@) > 0,
        ensures
            r == width3(self@),
    {
        proof {
            assert(self@[0] == self.planes@[0]@);
        }
        self.planes[0].width()
    }

    /// The height of the space's first plane, which a box shares
    /// everywhere.
    pub fn height(&self) -> (r: usize)
        requires
            self@.len() > 0,
        ensures
            r == height3(self@),
    {
        proof {
            assert(self@[0] == self.planes@[0]@);
        }
        self.planes[0].height()
    }

    /// How many planes the space holds.
    pub fn depth(&self) -> (r: usize)
        ensures
            r == self@.len(),
    {
        self.planes.len()
    }

    /// The cell at a position the caller has validated.
    pub fn get_cell(&self, position: Position) -> (c: Cell)
        requires
            valid3(self@, position.x as int, position.y as int, position.z as int),
        ensures
            c == self@[position.z as int][position.y as int][position.x as int],
    {
        self.planes[position.z].get_cell(position)
    }

    /// Replaces the cell at a position the caller has validated.
    pub fn set_cell(&mut self, position: Position, cell: Cell)
        requires
            valid3(old(self)@, position.x as int, position.y as int, position.z as int),
        ensures
            final(self)@ == grid_set3(
                old(self)@,
                position.x as int,
                position.y as int,
                position.z as int,
                cell,
            ),
    {
        self.planes[position.z].set_cell(position, cell);
        proof {
            assert(self@ =~= grid_set3(
                old(self)@,
                position.x as int,
                position.y as int,
                position.z as int,
                cell,
            ));
        }
    }

    /// Whether the position's `x`, `y` and `z` coordinates lie in the
    /// space.
    pub fn is_position_valid(&self, position: Position) -> (b: bool)
        ensures
            b == valid3(self@, position.x as int, position.y as int, position.z as int),
    {
        if position.z >= self.planes.len() {
            return false;
        }
        self.planes[position.z].is_position_valid(position)
    }

    /// The cells of the up-to-twenty-six cubes adjacent to the position,
    /// in direction order.
    pub fn adjacent(&self, position: Position) -> (r: Vec<Cell>)
        requires
            valid3(self@, position.x as int, position.y as int, position.z as int),
        ensures
            r@ == adj3(self@, position.x as int, position.y as int, position.z as int),
    {
        let ghost x = position.x as int;
        let ghost y = position.y as int;
        let ghost z = position.z as int;
        proof {
            assert(self@[z] == self.planes@[z]@);
            assert(self@[z][y] == self.planes@[z].rows@[y]@);
        }
        let depth = self.planes.len();
        let plane_height = self.planes[position.z].rows.len();
        let row_len = self.planes[position.z].rows[position.y].cells.len();
        let dirs = all_3d_directions();
        let mut r: Vec<Cell> = Vec::new();
        let mut i: usize = 0;
        while i < dirs.len()
            invariant
                valid3(self@, x, y, z),
                x == position.x as int,
                y == position.y as int,
                z == position.z as int,
                row_len == self@[z][y].len(),
                plane_height == self@[z].len(),
                depth == self@.len(),
                dirs@.len() == 26,
                forall|k: int| 0 <= k < 26 ==> (#[trigger] dirs@[k]).x as int == dir3(k).0
                    && dirs@[k].y as int == dir3(k).1
                    && dirs@[k].z as int == dir3(k).2,
                i <= 26,
                r@ == adj3_upto(self@, x, y, z, i as int),
            decreases 26 - i,
        {
            let v = dirs[i];
            let ghost dx = dir3(i as int).0;
            let ghost dy = dir3(i as int).1;
            let ghost dz = dir3(i as int).2;
            if (v.x >= 0 || position.x > 0) && (v.y >= 0 || position.y > 0) && (v.z >= 0
                || position.z > 0) {
                let nx = if v.x < 0 {
                    position.x - 1
                } else if v.x > 0 {
                    position.x + 1
                } else {
                    position.x
                };
                let ny = if v.y < 0 {
                    position.y - 1
                } else if v.y > 0 {
                    position.y + 1
                } else {
                    position.y
                };
                let nz = if v.z < 0 {
                    position.z - 1
                } else if v.z > 0 {
                    position.z + 1
                } else {
                    position.z
                };
                let p2 = Position { x: nx, y: ny, z: nz, w: position.w };
                if self.is_position_valid(p2) {
                    r.push(self.get_cell(p2));
                    proof {
                        assert(r@ =~= adj3_upto(self@, x, y, z, i + 1));
                    }
                } else {
                    proof {
                        assert(r@ =~= adj3_upto(self@, x, y, z, i + 1));
                    }
                }
            } else {
                proof {
                    assert(!valid3(self@, x + dx, y + dy, z + dz));
                    assert(r@ =~= adj3_upto(self@, x, y, z, i + 1));
                }
            }
            i = i + 1;
        }
        r
    }

    /// Every cell of the space, planes in order, each in row-major order.
    pub fn cells(&self) -> (r: Vec<Cell>)
        ensures
            r@ == cells3_of(self@),
    {
        let mut r: Vec<Cell> = Vec::new();
        let mut z: usize = 0;
        while z < self.planes.len()
            invariant
                z <= self@.len(),
                self@.len() == self.planes@.len(),
                r@ == cells3_of(self@.take(z as int)),
            decreases self@.len() - z,
        {
            proof {
                assert(self@[z as int] == self.planes@[z as int]@);
            }
            let mut part = self.planes[z].cells();
            r.append(&mut part);
            proof {
                assert(self@.take(z + 1).drop_last() =~= self@.take(z as int));
                assert(self@.take(z + 1).last() == self@[z as int]);
            }
            z = z + 1;
        }
        proof {
            assert(self@.take(self@.len() as int) =~= self@);
        }
        r
    }

    /// Every (position, cell) pair of the space, planes in order, each in
    /// row-major order.
    pub fn positioned_cells(&self) -> (r: Vec<(Position, Cell)>)
        ensures
            r@ == ppos3(self@),
    {
        let mut r: Vec<(Position, Cell)> = Vec::new();
        let mut z: usize = 0;
        while z < self.planes.len()
            invariant
                z <= self@.len(),
                self@.len() == self.planes@.len(),
                r@ == ppos3(self@.take(z as int)),
            decreases self@.len() - z,
        {
            proof {
                assert(self@[z as int] == self.planes@[z as int]@);
            }
            let pp = self.planes[z].positioned_cells();
            let mut k: usize = 0;
            while k < pp.len()
                invariant
                    z < self@.len(),
                    self@.len() == self.planes@.len(),
                    pp@ == ppos2(self@[z as int]),
                    k <= pp@.len(),
                    r@ == ppos3(self@.take(z as int)) + prow3(self@[z as int], z as int).take(
                        k as int,
                    ),
                decreases pp@.len() - k,
            {
                let (p, c) = pp[k];
                r.push((p.with_z(z), c));
                proof {
                    assert(r@ =~= ppos3(self@.take(z as int)) + prow3(
                        self@[z as int],
                        z as int,
                    ).take(k + 1));
                }
                k = k + 1;
            }
            proof {
                assert(self@.take(z + 1).drop_last() =~= self@.take(z as int));
                assert(prow3(self@[z as int], z as int).take(ppos2(self@[z as int]).len() as int)
                    =~= prow3(self@[z as int], z as int));
                assert(r@ =~= ppos3(self@.take(z + 1)));
            }
            z = z + 1;
        }
        proof {
            assert(self@.take(self@.len() as int) =~= self@);
        }
        r
    }

    /// Applies a batch of updates in order. Every read that fed the batch
    /// happened before this call, so no cell of a generation sees the
    /// generation's own future state.
    pub fn apply_changes(&mut self, changes: Vec<(Position, Cell)>)
        requires
            forall|k: int| 0 <= k < changes@.len() ==> valid3(
                old(self)@,
                (#[trigger] changes@[k]).0.x as int,
                changes@[k].0.y as int,
                changes@[k].0.z as int,
            ),
        ensures
            final(self)@ == apply3_spec(old(self)@, changes@),
    {
        let ghost s0 = self@;
        let mut k: usize = 0;
        while k < changes.len()
            invariant
                k <= changes@.len(),
                forall|j: int| 0 <= j < changes@.len() ==> valid3(
                    s0,
                    (#[trigger] changes@[j]).0.x as int,
                    changes@[j].0.y as int,
                    changes@[j].0.z as int,
                ),
                self@.len() == s0.len(),
                forall|z: int| 0 <= z < s0.len() ==> (#[trigger] self@[z]).len() == s0[z].len(),
                forall|z: int, y: int|
                    0 <= z < s0.len() && 0 <= y < s0[z].len() ==> (#[trigger] self@[z][y]).len()
                        == s0[z][y].len(),
                self@ == apply3_spec(s0, changes@.take(k as int)),
            decreases changes@.len() - k,
        {
            let (pos, cell) = changes[k];
            self.set_cell(pos, cell);
            proof {
                assert(changes@.take(k + 1) =~= changes@.take(k as int).push((pos, cell)));
                lemma_apply3_push(s0, changes@.take(k as int), pos, cell);
            }
            k = k + 1;
        }
        proof {
            assert(changes@.take(changes@.len() as int) =~= changes@);
        }
    }

    /// How many cells of the whole space are active.
    pub fn count_active(&self) -> (r: usize)
        requires
            total3(self@) <= usize::MAX,
        ensures
            r == count3(self@, Cell::Active),
    {
        let mut r: usize = 0;
        let mut z: usize = 0;
        while z < self.planes.len()
            invariant
                z <= self@.len(),
                self@.len() == self.planes@.len(),
                total3(self@) <= usize::MAX,
                r == count3(self@.take(z as int), Cell::Active),
            decreases self@.len() - z,
        {
            proof {
                assert(self@[z as int] == self.planes@[z as int]@);
                assert(self@.take(z + 1).drop_last() =~= self@.take(z as int));
                assert(self@.take(z + 1).last() == self@[z as int]);
                lemma_total3_prefix_le(self@, z + 1);
                lemma_count2_le(self@[z as int], Cell::Active);
                lemma_count3_le(self@.take(z as int), Cell::Active);
                lemma_total3_prefix_le(self@, z as int);
            }
            let pc = count_plane(&self.planes[z], Cell::Active);
            r = r + pc;
            z = z + 1;
        }
        proof {
            assert(self@.take(self@.len() as int) =~= self@);
        }
        r
    }

    /// One generation: grows the space by one inactive layer in every
    /// dimension, scans the grown snapshot, collects the changes, and
    /// applies them as one batch.
    pub fn tick(&mut self)
        requires
            wf3(old(self)@),
            old(self)@.len() >= 1,
            height3(old(self)@) >= 1,
        ensures
            final(self)@ == step3(grow3(old(self)@)),
            wf3(final(self)@),
            final(self)@.len() == old(self)@.len() + 2,
            height3(final(self)@) == height3(old(self)@) + 2,
            width3(final(self)@) == width3(old(self)@) + 2,
    {
        proof {
            lemma_grow3_wf(old(self)@);
            lemma_step3_shape(grow3(old(self)@));
        }
        self.grow();
        let ghost g = self@;
        let mut changes: Vec<(Position, Cell)> = Vec::new();
        proof {
            assert(partial3(g, 0, 0, 0) =~~= g);
        }
        let mut z: usize = 0;
        while z < self.planes.len()
            invariant
                self@ == g,
                self@.len() == self.planes@.len(),
                z <= g.len(),
                forall|j: int| 0 <= j < changes@.len() ==> valid3(
                    g,
                    (#[trigger] changes@[j]).0.x as int,
                    changes@[j].0.y as int,
                    changes@[j].0.z as int,
                ),
                apply3_spec(g, changes@) == partial3(g, z as int, 0, 0),
            decreases g.len() - z,
        {
            proof {
                assert(self@[z as int] == self.planes@[z as int]@);
            }
            let mut y: usize = 0;
            while y < self.planes[z].rows.len()
                invariant
                    self@ == g,
                    self@.len() == self.planes@.len(),
                    z < g.len(),
                    self@[z as int] == self.planes@[z as int]@,
                    y <= g[z as int].len(),
                    g[z as int].len() == self.planes@[z as int].rows@.len(),
                    forall|j: int| 0 <= j < changes@.len() ==> valid3(
                        g,
                        (#[trigger] changes@[j]).0.x as int,
                        changes@[j].0.y as int,
                        changes@[j].0.z as int,
                    ),
                    apply3_spec(g, changes@) == partial3(g, z as int, y as int, 0),
                decreases g[z as int].len() - y,
            {
                proof {
                    assert(self@[z as int][y as int] == self.planes@[z as int].rows@[y as int]@);
                }
                let mut x: usize = 0;
                while x < self.planes[z].rows[y].cells.len()
                    invariant
                        self@ == g,
                        self@.len() == self.planes@.len(),
                        z < g.len(),
                        self@[z as int] == self.planes@[z as int]@,
                        y < g[z as int].len(),
                        self@[z as int][y as int] == self.planes@[z as int].rows@[y as int]@,
                        x <= g[z as int][y as int].len(),
                        g[z as int][y as int].len()
                            == self.planes@[z as int].rows@[y as int].cells@.len(),
                        forall|j: int| 0 <= j < changes@.len() ==> valid3(
                            g,
                            (#[trigger] changes@[j]).0.x as int,
                            changes@[j].0.y as int,
                            changes@[j].0.z as int,
                        ),
                        apply3_spec(g, changes@) == partial3(g, z as int, y as int, x as int),
                    decreases g[z as int][y as int].len() - x,
                {
                    let pos = Position { x, y, z, w: 0 };
                    let cell = self.get_cell(pos);
                    let neighbors = self.adjacent(pos);
                    let active = count_cells_in(&neighbors, Cell::Active);
                    proof {
                        assert(active == count_cell(
                            adj3(g, x as int, y as int, z as int),
                            Cell::Active,
                        ));
                    }
                    let ghost pre = changes@;
                    if cell == Cell::Active && (active < 2 || active > 3) {
                        changes.push((pos, Cell::Inactive));
                        proof {
                            lemma_apply3_push(g, pre, pos, Cell::Inactive);
                            assert(partial3(g, z as int, y as int, x + 1) =~~= grid_set3(
                                partial3(g, z as int, y as int, x as int),
                                x as int,
                                y as int,
                                z as int,
                                Cell::Inactive,
                            ));
                        }
                    } else if cell == Cell::Inactive && active == 3 {
                        changes.push((pos, Cell::Active));
                        proof {
                            lemma_apply3_push(g, pre, pos, Cell::Active);
                            assert(partial3(g, z as int, y as int, x + 1) =~~= grid_set3(
                                partial3(g, z as int, y as int, x as int),
                                x as int,
                                y as int,
                                z as int,
                                Cell::Active,
                            ));
                        }
                    } else {
                        proof {
                            assert(next3_at(g, x as int, y as int, z as int) == g[z as int][y as int][x as int]);
                            assert(partial3(g, z as int, y as int, x + 1) =~~= partial3(
                                g,
                                z as int,
                                y as int,
                                x as int,
                            ));
                        }
                    }
                    x = x + 1;
                }
                proof {
                    assert(partial3(g, z as int, y + 1, 0) =~~= partial3(
                        g,
                        z as int,
                        y as int,
                        g[z as int][y as int].len() as int,
                    ));
                }
                y = y + 1;
            }
            proof {
                assert(partial3(g, z + 1, 0, 0) =~~= partial3(
                    g,
                    z as int,
                    g[z as int].len() as int,
                    0,
                ));
            }
            z = z + 1;
        }
        self.apply_changes(changes);
        proof {
            assert(step3(g) =~~= partial3(g, g.len() as int, 0, 0));
        }
    }

    /// Pads the space with one inactive layer on each side of all three
    /// dimensions.
    pub fn grow(&mut self)
        requires
            wf3(old(self)@),
            old(self)@.len() >= 1,
            height3(old(self)@) >= 1,
        ensures
            final(self)@ == grow3(old(self)@),
    {
        let ghost s0 = self@;
        let n = self.planes.len();
        let mut i: usize = 0;
        while i < n
            invariant
                i <= n,
                wf3(s0),
                s0.len() == n,
                height3(s0) >= 1,
                n == self.planes@.len(),
                self@.len() == self.planes@.len(),
                forall|j: int| 0 <= j < i ==> #[trigger] self@[j] == grow2(s0[j]),
                forall|j: int| i <= j < n ==> #[trigger] self@[j] == s0[j],
            decreases n - i,
        {
            let ghost ventry = self@;
            let ghost before = self.planes@;
            proof {
                assert(ventry[i as int] == s0[i as int]);
                assert(ventry[i as int] == before[i as int]@);
                assert(width2(s0[i as int]) == s0[i as int][0].len());
                assert(wf2(s0[i as int]));
            }
            self.planes[i].grow();
            proof {
                assert(self.planes@[i as int]@ == grow2(before[i as int]@));
                assert forall|j: int| 0 <= j < i + 1 implies #[trigger] self@[j] == grow2(
                    s0[j],
                ) by {
                    assert(self@[j] == self.planes@[j]@);
                    if j < i {
                        assert(ventry[j] == grow2(s0[j]));
                        assert(self.planes@[j] == before[j]);
                        assert(ventry[j] == before[j]@);
                    }
                }
                assert forall|j: int| i + 1 <= j < n implies #[trigger] self@[j] == s0[j] by {
                    assert(self@[j] == self.planes@[j]@);
                    assert(self.planes@[j] == before[j]);
                    assert(ventry[j] == s0[j]);
                    assert(ventry[j] == before[j]@);
                }
            }
            i = i + 1;
        }
        proof {
            assert(self@[0] == grow2(s0[0]));
            assert(s0[0].len() == height3(s0));
            assert(s0[0][0].len() == width3(s0));
        }
        let width = self.planes[0].width();
        let height = self.planes[0].height();
        let ghost gv = self@;
        let ghost grown = self.planes@;
        let plane_front = Plane::new(width, height);
        let ghost front = plane_front@;
        let mut out: Vec<Plane> = Vec::new();
        out.push(plane_front);
        out.append(&mut self.planes);
        let plane_back = Plane::new(width, height);
        let ghost back = plane_back@;
        out.push(plane_back);
        self.planes = out;
        proof {
            assert forall|z: int| 0 <= z < s0.len() + 2 implies #[trigger] self@[z] == grow3(
                s0,
            )[z] by {
                assert(self@[z] == self.planes@[z]@);
                if z == 0 {
                    assert(self.planes@[z]@ == front);
                    assert(front =~= empty_plane((height3(s0) + 2) as nat, (width3(s0) + 2) as nat));
                } else if z <= s0.len() {
                    assert(self.planes@[z] == grown[z - 1]);
                    assert(gv[z - 1] == grow2(s0[z - 1]));
                    assert(gv[z - 1] == grown[z - 1]@);
                } else {
                    assert(self.planes@[z]@ == back);
                    assert(back =~= empty_plane((height3(s0) + 2) as nat, (width3(s0) + 2) as nat));
                }
            }
            assert(self@ =~= grow3(s0));
        }
    }
}

/// The space after `n` generations, each a growth then a step.
pub open spec fn life_iter3(s: Seq<Seq<Seq<Cell>>>, n: nat) -> Seq<Seq<Seq<Cell>>>
    decreases n,
{
    if n == 0 {
        s
    } else {
        step3(grow3(life_iter3(s, (n - 1) as nat)))
    }
}

/// A single plane embedded as a depth-one space.
pub open spec fn embed3(p: Seq<Seq<Cell>>) -> Seq<Seq<Seq<Cell>>> {
    seq![p]
}

/// The shape of a space after `n` generations: still a box, each
/// dimension wider by two per generation.
pub proof fn lemma_iter3_shape(s: Seq<Seq<Seq<Cell>>>, n: nat)
    requires
        wf3(s),
        s.len() >= 1,
        height3(s) >= 1,
    ensures
        wf3(life_iter3(s, n)),
        life_iter3(s, n).len() == s.len() + 2 * n,
        height3(life_iter3(s, n)) == height3(s) + 2 * n,
        width3(life_iter3(s, n)) == width3(s) + 2 * n,
    decreases n,
{
    if n > 0 {
        lemma_iter3_shape(s, (n - 1) as nat);
        lemma_grow3_wf(life_iter3(s, (n - 1) as nat));
        lemma_step3_shape(grow3(life_iter3(s, (n - 1) as nat)));
    }
}

/// A rectangular plane holds rows-times-width cells.
proof fn lemma_total2_product(p: Seq<Seq<Cell>>)
    requires
        wf2(p),
    ensures
        total2(p) == p.len() * width2(p),
    decreases p.len(),
{
    if p.len() > 0 {
        let q = p.drop_last();
        assert(wf2(q));
        if q.len() == 0 {
            assert(total2(q) == 0);
            assert(total2(p) == p.last().len());
            assert(p.last().len() == width2(p));
            assert(p.len() * width2(p) == width2(p)) by (nonlinear_arith)
                requires
                    p.len() == 1,
            ;
        } else {
            assert(width2(q) == width2(p));
            lemma_total2_product(q);
            assert(p.last().len() == width2(p));
            assert((p.len() - 1) * width2(p) + width2(p) == p.len() * width2(p))
                by (nonlinear_arith);
        }
    }
}

/// A box space holds depth-times-height-times-width cells.
pub proof fn lemma_total3_product(s: Seq<Seq<Seq<Cell>>>)
    requires
        wf3(s),
    ensures
        total3(s) == s.len() * height3(s) * width3(s),
    decreases s.len(),
{
    if s.len() > 0 {
        let q = s.drop_last();
        let last = s.last();
        assert(last.len() == height3(s));
        assert(wf2(last)) by {
            assert forall|y: int| 0 <= y < last.len() implies (#[trigger] last[y]).len()
                == width2(last) by {
                assert(s[s.len() - 1][y].len() == width3(s));
                assert(last[0].len() == width3(s));
            }
        }
        lemma_total2_product(last);
        if height3(s) > 0 {
            assert(width2(last) == width3(s));
        }
        if q.len() == 0 {
            assert(total3(q) == 0);
            assert(total3(s) == total2(last));
            assert(s.len() * height3(s) * width3(s) == height3(s) * width3(s)) by (nonlinear_arith)
                requires
                    s.len() == 1,
            ;
        } else {
            assert(wf3(q)) by {
                assert(q[0] == s[0]);
                assert forall|z: int| 0 <= z < q.len() implies (#[trigger] q[z]).len()
                    == height3(q) by {
                    assert(s[z].len() == height3(s));
                }
                assert forall|z: int, y: int|
                    0 <= z < q.len() && 0 <= y < q[z].len() implies (#[trigger] q[z][y]).len()
                        == width3(q) by {
                    assert(s[z][y].len() == width3(s));
                }
            }
            assert(height3(q) == height3(s));
            assert(width3(q) == width3(s));
            lemma_total3_product(q);
            assert((s.len() - 1) * height3(s) * width3(s) + height3(s) * width3(s) == s.len()
                * height3(s) * width3(s)) by (nonlinear_arith);
        }
    }
}

/// A fresh copy of a list of rows.
fn copy_rows(rows: &Vec<Row>) -> (r: Vec<Row>)
    ensures
        rows_view(r@) == rows_view(rows@),
{
    let mut r: Vec<Row> = Vec::new();
    let mut y: usize = 0;
    while y < rows.len()
        invariant
            y <= rows@.len(),
            r@.len() == y,
            forall|q: int| 0 <= q < y ==> #[trigger] r@[q]@ == rows@[q]@,
        decreases rows@.len() - y,
    {
        r.push(Row::from_cells(rows[y].cells()));
        y = y + 1;
    }
    proof {
        assert(rows_view(r@) =~= rows_view(rows@));
    }
    r
}

/// Embeds a pattern as the single plane of a space, runs exactly six
/// generations, and returns how many cells are active.
pub fn run_space(rows: &Vec<Row>) -> (r: usize)
    requires
        rows@.len() >= 1,
        wf2(rows_view(rows@)),
        total3(life_iter3(embed3(rows_view(rows@)), 6)) <= usize::MAX,
    ensures
        r == count3(life_iter3(embed3(rows_view(rows@)), 6), Cell::Active),
{
    let ghost rv = rows_view(rows@);
    let ghost s0 = embed3(rv);
    let plane = Plane::with_rows(copy_rows(rows));
    let mut planes: Vec<Plane> = Vec::new();
    planes.push(plane);
    let mut space = Space::with_planes(planes);
    proof {
        assert(space@ =~= s0);
        assert(height3(s0) == rv.len());
        assert forall|z: int, y: int|
            0 <= z < s0.len() && 0 <= y < s0[z].len() implies (#[trigger] s0[z][y]).len()
                == width3(s0) by {
            assert(rv[y].len() == width2(rv));
        }
        assert(wf3(s0));
    }
    let mut gen: usize = 0;
    while gen < 6
        invariant
            s0 == embed3(rows_view(rows@)),
            gen <= 6,
            space@ == life_iter3(s0, gen as nat),
            wf3(space@),
            space@.len() >= 1,
            height3(space@) >= 1,
        decreases 6 - gen,
    {
        space.tick();
        gen = gen + 1;
        proof {
            assert(space@ == life_iter3(s0, gen as nat));
        }
    }
    space.count_active()
}

/// The active-cell count of the three-dimensional simulation after its
/// six generations.
pub fn part_one(rows: &Vec<Row>) -> (r: usize)
    requires
        rows@.len() >= 1,
        wf2(rows_view(rows@)),
        13 * ((rows@.len() + 12) * (width2(rows_view(rows@)) + 12)) <= usize::MAX,
    ensures
        r == count3(life_iter3(embed3(rows_view(rows@)), 6), Cell::Active),
{
    let ghost rv = rows_view(rows@);
    let ghost s0 = embed3(rv);
    proof {
        assert(height3(s0) == rv.len());
        assert forall|z: int, y: int|
            0 <= z < s0.len() && 0 <= y < s0[z].len() implies (#[trigger] s0[z][y]).len()
                == width3(s0) by {
            assert(rv[y].len() == width2(rv));
        }
        assert(wf3(s0));
        lemma_iter3_shape(s0, 6);
        lemma_total3_product(life_iter3(s0, 6));
        assert((1 + 2 * 6) * (rv.len() + 2 * 6) * (width3(s0) + 2 * 6) == 13 * ((rv.len() + 12) * (
        width2(rv) + 12))) by (nonlinear_arith)
            requires
                width3(s0) == width2(rv),
        ;
    }
    run_space(rows)
}

/// The depth (planes per space) every space of a uniform hyperspace has.
pub open spec fn depth4(h: Seq<Seq<Seq<Seq<Cell>>>>) -> nat {
    if h.len() == 0 {
        0
    } else {
        h[0].len()
    }
}

/// The height every plane of a uniform hyperspace has.
pub open spec fn height4(h: Seq<Seq<Seq<Seq<Cell>>>>) -> nat {
    if h.len() == 0 {
        0
    } else {
        height3(h[0])
    }
}

/// The width every row of a uniform hyperspace has.
pub open spec fn width4(h: Seq<Seq<Seq<Seq<Cell>>>>) -> nat {
    if h.len() == 0 {
        0
    } else {
        width3(h[0])
    }
}

/// Whether the hyperspace is a box in all four dimensions.
pub open spec fn wf4(h: Seq<Seq<Seq<Seq<Cell>>>>) -> bool {
    (forall|w: int| 0 <= w < h.len() ==> (#[trigger] h[w]).len() == depth4(h)) && (forall|
        w: int,
        z: int,
    |
        0 <= w < h.len() && 0 <= z < h[w].len() ==> (#[trigger] h[w][z]).len() == height4(h))
        && (forall|w: int, z: int, y: int|
        0 <= w < h.len() && 0 <= z < h[w].len() && 0 <= y < h[w][z].len() ==> (#[trigger] h[w][z][y]).len()
            == width4(h))
}

/// Whether (`x`, `y`, `z`, `w`) lies in the hyperspace.
pub open spec fn valid4(h: Seq<Seq<Seq<Seq<Cell>>>>, x: int, y: int, z: int, w: int) -> bool {
    0 <= w < h.len() && 0 <= z < h[w].len() && 0 <= y < h[w][z].len() && 0 <= x < h[w][z][y].len()
}

/// The hyperspace with the cell at (`x`, `y`, `z`, `w`) replaced.
pub open spec fn grid_set4(
    h: Seq<Seq<Seq<Seq<Cell>>>>,
    x: int,
    y: int,
    z: int,
    w: int,
    c: Cell,
) -> Seq<Seq<Seq<Seq<Cell>>>> {
    h.update(w, grid_set3(h[w], x, y, z, c))
}

/// A box hyperspace padded with one inactive layer on each side of all
/// four dimensions.
pub open spec fn grow4(h: Seq<Seq<Seq<Seq<Cell>>>>) -> Seq<Seq<Seq<Seq<Cell>>>> {
    Seq::new(
        h.len() + 2,
        |w: int|
            if 1 <= w <= h.len() {
                grow3(h[w - 1])
            } else {
                empty_space((depth4(h) + 2) as nat, (height4(h) + 2) as nat, (width4(h) + 2) as nat)
            },
    )
}

/// The cells of a hyperspace, spaces in order, each in scan order.
pub open spec fn cells4_of(h: Seq<Seq<Seq<Seq<Cell>>>>) -> Seq<Cell>
    decreases h.len(),
{
    if h.len() == 0 {
        Seq::empty()
    } else {
        cells4_of(h.drop_last()) + cells3_of(h.last())
    }
}

/// The (position, cell) pairs of one space of a hyperspace, positions in
/// all four coordinates.
pub open spec fn prow4(s: Seq<Seq<Seq<Cell>>>, w: int) -> Seq<(Position, Cell)> {
    ppos3(s).map_values(|t: (Position, Cell)| (Position { w: w as usize, ..t.0 }, t.1))
}

/// The (position, cell) pairs of a hyperspace, spaces in order.
pub open spec fn ppos4(h: Seq<Seq<Seq<Seq<Cell>>>>) -> Seq<(Position, Cell)>
    decreases h.len(),
{
    if h.len() == 0 {
        Seq::empty()
    } else {
        ppos4(h.drop_last()) + prow4(h.last(), h.len() - 1)
    }
}

/// How many cells of a hyperspace equal `c`.
pub open spec fn count4(h: Seq<Seq<Seq<Seq<Cell>>>>, c: Cell) -> nat
    decreases h.len(),
{
    if h.len() == 0 {
        0
    } else {
        count4(h.drop_last(), c) + count3(h.last(), c)
    }
}

/// How many cells a hyperspace holds in all.
pub open spec fn total4(h: Seq<Seq<Seq<Seq<Cell>>>>) -> nat
    decreases h.len(),
{
    if h.len() == 0 {
        0
    } else {
        total4(h.drop_last()) + total3(h.last())
    }
}

/// A hyperspace count never exceeds the number of cells.
pub proof fn lemma_count4_le(h: Seq<Seq<Seq<Seq<Cell>>>>, c: Cell)
    ensures
        count4(h, c) <= total4(h),
    decreases h.len(),
{
    if h.len() > 0 {
        lemma_count4_le(h.drop_last(), c);
        lemma_count3_le(h.last(), c);
    }
}

/// A prefix of a hyperspace holds no more cells than the hyperspace.
proof fn lemma_total4_prefix_le(h: Seq<Seq<Seq<Seq<Cell>>>>, w: int)
    requires
        0 <= w <= h.len(),
    ensures
        total4(h.take(w)) <= total4(h),
    decreases h.len() - w,
{
    if w == h.len() {
        assert(h.take(w) =~= h);
    } else {
        lemma_total4_prefix_le(h, w + 1);
        assert(h.take(w + 1).drop_last() =~= h.take(w));
    }
}

/// The cells of the neighbours reached by the first `n` of the eighty
/// hyperspatial directions, in direction order.
pub open spec fn adj4_upto(
    h: Seq<Seq<Seq<Seq<Cell>>>>,
    x: int,
    y: int,
    z: int,
    w: int,
    n: int,
) -> Seq<Cell>
    decreases n,
{
    if n <= 0 {
        Seq::empty()
    } else {
        adj4_upto(h, x, y, z, w, n - 1) + (if valid4(
            h,
            x + dir4(n - 1).0,
            y + dir4(n - 1).1,
            z + dir4(n - 1).2,
            w + dir4(n - 1).3,
        ) {
            seq![h[w + dir4(n - 1).3][z + dir4(n - 1).2][y + dir4(n - 1).1][x + dir4(n - 1).0]]
        } else {
            Seq::empty()
        })
    }
}

/// The cells of the hypercubes adjacent to (`x`, `y`, `z`, `w`), in
/// direction order.
pub open spec fn adj4(h: Seq<Seq<Seq<Seq<Cell>>>>, x: int, y: int, z: int, w: int) -> Seq<Cell> {
    adj4_upto(h, x, y, z, w, 80)
}

/// The successor of the cell at (`x`, `y`, `z`, `w`).
pub open spec fn next4_at(h: Seq<Seq<Seq<Seq<Cell>>>>, x: int, y: int, z: int, w: int) -> Cell {
    life_next(h[w][z][y][x], count_cell(adj4(h, x, y, z, w), Cell::Active))
}

/// One whole generation of a hyperspace, every cell stepped against the
/// same snapshot.
pub open spec fn step4(h: Seq<Seq<Seq<Seq<Cell>>>>) -> Seq<Seq<Seq<Seq<Cell>>>> {
    Seq::new(
        h.len(),
        |w: int|
            Seq::new(
                h[w].len(),
                |z: int|
                    Seq::new(
                        h[w][z].len(),
                        |y: int| Seq::new(h[w][z][y].len(), |x: int| next4_at(h, x, y, z, w)),
                    ),
            ),
    )
}

/// A batch of hyperspace changes applied in order.
pub open spec fn apply4_spec(
    h: Seq<Seq<Seq<Seq<Cell>>>>,
    cs: Seq<(Position, Cell)>,
) -> Seq<Seq<Seq<Seq<Cell>>>>
    decreases cs.len(),
{
    if cs.len() == 0 {
        h
    } else {
        apply4_spec(
            grid_set4(
                h,
                cs[0].0.x as int,
                cs[0].0.y as int,
                cs[0].0.z as int,
                cs[0].0.w as int,
                cs[0].1,
            ),
            cs.drop_first(),
        )
    }
}

/// Appending one hyperspace change applies it after the rest.
proof fn lemma_apply4_push(
    h: Seq<Seq<Seq<Seq<Cell>>>>,
    cs: Seq<(Position, Cell)>,
    p: Position,
    c: Cell,
)
    ensures
        apply4_spec(h, cs.push((p, c))) == grid_set4(
            apply4_spec(h, cs),
            p.x as int,
            p.y as int,
            p.z as int,
            p.w as int,
            c,
        ),
    decreases cs.len(),
{
    if cs.len() == 0 {
        let h1 = grid_set4(h, p.x as int, p.y as int, p.z as int, p.w as int, c);
        assert(cs.push((p, c))[0] == (p, c));
        assert(cs.push((p, c)).drop_first() =~= Seq::<(Position, Cell)>::empty());
        assert(apply4_spec(h1, Seq::<(Position, Cell)>::empty()) == h1);
        assert(apply4_spec(h, cs) == h);
    } else {
        assert(cs.push((p, c))[0] == cs[0]);
        assert(cs.push((p, c)).drop_first() =~= cs.drop_first().push((p, c)));
        lemma_apply4_push(
            grid_set4(
                h,
                cs[0].0.x as int,
                cs[0].0.y as int,
                cs[0].0.z as int,
                cs[0].0.w as int,
                cs[0].1,
            ),
            cs.drop_first(),
            p,
            c,
        );
    }
}

/// The hyperspace with every cell strictly before (`w`, `z`, `y`, `x`) in
/// scan order already stepped and the rest still as in `h`.
pub open spec fn partial4(
    h: Seq<Seq<Seq<Seq<Cell>>>>,
    w: int,
    z: int,
    y: int,
    x: int,
) -> Seq<Seq<Seq<Seq<Cell>>>> {
    Seq::new(
        h.len(),
        |ww: int|
            Seq::new(
                h[ww].len(),
                |zz: int|
                    Seq::new(
                        h[ww][zz].len(),
                        |yy: int|
                            Seq::new(
                                h[ww][zz][yy].len(),
                                |xx: int|
                                    if ww < w || (ww == w && (zz < z || (zz == z && (yy < y || (yy
                                        == y && xx < x))))) {
                                        next4_at(h, xx, yy, zz, ww)
                                    } else {
                                        h[ww][zz][yy][xx]
                                    },
                            ),
                    ),
            ),
    )
}

/// Growing preserves the box shape and widens every dimension by two.
pub proof fn lemma_grow4_wf(h: Seq<Seq<Seq<Seq<Cell>>>>)
    requires
        wf4(h),
        h.len() >= 1,
        depth4(h) >= 1,
        height4(h) >= 1,
    ensures
        wf4(grow4(h)),
        grow4(h).len() == h.len() + 2,
        depth4(grow4(h)) == depth4(h) + 2,
        height4(grow4(h)) == height4(h) + 2,
        width4(grow4(h)) == width4(h) + 2,
{
    let g = grow4(h);
    let border = empty_space((depth4(h) + 2) as nat, (height4(h) + 2) as nat, (width4(h) + 2) as nat);
    assert(g[0] == border);
    assert(height3(border) == height4(h) + 2);
    assert(width3(border) == width4(h) + 2);
    assert(depth4(g) == depth4(h) + 2);
    assert(height4(g) == height4(h) + 2);
    assert(width4(g) == width4(h) + 2);
    assert forall|w: int| 0 <= w < g.len() implies (#[trigger] g[w]).len() == depth4(g) by {
        if 1 <= w <= h.len() {
            assert(h[w - 1].len() == depth4(h));
        }
    }
    assert forall|w: int, z: int|
        0 <= w < g.len() && 0 <= z < g[w].len() implies (#[trigger] g[w][z]).len() == height4(
        g,
    ) by {
        if 1 <= w <= h.len() {
            assert(g[w] == grow3(h[w - 1]));
            assert(wf3(h[w - 1])) by {
                assert(h[w - 1].len() == depth4(h));
                assert(height3(h[w - 1]) == h[w - 1][0].len());
                assert(h[w - 1][0].len() == height4(h));
                assert forall|zz: int| 0 <= zz < h[w - 1].len() implies (#[trigger] h[w - 1][zz]).len()
                    == height3(h[w - 1]) by {
                    assert(h[w - 1][zz].len() == height4(h));
                }
                assert forall|zz: int, yy: int|
                    0 <= zz < h[w - 1].len() && 0 <= yy < h[w - 1][zz].len() implies (#[trigger] h[w
                    - 1][zz][yy]).len() == width3(h[w - 1]) by {
                    assert(h[w - 1][zz][yy].len() == width4(h));
                    assert(h[w - 1][0][0].len() == width4(h));
                }
            }
            lemma_grow3_wf(h[w - 1]);
            assert(height3(h[w - 1]) == height4(h));
        }
    }
    assert forall|w: int, z: int, y: int|
        0 <= w < g.len() && 0 <= z < g[w].len() && 0 <= y < g[w][z].len() implies (#[trigger] g[w][z][y]).len()
            == width4(g) by {
        if 1 <= w <= h.len() {
            assert(g[w] == grow3(h[w - 1]));
            assert(wf3(h[w - 1])) by {
                assert(h[w - 1].len() == depth4(h));
                assert(h[w - 1][0].len() == height4(h));
                assert forall|zz: int| 0 <= zz < h[w - 1].len() implies (#[trigger] h[w - 1][zz]).len()
                    == height3(h[w - 1]) by {
                    assert(h[w - 1][zz].len() == height4(h));
                }
                assert forall|zz: int, yy: int|
                    0 <= zz < h[w - 1].len() && 0 <= yy < h[w - 1][zz].len() implies (#[trigger] h[w
                    - 1][zz][yy]).len() == width3(h[w - 1]) by {
                    assert(h[w - 1][zz][yy].len() == width4(h));
                    assert(h[w - 1][0][0].len() == width4(h));
                }
            }
            lemma_grow3_wf(h[w - 1]);
            assert(width3(h[w - 1]) == width4(h));
            assert(wf3(grow3(h[w - 1])));
        }
    }
}

/// Stepping preserves the shape of every dimension.
pub proof fn lemma_step4_shape(h: Seq<Seq<Seq<Seq<Cell>>>>)
    ensures
        step4(h).len() == h.len(),
        forall|w: int| 0 <= w < h.len() ==> (#[trigger] step4(h)[w]).len() == h[w].len(),
        forall|w: int, z: int|
            0 <= w < h.len() && 0 <= z < h[w].len() ==> (#[trigger] step4(h)[w][z]).len()
                == h[w][z].len(),
        forall|w: int, z: int, y: int|
            0 <= w < h.len() && 0 <= z < h[w].len() && 0 <= y < h[w][z].len() ==> (#[trigger] step4(
                h,
            )[w][z][y]).len() == h[w][z][y].len(),
        depth4(step4(h)) == depth4(h),
        height4(step4(h)) == height4(h),
        width4(step4(h)) == width4(h),
        wf4(h) ==> wf4(step4(h)),
{
    if h.len() > 0 {
        assert(step4(h)[0].len() == h[0].len());
        if h[0].len() > 0 {
            assert(step4(h)[0][0].len() == h[0][0].len());
            if h[0][0].len() > 0 {
                assert(step4(h)[0][0][0].len() == h[0][0][0].len());
            }
        }
    }
}

/// The mathematical hyperspace a list of spaces stands for.
pub open spec fn spaces_view(spaces: Seq<Space>) -> Seq<Seq<Seq<Seq<Cell>>>> {
    spaces.map_values(|s: Space| s@)
}

/// A four-dimensional box of cells.
#[derive(Debug)]
pub struct HyperSpace {
    spaces: Vec<Space>,
}

impl View for HyperSpace {
    type V = Seq<Seq<Seq<Seq<Cell>>>>;

    closed spec fn view(&self) -> Seq<Seq<Seq<Seq<Cell>>>> {
        spaces_view(self.spaces@)
    }
}

impl HyperSpace {
    /// Wraps spaces as a hyperspace. The spaces are expected to share one
    /// shape.
    pub fn with_spaces(spaces: Vec<Space>) -> (r: Self)
        ensures
            r@ == spaces_view(spaces@),
    {
        Self { spaces }
    }

    /// The cell at a position the caller has validated.
    pub fn get_cell(&self, position: Position) -> (c: Cell)
        requires
            valid4(
                self@,
                position.x as int,
                position.y as int,
                position.z as int,
                position.w as int,
            ),
        ensures
            c == self@[position.w as int][position.z as int][position.y as int][position.x as int],
    {
        self.spaces[position.w].get_cell(position)
    }

    /// Replaces the cell at a position the caller has validated.
    pub fn set_cell(&mut self, position: Position, cell: Cell)
        requires
            valid4(
                old(self)@,
                position.x as int,
                position.y as int,
                position.z as int,
                position.w as int,
            ),
        ensures
            final(self)@ == grid_set4(
                old(self)@,
                position.x as int,
                position.y as int,
                position.z as int,
                position.w as int,
                cell,
            ),
    {
        self.spaces[position.w].set_cell(position, cell);
        proof {
            assert(self@ =~= grid_set4(
                old(self)@,
                position.x as int,
                position.y as int,
                position.z as int,
                position.w as int,
                cell,
            ));
        }
    }

    /// Whether all four coordinates of the position lie in the hyperspace.
    pub fn is_position_valid(&self, position: Position) -> (b: bool)
        ensures
            b == valid4(
                self@,
                position.x as int,
                position.y as int,
                position.z as int,
                position.w as int,
            ),
    {
        if position.w >= self.spaces.len() {
            return false;
        }
        self.spaces[position.w].is_position_valid(position)
    }

    /// The cells of the up-to-eighty hypercubes adjacent to the position,
    /// in direction order.
    pub fn adjacent(&self, position: Position) -> (r: Vec<Cell>)
        requires
            valid4(
                self@,
                position.x as int,
                position.y as int,
                position.z as int,
                position.w as int,
            ),
        ensures
            r@ == adj4(
                self@,
                position.x as int,
                position.y as int,
                position.z as int,
                position.w as int,
            ),
    {
        let ghost x = position.x as int;
        let ghost y = position.y as int;
        let ghost z = position.z as int;
        let ghost w = position.w as int;
        proof {
            assert(self@[w] == self.spaces@[w]@);
            assert(self@[w][z] == self.spaces@[w].planes@[z]@);
            assert(self@[w][z][y] == self.spaces@[w].planes@[z].rows@[y]@);
        }
        let hyper_len = self.spaces.len();
        let space_depth = self.spaces[position.w].planes.len();
        let plane_height = self.spaces[position.w].planes[position.z].rows.len();
        let row_len = self.spaces[position.w].planes[position.z].rows[position.y].cells.len();
        let dirs = all_4d_directions();
        let mut r: Vec<Cell> = Vec::new();
        let mut i: usize = 0;
        while i < dirs.len()
            invariant
                valid4(self@, x, y, z, w),
                x == position.x as int,
                y == position.y as int,
                z == position.z as int,
                w == position.w as int,
                row_len == self@[w][z][y].len(),
                plane_height == self@[w][z].len(),
                space_depth == self@[w].len(),
                hyper_len == self@.len(),
                dirs@.len() == 80,
                forall|k: int| 0 <= k < 80 ==> (#[trigger] dirs@[k]).x as int == dir4(k).0
                    && dirs@[k].y as int == dir4(k).1
                    && dirs@[k].z as int == dir4(k).2
                    && dirs@[k].w as int == dir4(k).3,
                i <= 80,
                r@ == adj4_upto(self@, x, y, z, w, i as int),
            decreases 80 - i,
        {
            let v = dirs[i];
            let ghost dx = dir4(i as int).0;
            let ghost dy = dir4(i as int).1;
            let ghost dz = dir4(i as int).2;
            let ghost dw = dir4(i as int).3;
            if (v.x >= 0 || position.x > 0) && (v.y >= 0 || position.y > 0) && (v.z >= 0
                || position.z > 0) && (v.w >= 0 || position.w > 0) {
                let nx = if v.x < 0 {
                    position.x - 1
                } else if v.x > 0 {
                    position.x + 1
                } else {
                    position.x
                };
                let ny = if v.y < 0 {
                    position.y - 1
                } else if v.y > 0 {
                    position.y + 1
                } else {
                    position.y
                };
                let nz = if v.z < 0 {
                    position.z - 1
                } else if v.z > 0 {
                    position.z + 1
                } else {
                    position.z
                };
                let nw = if v.w < 0 {
                    position.w - 1
                } else if v.w > 0 {
                    position.w + 1
                } else {
                    position.w
                };
                let p2 = Position { x: nx, y: ny, z: nz, w: nw };
                if self.is_position_valid(p2) {
                    r.push(self.get_cell(p2));
                    proof {
                        assert(r@ =~= adj4_upto(self@, x, y, z, w, i + 1));
                    }
                } else {
                    proof {
                        assert(r@ =~= adj4_upto(self@, x, y, z, w, i + 1));
                    }
                }
            } else {
                proof {
                    assert(!valid4(self@, x + dx, y + dy, z + dz, w + dw));
                    assert(r@ =~= adj4_upto(self@, x, y, z, w, i + 1));
                }
            }
            i = i + 1;
        }
        r
    }

    /// Every cell of the hyperspace, spaces in order, each in scan order.
    pub fn cells(&self) -> (r: Vec<Cell>)
        ensures
            r@ == cells4_of(self@),
    {
        let mut r: Vec<Cell> = Vec::new();
        let mut w: usize = 0;
        while w < self.spaces.len()
            invariant
                w <= self@.len(),
                self@.len() == self.spaces@.len(),
                r@ == cells4_of(self@.take(w as int)),
            decreases self@.len() - w,
        {
            proof {
                assert(self@[w as int] == self.spaces@[w as int]@);
            }
            let mut part = self.spaces[w].cells();
            r.append(&mut part);
            proof {
                assert(self@.take(w + 1).drop_last() =~= self@.take(w as int));
                assert(self@.take(w + 1).last() == self@[w as int]);
            }
            w = w + 1;
        }
        proof {
            assert(self@.take(self@.len() as int) =~= self@);
        }
        r
    }

    /// Every (position, cell) pair of the hyperspace, spaces in order.
    pub fn positioned_cells(&self) -> (r: Vec<(Position, Cell)>)
        ensures
            r@ == ppos4(self@),
    {
        let mut r: Vec<(Position, Cell)> = Vec::new();
        let mut w: usize = 0;
        while w < self.spaces.len()
            invariant
                w <= self@.len(),
                self@.len() == self.spaces@.len(),
                r@ == ppos4(self@.take(w as int)),
            decreases self@.len() - w,
        {
            proof {
                assert(self@[w as int] == self.spaces@[w as int]@);
            }
            let sp = self.spaces[w].positioned_cells();
            let mut k: usize = 0;
            while k < sp.len()
                invariant
                    w < self@.len(),
                    self@.len() == self.spaces@.len(),
                    sp@ == ppos3(self@[w as int]),
                    k <= sp@.len(),
                    r@ == ppos4(self@.take(w as int)) + prow4(self@[w as int], w as int).take(
                        k as int,
                    ),
                decreases sp@.len() - k,
            {
                let (p, c) = sp[k];
                r.push((p.with_w(w), c));
                proof {
                    assert(r@ =~= ppos4(self@.take(w as int)) + prow4(
                        self@[w as int],
                        w as int,
                    ).take(k + 1));
                }
                k = k + 1;
            }
            proof {
                assert(self@.take(w + 1).drop_last() =~= self@.take(w as int));
                assert(prow4(self@[w as int], w as int).take(ppos3(self@[w as int]).len() as int)
                    =~= prow4(self@[w as int], w as int));
                assert(r@ =~= ppos4(self@.take(w + 1)));
            }
            w = w + 1;
        }
        proof {
            assert(self@.take(self@.len() as int) =~= self@);
        }
        r
    }

    /// Applies a batch of updates in order. Every read that fed the batch
    /// happened before this call, so no cell of a generation sees the
    /// generation's own future state.
    pub fn apply_changes(&mut self, changes: Vec<(Position, Cell)>)
        requires
            forall|k: int| 0 <= k < changes@.len() ==> valid4(
                old(self)@,
                (#[trigger] changes@[k]).0.x as int,
                changes@[k].0.y as int,
                changes@[k].0.z as int,
                changes@[k].0.w as int,
            ),
        ensures
            final(self)@ == apply4_spec(old(self)@, changes@),
    {
        let ghost h0 = self@;
        let mut k: usize = 0;
        while k < changes.len()
            invariant
                k <= changes@.len(),
                forall|j: int| 0 <= j < changes@.len() ==> valid4(
                    h0,
                    (#[trigger] changes@[j]).0.x as int,
                    changes@[j].0.y as int,
                    changes@[j].0.z as int,
                    changes@[j].0.w as int,
                ),
                self@.len() == h0.len(),
                forall|w: int| 0 <= w < h0.len() ==> (#[trigger] self@[w]).len() == h0[w].len(),
                forall|w: int, z: int|
                    0 <= w < h0.len() && 0 <= z < h0[w].len() ==> (#[trigger] self@[w][z]).len()
                        == h0[w][z].len(),
                forall|w: int, z: int, y: int|
                    0 <= w < h0.len() && 0 <= z < h0[w].len() && 0 <= y < h0[w][z].len() ==> (
                    #[trigger] self@[w][z][y]).len() == h0[w][z][y].len(),
                self@ == apply4_spec(h0, changes@.take(k as int)),
            decreases changes@.len() - k,
        {
            let (pos, cell) = changes[k];
            self.set_cell(pos, cell);
            proof {
                assert(changes@.take(k + 1) =~= changes@.take(k as int).push((pos, cell)));
                lemma_apply4_push(h0, changes@.take(k as int), pos, cell);
            }
            k = k + 1;
        }
        proof {
            assert(changes@.take(changes@.len() as int) =~= changes@);
        }
    }

    /// How many cells of the whole hyperspace are active.
    pub fn count_active(&self) -> (r: usize)
        requires
            total4(self@) <= usize::MAX,
        ensures
            r == count4(self@, Cell::Active),
    {
        let mut r: usize = 0;
        let mut w: usize = 0;
        while w < self.spaces.len()
            invariant
                w <= self@.len(),
                self@.len() == self.spaces@.len(),
                total4(self@) <= usize::MAX,
                r == count4(self@.take(w as int), Cell::Active),
            decreases self@.len() - w,
        {
            proof {
                assert(self@[w as int] == self.spaces@[w as int]@);
                assert(self@.take(w + 1).drop_last() =~= self@.take(w as int));
                assert(self@.take(w + 1).last() == self@[w as int]);
                lemma_total4_prefix_le(self@, w + 1);
                lemma_count3_le(self@[w as int], Cell::Active);
                lemma_count4_le(self@.take(w as int), Cell::Active);
                lemma_total4_prefix_le(self@, w as int);
            }
            let sc = self.spaces[w].count_active();
            r = r + sc;
            w = w + 1;
        }
        proof {
            assert(self@.take(self@.len() as int) =~= self@);
        }
        r
    }

    /// One generation: grows the hyperspace by one inactive layer in every
    /// dimension, scans the grown snapshot, collects the changes, and
    /// applies them as one batch.
    pub fn tick(&mut self)
        requires
            wf4(old(self)@),
            old(self)@.len() >= 1,
            depth4(old(self)@) >= 1,
            height4(old(self)@) >= 1,
        ensures
            final(self)@ == step4(grow4(old(self)@)),
            wf4(final(self)@),
            final(self)@.len() == old(self)@.len() + 2,
            depth4(final(self)@) == depth4(old(self)@) + 2,
            height4(final(self)@) == height4(old(self)@) + 2,
            width4(final(self)@) == width4(old(self)@) + 2,
    {
        proof {
            lemma_grow4_wf(old(self)@);
            lemma_step4_shape(grow4(old(self)@));
        }
        self.grow();
        let ghost g = self@;
        let mut changes: Vec<(Position, Cell)> = Vec::new();
        proof {
            assert(partial4(g, 0, 0, 0, 0) =~~= g);
        }
        let mut w: usize = 0;
        while w < self.spaces.len()
            invariant
                self@ == g,
                self@.len() == self.spaces@.len(),
                w <= g.len(),
                forall|j: int| 0 <= j < changes@.len() ==> valid4(
                    g,
                    (#[trigger] changes@[j]).0.x as int,
                    changes@[j].0.y as int,
                    changes@[j].0.z as int,
                    changes@[j].0.w as int,
                ),
                apply4_spec(g, changes@) == partial4(g, w as int, 0, 0, 0),
            decreases g.len() - w,
        {
            proof {
                assert(self@[w as int] == self.spaces@[w as int]@);
            }
            let mut z: usize = 0;
            while z < self.spaces[w].planes.len()
                invariant
                    self@ == g,
                    self@.len() == self.spaces@.len(),
                    w < g.len(),
                    self@[w as int] == self.spaces@[w as int]@,
                    z <= g[w as int].len(),
                    g[w as int].len() == self.spaces@[w as int].planes@.len(),
                    forall|j: int| 0 <= j < changes@.len() ==> valid4(
                        g,
                        (#[trigger] changes@[j]).0.x as int,
                        changes@[j].0.y as int,
                        changes@[j].0.z as int,
                        changes@[j].0.w as int,
                    ),
                    apply4_spec(g, changes@) == partial4(g, w as int, z as int, 0, 0),
                decreases g[w as int].len() - z,
            {
                proof {
                    assert(self@[w as int][z as int]
                        == self.spaces@[w as int].planes@[z as int]@);
                }
                let mut y: usize = 0;
                while y < self.spaces[w].planes[z].rows.len()
                    invariant
                        self@ == g,
                        self@.len() == self.spaces@.len(),
                        w < g.len(),
                        self@[w as int] == self.spaces@[w as int]@,
                        z < g[w as int].len(),
                        self@[w as int][z as int]
                            == self.spaces@[w as int].planes@[z as int]@,
                        y <= g[w as int][z as int].len(),
                        g[w as int][z as int].len()
                            == self.spaces@[w as int].planes@[z as int].rows@.len(),
                        forall|j: int| 0 <= j < changes@.len() ==> valid4(
                            g,
                            (#[trigger] changes@[j]).0.x as int,
                            changes@[j].0.y as int,
                            changes@[j].0.z as int,
                            changes@[j].0.w as int,
                        ),
                        apply4_spec(g, changes@) == partial4(g, w as int, z as int, y as int, 0),
                    decreases g[w as int][z as int].len() - y,
                {
                    proof {
                        assert(self@[w as int][z as int][y as int]
                            == self.spaces@[w as int].planes@[z as int].rows@[y as int]@);
                    }
                    let mut x: usize = 0;
                    while x < self.spaces[w].planes[z].rows[y].cells.len()
                        invariant
                            self@ == g,
                            self@.len() == self.spaces@.len(),
                            w < g.len(),
                            self@[w as int] == self.spaces@[w as int]@,
                            z < g[w as int].len(),
                            self@[w as int][z as int]
                                == self.spaces@[w as int].planes@[z as int]@,
                            y < g[w as int][z as int].len(),
                            self@[w as int][z as int][y as int]
                                == self.spaces@[w as int].planes@[z as int].rows@[y as int]@,
                            x <= g[w as int][z as int][y as int].len(),
                            g[w as int][z as int][y as int].len()
                                == self.spaces@[w as int].planes@[z as int].rows@[y as int].cells@.len(),
                            forall|j: int| 0 <= j < changes@.len() ==> valid4(
                                g,
                                (#[trigger] changes@[j]).0.x as int,
                                changes@[j].0.y as int,
                                changes@[j].0.z as int,
                                changes@[j].0.w as int,
                            ),
                            apply4_spec(g, changes@) == partial4(
                                g,
                                w as int,
                                z as int,
                                y as int,
                                x as int,
                            ),
                        decreases g[w as int][z as int][y as int].len() - x,
                    {
                        let pos = Position { x, y, z, w };
                        let cell = self.get_cell(pos);
                        let neighbors = self.adjacent(pos);
                        let active = count_cells_in(&neighbors, Cell::Active);
                        proof {
                            assert(active == count_cell(
                                adj4(g, x as int, y as int, z as int, w as int),
                                Cell::Active,
                            ));
                        }
                        let ghost pre = changes@;
                        if cell == Cell::Active && (active < 2 || active > 3) {
                            changes.push((pos, Cell::Inactive));
                            proof {
                                lemma_apply4_push(g, pre, pos, Cell::Inactive);
                                assert(partial4(g, w as int, z as int, y as int, x + 1)
                                    =~~= grid_set4(
                                    partial4(g, w as int, z as int, y as int, x as int),
                                    x as int,
                                    y as int,
                                    z as int,
                                    w as int,
                                    Cell::Inactive,
                                ));
                            }
                        } else if cell == Cell::Inactive && active == 3 {
                            changes.push((pos, Cell::Active));
                            proof {
                                lemma_apply4_push(g, pre, pos, Cell::Active);
                                assert(partial4(g, w as int, z as int, y as int, x + 1)
                                    =~~= grid_set4(
                                    partial4(g, w as int, z as int, y as int, x as int),
                                    x as int,
                                    y as int,
                                    z as int,
                                    w as int,
                                    Cell::Active,
                                ));
                            }
                        } else {
                            proof {
                                assert(next4_at(g, x as int, y as int, z as int, w as int)
                                    == g[w as int][z as int][y as int][x as int]);
                                assert(partial4(g, w as int, z as int, y as int, x + 1)
                                    =~~= partial4(g, w as int, z as int, y as int, x as int));
                            }
                        }
                        x = x + 1;
                    }
                    proof {
                        assert(partial4(g, w as int, z as int, y + 1, 0) =~~= partial4(
                            g,
                            w as int,
                            z as int,
                            y as int,
                            g[w as int][z as int][y as int].len() as int,
                        ));
                    }
                    y = y + 1;
                }
                proof {
                    assert(partial4(g, w as int, z + 1, 0, 0) =~~= partial4(
                        g,
                        w as int,
                        z as int,
                        g[w as int][z as int].len() as int,
                        0,
                    ));
                }
                z = z + 1;
            }
            proof {
                assert(partial4(g, w + 1, 0, 0, 0) =~~= partial4(
                    g,
                    w as int,
                    g[w as int].len() as int,
                    0,
                    0,
                ));
            }
            w = w + 1;
        }
        self.apply_changes(changes);
        proof {
            assert(step4(g) =~~= partial4(g, g.len() as int, 0, 0, 0));
        }
    }

    /// Pads the hyperspace with one inactive layer on each side of all
    /// four dimensions.
    pub fn grow(&mut self)
        requires
            wf4(old(self)@),
            old(self)@.len() >= 1,
            depth4(old(self)@) >= 1,
            height4(old(self)@) >= 1,
        ensures
            final(self)@ == grow4(old(self)@),
    {
        let ghost h0 = self@;
        let n = self.spaces.len();
        let mut i: usize = 0;
        while i < n
            invariant
                i <= n,
                wf4(h0),
                h0.len() == n,
                depth4(h0) >= 1,
                height4(h0) >= 1,
                n == self.spaces@.len(),
                self@.len() == self.spaces@.len(),
                forall|j: int| 0 <= j < i ==> #[trigger] self@[j] == grow3(h0[j]),
                forall|j: int| i <= j < n ==> #[trigger] self@[j] == h0[j],
            decreases n - i,
        {
            let ghost ventry = self@;
            let ghost before = self.spaces@;
            proof {
                assert(ventry[i as int] == h0[i as int]);
                assert(ventry[i as int] == before[i as int]@);
                let s = h0[i as int];
                assert(s.len() == depth4(h0));
                assert(s[0].len() == height4(h0));
                assert(height3(s) == height4(h0));
                assert forall|zz: int| 0 <= zz < s.len() implies (#[trigger] s[zz]).len()
                    == height3(s) by {
                    assert(s[zz].len() == height4(h0));
                }
                assert forall|zz: int, yy: int|
                    0 <= zz < s.len() && 0 <= yy < s[zz].len() implies (#[trigger] s[zz][yy]).len()
                        == width3(s) by {
                    assert(s[zz][yy].len() == width4(h0));
                    assert(s[0][0].len() == width4(h0));
                }
                assert(wf3(s));
            }
            self.spaces[i].grow();
            proof {
                assert(self.spaces@[i as int]@ == grow3(before[i as int]@));
                assert forall|j: int| 0 <= j < i + 1 implies #[trigger] self@[j] == grow3(
                    h0[j],
                ) by {
                    assert(self@[j] == self.spaces@[j]@);
                    if j < i {
                        assert(ventry[j] == grow3(h0[j]));
                        assert(self.spaces@[j] == before[j]);
                        assert(ventry[j] == before[j]@);
                    }
                }
                assert forall|j: int| i + 1 <= j < n implies #[trigger] self@[j] == h0[j] by {
                    assert(self@[j] == self.spaces@[j]@);
                    assert(self.spaces@[j] == before[j]);
                    assert(ventry[j] == h0[j]);
                    assert(ventry[j] == before[j]@);
                }
            }
            i = i + 1;
        }
        proof {
            assert(self@[0] == grow3(h0[0]));
            let s = h0[0];
            assert(s.len() == depth4(h0));
            assert(s[0].len() == height4(h0));
            assert(s[0][0].len() == width4(h0));
            assert(height3(s) == height4(h0));
            assert(width3(s) == width4(h0));
            assert(grow3(s).len() == depth4(h0) + 2);
            assert(grow3(s)[0] == empty_plane((height3(s) + 2) as nat, (width3(s) + 2) as nat));
            assert(height3(grow3(s)) == height4(h0) + 2);
            assert(width3(grow3(s)) == width4(h0) + 2);
        }
        let width = self.spaces[0].width();
        let height = self.spaces[0].height();
        let depth = self.spaces[0].depth();
        let ghost gv = self@;
        let ghost grown = self.spaces@;
        let space_front = Space::new(width, height, depth);
        let ghost front = space_front@;
        let mut out: Vec<Space> = Vec::new();
        out.push(space_front);
        out.append(&mut self.spaces);
        let space_back = Space::new(width, height, depth);
        let ghost back = space_back@;
        out.push(space_back);
        self.spaces = out;
        proof {
            let border = empty_space(
                (depth4(h0) + 2) as nat,
                (height4(h0) + 2) as nat,
                (width4(h0) + 2) as nat,
            );
            assert forall|w: int| 0 <= w < h0.len() + 2 implies #[trigger] self@[w] == grow4(
                h0,
            )[w] by {
                assert(self@[w] == self.spaces@[w]@);
                if w == 0 {
                    assert(self.spaces@[w]@ == front);
                    assert(front =~= border);
                } else if w <= h0.len() {
                    assert(self.spaces@[w] == grown[w - 1]);
                    assert(gv[w - 1] == grow3(h0[w - 1]));
                    assert(gv[w - 1] == grown[w - 1]@);
                } else {
                    assert(self.spaces@[w]@ == back);
                    assert(back =~= border);
                }
            }
            assert(self@ =~= grow4(h0));
        }
    }
}

/// One row of a textual dump: one character per cell.
pub open spec fn render_row(row: Seq<Cell>) -> Seq<char> {
    row.map_values(|c: Cell| cell_char(c))
}

/// A textual dump of a plane: rows separated by newlines.
pub open spec fn render_plane(p: Seq<Seq<Cell>>) -> Seq<char>
    decreases p.len(),
{
    if p.len() == 0 {
        Seq::empty()
    } else {
        render_plane(p.drop_last()) + render_row(p.last()) + seq!['\n']
    }
}

/// A textual dump of a space: planes separated by blank lines.
pub open spec fn render_space(s: Seq<Seq<Seq<Cell>>>) -> Seq<char>
    decreases s.len(),
{
    if s.len() == 0 {
        Seq::empty()
    } else {
        render_space(s.drop_last()) + render_plane(s.last()) + seq!['\n']
    }
}

impl Space {
    /// A textual dump for diagnostics: one character per cell, one line
    /// per row, one blank line after each plane.
    pub fn render(&self) -> (r: String)
        ensures
            r@ == render_space(self@),
    {
        proof {
            reveal_strlit("#");
            reveal_strlit(".");
            reveal_strlit("\n");
        }
        let mut s = String::new();
        let mut z: usize = 0;
        while z < self.planes.len()
            invariant
                z <= self@.len(),
                self@.len() == self.planes@.len(),
                s@ == render_space(self@.take(z as int)),
            decreases self@.len() - z,
        {
            proof {
                reveal_strlit("#");
                reveal_strlit(".");
                reveal_strlit("\n");
                assert(self@[z as int] == self.planes@[z as int]@);
            }
            let mut y: usize = 0;
            while y < self.planes[z].rows.len()
                invariant
                    z < self@.len(),
                    self@.len() == self.planes@.len(),
                    self@[z as int] == self.planes@[z as int]@,
                    y <= self@[z as int].len(),
                    self@[z as int].len() == self.planes@[z as int].rows@.len(),
                    s@ == render_space(self@.take(z as int)) + render_plane(
                        self@[z as int].take(y as int),
                    ),
                decreases self@[z as int].len() - y,
            {
                proof {
                    reveal_strlit("#");
                    reveal_strlit(".");
                    reveal_strlit("\n");
                    assert(self@[z as int][y as int]
                        == self.planes@[z as int].rows@[y as int]@);
                }
                let mut x: usize = 0;
                while x < self.planes[z].rows[y].cells.len()
                    invariant
                        z < self@.len(),
                        self@.len() == self.planes@.len(),
                        self@[z as int] == self.planes@[z as int]@,
                        y < self@[z as int].len(),
                        self@[z as int][y as int]
                            == self.planes@[z as int].rows@[y as int]@,
                        x <= self@[z as int][y as int].len(),
                        self@[z as int][y as int].len()
                            == self.planes@[z as int].rows@[y as int].cells@.len(),
                        s@ == render_space(self@.take(z as int)) + render_plane(
                            self@[z as int].take(y as int),
                        ) + render_row(self@[z as int][y as int]).take(x as int),
                    decreases self@[z as int][y as int].len() - x,
                {
                    proof {
                        reveal_strlit("#");
                        reveal_strlit(".");
                    }
                    match self.planes[z].rows[y].cells[x] {
                        Cell::Active => s.append("#"),
                        Cell::Inactive => s.append("."),
                    }
                    proof {
                        assert(s@ =~= render_space(self@.take(z as int)) + render_plane(
                            self@[z as int].take(y as int),
                        ) + render_row(self@[z as int][y as int]).take(x + 1));
                    }
                    x = x + 1;
                }
                s.append("\n");
                proof {
                    assert(self@[z as int].take(y + 1).drop_last() =~= self@[z as int].take(
                        y as int,
                    ));
                    assert(render_row(self@[z as int][y as int]).take(
                        self@[z as int][y as int].len() as int,
                    ) =~= render_row(self@[z as int][y as int]));
                    assert(s@ =~= render_space(self@.take(z as int)) + render_plane(
                        self@[z as int].take(y + 1),
                    ));
                }
                y = y + 1;
            }
            s.append("\n");
            proof {
                assert(self@.take(z + 1).drop_last() =~= self@.take(z as int));
                assert(self@[z as int].take(self@[z as int].len() as int) =~= self@[z as int]);
                assert(s@ =~= render_space(self@.take(z + 1)));
            }
            z = z + 1;
        }
        proof {
            assert(self@.take(self@.len() as int) =~= self@);
        }
        s
    }
}

/// The hyperspace after `n` generations, each a growth then a step.
pub open spec fn life_iter4(h: Seq<Seq<Seq<Seq<Cell>>>>, n: nat) -> Seq<Seq<Seq<Seq<Cell>>>>
    decreases n,
{
    if n == 0 {
        h
    } else {
        step4(grow4(life_iter4(h, (n - 1) as nat)))
    }
}

/// A single plane embedded as a depth-one, extent-one hyperspace.
pub open spec fn embed4(p: Seq<Seq<Cell>>) -> Seq<Seq<Seq<Seq<Cell>>>> {
    seq![seq![p]]
}

/// The shape of a hyperspace after `n` generations: still a box, each
/// dimension wider by two per generation.
pub proof fn lemma_iter4_shape(h: Seq<Seq<Seq<Seq<Cell>>>>, n: nat)
    requires
        wf4(h),
        h.len() >= 1,
        depth4(h) >= 1,
        height4(h) >= 1,
    ensures
        wf4(life_iter4(h, n)),
        life_iter4(h, n).len() == h.len() + 2 * n,
        depth4(life_iter4(h, n)) == depth4(h) + 2 * n,
        height4(life_iter4(h, n)) == height4(h) + 2 * n,
        width4(life_iter4(h, n)) == width4(h) + 2 * n,
    decreases n,
{
    if n > 0 {
        lemma_iter4_shape(h, (n - 1) as nat);
        lemma_grow4_wf(life_iter4(h, (n - 1) as nat));
        lemma_step4_shape(grow4(life_iter4(h, (n - 1) as nat)));
    }
}

/// A box hyperspace holds the product of its four extents in cells.
pub proof fn lemma_total4_product(h: Seq<Seq<Seq<Seq<Cell>>>>)
    requires
        wf4(h),
    ensures
        total4(h) == h.len() * depth4(h) * height4(h) * width4(h),
    decreases h.len(),
{
    if h.len() > 0 {
        let q = h.drop_last();
        let last = h.last();
        assert(last.len() == depth4(h));
        assert(wf3(last)) by {
            if depth4(h) > 0 {
                assert(h[h.len() - 1][0].len() == height4(h));
            }
            assert forall|z: int| 0 <= z < last.len() implies (#[trigger] last[z]).len()
                == height3(last) by {
                assert(h[h.len() - 1][z].len() == height4(h));
            }
            assert forall|z: int, y: int|
                0 <= z < last.len() && 0 <= y < last[z].len() implies (#[trigger] last[z][y]).len()
                    == width3(last) by {
                assert(h[h.len() - 1][z][y].len() == width4(h));
                assert(h[h.len() - 1][0][0].len() == width4(h));
            }
        }
        lemma_total3_product(last);
        if depth4(h) > 0 && height4(h) > 0 {
            assert(height3(last) == height4(h));
            assert(width3(last) == width4(h));
        }
        if q.len() == 0 {
            assert(total4(q) == 0);
            assert(total4(h) == total3(last));
            if depth4(h) == 0 || height4(h) == 0 {
                assert(last.len() * height3(last) * width3(last) == 0) by (nonlinear_arith)
                    requires
                        last.len() == 0 || height3(last) == 0,
                ;
                assert(h.len() * depth4(h) * height4(h) * width4(h) == 0) by (nonlinear_arith)
                    requires
                        depth4(h) == 0 || height4(h) == 0,
                ;
            } else {
                assert(h.len() * depth4(h) * height4(h) * width4(h) == depth4(h) * height4(h)
                    * width4(h)) by (nonlinear_arith)
                    requires
                        h.len() == 1,
                ;
            }
        } else {
            assert(wf4(q)) by {
                assert(q[0] == h[0]);
                assert forall|w: int| 0 <= w < q.len() implies (#[trigger] q[w]).len() == depth4(
                    q,
                ) by {
                    assert(h[w].len() == depth4(h));
                }
                assert forall|w: int, z: int|
                    0 <= w < q.len() && 0 <= z < q[w].len() implies (#[trigger] q[w][z]).len()
                        == height4(q) by {
                    assert(h[w][z].len() == height4(h));
                }
                assert forall|w: int, z: int, y: int|
                    0 <= w < q.len() && 0 <= z < q[w].len() && 0 <= y < q[w][z].len() implies (
                    #[trigger] q[w][z][y]).len() == width4(q) by {
                    assert(h[w][z][y].len() == width4(h));
                }
            }
            assert(depth4(q) == depth4(h));
            assert(height4(q) == height4(h));
            assert(width4(q) == width4(h));
            lemma_total4_product(q);
            if depth4(h) == 0 || height4(h) == 0 {
                assert(last.len() * height3(last) * width3(last) == 0) by (nonlinear_arith)
                    requires
                        last.len() == 0 || height3(last) == 0,
                ;
                assert((h.len() - 1) * depth4(h) * height4(h) * width4(h) + 0 == h.len() * depth4(
                    h,
                ) * height4(h) * width4(h)) by (nonlinear_arith)
                    requires
                        depth4(h) == 0 || height4(h) == 0,
                ;
            } else {
                assert((h.len() - 1) * depth4(h) * height4(h) * width4(h) + depth4(h) * height4(h)
                    * width4(h) == h.len() * depth4(h) * height4(h) * width4(h))
                    by (nonlinear_arith);
            }
        }
    }
}

/// Embeds a pattern as the single plane of a hyperspace, runs exactly six
/// generations, and returns how many cells are active.
pub fn run_hyperspace(rows: &Vec<Row>) -> (r: usize)
    requires
        rows@.len() >= 1,
        wf2(rows_view(rows@)),
        total4(life_iter4(embed4(rows_view(rows@)), 6)) <= usize::MAX,
    ensures
        r == count4(life_iter4(embed4(rows_view(rows@)), 6), Cell::Active),
{
    let ghost rv = rows_view(rows@);
    let ghost h0 = embed4(rv);
    let plane = Plane::with_rows(copy_rows(rows));
    let mut planes: Vec<Plane> = Vec::new();
    planes.push(plane);
    let space = Space::with_planes(planes);
    let mut spaces: Vec<Space> = Vec::new();
    spaces.push(space);
    let mut hyper = HyperSpace::with_spaces(spaces);
    proof {
        assert(hyper@ =~~= h0);
        assert(depth4(h0) == 1);
        assert(height4(h0) == rv.len());
        assert forall|w: int, z: int, y: int|
            0 <= w < h0.len() && 0 <= z < h0[w].len() && 0 <= y < h0[w][z].len() implies (
        #[trigger] h0[w][z][y]).len() == width4(h0) by {
            assert(rv[y].len() == width2(rv));
        }
        assert(wf4(h0));
    }
    let mut gen: usize = 0;
    while gen < 6
        invariant
            h0 == embed4(rows_view(rows@)),
            gen <= 6,
            hyper@ == life_iter4(h0, gen as nat),
            wf4(hyper@),
            hyper@.len() >= 1,
            depth4(hyper@) >= 1,
            height4(hyper@) >= 1,
        decreases 6 - gen,
    {
        hyper.tick();
        gen = gen + 1;
        proof {
            assert(hyper@ == life_iter4(h0, gen as nat));
        }
    }
    hyper.count_active()
}

/// The active-cell count of the four-dimensional simulation after its six
/// generations.
pub fn part_two(rows: &Vec<Row>) -> (r: usize)
    requires
        rows@.len() >= 1,
        wf2(rows_view(rows@)),
        13 * 13 * ((rows@.len() + 12) * (width2(rows_view(rows@)) + 12)) <= usize::MAX,
    ensures
        r == count4(life_iter4(embed4(rows_view(rows@)), 6), Cell::Active),
{
    let ghost rv = rows_view(rows@);
    let ghost h0 = embed4(rv);
    proof {
        assert(depth4(h0) == 1);
        assert(height4(h0) == rv.len());
        assert forall|w: int, z: int, y: int|
            0 <= w < h0.len() && 0 <= z < h0[w].len() && 0 <= y < h0[w][z].len() implies (
        #[trigger] h0[w][z][y]).len() == width4(h0) by {
            assert(rv[y].len() == width2(rv));
        }
        assert(wf4(h0));
        lemma_iter4_shape(h0, 6);
        lemma_total4_product(life_iter4(h0, 6));
        assert((1 + 2 * 6) * (1 + 2 * 6) * (rv.len() + 2 * 6) * (width4(h0) + 2 * 6) == 13 * 13 * ((
        rv.len() + 12) * (width2(rv) + 12))) by (nonlinear_arith)
            requires
                width4(h0) == width2(rv),
        ;
    }
    run_hyperspace(rows)
}

/// Growth invariant in three dimensions: growing adds two to every
/// extent, and every old cell reappears at its position shifted by one in
/// each dimension.
pub proof fn lemma_grow3_preserves(g: Seq<Seq<Seq<Cell>>>, x: int, y: int, z: int)
    requires
        valid3(g, x, y, z),
    ensures
        grow3(g).len() == g.len() + 2,
        grow3(g)[z + 1].len() == g[z].len() + 2,
        grow3(g)[z + 1][y + 1].len() == g[z][y].len() + 2,
        grow3(g)[z + 1][y + 1][x + 1] == g[z][y][x],
{
    assert(grow3(g)[z + 1] == grow2(g[z]));
    assert(grow2(g[z])[y + 1] == grow1(g[z][y]));
    assert(grow1(g[z][y])[x + 1] == g[z][y][x]);
}

/// Growth invariant in four dimensions.
pub proof fn lemma_grow4_preserves(h: Seq<Seq<Seq<Seq<Cell>>>>, x: int, y: int, z: int, w: int)
    requires
        valid4(h, x, y, z, w),
    ensures
        grow4(h).len() == h.len() + 2,
        grow4(h)[w + 1].len() == h[w].len() + 2,
        grow4(h)[w + 1][z + 1].len() == h[w][z].len() + 2,
        grow4(h)[w + 1][z + 1][y + 1].len() == h[w][z][y].len() + 2,
        grow4(h)[w + 1][z + 1][y + 1][x + 1] == h[w][z][y][x],
{
    assert(grow4(h)[w + 1] == grow3(h[w]));
    lemma_grow3_preserves(h[w], x, y, z);
}

/// A prefix of the spatial direction list reaches at most one cell per
/// direction.
proof fn lemma_adj3_upto_len(g: Seq<Seq<Seq<Cell>>>, x: int, y: int, z: int, n: int)
    requires
        0 <= n <= 26,
    ensures
        adj3_upto(g, x, y, z, n).len() <= n,
    decreases n,
{
    if n > 0 {
        lemma_adj3_upto_len(g, x, y, z, n - 1);
    }
}

/// A cube has at most twenty-six adjacent cells.
pub proof fn lemma_adjacent_bound3(g: Seq<Seq<Seq<Cell>>>, x: int, y: int, z: int)
    ensures
        adj3(g, x, y, z).len() <= 26,
{
    lemma_adj3_upto_len(g, x, y, z, 26);
}

/// Whether (`x`, `y`, `z`) lies strictly inside a box space, a full shell
/// of cubes around it.
pub open spec fn interior3(g: Seq<Seq<Seq<Cell>>>, x: int, y: int, z: int) -> bool {
    wf3(g) && 1 <= z && z + 1 < g.len() && 1 <= y && y + 1 < height3(g) && 1 <= x && x + 1
        < width3(g)
}

/// From an interior cube every spatial direction reaches a cell.
proof fn lemma_adj3_upto_full(g: Seq<Seq<Seq<Cell>>>, x: int, y: int, z: int, n: int)
    requires
        interior3(g, x, y, z),
        0 <= n <= 26,
    ensures
        adj3_upto(g, x, y, z, n).len() == n,
    decreases n,
{
    if n > 0 {
        lemma_adj3_upto_full(g, x, y, z, n - 1);
        let dx = dir3(n - 1).0;
        let dy = dir3(n - 1).1;
        let dz = dir3(n - 1).2;
        assert(g[z + dz].len() == height3(g));
        assert(g[z + dz][y + dy].len() == width3(g));
        assert(valid3(g, x + dx, y + dy, z + dz));
    }
}

/// An interior cube has exactly twenty-six adjacent cells.
pub proof fn lemma_adjacent_interior3(g: Seq<Seq<Seq<Cell>>>, x: int, y: int, z: int)
    requires
        interior3(g, x, y, z),
    ensures
        adj3(g, x, y, z).len() == 26,
{
    lemma_adj3_upto_full(g, x, y, z, 26);
}

/// A prefix of the hyperspatial direction list reaches at most one cell
/// per direction.
proof fn lemma_adj4_upto_len(h: Seq<Seq<Seq<Seq<Cell>>>>, x: int, y: int, z: int, w: int, n: int)
    requires
        0 <= n <= 80,
    ensures
        adj4_upto(h, x, y, z, w, n).len() <= n,
    decreases n,
{
    if n > 0 {
        lemma_adj4_upto_len(h, x, y, z, w, n - 1);
    }
}

/// A hypercube has at most eighty adjacent cells.
pub proof fn lemma_adjacent_bound4(h: Seq<Seq<Seq<Seq<Cell>>>>, x: int, y: int, z: int, w: int)
    ensures
        adj4(h, x, y, z, w).len() <= 80,
{
    lemma_adj4_upto_len(h, x, y, z, w, 80);
}

/// Whether (`x`, `y`, `z`, `w`) lies strictly inside a box hyperspace.
pub open spec fn interior4(h: Seq<Seq<Seq<Seq<Cell>>>>, x: int, y: int, z: int, w: int) -> bool {
    wf4(h) && 1 <= w && w + 1 < h.len() && 1 <= z && z + 1 < depth4(h) && 1 <= y && y + 1
        < height4(h) && 1 <= x && x + 1 < width4(h)
}

/// From an interior hypercube every hyperspatial direction reaches a
/// cell.
proof fn lemma_adj4_upto_full(h: Seq<Seq<Seq<Seq<Cell>>>>, x: int, y: int, z: int, w: int, n: int)
    requires
        interior4(h, x, y, z, w),
        0 <= n <= 80,
    ensures
        adj4_upto(h, x, y, z, w, n).len() == n,
    decreases n,
{
    if n > 0 {
        lemma_adj4_upto_full(h, x, y, z, w, n - 1);
        let dx = dir4(n - 1).0;
        let dy = dir4(n - 1).1;
        let dz = dir4(n - 1).2;
        let dw = dir4(n - 1).3;
        assert(h[w + dw].len() == depth4(h));
        assert(h[w + dw][z + dz].len() == height4(h));
        assert(h[w + dw][z + dz][y + dy].len() == width4(h));
        assert(valid4(h, x + dx, y + dy, z + dz, w + dw));
    }
}

/// An interior hypercube has exactly eighty adjacent cells.
pub proof fn lemma_adjacent_interior4(h: Seq<Seq<Seq<Seq<Cell>>>>, x: int, y: int, z: int, w: int)
    requires
        interior4(h, x, y, z, w),
    ensures
        adj4(h, x, y, z, w).len() == 80,
{
    lemma_adj4_upto_full(h, x, y, z, w, 80);
}

/// Whether every cell of a space is inactive.
pub open spec fn all_inactive3(s: Seq<Seq<Seq<Cell>>>) -> bool {
    forall|x: int, y: int, z: int| valid3(s, x, y, z) ==> s[z][y][x] == Cell::Inactive
}

/// Whether every cell of a hyperspace is inactive.
pub open spec fn all_inactive4(h: Seq<Seq<Seq<Seq<Cell>>>>) -> bool {
    forall|x: int, y: int, z: int, w: int| valid4(h, x, y, z, w) ==> h[w][z][y][x]
        == Cell::Inactive
}

/// A row of inactive cells has no active one.
proof fn lemma_count_row_inactive(s: Seq<Cell>)
    requires
        forall|i: int| 0 <= i < s.len() ==> s[i] == Cell::Inactive,
    ensures
        count_cell(s, Cell::Active) == 0,
    decreases s.len(),
{
    if s.len() > 0 {
        lemma_count_row_inactive(s.drop_last());
    }
}

/// An all-inactive space counts no active cell.
proof fn lemma_count3_inactive(s: Seq<Seq<Seq<Cell>>>)
    requires
        all_inactive3(s),
    ensures
        count3(s, Cell::Active) == 0,
    decreases s.len(),
{
    if s.len() > 0 {
        let q = s.drop_last();
        assert(all_inactive3(q)) by {
            assert forall|x: int, y: int, z: int| valid3(q, x, y, z) implies q[z][y][x]
                == Cell::Inactive by {
                assert(valid3(s, x, y, z));
            }
        }
        lemma_count3_inactive(q);
        lemma_count2_last_inactive(s);
    }
}

/// The last plane of an all-inactive space counts no active cell.
proof fn lemma_count2_last_inactive(s: Seq<Seq<Seq<Cell>>>)
    requires
        all_inactive3(s),
        s.len() > 0,
    ensures
        count2(s.last(), Cell::Active) == 0,
{
    lemma_count2_inactive_in(s, s.len() - 1, s.last());
}

/// Any plane of an all-inactive space counts no active cell, shown plane
/// by plane, row by row.
proof fn lemma_count2_inactive_in(s: Seq<Seq<Seq<Cell>>>, z: int, p: Seq<Seq<Cell>>)
    requires
        all_inactive3(s),
        0 <= z < s.len(),
        p.is_prefix_of(s[z]),
    ensures
        count2(p, Cell::Active) == 0,
    decreases p.len(),
{
    if p.len() > 0 {
        lemma_count2_inactive_in(s, z, p.drop_last());
        let row = p.last();
        assert(row == s[z][p.len() - 1]);
        assert forall|i: int| 0 <= i < row.len() implies row[i] == Cell::Inactive by {
            assert(valid3(s, i, p.len() - 1, z));
        }
        lemma_count_row_inactive(row);
    }
}

/// Every neighbour list drawn from an all-inactive space is inactive.
proof fn lemma_adj3_upto_inactive(s: Seq<Seq<Seq<Cell>>>, x: int, y: int, z: int, n: int)
    requires
        all_inactive3(s),
        0 <= n <= 26,
    ensures
        count_cell(adj3_upto(s, x, y, z, n), Cell::Active) == 0,
    decreases n,
{
    if n > 0 {
        lemma_adj3_upto_inactive(s, x, y, z, n - 1);
        let dx = dir3(n - 1).0;
        let dy = dir3(n - 1).1;
        let dz = dir3(n - 1).2;
        let prefix = adj3_upto(s, x, y, z, n - 1);
        if valid3(s, x + dx, y + dy, z + dz) {
            let c = s[z + dz][y + dy][x + dx];
            assert(c == Cell::Inactive);
            assert((prefix + seq![c]).drop_last() =~= prefix);
            assert((prefix + seq![c]).last() == c);
        } else {
            assert(adj3_upto(s, x, y, z, n) =~= prefix);
        }
    }
}

/// Stepping an all-inactive space leaves it all inactive.
proof fn lemma_step3_inactive(s: Seq<Seq<Seq<Cell>>>)
    requires
        all_inactive3(s),
    ensures
        all_inactive3(step3(s)),
{
    assert forall|x: int, y: int, z: int| valid3(step3(s), x, y, z) implies step3(s)[z][y][x]
        == Cell::Inactive by {
        assert(valid3(s, x, y, z));
        lemma_adj3_upto_inactive(s, x, y, z, 26);
        assert(step3(s)[z][y][x] == life_next(s[z][y][x], 0));
    }
}

/// Growing an all-inactive space leaves it all inactive.
proof fn lemma_grow3_inactive(s: Seq<Seq<Seq<Cell>>>)
    requires
        all_inactive3(s),
    ensures
        all_inactive3(grow3(s)),
{
    let g = grow3(s);
    assert forall|x: int, y: int, z: int| valid3(g, x, y, z) implies g[z][y][x]
        == Cell::Inactive by {
        if 1 <= z <= s.len() {
            assert(g[z] == grow2(s[z - 1]));
            if 1 <= y <= s[z - 1].len() {
                assert(g[z][y] == grow1(s[z - 1][y - 1]));
                if 1 <= x <= s[z - 1][y - 1].len() {
                    assert(g[z][y][x] == s[z - 1][y - 1][x - 1]);
                    assert(valid3(s, x - 1, y - 1, z - 1));
                }
            }
        }
    }
}

/// Idempotent emptiness in three dimensions: an all-inactive space stays
/// all inactive through any number of generations, growing in extent and
/// counting zero active cells.
pub proof fn lemma_idempotent_empty3(s: Seq<Seq<Seq<Cell>>>, n: nat)
    requires
        all_inactive3(s),
    ensures
        all_inactive3(life_iter3(s, n)),
        count3(life_iter3(s, n), Cell::Active) == 0,
        life_iter3(s, n).len() == s.len() + 2 * n,
    decreases n,
{
    if n == 0 {
        lemma_count3_inactive(s);
    } else {
        lemma_idempotent_empty3(s, (n - 1) as nat);
        let prev = life_iter3(s, (n - 1) as nat);
        lemma_grow3_inactive(prev);
        lemma_step3_inactive(grow3(prev));
        lemma_step3_shape(grow3(prev));
        lemma_count3_inactive(life_iter3(s, n));
    }
}

/// Every neighbour list drawn from an all-inactive hyperspace is
/// inactive.
proof fn lemma_adj4_upto_inactive(h: Seq<Seq<Seq<Seq<Cell>>>>, x: int, y: int, z: int, w: int, n: int)
    requires
        all_inactive4(h),
        0 <= n <= 80,
    ensures
        count_cell(adj4_upto(h, x, y, z, w, n), Cell::Active) == 0,
    decreases n,
{
    if n > 0 {
        lemma_adj4_upto_inactive(h, x, y, z, w, n - 1);
        let dx = dir4(n - 1).0;
        let dy = dir4(n - 1).1;
        let dz = dir4(n - 1).2;
        let dw = dir4(n - 1).3;
        let prefix = adj4_upto(h, x, y, z, w, n - 1);
        if valid4(h, x + dx, y + dy, z + dz, w + dw) {
            let c = h[w + dw][z + dz][y + dy][x + dx];
            assert(c == Cell::Inactive);
            assert((prefix + seq![c]).drop_last() =~= prefix);
            assert((prefix + seq![c]).last() == c);
        } else {
            assert(adj4_upto(h, x, y, z, w, n) =~= prefix);
        }
    }
}

/// Stepping an all-inactive hyperspace leaves it all inactive.
proof fn lemma_step4_inactive(h: Seq<Seq<Seq<Seq<Cell>>>>)
    requires
        all_inactive4(h),
    ensures
        all_inactive4(step4(h)),
{
    assert forall|x: int, y: int, z: int, w: int| valid4(step4(h), x, y, z, w) implies step4(
        h,
    )[w][z][y][x] == Cell::Inactive by {
        assert(valid4(h, x, y, z, w));
        lemma_adj4_upto_inactive(h, x, y, z, w, 80);
        assert(step4(h)[w][z][y][x] == life_next(h[w][z][y][x], 0));
    }
}

/// Growing an all-inactive hyperspace leaves it all inactive.
proof fn lemma_grow4_inactive(h: Seq<Seq<Seq<Seq<Cell>>>>)
    requires
        all_inactive4(h),
    ensures
        all_inactive4(grow4(h)),
{
    let g = grow4(h);
    assert forall|x: int, y: int, z: int, w: int| valid4(g, x, y, z, w) implies g[w][z][y][x]
        == Cell::Inactive by {
        if 1 <= w <= h.len() {
            assert(g[w] == grow3(h[w - 1]));
            assert(all_inactive3(h[w - 1])) by {
                assert forall|xx: int, yy: int, zz: int| #[trigger] valid3(
                    h[w - 1],
                    xx,
                    yy,
                    zz,
                ) implies h[w - 1][zz][yy][xx] == Cell::Inactive by {
                    assert(valid4(h, xx, yy, zz, w - 1));
                }
            }
            lemma_grow3_inactive(h[w - 1]);
            assert(valid3(g[w], x, y, z));
        }
    }
}

/// An all-inactive hyperspace counts no active cell.
proof fn lemma_count4_inactive(h: Seq<Seq<Seq<Seq<Cell>>>>)
    requires
        all_inactive4(h),
    ensures
        count4(h, Cell::Active) == 0,
    decreases h.len(),
{
    if h.len() > 0 {
        let q = h.drop_last();
        assert(all_inactive4(q)) by {
            assert forall|x: int, y: int, z: int, w: int| valid4(q, x, y, z, w) implies q[w][z][y][x]
                == Cell::Inactive by {
                assert(valid4(h, x, y, z, w));
            }
        }
        lemma_count4_inactive(q);
        assert(all_inactive3(h.last())) by {
            assert forall|x: int, y: int, z: int| valid3(h.last(), x, y, z) implies h.last()[z][y][x]
                == Cell::Inactive by {
                assert(valid4(h, x, y, z, h.len() - 1));
            }
        }
        lemma_count3_inactive(h.last());
    }
}

/// Idempotent emptiness in four dimensions.
pub proof fn lemma_idempotent_empty4(h: Seq<Seq<Seq<Seq<Cell>>>>, n: nat)
    requires
        all_inactive4(h),
    ensures
        all_inactive4(life_iter4(h, n)),
        count4(life_iter4(h, n), Cell::Active) == 0,
        life_iter4(h, n).len() == h.len() + 2 * n,
    decreases n,
{
    if n == 0 {
        lemma_count4_inactive(h);
    } else {
        lemma_idempotent_empty4(h, (n - 1) as nat);
        let prev = life_iter4(h, (n - 1) as nat);
        lemma_grow4_inactive(prev);
        lemma_step4_inactive(grow4(prev));
        lemma_step4_shape(grow4(prev));
        lemma_count4_inactive(life_iter4(h, n));
    }
}

/// Whether every row of a parsed pattern has the width of the first.
pub fn rows_uniform(rows: &Vec<Row>) -> (b: bool)
    ensures
        b == wf2(rows_view(rows@)),
{
    let width = if rows.len() == 0 {
        0
    } else {
        rows[0].width()
    };
    let mut y: usize = 0;
    while y < rows.len()
        invariant
            y <= rows@.len(),
            width == width2(rows_view(rows@)),
            forall|q: int| 0 <= q < y ==> #[trigger] rows_view(rows@)[q].len() == width,
        decreases rows@.len() - y,
    {
        if rows[y].width() != width {
            proof {
                assert(rows_view(rows@)[y as int] == rows@[y as int]@);
            }
            return false;
        }
        y = y + 1;
    }
    true
}

} // verus!
