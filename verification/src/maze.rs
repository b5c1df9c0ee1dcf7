//! A maze on a grid, with walls set at random, and a search for a way
//! through it.

use crate::node::{share, Node};
use ndarray::Array2;
use rand::Rng;
use std::collections::HashSet;
use std::rc::Rc;
use vstd::prelude::*;
use vstd::set_lib::{lemma_int_range, lemma_len_subset, set_int_range};

verus! {

/// What a cell of the maze holds.
#[derive(Clone, Copy, PartialEq, Eq, Debug, Structural)]
pub enum Cell {
    Empty,
    Blocked,
    Start,
    Goal,
    Path,
}

/// The grid of the maze: a two-dimensional array of `ndarray`, kept out of
/// sight of the verifier. What it holds is known by `grid_cells`.
#[verifier::external_body]
pub struct Grid {
    cells: Array2<Cell>,
}

/// The cells that a grid holds, row by row.
pub uninterp spec fn grid_cells(grid: Grid) -> Seq<Seq<Cell>>;

/// Whether `cells` are the cells of a grid of `rows` by `cols`.
pub open spec fn has_shape(cells: Seq<Seq<Cell>>, rows: int, cols: int) -> bool {
    &&& cells.len() == rows
    &&& forall|r: int| 0 <= r < rows ==> (#[trigger] cells[r]).len() == cols
}

/// What a side of a grid counts for in the size that `ndarray` checks: its
/// length, and one where it is empty.
pub open spec fn side(length: usize) -> int {
    if length == 0 {
        1
    } else {
        length as int
    }
}

/// Makes a grid of `rows` by `cols` cells that all hold `value`.
///
/// Calls `from_elem` of `ndarray::ArrayBase`, which panics where the product
/// of the sides that are not empty is beyond `isize`, also where the other
/// side is empty: such sizes are left out. The contract claims that the grid
/// has `rows` rows of `cols` cells, each equal to `value`.
#[verifier::external_body]
fn grid_new(rows: usize, cols: usize, value: Cell) -> (grid: Grid)
    requires
        side(rows) * side(cols) <= isize::MAX,
    ensures
        grid_cells(grid) == Seq::new(rows as nat, |r: int| Seq::new(cols as nat, |c: int| value)),
{
    Grid { cells: Array2::from_elem((rows, cols), value) }
}

/// Returns the cell in row `r` and column `c`.
///
/// Calls `index` of `ndarray::ArrayBase` with the pair of `r` and `c`, which
/// panics where one of them is beyond the grid: such pairs are left out.
/// The contract claims that the result is the cell at that place.
#[verifier::external_body]
fn grid_get(grid: &Grid, r: usize, c: usize) -> (value: Cell)
    requires
        r < grid_cells(*grid).len(),
        c < grid_cells(*grid)[r as int].len(),
    ensures
        value == grid_cells(*grid)[r as int][c as int],
{
    grid.cells[[r, c]]
}

/// Puts `value` into the cell in row `r` and column `c`.
///
/// Calls `index_mut` of `ndarray::ArrayBase` with the pair of `r` and `c`,
/// which panics where one of them is beyond the grid: such pairs are left
/// out. The contract claims that afterwards the cell at that place holds
/// `value`, and every other cell what it held.
#[verifier::external_body]
fn grid_set(grid: &mut Grid, r: usize, c: usize, value: Cell)
    requires
        r < grid_cells(*old(grid)).len(),
        c < grid_cells(*old(grid))[r as int].len(),
    ensures
        grid_cells(*final(grid)) == grid_cells(*old(grid)).update(
            r as int,
            grid_cells(*old(grid))[r as int].update(c as int, value),
        ),
{
    grid.cells[[r, c]] = value;
}

/// Rolls a die of `sides` sides, numbered from 0.
///
/// Calls `gen_range` of `rand::Rng`, with the range from 0 up to `sides`, on
/// the generator that `rand::thread_rng` returns. An empty range makes it
/// panic and is left out; `thread_rng` panics where the system cannot seed
/// the generator, which no argument decides. The contract claims what holds
/// of every roll: the result lies in the range.
#[verifier::external_body]
fn roll(sides: u32) -> (r: u32)
    requires
        sides > 0,
    ensures
        r < sides,
{
    rand::thread_rng().gen_range(0..sides)
}

/// A place in the maze.
#[derive(Clone, Copy, PartialEq, Eq, Debug, Hash, Structural)]
pub struct MazeLocation {
    pub row: usize,
    pub col: usize,
}

/// A maze: a grid of cells, with the places where the way starts and ends,
/// and the share of cells, in hundredths, that were blocked at random.
pub struct Maze {
    pub rows: usize,
    pub cols: usize,
    pub sparseness: u8,
    pub start: MazeLocation,
    pub goal: MazeLocation,
    pub grid: Grid,
}

/// Whether the place lies on a grid of these cells.
pub open spec fn in_grid(cells: Seq<Seq<Cell>>, m: MazeLocation) -> bool {
    m.row < cells.len() && m.col < cells[m.row as int].len()
}

/// Whether row `r`, column `c` is a cell of the grid that is not blocked.
pub open spec fn open_at(cells: Seq<Seq<Cell>>, r: int, c: int) -> bool {
    0 <= r < cells.len() && 0 <= c < cells[r].len() && cells[r][c] != Cell::Blocked
}

/// `found`, and behind it the place in row `r`, column `c`, where that is a
/// cell of the grid that is not blocked.
pub open spec fn with_step(
    cells: Seq<Seq<Cell>>,
    found: Seq<MazeLocation>,
    r: int,
    c: int,
) -> Seq<MazeLocation> {
    if open_at(cells, r, c) {
        found.push(MazeLocation { row: r as usize, col: c as usize })
    } else {
        found
    }
}

/// The places that one step leads to from `m`: the cells below, to the
/// right, above and to the left of it, in this order, that are not blocked.
pub open spec fn neighbours(cells: Seq<Seq<Cell>>, m: MazeLocation) -> Seq<MazeLocation> {
    with_step(
        cells,
        with_step(
            cells,
            with_step(cells, with_step(cells, Seq::empty(), m.row + 1, m.col as int), m.row as int, m.col + 1),
            m.row - 1,
            m.col as int,
        ),
        m.row as int,
        m.col - 1,
    )
}

/// The cells after the walls are set: a cell is blocked where `walls` says
/// so, and keeps what it held elsewhere; then the first cell gets the start
/// and the last cell the goal.
pub open spec fn walled(cells: Seq<Seq<Cell>>, walls: Seq<Seq<bool>>) -> Seq<Seq<Cell>> {
    let rows = cells.len() as int;
    let cols = cells[0].len() as int;
    Seq::new(
        cells.len(),
        |r: int|
            Seq::new(
                cells[r].len(),
                |c: int|
                    if r == rows - 1 && c == cols - 1 {
                        Cell::Goal
                    } else if r == 0 && c == 0 {
                        Cell::Start
                    } else if walls[r][c] {
                        Cell::Blocked
                    } else {
                        cells[r][c]
                    },
            ),
    )
}

/// The cells after a path is drawn with `ink`: the cells of the path hold
/// `ink`, but for the start and the goal, which hold their own marks.
pub open spec fn drawn(
    cells: Seq<Seq<Cell>>,
    path: Seq<MazeLocation>,
    ink: Cell,
    start: MazeLocation,
    goal: MazeLocation,
) -> Seq<Seq<Cell>> {
    Seq::new(
        cells.len(),
        |r: int|
            Seq::new(
                cells[r].len(),
                |c: int|
                    if r == goal.row && c == goal.col {
                        Cell::Goal
                    } else if r == start.row && c == start.col {
                        Cell::Start
                    } else if path.contains(MazeLocation { row: r as usize, col: c as usize }) {
                        ink
                    } else {
                        cells[r][c]
                    },
            ),
    )
}

/// Draws the walls of a maze of `rows` by `cols` at random: each cell is a
/// wall with a chance of `sparseness` in a hundred.
pub fn random_walls(rows: usize, cols: usize, sparseness: u8) -> (walls: Vec<Vec<bool>>)
    ensures
        walls.len() == rows,
        forall|r: int| 0 <= r < rows ==> (#[trigger] walls@[r]).len() == cols,
        sparseness == 0 ==> forall|r: int, c: int|
            0 <= r < rows && 0 <= c < cols ==> !(#[trigger] walls@[r]@[c]),
        sparseness >= 100 ==> forall|r: int, c: int|
            0 <= r < rows && 0 <= c < cols ==> #[trigger] walls@[r]@[c],
{
    let mut walls: Vec<Vec<bool>> = Vec::new();
    let mut r: usize = 0;
    while r < rows
        invariant
            r <= rows,
            walls.len() == r,
            forall|i: int| 0 <= i < r ==> (#[trigger] walls@[i]).len() == cols,
            sparseness == 0 ==> forall|i: int, c: int|
                0 <= i < r && 0 <= c < cols ==> !(#[trigger] walls@[i]@[c]),
            sparseness >= 100 ==> forall|i: int, c: int|
                0 <= i < r && 0 <= c < cols ==> #[trigger] walls@[i]@[c],
        decreases rows - r,
    {
        let mut row: Vec<bool> = Vec::new();
        let mut c: usize = 0;
        while c < cols
            invariant
                c <= cols,
                row.len() == c,
                sparseness == 0 ==> forall|j: int| 0 <= j < c ==> !(#[trigger] row@[j]),
                sparseness >= 100 ==> forall|j: int| 0 <= j < c ==> #[trigger] row@[j],
            decreases cols - c,
        {
            row.push(roll(100) < sparseness as u32);
            c += 1;
        }
        walls.push(row);
        r += 1;
    }
    walls
}

impl Cell {
    /// Returns the character that stands for the cell in a picture of the
    /// maze.
    pub fn symbol(&self) -> (c: char)
        ensures
            c == match *self {
                Cell::Empty => ' ',
                Cell::Blocked => '0',
                Cell::Start => 'S',
                Cell::Goal => 'G',
                Cell::Path => '.',
            },
    {
        match self {
            Cell::Empty => ' ',
            Cell::Blocked => '0',
            Cell::Start => 'S',
            Cell::Goal => 'G',
            Cell::Path => '.',
        }
    }
}

impl Maze {
    /// The cells of the maze, row by row.
    pub open spec fn cells(&self) -> Seq<Seq<Cell>> {
        grid_cells(self.grid)
    }

    /// Whether the grid has the size that the maze says, which is not
    /// empty, and the start and the goal lie on it.
    pub open spec fn wf(&self) -> bool {
        &&& self.rows >= 1
        &&& self.cols >= 1
        &&& self.rows * self.cols <= isize::MAX
        &&& has_shape(self.cells(), self.rows as int, self.cols as int)
        &&& in_grid(self.cells(), self.start)
        &&& in_grid(self.cells(), self.goal)
    }

    /// Makes a maze of `rows` by `cols` with the walls given, the start in
    /// the first cell and the goal in the last.
    pub fn with_walls(rows: usize, cols: usize, sparseness: u8, walls: &Vec<Vec<bool>>) -> (m: Maze)
        requires
            rows >= 1,
            cols >= 1,
            rows * cols <= isize::MAX,
            walls.len() == rows,
            forall|r: int| 0 <= r < rows ==> (#[trigger] walls@[r]).len() == cols,
        ensures
            m.wf(),
            m.rows == rows,
            m.cols == cols,
            m.sparseness == sparseness,
            m.start == (MazeLocation { row: 0, col: 0 }),
            m.goal == (MazeLocation { row: (rows - 1) as usize, col: (cols - 1) as usize }),
            m.cells() == walled(
                Seq::new(rows as nat, |r: int| Seq::new(cols as nat, |c: int| Cell::Empty)),
                Seq::new(rows as nat, |r: int| walls@[r]@),
            ),
    {
        let start = MazeLocation { row: 0, col: 0 };
        let goal = MazeLocation { row: rows - 1, col: cols - 1 };
        let grid = grid_new(rows, cols, Cell::Empty);
        let mut m = Maze { rows, cols, sparseness, start, goal, grid };
        m.fill(walls);
        m
    }

    /// Makes a maze of `rows` by `cols`, with walls set at random: each cell
    /// but the start and the goal is a wall with a chance of `sparseness` in
    /// a hundred.
    pub fn new(rows: usize, cols: usize, sparseness: u8) -> (m: Maze)
        requires
            rows >= 1,
            cols >= 1,
            rows * cols <= isize::MAX,
        ensures
            m.wf(),
            m.rows == rows,
            m.cols == cols,
            m.sparseness == sparseness,
            m.start == (MazeLocation { row: 0, col: 0 }),
            m.goal == (MazeLocation { row: (rows - 1) as usize, col: (cols - 1) as usize }),
            m.cells()[rows - 1][cols - 1] == Cell::Goal,
            rows > 1 || cols > 1 ==> m.cells()[0][0] == Cell::Start,
            forall|r: int, c: int|
                0 <= r < rows && 0 <= c < cols && !(r == 0 && c == 0) && !(r == rows - 1 && c
                    == cols - 1) ==> (#[trigger] m.cells()[r][c] == Cell::Empty && sparseness < 100)
                    || (m.cells()[r][c] == Cell::Blocked && sparseness > 0),
    {
        let start = MazeLocation { row: 0, col: 0 };
        let goal = MazeLocation { row: rows - 1, col: cols - 1 };
        let grid = grid_new(rows, cols, Cell::Empty);
        let mut m = Maze { rows, cols, sparseness, start, goal, grid };
        m.randomly_fill(sparseness);
        m
    }

    /// Sets walls at random: each cell becomes a wall with a chance of
    /// `sparseness` in a hundred; then the first cell gets the start and the
    /// last cell the goal.
    pub fn randomly_fill(&mut self, sparseness: u8)
        requires
            old(self).wf(),
        ensures
            final(self).wf(),
            final(self).rows == old(self).rows,
            final(self).cols == old(self).cols,
            final(self).sparseness == old(self).sparseness,
            final(self).start == old(self).start,
            final(self).goal == old(self).goal,
            exists|walls: Seq<Seq<bool>>| #[trigger]
                walled(old(self).cells(), walls) == final(self).cells() && (sparseness == 0
                    ==> forall|r: int, c: int|
                    0 <= r < old(self).rows && 0 <= c < old(self).cols ==> !(
                    #[trigger] walls[r][c])) && (sparseness >= 100 ==> forall|r: int, c: int|
                    0 <= r < old(self).rows && 0 <= c < old(self).cols ==> #[trigger] walls[r][c]),
    {
        let walls = random_walls(self.rows, self.cols, sparseness);
        self.fill(&walls);
        proof {
            let chosen = Seq::new(self.rows as nat, |r: int| walls@[r]@);
            assert(walled(old(self).cells(), chosen) == self.cells());
        }
    }

    /// Sets the walls given: a cell becomes a wall where `walls` says so;
    /// then the first cell gets the start and the last cell the goal.
    pub fn fill(&mut self, walls: &Vec<Vec<bool>>)
        requires
            old(self).wf(),
            walls.len() == old(self).rows,
            forall|r: int| 0 <= r < old(self).rows ==> (#[trigger] walls@[r]).len() == old(self).cols,
        ensures
            final(self).wf(),
            final(self).rows == old(self).rows,
            final(self).cols == old(self).cols,
            final(self).sparseness == old(self).sparseness,
            final(self).start == old(self).start,
            final(self).goal == old(self).goal,
            final(self).cells() == walled(
                old(self).cells(),
                Seq::new(old(self).rows as nat, |r: int| walls@[r]@),
            ),
    {
        let ghost before = self.cells();
        let ghost flags = Seq::new(self.rows as nat, |r: int| walls@[r]@);
        let mut r: usize = 0;
        while r < self.rows
            invariant
                r <= self.rows,
                self.rows == old(self).rows,
                self.cols == old(self).cols,
                self.sparseness == old(self).sparseness,
                self.start == old(self).start,
                self.goal == old(self).goal,
                walls.len() == self.rows,
                forall|i: int| 0 <= i < self.rows ==> (#[trigger] walls@[i]).len() == self.cols,
                has_shape(before, self.rows as int, self.cols as int),
                has_shape(self.cells(), self.rows as int, self.cols as int),
                forall|i: int, j: int|
                    0 <= i < self.rows && 0 <= j < self.cols ==> #[trigger] self.cells()[i][j]
                        == if i < r && walls@[i]@[j] {
                        Cell::Blocked
                    } else {
                        before[i][j]
                    },
            decreases self.rows - r,
        {
            let mut c: usize = 0;
            while c < self.cols
                invariant
                    r < self.rows,
                    c <= self.cols,
                    self.rows == old(self).rows,
                    self.cols == old(self).cols,
                    self.sparseness == old(self).sparseness,
                    self.start == old(self).start,
                    self.goal == old(self).goal,
                    walls.len() == self.rows,
                    forall|i: int| 0 <= i < self.rows ==> (#[trigger] walls@[i]).len() == self.cols,
                    has_shape(before, self.rows as int, self.cols as int),
                    has_shape(self.cells(), self.rows as int, self.cols as int),
                    forall|i: int, j: int|
                        0 <= i < self.rows && 0 <= j < self.cols ==> #[trigger] self.cells()[i][j]
                            == if (i < r || (i == r && j < c)) && walls@[i]@[j] {
                            Cell::Blocked
                        } else {
                            before[i][j]
                        },
                decreases self.cols - c,
            {
                if walls[r][c] {
                    grid_set(&mut self.grid, r, c, Cell::Blocked);
                }
                c += 1;
            }
            r += 1;
        }
        grid_set(&mut self.grid, 0, 0, Cell::Start);
        grid_set(&mut self.grid, self.rows - 1, self.cols - 1, Cell::Goal);
        proof {
            let after = walled(before, flags);
            assert(self.cells().len() == after.len());
            assert forall|i: int| 0 <= i < self.rows implies #[trigger] self.cells()[i]
                == after[i] by {
                assert(self.cells()[i].len() == after[i].len());
                assert forall|j: int| 0 <= j < self.cols implies self.cells()[i][j]
                    == after[i][j] by {}
            }
            assert(self.cells() == after);
        }
    }

    /// Returns the cell in row `r`, column `c`.
    pub fn cell(&self, r: usize, c: usize) -> (cell: Cell)
        requires
            self.wf(),
            r < self.rows,
            c < self.cols,
        ensures
            cell == self.cells()[r as int][c as int],
    {
        grid_get(&self.grid, r, c)
    }

    /// Returns whether the place is the goal.
    pub fn goal(&self, ml: MazeLocation) -> (b: bool)
        ensures
            b == (ml == self.goal),
    {
        ml == self.goal
    }

    /// Returns the places that one step leads to from `m`, a place of the
    /// maze.
    pub fn successors(&self, m: MazeLocation) -> (locations: Vec<MazeLocation>)
        requires
            self.wf(),
            in_grid(self.cells(), m),
        ensures
            locations@ == neighbours(self.cells(), m),
    {
        let r = m.row;
        let c = m.col;
        let mut locations: Vec<MazeLocation> = Vec::with_capacity(4);
        if r + 1 < self.rows && grid_get(&self.grid, r + 1, c) != Cell::Blocked {
            locations.push(MazeLocation { row: r + 1, col: c })
        }
        if m.col + 1 < self.cols && grid_get(&self.grid, r, c + 1) != Cell::Blocked {
            locations.push(MazeLocation { row: r, col: c + 1 })
        }
        if m.row != 0 && grid_get(&self.grid, r - 1, c) != Cell::Blocked {
            locations.push(MazeLocation { row: r - 1, col: c })
        }
        if m.col != 0 && grid_get(&self.grid, r, c - 1) != Cell::Blocked {
            locations.push(MazeLocation { row: r, col: c - 1 })
        }
        locations
    }

    /// Draws the path into the maze with `ink`, and the start and the goal
    /// on top of it.
    fn draw(&mut self, path: &Vec<MazeLocation>, ink: Cell)
        requires
            old(self).wf(),
            forall|k: int| 0 <= k < path.len() ==> in_grid(old(self).cells(), #[trigger] path@[k]),
        ensures
            final(self).wf(),
            final(self).rows == old(self).rows,
            final(self).cols == old(self).cols,
            final(self).sparseness == old(self).sparseness,
            final(self).start == old(self).start,
            final(self).goal == old(self).goal,
            final(self).cells() == drawn(
                old(self).cells(),
                path@,
                ink,
                old(self).start,
                old(self).goal,
            ),
    {
        let ghost before = self.cells();
        let mut i: usize = 0;
        while i < path.len()
            invariant
                i <= path.len(),
                self.rows == old(self).rows,
                self.cols == old(self).cols,
                self.sparseness == old(self).sparseness,
                self.start == old(self).start,
                self.goal == old(self).goal,
                self.rows >= 1,
                self.cols >= 1,
                in_grid(before, self.start),
                in_grid(before, self.goal),
                has_shape(before, self.rows as int, self.cols as int),
                has_shape(self.cells(), self.rows as int, self.cols as int),
                forall|k: int| 0 <= k < path.len() ==> in_grid(before, #[trigger] path@[k]),
                forall|r: int, c: int|
                    0 <= r < self.rows && 0 <= c < self.cols ==> #[trigger] self.cells()[r][c]
                        == if path@.take(i as int).contains(
                        MazeLocation { row: r as usize, col: c as usize },
                    ) {
                        ink
                    } else {
                        before[r][c]
                    },
            decreases path.len() - i,
        {
            let p = path[i];
            proof {
                assert(in_grid(before, path@[i as int]));
                let short = path@.take(i as int);
                let long = path@.take(i + 1);
                assert(long == short.push(p));
                assert forall|m: MazeLocation| long.contains(m) <==> (short.contains(m) || m
                    == p) by {
                    if long.contains(m) {
                        let k = choose|k: int| 0 <= k < long.len() && long[k] == m;
                        if k < i {
                            assert(short[k] == m);
                        }
                    }
                    if short.contains(m) {
                        let k = choose|k: int| 0 <= k < short.len() && short[k] == m;
                        assert(long[k] == m);
                    }
                    if m == p {
                        assert(long[i as int] == m);
                    }
                }
            }
            grid_set(&mut self.grid, p.row, p.col, ink);
            i += 1;
        }
        grid_set(&mut self.grid, self.start.row, self.start.col, Cell::Start);
        grid_set(&mut self.grid, self.goal.row, self.goal.col, Cell::Goal);
        proof {
            assert(path@.take(i as int) == path@);
            let after = drawn(before, path@, ink, self.start, self.goal);
            assert(self.cells().len() == after.len());
            assert forall|r: int| 0 <= r < self.rows implies #[trigger] self.cells()[r]
                == after[r] by {
                assert(self.cells()[r].len() == after[r].len());
                assert forall|c: int| 0 <= c < self.cols implies self.cells()[r][c]
                    == after[r][c] by {}
            }
            assert(self.cells() == after);
        }
    }

    /// Marks the cells of the path, but for the start and the goal.
    pub fn mark(&mut self, path: &Vec<MazeLocation>)
        requires
            old(self).wf(),
            forall|k: int| 0 <= k < path.len() ==> in_grid(old(self).cells(), #[trigger] path@[k]),
        ensures
            final(self).wf(),
            final(self).rows == old(self).rows,
            final(self).cols == old(self).cols,
            final(self).sparseness == old(self).sparseness,
            final(self).start == old(self).start,
            final(self).goal == old(self).goal,
            final(self).cells() == drawn(
                old(self).cells(),
                path@,
                Cell::Path,
                old(self).start,
                old(self).goal,
            ),
    {
        self.draw(path, Cell::Path);
    }

    /// Empties the cells of the path, but for the start and the goal.
    pub fn clear(&mut self, path: &Vec<MazeLocation>)
        requires
            old(self).wf(),
            forall|k: int| 0 <= k < path.len() ==> in_grid(old(self).cells(), #[trigger] path@[k]),
        ensures
            final(self).wf(),
            final(self).rows == old(self).rows,
            final(self).cols == old(self).cols,
            final(self).sparseness == old(self).sparseness,
            final(self).start == old(self).start,
            final(self).goal == old(self).goal,
            final(self).cells() == drawn(
                old(self).cells(),
                path@,
                Cell::Empty,
                old(self).start,
                old(self).goal,
            ),
    {
        self.draw(path, Cell::Empty);
    }
}

/// Whether `path` is a way from `start` by steps between neighbours that
/// are not blocked.
pub open spec fn route_in(cells: Seq<Seq<Cell>>, path: Seq<MazeLocation>, start: MazeLocation) -> bool {
    &&& path.len() >= 1
    &&& path[0] == start
    &&& forall|i: int|
        0 <= i < path.len() - 1 ==> neighbours(cells, #[trigger] path[i]).contains(path[i + 1])
}

/// Whether there is a way from `start` to `goal`.
pub open spec fn reachable(cells: Seq<Seq<Cell>>, start: MazeLocation, goal: MazeLocation) -> bool {
    exists|path: Seq<MazeLocation>| #[trigger] route_in(cells, path, start) && path.last() == goal
}

/// A number that tells the places of a grid of `cols` columns apart.
pub open spec fn code(m: MazeLocation, cols: int) -> int {
    m.row * cols + m.col
}

/// The numbers of the places of a grid lie below the number of its cells,
/// and two places with one number are one place.
proof fn lemma_codes(a: MazeLocation, b: MazeLocation, rows: int, cols: int)
    requires
        a.row < rows,
        a.col < cols,
        b.row < rows,
        b.col < cols,
    ensures
        0 <= code(a, cols) < rows * cols,
        code(a, cols) == code(b, cols) ==> a == b,
{
    let ar = a.row as int;
    let br = b.row as int;
    let ac = a.col as int;
    let bc = b.col as int;
    assert(0 <= ar * cols && ar * cols + cols <= rows * cols) by (nonlinear_arith)
        requires
            0 <= ar < rows,
            0 < cols,
    ;
    if ar < br {
        assert(ar * cols + cols <= br * cols) by (nonlinear_arith)
            requires
                ar < br,
                0 < cols,
        ;
    }
    if br < ar {
        assert(br * cols + cols <= ar * cols) by (nonlinear_arith)
            requires
                br < ar,
                0 < cols,
        ;
    }
}

/// What `with_step` holds.
proof fn lemma_with_step(cells: Seq<Seq<Cell>>, found: Seq<MazeLocation>, r: int, c: int)
    requires
        cells.len() <= usize::MAX,
        forall|i: int| 0 <= i < cells.len() ==> (#[trigger] cells[i]).len() <= usize::MAX,
    ensures
        forall|t: MazeLocation| #[trigger]
            with_step(cells, found, r, c).contains(t) <==> (found.contains(t) || (open_at(
                cells,
                r,
                c,
            ) && t.row == r && t.col == c)),
{
    let all = with_step(cells, found, r, c);
    assert forall|t: MazeLocation| #[trigger] all.contains(t) implies (found.contains(t) || (
    open_at(cells, r, c) && t.row == r && t.col == c)) by {
        let k = choose|k: int| 0 <= k < all.len() && all[k] == t;
        if k < found.len() {
            assert(found[k] == t);
        }
    }
    assert forall|t: MazeLocation|
        (found.contains(t) || (open_at(cells, r, c) && t.row == r && t.col
            == c)) implies #[trigger] all.contains(t) by {
        if found.contains(t) {
            let k = choose|k: int| 0 <= k < found.len() && found[k] == t;
            assert(all[k] == t);
        } else {
            assert(all[all.len() - 1] == t);
        }
    }
}

/// The neighbours of a place are cells of the grid.
pub proof fn lemma_neighbours(cells: Seq<Seq<Cell>>, m: MazeLocation, rows: int, cols: int)
    requires
        has_shape(cells, rows, cols),
        rows <= usize::MAX,
        cols <= usize::MAX,
    ensures
        forall|t: MazeLocation| #[trigger] neighbours(cells, m).contains(t) ==> in_grid(cells, t),
{
    let r = m.row as int;
    let c = m.col as int;
    let n1 = with_step(cells, Seq::empty(), r + 1, c);
    let n2 = with_step(cells, n1, r, c + 1);
    let n3 = with_step(cells, n2, r - 1, c);
    lemma_with_step(cells, Seq::empty(), r + 1, c);
    lemma_with_step(cells, n1, r, c + 1);
    lemma_with_step(cells, n2, r - 1, c);
    lemma_with_step(cells, n3, r, c - 1);
    assert forall|t: MazeLocation| #[trigger] neighbours(cells, m).contains(t) implies in_grid(
        cells,
        t,
    ) by {
        assert(!Seq::<MazeLocation>::empty().contains(t));
    }
}

/// Whether a node of the search holds a place of the grid and a way to it
/// from `start`.
pub open spec fn sound_node(cells: Seq<Seq<Cell>>, node: Node<MazeLocation>, start: MazeLocation) -> bool {
    in_grid(cells, node.state) && route_in(cells, node.path(), start)
}

/// Whether a node for `place` waits in `frontier`.
pub open spec fn waits_in(frontier: Seq<Node<MazeLocation>>, place: MazeLocation) -> bool {
    exists|j: int| 0 <= j < frontier.len() && (#[trigger] frontier[j]).state == place
}

/// Whether every neighbour of `place` has been seen.
pub open spec fn all_seen_from(
    cells: Seq<Seq<Cell>>,
    cols: int,
    place: MazeLocation,
    seen: Set<u64>,
) -> bool {
    forall|t: MazeLocation| #[trigger]
        neighbours(cells, place).contains(t) ==> seen.contains(code(t, cols) as u64)
}

/// What the search knows of the places that it has dealt with: none is the
/// goal, their neighbours have been seen, and what has been seen is dealt
/// with, or waits, or is `current`.
#[verifier::opaque]
pub open spec fn search_covers(
    cells: Seq<Seq<Cell>>,
    cols: int,
    goal: MazeLocation,
    expanded: Set<MazeLocation>,
    frontier: Seq<Node<MazeLocation>>,
    seen: Set<u64>,
    start: MazeLocation,
    current: Option<MazeLocation>,
) -> bool {
    &&& forall|x: MazeLocation| #[trigger]
        expanded.contains(x) ==> in_grid(cells, x) && x != goal && all_seen_from(
            cells,
            cols,
            x,
            seen,
        )
    &&& forall|t: MazeLocation|
        in_grid(cells, t) && #[trigger] seen.contains(code(t, cols) as u64) ==> expanded.contains(
            t,
        ) || waits_in(frontier, t) || current == Some(t)
    &&& expanded.contains(start) || waits_in(frontier, start) || current == Some(start)
}

/// The numbers below `total` of the places that have not been seen.
pub open spec fn unseen(seen: Set<u64>, total: int) -> Set<int> {
    set_int_range(0, total).filter(|k: int| !seen.contains(k as u64))
}

/// Seeing one more place leaves one place less unseen.
proof fn lemma_unseen_shrinks(seen: Set<u64>, k: u64, total: int)
    requires
        k < total <= u64::MAX,
        !seen.contains(k),
    ensures
        unseen(seen, total).finite(),
        unseen(seen.insert(k), total).finite(),
        unseen(seen.insert(k), total).len() + 1 == unseen(seen, total).len(),
        unseen(seen, total).len() <= total,
{
    lemma_int_range(0, total);
    lemma_len_subset(unseen(seen, total), set_int_range(0, total));
    lemma_len_subset(unseen(seen.insert(k), total), set_int_range(0, total));
    assert(unseen(seen, total).contains(k as int));
    assert(unseen(seen.insert(k), total) == unseen(seen, total).remove(k as int)) by {
        assert forall|j: int|
            unseen(seen.insert(k), total).contains(j) <==> unseen(seen, total).remove(
                k as int,
            ).contains(j) by {
            if 0 <= j < total && j != k {
                assert(j as u64 != k);
            }
        }
    }
}

/// A search that starts covers what it has to.
proof fn lemma_covers_at_start(
    cells: Seq<Seq<Cell>>,
    cols: int,
    goal: MazeLocation,
    first: Node<MazeLocation>,
)
    ensures
        search_covers(cells, cols, goal, Set::empty(), seq![first], Set::empty(), first.state, None),
{
    reveal(search_covers);
    assert(seq![first][0].state == first.state);
}

/// Taking a node from the frontier keeps what the search covers, with the
/// place of that node as the current one.
proof fn lemma_covers_after_pop(
    cells: Seq<Seq<Cell>>,
    cols: int,
    goal: MazeLocation,
    expanded: Set<MazeLocation>,
    frontier: Seq<Node<MazeLocation>>,
    seen: Set<u64>,
    start: MazeLocation,
    i: int,
)
    requires
        0 <= i < frontier.len(),
        search_covers(cells, cols, goal, expanded, frontier, seen, start, None),
    ensures
        search_covers(
            cells,
            cols,
            goal,
            expanded,
            frontier.remove(i),
            seen,
            start,
            Some(frontier[i].state),
        ),
{
    reveal(search_covers);
    let rest = frontier.remove(i);
    assert forall|t: MazeLocation| waits_in(frontier, t) implies waits_in(rest, t) || t
        == frontier[i].state by {
        let j = choose|j: int| 0 <= j < frontier.len() && (#[trigger] frontier[j]).state == t;
        if j < i {
            assert(rest[j].state == t);
        } else if j > i {
            assert(rest[j - 1].state == t);
        }
    }
}

/// Seeing a new place and putting a node for it on the frontier keeps what
/// the search covers.
proof fn lemma_covers_after_push(
    cells: Seq<Seq<Cell>>,
    rows: int,
    cols: int,
    goal: MazeLocation,
    expanded: Set<MazeLocation>,
    frontier: Seq<Node<MazeLocation>>,
    seen: Set<u64>,
    start: MazeLocation,
    current: MazeLocation,
    next: Node<MazeLocation>,
)
    requires
        has_shape(cells, rows, cols),
        rows * cols <= u64::MAX,
        search_covers(cells, cols, goal, expanded, frontier, seen, start, Some(current)),
        in_grid(cells, next.state),
    ensures
        search_covers(
            cells,
            cols,
            goal,
            expanded,
            frontier.push(next),
            seen.insert(code(next.state, cols) as u64),
            start,
            Some(current),
        ),
{
    reveal(search_covers);
    let longer = frontier.push(next);
    let more = seen.insert(code(next.state, cols) as u64);
    assert(longer[longer.len() - 1].state == next.state);
    assert forall|t: MazeLocation| waits_in(frontier, t) implies waits_in(longer, t) by {
        let j = choose|j: int| 0 <= j < frontier.len() && (#[trigger] frontier[j]).state == t;
        assert(longer[j].state == t);
    }
    assert forall|t: MazeLocation|
        in_grid(cells, t) && #[trigger] more.contains(
            code(t, cols) as u64,
        ) implies expanded.contains(t) || waits_in(longer, t) || Some(current) == Some(t) by {
        lemma_codes(t, next.state, rows, cols);
        lemma_codes(next.state, t, rows, cols);
        if !seen.contains(code(t, cols) as u64) {
            assert(code(t, cols) == code(next.state, cols));
            assert(t == next.state);
        }
    }
    assert forall|x: MazeLocation| #[trigger] expanded.contains(x) implies in_grid(cells, x) && x
        != goal && all_seen_from(cells, cols, x, more) by {
        assert(all_seen_from(cells, cols, x, seen));
    }
}

/// When all neighbours of the current place have been seen, and it is not
/// the goal, the search has dealt with it.
proof fn lemma_covers_after_expansion(
    cells: Seq<Seq<Cell>>,
    cols: int,
    goal: MazeLocation,
    expanded: Set<MazeLocation>,
    frontier: Seq<Node<MazeLocation>>,
    seen: Set<u64>,
    start: MazeLocation,
    current: MazeLocation,
)
    requires
        search_covers(cells, cols, goal, expanded, frontier, seen, start, Some(current)),
        in_grid(cells, current),
        current != goal,
        all_seen_from(cells, cols, current, seen),
    ensures
        search_covers(cells, cols, goal, expanded.insert(current), frontier, seen, start, None),
{
    reveal(search_covers);
}

/// Where the search has dealt with every place that it has seen, and the
/// start is among them, every way from the start stays among them, and so
/// does not reach the goal.
proof fn lemma_covered_routes(
    cells: Seq<Seq<Cell>>,
    rows: int,
    cols: int,
    goal: MazeLocation,
    expanded: Set<MazeLocation>,
    seen: Set<u64>,
    start: MazeLocation,
    path: Seq<MazeLocation>,
)
    requires
        has_shape(cells, rows, cols),
        rows <= usize::MAX,
        cols <= usize::MAX,
        search_covers(cells, cols, goal, expanded, Seq::empty(), seen, start, None),
        route_in(cells, path, start),
    ensures
        expanded.contains(path.last()),
        path.last() != goal,
    decreases path.len(),
{
    reveal(search_covers);
    if path.len() > 1 {
        let front = path.drop_last();
        assert(route_in(cells, front, start)) by {
            assert forall|i: int| 0 <= i < front.len() - 1 implies neighbours(
                cells,
                #[trigger] front[i],
            ).contains(front[i + 1]) by {
                assert(neighbours(cells, path[i]).contains(path[i + 1]));
            }
        }
        lemma_covered_routes(cells, rows, cols, goal, expanded, seen, start, front);
        let x = front.last();
        let t = path.last();
        assert(x == path[path.len() - 2]);
        assert(neighbours(cells, path[path.len() - 2]).contains(path[path.len() - 2 + 1]));
        assert(neighbours(cells, x).contains(t));
        lemma_neighbours(cells, x, rows, cols);
        assert(seen.contains(code(t, cols) as u64));
        assert(!waits_in(Seq::<Node<MazeLocation>>::empty(), t));
    } else {
        assert(!waits_in(Seq::<Node<MazeLocation>>::empty(), start));
    }
}

/// A node for a neighbour of the place of `parent` holds a way to it where
/// `parent` holds a way to its own place.
proof fn lemma_sound_child(
    cells: Seq<Seq<Cell>>,
    parent: Node<MazeLocation>,
    next: Node<MazeLocation>,
    start: MazeLocation,
)
    requires
        sound_node(cells, parent, start),
        next.parent == Some(Rc::new(parent)),
        neighbours(cells, parent.state).contains(next.state),
        in_grid(cells, next.state),
    ensures
        sound_node(cells, next, start),
{
    parent.lemma_path();
    next.lemma_path();
    let way = next.path();
    assert(way == parent.path().push(next.state));
    assert forall|j: int| 0 <= j < way.len() - 1 implies neighbours(
        cells,
        #[trigger] way[j],
    ).contains(way[j + 1]) by {
        if j < way.len() - 2 {
            assert(neighbours(cells, parent.path()[j]).contains(parent.path()[j + 1]));
        }
    }
}

/// When every neighbour listed has been seen, all neighbours have.
proof fn lemma_all_seen(
    cells: Seq<Seq<Cell>>,
    cols: int,
    place: MazeLocation,
    children: Seq<MazeLocation>,
    seen: Set<u64>,
)
    requires
        children == neighbours(cells, place),
        forall|j: int|
            0 <= j < children.len() ==> seen.contains(code(#[trigger] children[j], cols) as u64),
    ensures
        all_seen_from(cells, cols, place, seen),
{
    assert forall|t: MazeLocation| #[trigger]
        neighbours(cells, place).contains(t) implies seen.contains(code(t, cols) as u64) by {
        let j = choose|j: int| 0 <= j < children.len() && children[j] == t;
        assert(seen.contains(code(children[j], cols) as u64));
    }
}

/// The number of steps on the way that a node holds.
pub open spec fn steps(node: Node<MazeLocation>) -> int {
    node.path().len() - 1
}

/// What the search knows of the order in which it reaches the places, when
/// the nodes that wait hold ways of `level` steps, or one more: every place
/// within fewer steps than `level` has been dealt with; every place within
/// `level` steps has been dealt with, or waits, or is `current`; and a node
/// that waits holds a shortest way to its place, unless the place has been
/// dealt with.
#[verifier::opaque]
pub open spec fn search_in_order(
    cells: Seq<Seq<Cell>>,
    cols: int,
    expanded: Set<MazeLocation>,
    frontier: Seq<Node<MazeLocation>>,
    seen: Set<u64>,
    start: MazeLocation,
    level: int,
    current: Option<MazeLocation>,
) -> bool {
    &&& forall|j: int|
        0 <= j < frontier.len() ==> level <= steps(#[trigger] frontier[j]) <= level + 1
    &&& forall|r: Seq<MazeLocation>| #[trigger]
        route_in(cells, r, start) && r.len() - 1 < level ==> expanded.contains(r.last())
    &&& forall|r: Seq<MazeLocation>| #[trigger]
        route_in(cells, r, start) && r.len() - 1 <= level ==> expanded.contains(r.last())
            || waits_in(frontier, r.last()) || current == Some(r.last())
    &&& forall|j: int, r: Seq<MazeLocation>|
        0 <= j < frontier.len() && #[trigger] route_in(cells, r, start) && r.last() == (
        #[trigger] frontier[j]).state ==> expanded.contains(r.last()) || steps(frontier[j])
            <= r.len() - 1
    &&& forall|j: int|
        0 <= j < frontier.len() ==> seen.contains(code((#[trigger] frontier[j]).state, cols) as u64)
            || frontier[j].state == start
    &&& level >= 1 ==> expanded.contains(start)
}

/// A search that starts is in order.
proof fn lemma_order_at_start(cells: Seq<Seq<Cell>>, cols: int, first: Node<MazeLocation>)
    requires
        first.parent is None,
    ensures
        search_in_order(cells, cols, Set::empty(), seq![first], Set::empty(), first.state, 0, None),
{
    reveal(search_in_order);
    first.lemma_path();
    let q = seq![first];
    assert(q[0] == first);
    assert forall|r: Seq<MazeLocation>| #[trigger]
        route_in(cells, r, first.state) && r.len() - 1 <= 0 implies waits_in(q, r.last()) by {
        assert(r.last() == r[0]);
        assert(q[0].state == r.last());
    }
}

/// Taking a node from the frontier keeps the search in order, with the
/// place of that node as the current one.
proof fn lemma_order_after_pop(
    cells: Seq<Seq<Cell>>,
    cols: int,
    expanded: Set<MazeLocation>,
    frontier: Seq<Node<MazeLocation>>,
    seen: Set<u64>,
    start: MazeLocation,
    level: int,
    i: int,
)
    requires
        0 <= i < frontier.len(),
        search_in_order(cells, cols, expanded, frontier, seen, start, level, None),
    ensures
        search_in_order(
            cells,
            cols,
            expanded,
            frontier.remove(i),
            seen,
            start,
            level,
            Some(frontier[i].state),
        ),
{
    reveal(search_in_order);
    let rest = frontier.remove(i);
    assert forall|j: int| 0 <= j < rest.len() implies #[trigger] rest[j] == if j < i {
        frontier[j]
    } else {
        frontier[j + 1]
    } by {}
    assert forall|t: MazeLocation| waits_in(frontier, t) implies waits_in(rest, t) || t
        == frontier[i].state by {
        let j = choose|j: int| 0 <= j < frontier.len() && (#[trigger] frontier[j]).state == t;
        if j < i {
            assert(rest[j].state == t);
        } else if j > i {
            assert(rest[j - 1].state == t);
        }
    }
    assert forall|j: int, r: Seq<MazeLocation>|
        0 <= j < rest.len() && #[trigger] route_in(cells, r, start) && r.last() == (
        #[trigger] rest[j]).state implies expanded.contains(r.last()) || steps(rest[j]) <= r.len()
        - 1 by {
        if j < i {
            assert(rest[j] == frontier[j]);
        } else {
            assert(rest[j] == frontier[j + 1]);
        }
    }
}

/// A step leads to another place.
proof fn lemma_step_moves(cells: Seq<Seq<Cell>>, m: MazeLocation, rows: int, cols: int)
    requires
        has_shape(cells, rows, cols),
        rows <= usize::MAX,
        cols <= usize::MAX,
    ensures
        !neighbours(cells, m).contains(m),
{
    let r = m.row as int;
    let c = m.col as int;
    let n1 = with_step(cells, Seq::empty(), r + 1, c);
    let n2 = with_step(cells, n1, r, c + 1);
    let n3 = with_step(cells, n2, r - 1, c);
    lemma_with_step(cells, Seq::empty(), r + 1, c);
    lemma_with_step(cells, n1, r, c + 1);
    lemma_with_step(cells, n2, r - 1, c);
    lemma_with_step(cells, n3, r, c - 1);
    assert(!Seq::<MazeLocation>::empty().contains(m));
}

/// Seeing a new place and putting a node for it on the frontier keeps the
/// search in order.
proof fn lemma_order_after_push(
    cells: Seq<Seq<Cell>>,
    rows: int,
    cols: int,
    expanded: Set<MazeLocation>,
    frontier: Seq<Node<MazeLocation>>,
    seen: Set<u64>,
    start: MazeLocation,
    level: int,
    parent: Node<MazeLocation>,
    next: Node<MazeLocation>,
)
    requires
        has_shape(cells, rows, cols),
        rows <= usize::MAX,
        cols <= usize::MAX,
        search_in_order(cells, cols, expanded, frontier, seen, start, level, Some(parent.state)),
        sound_node(cells, parent, start),
        steps(parent) == level,
        neighbours(cells, parent.state).contains(next.state),
        steps(next) == level + 1,
        !seen.contains(code(next.state, cols) as u64),
    ensures
        search_in_order(
            cells,
            cols,
            expanded,
            frontier.push(next),
            seen.insert(code(next.state, cols) as u64),
            start,
            level,
            Some(parent.state),
        ),
{
    reveal(search_in_order);
    let longer = frontier.push(next);
    let more = seen.insert(code(next.state, cols) as u64);
    let last = longer.len() - 1;
    assert(longer[last] == next);
    assert forall|j: int| 0 <= j < frontier.len() implies #[trigger] longer[j] == frontier[j] by {}
    assert forall|t: MazeLocation| waits_in(frontier, t) implies waits_in(longer, t) by {
        let j = choose|j: int| 0 <= j < frontier.len() && (#[trigger] frontier[j]).state == t;
        assert(longer[j].state == t);
    }
    parent.lemma_path();
    lemma_step_moves(cells, parent.state, rows, cols);
    assert forall|j: int, r: Seq<MazeLocation>|
        0 <= j < longer.len() && #[trigger] route_in(cells, r, start) && r.last() == (
        #[trigger] longer[j]).state implies expanded.contains(r.last()) || steps(longer[j])
        <= r.len() - 1 by {
        if j < last {
            assert(longer[j] == frontier[j]);
        } else if r.len() - 1 <= level {
            if waits_in(frontier, next.state) {
                let i = choose|i: int|
                    0 <= i < frontier.len() && (#[trigger] frontier[i]).state == next.state;
                assert(next.state == start);
                if level == 0 {
                    assert(parent.path().len() == 1);
                    assert(parent.path()[0] == start);
                    assert(parent.state == start);
                }
            }
        }
    }
    assert forall|j: int| 0 <= j < longer.len() implies more.contains(
        code((#[trigger] longer[j]).state, cols) as u64,
    ) || longer[j].state == start by {
        if j < last {
            assert(longer[j] == frontier[j]);
        }
    }
}

/// Whether a node of `level` steps waits in the frontier.
pub open spec fn level_waits(frontier: Seq<Node<MazeLocation>>, level: int) -> bool {
    exists|j: int| 0 <= j < frontier.len() && steps(#[trigger] frontier[j]) == level
}

/// When the current place has been dealt with, the search is in order at
/// the same level where a node of that level waits, and at the next level
/// where none does.
proof fn lemma_order_after_expansion(
    cells: Seq<Seq<Cell>>,
    rows: int,
    cols: int,
    goal: MazeLocation,
    expanded: Set<MazeLocation>,
    frontier: Seq<Node<MazeLocation>>,
    seen: Set<u64>,
    start: MazeLocation,
    level: int,
    current: Node<MazeLocation>,
)
    requires
        has_shape(cells, rows, cols),
        rows <= usize::MAX,
        cols <= usize::MAX,
        search_in_order(cells, cols, expanded, frontier, seen, start, level, Some(current.state)),
        search_covers(cells, cols, goal, expanded.insert(current.state), frontier, seen, start, None),
        sound_node(cells, current, start),
        steps(current) == level,
    ensures
        search_in_order(
            cells,
            cols,
            expanded.insert(current.state),
            frontier,
            seen,
            start,
            if level_waits(frontier, level) {
                level
            } else {
                level + 1
            },
            None,
        ),
{
    reveal(search_in_order);
    reveal(search_covers);
    let done = expanded.insert(current.state);
    current.lemma_path();
    if !level_waits(frontier, level) {
        let next_level = level + 1;
        assert forall|j: int| 0 <= j < frontier.len() implies steps(#[trigger] frontier[j])
            == next_level by {}
        assert forall|r: Seq<MazeLocation>| #[trigger]
            route_in(cells, r, start) && r.len() - 1 < next_level implies done.contains(
            r.last(),
        ) by {
            if waits_in(frontier, r.last()) {
                let j = choose|j: int|
                    0 <= j < frontier.len() && (#[trigger] frontier[j]).state == r.last();
                assert(steps(frontier[j]) == next_level);
            }
        }
        if level == 0 {
            assert(current.path().len() == 1);
            assert(current.path()[0] == start);
            assert(current.state == start);
        }
        assert forall|r: Seq<MazeLocation>| #[trigger]
            route_in(cells, r, start) && r.len() - 1 <= next_level implies done.contains(r.last())
            || waits_in(frontier, r.last()) by {
            if r.len() - 1 == next_level {
                let front = r.drop_last();
                assert(route_in(cells, front, start)) by {
                    assert forall|i: int| 0 <= i < front.len() - 1 implies neighbours(
                        cells,
                        #[trigger] front[i],
                    ).contains(front[i + 1]) by {
                        assert(neighbours(cells, r[i]).contains(r[i + 1]));
                    }
                }
                let p = front.last();
                assert(done.contains(p));
                assert(p == r[r.len() - 2]);
                assert(neighbours(cells, r[r.len() - 2]).contains(r[r.len() - 2 + 1]));
                assert(neighbours(cells, p).contains(r.last()));
                lemma_neighbours(cells, p, rows, cols);
                assert(all_seen_from(cells, cols, p, seen));
                assert(seen.contains(code(r.last(), cols) as u64));
            }
        }
    }
}

/// The way that the node of the goal holds when it is taken from the
/// frontier is a shortest way to the goal.
proof fn lemma_goal_is_nearest(
    cells: Seq<Seq<Cell>>,
    cols: int,
    goal: MazeLocation,
    expanded: Set<MazeLocation>,
    frontier: Seq<Node<MazeLocation>>,
    seen: Set<u64>,
    start: MazeLocation,
    level: int,
    current: Node<MazeLocation>,
    other: Seq<MazeLocation>,
)
    requires
        search_in_order(cells, cols, expanded, frontier, seen, start, level, Some(current.state)),
        search_covers(cells, cols, goal, expanded, frontier, seen, start, Some(current.state)),
        steps(current) == level,
        route_in(cells, other, start),
        other.last() == goal,
    ensures
        current.path().len() <= other.len(),
{
    reveal(search_in_order);
    reveal(search_covers);
}

/// Returns the place in the frontier of the first node of the highest rank,
/// which is the sum of its cost and its estimate.
fn best_index(frontier: &Vec<Node<MazeLocation>>) -> (best: usize)
    requires
        frontier.len() > 0,
    ensures
        best < frontier.len(),
        forall|j: int|
            0 <= j < frontier.len() ==> (#[trigger] frontier@[j]).cost + frontier@[j].heuristic
                <= frontier@[best as int].cost + frontier@[best as int].heuristic,
        forall|j: int|
            0 <= j < best ==> (#[trigger] frontier@[j]).cost + frontier@[j].heuristic
                < frontier@[best as int].cost + frontier@[best as int].heuristic,
{
    let mut best: usize = 0;
    let mut i: usize = 1;
    while i < frontier.len()
        invariant
            best < i <= frontier.len(),
            forall|j: int|
                0 <= j < i ==> (#[trigger] frontier@[j]).cost + frontier@[j].heuristic
                    <= frontier@[best as int].cost + frontier@[best as int].heuristic,
            forall|j: int|
                0 <= j < best ==> (#[trigger] frontier@[j]).cost + frontier@[j].heuristic
                    < frontier@[best as int].cost + frontier@[best as int].heuristic,
        decreases frontier.len() - i,
    {
        if frontier[i].rank() > frontier[best].rank() {
            best = i;
        }
        i += 1;
    }
    best
}

impl Maze {
    /// Returns the number that tells the place apart.
    fn key(&self, m: MazeLocation) -> (k: u64)
        requires
            self.wf(),
            in_grid(self.cells(), m),
        ensures
            k == code(m, self.cols as int),
            k < self.rows * self.cols,
    {
        proof {
            lemma_codes(m, m, self.rows as int, self.cols as int);
        }
        m.row as u64 * self.cols as u64 + m.col as u64
    }

    /// Searches for a way from `initial`, a place of the maze, to the goal.
    /// The node that waits with the highest rank is taken next; ranks fall
    /// with each step, so places are reached by the fewest steps first.
    /// Returns the node of the goal, from which a shortest way can be read,
    /// or `None` where the goal cannot be reached.
    #[verifier::rlimit(50)]
    pub fn astar(&self, initial: MazeLocation) -> (found: Option<Node<MazeLocation>>)
        requires
            self.wf(),
            in_grid(self.cells(), initial),
            self.rows * self.cols <= i32::MAX,
        ensures
            found.is_some() == reachable(self.cells(), initial, self.goal),
            found matches Some(node) ==> route_in(self.cells(), node.path(), initial) && node.state
                == self.goal,
            found matches Some(node) ==> forall|other: Seq<MazeLocation>|
                #[trigger] route_in(self.cells(), other, initial) && other.last() == self.goal
                    ==> node.path().len() <= other.len(),
    {
        broadcast use vstd::std_specs::hash::group_hash_axioms;

        let ghost cells = self.cells();
        let ghost rows = self.rows as int;
        let ghost cols = self.cols as int;
        let ghost total = self.rows * self.cols;
        let mut frontier: Vec<Node<MazeLocation>> = Vec::new();
        let first = Node { state: initial, parent: None, cost: 0, heuristic: 0 };
        proof {
            first.lemma_path();
            lemma_covers_at_start(cells, cols, self.goal, first);
            lemma_order_at_start(cells, cols, first);
        }
        frontier.push(first);
        let mut seen: HashSet<u64> = HashSet::new();
        let ghost mut expanded: Set<MazeLocation> = Set::empty();
        let ghost mut level: int = 0;
        proof {
            assert(frontier@ == seq![first]);
            assert(steps(frontier@[0]) == 0);
            lemma_int_range(0, total);
            lemma_len_subset(unseen(seen@, total), set_int_range(0, total));
        }
        while frontier.len() > 0
            invariant
                self.wf(),
                cells == self.cells(),
                rows == self.rows,
                cols == self.cols,
                total == self.rows * self.cols,
                total <= i32::MAX,
                in_grid(cells, initial),
                forall|j: int|
                    0 <= j < frontier.len() ==> sound_node(cells, #[trigger] frontier@[j], initial),
                forall|j: int|
                    0 <= j < frontier.len() ==> -(#[trigger] frontier@[j]).cost + unseen(
                        seen@,
                        total,
                    ).len() <= total && frontier@[j].heuristic == 0,
                forall|k: u64| #[trigger] seen@.contains(k) ==> k < total,
                search_covers(cells, cols, self.goal, expanded, frontier@, seen@, initial, None),
                search_in_order(cells, cols, expanded, frontier@, seen@, initial, level, None),
                forall|j: int|
                    0 <= j < frontier.len() ==> (#[trigger] frontier@[j]).cost == -steps(
                        frontier@[j],
                    ),
                frontier.len() > 0 ==> level_waits(frontier@, level),
                unseen(seen@, total).finite(),
            decreases 2 * unseen(seen@, total).len() + frontier.len(),
        {
            let ghost before = frontier@;
            let at = best_index(&frontier);
            let cur = frontier.remove(at);
            let cur_state = cur.state;
            proof {
                cur.lemma_path();
                assert(sound_node(cells, before[at as int], initial));
                lemma_order_after_pop(
                    cells,
                    cols,
                    expanded,
                    before,
                    seen@,
                    initial,
                    level,
                    at as int,
                );
                assert(steps(cur) == level) by {
                    reveal(search_in_order);
                    let j = choose|j: int| 0 <= j < before.len() && steps(#[trigger] before[j])
                        == level;
                    assert(before[j].cost + before[j].heuristic <= before[at as int].cost
                        + before[at as int].heuristic);
                    assert(level <= steps(before[at as int]));
                }
                lemma_covers_after_pop(
                    cells,
                    cols,
                    self.goal,
                    expanded,
                    before,
                    seen@,
                    initial,
                    at as int,
                );
                assert forall|j: int| 0 <= j < frontier.len() implies sound_node(
                    cells,
                    #[trigger] frontier@[j],
                    initial,
                ) && -frontier@[j].cost + unseen(seen@, total).len() <= total
                    && frontier@[j].heuristic == 0 && frontier@[j].cost == -steps(frontier@[j]) by {
                    if j < at {
                        assert(frontier@[j] == before[j]);
                    } else {
                        assert(frontier@[j] == before[j + 1]);
                    }
                }
                assert(-before[at as int].cost + unseen(seen@, total).len() <= total);
            }
            if self.goal(cur_state) {
                proof {
                    assert(route_in(cells, cur.path(), initial) && cur.path().last() == self.goal);
                    assert forall|other: Seq<MazeLocation>|
                        #[trigger] route_in(cells, other, initial) && other.last()
                            == self.goal implies cur.path().len() <= other.len() by {
                        lemma_goal_is_nearest(
                            cells,
                            cols,
                            self.goal,
                            expanded,
                            frontier@,
                            seen@,
                            initial,
                            level,
                            cur,
                            other,
                        );
                    }
                }
                return Some(cur);
            }
            let ghost cur_seen = cur;
            let cur_cost = cur.cost;
            let cur_node = Rc::new(cur);
            let children = self.successors(cur_state);
            let ghost measure = 2 * unseen(seen@, total).len() + frontier.len();
            proof {
                lemma_neighbours(cells, cur_state, rows, cols);
            }
            let mut i: usize = 0;
            while i < children.len()
                invariant
                    i <= children.len(),
                    self.wf(),
                    cells == self.cells(),
                    rows == self.rows,
                    cols == self.cols,
                    total == self.rows * self.cols,
                    total <= i32::MAX,
                    *cur_node == cur_seen,
                    cur_seen.state == cur_state,
                    cur_seen.cost == cur_cost,
                    -cur_cost + unseen(seen@, total).len() <= total,
                    sound_node(cells, cur_seen, initial),
                    steps(cur_seen) == level,
                    cur_cost == -level,
                    has_shape(cells, rows, cols),
                    search_in_order(
                        cells,
                        cols,
                        expanded,
                        frontier@,
                        seen@,
                        initial,
                        level,
                        Some(cur_state),
                    ),
                    forall|j: int|
                        0 <= j < frontier.len() ==> (#[trigger] frontier@[j]).cost == -steps(
                            frontier@[j],
                        ),
                    children@ == neighbours(cells, cur_state),
                    forall|t: MazeLocation| #[trigger]
                        neighbours(cells, cur_state).contains(t) ==> in_grid(cells, t),
                    forall|j: int|
                        0 <= j < frontier.len() ==> sound_node(
                            cells,
                            #[trigger] frontier@[j],
                            initial,
                        ),
                    forall|j: int|
                        0 <= j < frontier.len() ==> -(#[trigger] frontier@[j]).cost + unseen(
                            seen@,
                            total,
                        ).len() <= total && frontier@[j].heuristic == 0,
                    forall|k: u64| #[trigger] seen@.contains(k) ==> k < total,
                    search_covers(
                        cells,
                        cols,
                        self.goal,
                        expanded,
                        frontier@,
                        seen@,
                        initial,
                        Some(cur_state),
                    ),
                    forall|j: int|
                        0 <= j < i ==> seen@.contains(code(#[trigger] children@[j], cols) as u64),
                    unseen(seen@, total).finite(),
                    2 * unseen(seen@, total).len() + frontier.len() <= measure,
                decreases children.len() - i,
            {
                let child = children[i];
                proof {
                    assert(children@.contains(children@[i as int]));
                    assert(neighbours(cells, cur_state).contains(child));
                }
                let k = self.key(child);
                if !seen.contains(&k) {
                    proof {
                        lemma_unseen_shrinks(seen@, k, total as int);
                    }
                    let ghost waiting = frontier@;
                    let ghost seen_before = seen@;
                    seen.insert(k);
                    let next = Node {
                        state: child,
                        parent: Some(share(&cur_node)),
                        cost: cur_cost - 1,
                        heuristic: 0,
                    };
                    proof {
                        lemma_sound_child(cells, cur_seen, next, initial);
                        lemma_covers_after_push(
                            cells,
                            rows,
                            cols,
                            self.goal,
                            expanded,
                            waiting,
                            seen_before,
                            initial,
                            cur_state,
                            next,
                        );
                        cur_seen.lemma_path();
                        next.lemma_path();
                        lemma_order_after_push(
                            cells,
                            rows,
                            cols,
                            expanded,
                            waiting,
                            seen_before,
                            initial,
                            level,
                            cur_seen,
                            next,
                        );
                    }
                    frontier.push(next);
                }
                i += 1;
            }
            proof {
                lemma_all_seen(cells, cols, cur_state, children@, seen@);
                lemma_covers_after_expansion(
                    cells,
                    cols,
                    self.goal,
                    expanded,
                    frontier@,
                    seen@,
                    initial,
                    cur_state,
                );
                lemma_order_after_expansion(
                    cells,
                    rows,
                    cols,
                    self.goal,
                    expanded,
                    frontier@,
                    seen@,
                    initial,
                    level,
                    cur_seen,
                );
                expanded = expanded.insert(cur_state);
                if !level_waits(frontier@, level) {
                    level = level + 1;
                    if frontier.len() > 0 {
                        reveal(search_in_order);
                        assert(steps(frontier@[0]) == level);
                    }
                }
            }
        }
        proof {
            assert(frontier@ == Seq::<Node<MazeLocation>>::empty());
            assert forall|path: Seq<MazeLocation>| #[trigger]
                route_in(cells, path, initial) implies path.last() != self.goal by {
                lemma_covered_routes(cells, rows, cols, self.goal, expanded, seen@, initial, path);
            }
        }
        None
    }
}

} // verus!
