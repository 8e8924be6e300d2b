//! The immutable shape of the puzzle: an `N x N` grid and the walls between
//! neighbouring cells.

use vstd::prelude::*;

verus! {

/// Largest side length the engine accepts. With at most `MAX_SIZE * MAX_SIZE`
/// cells, each holding a value no larger than the number of cells, every
/// energy stays below `2^61` and all sums fit in 64 bits.
pub const MAX_SIZE: usize = 1024;

/// One of the four unit steps on the grid. Rows grow downwards, columns grow
/// to the right.
#[derive(Clone, Copy, Debug, PartialEq, Eq, Structural)]
pub enum Direction {
    Up,
    Down,
    Left,
    Right,
}

/// A cell of the grid, by row and column.
#[derive(Clone, Copy, Debug, PartialEq, Eq, Structural)]
pub struct Position {
    pub row: usize,
    pub col: usize,
}

/// The walls of an `N x N` grid.
///
/// `vertical_walls[i][j]` says whether a wall separates cell `(i, j)` from
/// cell `(i, j + 1)`; `horizontal_walls[i][j]` says whether a wall separates
/// cell `(i, j)` from cell `(i + 1, j)`. A wall blocks the edge in both
/// directions.
#[derive(Clone, Debug, PartialEq, Eq)]
pub struct GridTopology {
    pub size: usize,
    pub vertical_walls: Vec<Vec<bool>>,
    pub horizontal_walls: Vec<Vec<bool>>,
}

/// Mathematical model of a [`GridTopology`].
pub struct Walls {
    pub size: nat,
    pub vertical: Seq<Seq<bool>>,
    pub horizontal: Seq<Seq<bool>>,
}

impl Walls {
    /// The wall tables have the dimensions that the side length calls for:
    /// `size` rows of `size - 1` vertical walls, and `size - 1` rows of
    /// `size` horizontal walls.
    pub open spec fn wf(self) -> bool {
        &&& self.size <= MAX_SIZE
        &&& self.vertical.len() == self.size
        &&& forall|i: int| 0 <= i < self.size ==> (#[trigger] self.vertical[i]).len() + 1 == self.size
        &&& (self.size == 0 ==> self.horizontal.len() == 0)
        &&& (self.size > 0 ==> self.horizontal.len() + 1 == self.size)
        &&& forall|i: int|
            0 <= i < self.horizontal.len() ==> (#[trigger] self.horizontal[i]).len() == self.size
    }

    /// Cell `(i, j)` lies on the grid.
    pub open spec fn contains(self, i: int, j: int) -> bool {
        0 <= i < self.size && 0 <= j < self.size
    }

    /// Cells `(i, j)` and `(i, j + 1)` both lie on the grid and no wall
    /// stands between them.
    pub open spec fn open_right(self, i: int, j: int) -> bool {
        self.contains(i, j) && j + 1 < self.size && !self.vertical[i][j]
    }

    /// Cells `(i, j)` and `(i + 1, j)` both lie on the grid and no wall
    /// stands between them.
    pub open spec fn open_down(self, i: int, j: int) -> bool {
        self.contains(i, j) && i + 1 < self.size && !self.horizontal[i][j]
    }

    /// A step from `p` in direction `d` stays on the grid and crosses no
    /// wall. The wall of an edge is found under the smaller of the two
    /// indices that the edge joins.
    pub open spec fn can_move(self, p: Position, d: Direction) -> bool {
        match d {
            Direction::Up => self.open_down(p.row - 1, p.col as int),
            Direction::Down => self.open_down(p.row as int, p.col as int),
            Direction::Left => self.open_right(p.row as int, p.col - 1),
            Direction::Right => self.open_right(p.row as int, p.col as int),
        }
    }
}

/// The cell one unit step away from `p` in direction `d`, where that cell
/// has non-negative coordinates.
pub open spec fn neighbour(p: Position, d: Direction) -> Position {
    match d {
        Direction::Up => Position { row: (p.row - 1) as usize, col: p.col },
        Direction::Down => Position { row: (p.row + 1) as usize, col: p.col },
        Direction::Left => Position { row: p.row, col: (p.col - 1) as usize },
        Direction::Right => Position { row: p.row, col: (p.col + 1) as usize },
    }
}

impl View for GridTopology {
    type V = Walls;

    open spec fn view(&self) -> Walls {
        Walls {
            size: self.size as nat,
            vertical: Seq::new(self.vertical_walls.len() as nat, |i: int| self.vertical_walls[i]@),
            horizontal: Seq::new(
                self.horizontal_walls.len() as nat,
                |i: int| self.horizontal_walls[i]@,
            ),
        }
    }
}

/// Whether every row of `rows` has exactly `width` entries.
fn rows_have_width(rows: &Vec<Vec<bool>>, width: usize) -> (ok: bool)
    ensures
        ok <==> forall|i: int| 0 <= i < rows.len() ==> (#[trigger] rows[i]).len() == width,
{
    let mut i: usize = 0;
    while i < rows.len()
        invariant
            i <= rows.len(),
            forall|k: int| 0 <= k < i ==> (#[trigger] rows[k]).len() == width,
        decreases rows.len() - i,
    {
        if rows[i].len() != width {
            return false;
        }
        i += 1;
    }
    true
}

impl GridTopology {
    /// Checks the dimensions of the wall tables against the side length.
    pub fn is_well_formed(&self) -> (ok: bool)
        ensures
            ok == self@.wf(),
    {
        if self.size > MAX_SIZE {
            return false;
        }
        if self.size == 0 {
            return self.vertical_walls.len() == 0 && self.horizontal_walls.len() == 0;
        }
        let ok = self.vertical_walls.len() == self.size && self.horizontal_walls.len() == self.size
            - 1 && rows_have_width(&self.vertical_walls, self.size - 1) && rows_have_width(
            &self.horizontal_walls,
            self.size,
        );
        proof {
            if ok {
                assert forall|i: int| 0 <= i < self@.size implies (#[trigger] self@.vertical[i]).len()
                    + 1 == self@.size by {
                    assert(self.vertical_walls[i].len() == self.size - 1);
                }
                assert forall|i: int| 0 <= i < self@.horizontal.len() implies (
                #[trigger] self@.horizontal[i]).len() == self@.size by {
                    assert(self.horizontal_walls[i].len() == self.size);
                }
            } else if self@.wf() {
                assert forall|i: int| 0 <= i < self.vertical_walls.len() implies (
                #[trigger] self.vertical_walls[i]).len() == self.size - 1 by {
                    assert(self@.vertical[i].len() + 1 == self@.size);
                }
                assert forall|i: int| 0 <= i < self.horizontal_walls.len() implies (
                #[trigger] self.horizontal_walls[i]).len() == self.size by {
                    assert(self@.horizontal[i].len() == self@.size);
                }
            }
        }
        ok
    }

    /// The grid without any inner wall.
    pub fn open(size: usize) -> (t: GridTopology)
        requires
            size <= MAX_SIZE,
        ensures
            t@.wf(),
            t@.size == size,
            forall|i: int, j: int|
                0 <= i < size && 0 <= j < size ==> (t@.open_right(i, j) <==> j + 1 < size),
            forall|i: int, j: int|
                0 <= i < size && 0 <= j < size ==> (t@.open_down(i, j) <==> i + 1 < size),
    {
        let mut vertical: Vec<Vec<bool>> = Vec::new();
        let mut horizontal: Vec<Vec<bool>> = Vec::new();
        let mut i: usize = 0;
        while i < size
            invariant
                i <= size,
                vertical.len() == i,
                horizontal.len() == (if i == 0 {
                    0
                } else {
                    i - 1
                }),
                forall|k: int|
                    0 <= k < vertical.len() ==> (#[trigger] vertical[k])@ =~= Seq::new(
                        (size - 1) as nat,
                        |j: int| false,
                    ),
                forall|k: int|
                    0 <= k < horizontal.len() ==> (#[trigger] horizontal[k])@ =~= Seq::new(
                        size as nat,
                        |j: int| false,
                    ),
            decreases size - i,
        {
            vertical.push(vec![false; size - 1]);
            if i > 0 {
                horizontal.push(vec![false; size]);
            }
            i += 1;
        }
        GridTopology { size, vertical_walls: vertical, horizontal_walls: horizontal }
    }

    /// Whether the agent standing on `p` may take one step in direction `d`:
    /// the step must stay on the grid and the edge it crosses must carry no
    /// wall. A position off the grid allows no step.
    pub fn can_move(&self, p: Position, d: Direction) -> (ok: bool)
        requires
            self@.wf(),
        ensures
            ok == self@.can_move(p, d),
    {
        if p.row >= self.size || p.col >= self.size {
            return false;
        }
        proof {
            self.lemma_row_lengths();
        }
        match d {
            Direction::Up => p.row > 0 && !self.horizontal_walls[p.row - 1][p.col],
            Direction::Down => p.row + 1 < self.size && !self.horizontal_walls[p.row][p.col],
            Direction::Left => p.col > 0 && !self.vertical_walls[p.row][p.col - 1],
            Direction::Right => p.col + 1 < self.size && !self.vertical_walls[p.row][p.col],
        }
    }

    /// The dimensions of a well-formed topology, stated over its tables.
    pub proof fn lemma_row_lengths(&self)
        requires
            self@.wf(),
        ensures
            self.vertical_walls.len() == self.size,
            self.size > 0 ==> self.horizontal_walls.len() == self.size - 1,
            forall|i: int|
                0 <= i < self.vertical_walls.len() ==> (#[trigger] self.vertical_walls[i]).len()
                    == self.size - 1,
            forall|i: int|
                0 <= i < self.horizontal_walls.len() ==> (#[trigger] self.horizontal_walls[i]).len()
                    == self.size,
    {
        assert forall|i: int| 0 <= i < self.vertical_walls.len() implies (
        #[trigger] self.vertical_walls[i]).len() == self.size - 1 by {
            assert(self@.vertical[i].len() + 1 == self@.size);
        }
        assert forall|i: int| 0 <= i < self.horizontal_walls.len() implies (
        #[trigger] self.horizontal_walls[i]).len() == self.size by {
            assert(self@.horizontal[i].len() == self@.size);
        }
    }

    /// The cell reached from `p` by one step in direction `d`, or `None`
    /// where that step is not legal.
    pub fn step(&self, p: Position, d: Direction) -> (next: Option<Position>)
        requires
            self@.wf(),
        ensures
            next == (if self@.can_move(p, d) {
                Some(neighbour(p, d))
            } else {
                None
            }),
    {
        if !self.can_move(p, d) {
            return None;
        }
        Some(
            match d {
                Direction::Up => Position { row: p.row - 1, col: p.col },
                Direction::Down => Position { row: p.row + 1, col: p.col },
                Direction::Left => Position { row: p.row, col: p.col - 1 },
                Direction::Right => Position { row: p.row, col: p.col + 1 },
            },
        )
    }
}

/// A legal step ends on the grid.
pub proof fn lemma_step_stays_on_grid(w: Walls, p: Position, d: Direction)
    requires
        w.wf(),
        w.can_move(p, d),
    ensures
        w.contains(p.row as int, p.col as int),
        w.contains(neighbour(p, d).row as int, neighbour(p, d).col as int),
{
}

/// Walls are symmetric: where a step is legal, so is the step back.
pub proof fn lemma_walls_symmetric(w: Walls, p: Position, d: Direction)
    requires
        w.wf(),
        w.can_move(p, d),
    ensures
        w.can_move(neighbour(p, d), opposite(d)),
{
}

/// The direction that undoes `d`.
pub open spec fn opposite(d: Direction) -> Direction {
    match d {
        Direction::Up => Direction::Down,
        Direction::Down => Direction::Up,
        Direction::Left => Direction::Right,
        Direction::Right => Direction::Left,
    }
}

} // verus!
