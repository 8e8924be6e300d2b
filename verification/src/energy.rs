//! The roughness of a value assignment: the sum, over every pair of
//! neighbouring cells that no wall separates, of the squared difference of
//! their values.

use crate::grid::{GridTopology, Walls, MAX_SIZE};
use vstd::prelude::*;

verus! {

/// The values of the grid, one row after the other.
#[derive(Clone, Debug, PartialEq, Eq)]
pub struct GridValues {
    pub cells: Vec<Vec<u32>>,
}

impl View for GridValues {
    type V = Seq<Seq<u32>>;

    open spec fn view(&self) -> Seq<Seq<u32>> {
        Seq::new(self.cells.len() as nat, |i: int| self.cells[i]@)
    }
}

/// The table `a` has `n` rows of `n` values.
pub open spec fn is_square(a: Seq<Seq<u32>>, n: nat) -> bool {
    &&& a.len() == n
    &&& forall|i: int| 0 <= i < n ==> (#[trigger] a[i]).len() == n
}

/// Every value of the `n x n` table `a` lies in `1..=n*n`.
pub open spec fn in_range(a: Seq<Seq<u32>>, n: nat) -> bool {
    forall|i: int, j: int| 0 <= i < n && 0 <= j < n ==> 1 <= #[trigger] a[i][j] <= n * n
}

/// No value occurs in two cells of the `n x n` table `a`.
pub open spec fn all_distinct(a: Seq<Seq<u32>>, n: nat) -> bool {
    forall|i: int, j: int, k: int, l: int|
        0 <= i < n && 0 <= j < n && 0 <= k < n && 0 <= l < n && (i != k || j != l) ==> (
        #[trigger] a[i][j]) != #[trigger] a[k][l]
}

/// The table `a` assigns the values `1..=n*n` to the `n x n` cells, each to
/// one cell.
pub open spec fn is_permutation(a: Seq<Seq<u32>>, n: nat) -> bool {
    is_square(a, n) && in_range(a, n) && all_distinct(a, n)
}

/// The square of the difference of two values.
pub open spec fn squared_difference(x: u32, y: u32) -> int {
    (x - y) * (x - y)
}

/// What cell `(i, j)` adds to the energy: the squared differences to its
/// right and lower neighbours, each counted where the edge is open. Taking
/// only these two neighbours counts every edge of the grid once.
pub open spec fn cell_energy(w: Walls, a: Seq<Seq<u32>>, i: int, j: int) -> int {
    (if w.open_right(i, j) {
        squared_difference(a[i][j], a[i][j + 1])
    } else {
        0
    }) + (if w.open_down(i, j) {
        squared_difference(a[i][j], a[i + 1][j])
    } else {
        0
    })
}

/// The energy of the first `cols` cells of row `i`.
pub open spec fn row_energy(w: Walls, a: Seq<Seq<u32>>, i: int, cols: nat) -> int
    decreases cols,
{
    if cols == 0 {
        0
    } else {
        row_energy(w, a, i, (cols - 1) as nat) + cell_energy(w, a, i, cols - 1)
    }
}

/// The energy of the first `rows` rows.
pub open spec fn rows_energy(w: Walls, a: Seq<Seq<u32>>, rows: nat) -> int
    decreases rows,
{
    if rows == 0 {
        0
    } else {
        rows_energy(w, a, (rows - 1) as nat) + row_energy(w, a, rows - 1, w.size)
    }
}

/// The energy of the value table `a` on the grid `w`.
pub open spec fn energy_of(w: Walls, a: Seq<Seq<u32>>) -> int {
    rows_energy(w, a, w.size)
}

/// The largest value a cell of a supported grid can hold.
pub const VALUE_MAX: u32 = 1_048_576;

/// Bound on what one cell adds to the energy.
pub const CELL_ENERGY_MAX: u64 = 2_199_023_255_552;

/// Bound on the energy of one row.
pub const ROW_ENERGY_MAX: u64 = 2_251_799_813_685_248;

/// Bound on the energy of a supported grid.
pub const ENERGY_MAX: u64 = 2_305_843_009_213_693_952;

/// The values of a supported grid stay below [`VALUE_MAX`].
pub proof fn lemma_value_bound(a: Seq<Seq<u32>>, n: nat, i: int, j: int)
    requires
        n <= MAX_SIZE,
        in_range(a, n),
        0 <= i < n,
        0 <= j < n,
    ensures
        1 <= a[i][j] <= VALUE_MAX,
{
    assert(n * n <= 1024 * 1024) by (nonlinear_arith)
        requires
            n <= 1024,
    ;
}

/// The squared difference of two bounded values is bounded, and does not
/// depend on which of the two is the larger.
pub proof fn lemma_squared_difference(x: u32, y: u32)
    requires
        1 <= x <= VALUE_MAX,
        1 <= y <= VALUE_MAX,
    ensures
        0 <= squared_difference(x, y) <= 1_099_511_627_776,
        squared_difference(x, y) == squared_difference(y, x),
        squared_difference(x, y) == 0 <==> x == y,
{
    let d: int = x - y;
    assert(0 <= d * d <= 1_099_511_627_776 && d * d == (-d) * (-d) && (d * d == 0 <==> d == 0))
        by (nonlinear_arith)
        requires
            -1_048_576 < d < 1_048_576,
    ;
}

/// One cell adds between `0` and [`CELL_ENERGY_MAX`] to the energy.
pub proof fn lemma_cell_energy_bound(w: Walls, a: Seq<Seq<u32>>, i: int, j: int)
    requires
        w.wf(),
        is_square(a, w.size),
        in_range(a, w.size),
    ensures
        0 <= cell_energy(w, a, i, j) <= CELL_ENERGY_MAX,
{
    if w.open_right(i, j) {
        lemma_value_bound(a, w.size, i, j);
        lemma_value_bound(a, w.size, i, j + 1);
        lemma_squared_difference(a[i][j], a[i][j + 1]);
    }
    if w.open_down(i, j) {
        lemma_value_bound(a, w.size, i, j);
        lemma_value_bound(a, w.size, i + 1, j);
        lemma_squared_difference(a[i][j], a[i + 1][j]);
    }
}

/// A prefix of a row has an energy between `0` and `cols` times
/// [`CELL_ENERGY_MAX`].
pub proof fn lemma_row_energy_bound(w: Walls, a: Seq<Seq<u32>>, i: int, cols: nat)
    requires
        w.wf(),
        is_square(a, w.size),
        in_range(a, w.size),
    ensures
        0 <= row_energy(w, a, i, cols) <= cols * CELL_ENERGY_MAX,
    decreases cols,
{
    if cols > 0 {
        lemma_row_energy_bound(w, a, i, (cols - 1) as nat);
        lemma_cell_energy_bound(w, a, i, cols - 1);
    }
}

/// The first `rows` rows have an energy between `0` and `rows` times
/// [`ROW_ENERGY_MAX`].
pub proof fn lemma_rows_energy_bound(w: Walls, a: Seq<Seq<u32>>, rows: nat)
    requires
        w.wf(),
        is_square(a, w.size),
        in_range(a, w.size),
    ensures
        0 <= rows_energy(w, a, rows) <= rows * ROW_ENERGY_MAX,
    decreases rows,
{
    if rows > 0 {
        lemma_rows_energy_bound(w, a, (rows - 1) as nat);
        lemma_row_energy_bound(w, a, rows - 1, w.size);
    }
}

/// The energy of a supported grid is non-negative and at most
/// [`ENERGY_MAX`].
pub proof fn lemma_energy_bound(w: Walls, a: Seq<Seq<u32>>)
    requires
        w.wf(),
        is_square(a, w.size),
        in_range(a, w.size),
    ensures
        0 <= energy_of(w, a) <= ENERGY_MAX,
{
    lemma_rows_energy_bound(w, a, w.size);
}

/// The squared difference of two bounded values.
fn squared_gap(x: u32, y: u32) -> (sq: u64)
    requires
        1 <= x <= VALUE_MAX,
        1 <= y <= VALUE_MAX,
    ensures
        sq == squared_difference(x, y),
        sq <= 1_099_511_627_776,
{
    let gap: u64 = if x >= y {
        (x - y) as u64
    } else {
        (y - x) as u64
    };
    proof {
        lemma_squared_difference(x, y);
        lemma_squared_difference(y, x);
    }
    gap * gap
}

impl GridValues {
    /// Whether the table has `n` rows of `n` values, all in `1..=n*n`.
    pub open spec fn fits(&self, n: nat) -> bool {
        is_square(self@, n) && in_range(self@, n)
    }

    /// The dimensions and value bounds of a fitting table, stated over its
    /// rows.
    pub proof fn lemma_rows(&self, n: nat)
        requires
            n <= MAX_SIZE,
            self.fits(n),
        ensures
            self.cells.len() == n,
            forall|i: int| 0 <= i < n ==> (#[trigger] self.cells[i]).len() == n,
            forall|i: int, j: int|
                0 <= i < n && 0 <= j < n ==> 1 <= #[trigger] self.cells[i][j] <= VALUE_MAX,
    {
        assert forall|i: int| 0 <= i < n implies (#[trigger] self.cells[i]).len() == n by {
            assert(self@[i].len() == n);
        }
        assert forall|i: int, j: int| 0 <= i < n && 0 <= j < n implies 1
            <= #[trigger] self.cells[i][j] <= VALUE_MAX by {
            assert(self@[i][j] == self.cells[i][j]);
            lemma_value_bound(self@, n, i, j);
        }
    }
}

/// Whether cell `(r, c)` comes before cell `(i, j)` when the cells are read
/// row by row.
spec fn comes_before(r: int, c: int, i: int, j: int) -> bool {
    r < i || (r == i && c < j)
}

impl GridValues {
    /// Checks that the table assigns the values `1..=n*n` to `n x n` cells,
    /// each to one cell.
    pub fn is_permutation_of_side(&self, n: usize) -> (ok: bool)
        requires
            n <= MAX_SIZE,
        ensures
            ok == is_permutation(self@, n as nat),
    {
        if self.cells.len() != n {
            return false;
        }
        let mut i: usize = 0;
        while i < n
            invariant
                i <= n,
                self.cells.len() == n,
                forall|r: int| 0 <= r < i ==> (#[trigger] self.cells[r]).len() == n,
            decreases n - i,
        {
            if self.cells[i].len() != n {
                assert(self@[i as int].len() != n);
                return false;
            }
            i += 1;
        }
        assert(is_square(self@, n as nat)) by {
            assert forall|r: int| 0 <= r < n implies (#[trigger] self@[r]).len() == n by {
                assert(self.cells[r].len() == n);
            }
        }
        assert(n * n <= 1024 * 1024) by (nonlinear_arith)
            requires
                n <= 1024,
        ;
        let cells = n * n;
        let mut seen: Vec<bool> = vec![false; cells + 1];
        let ghost mut owner: Seq<(int, int)> = Seq::new((cells + 1) as nat, |v: int| (0int, 0int));
        let ghost a = self@;
        let mut i: usize = 0;
        while i < n
            invariant
                i <= n,
                n <= MAX_SIZE,
                cells == n * n,
                a == self@,
                is_square(a, n as nat),
                self.cells.len() == n,
                forall|r: int| 0 <= r < n ==> (#[trigger] self.cells[r]).len() == n,
                seen@.len() == cells + 1,
                owner.len() == cells + 1,
                forall|v: int|
                    0 <= v <= cells && #[trigger] seen@[v] ==> {
                        &&& comes_before(owner[v].0, owner[v].1, i as int, 0)
                        &&& 0 <= owner[v].0 < n && 0 <= owner[v].1 < n
                        &&& a[owner[v].0][owner[v].1] == v
                    },
                forall|r: int, c: int|
                    0 <= r < n && 0 <= c < n && comes_before(r, c, i as int, 0) ==> {
                        &&& 1 <= #[trigger] a[r][c] <= cells
                        &&& seen@[a[r][c] as int]
                        &&& owner[a[r][c] as int] == (r, c)
                    },
            decreases n - i,
        {
            let mut j: usize = 0;
            while j < n
                invariant
                    i < n,
                    j <= n,
                    n <= MAX_SIZE,
                    cells == n * n,
                    a == self@,
                    is_square(a, n as nat),
                    self.cells.len() == n,
                    forall|r: int| 0 <= r < n ==> (#[trigger] self.cells[r]).len() == n,
                    seen@.len() == cells + 1,
                    owner.len() == cells + 1,
                    forall|v: int|
                        0 <= v <= cells && #[trigger] seen@[v] ==> {
                            &&& comes_before(owner[v].0, owner[v].1, i as int, j as int)
                            &&& 0 <= owner[v].0 < n && 0 <= owner[v].1 < n
                            &&& a[owner[v].0][owner[v].1] == v
                        },
                    forall|r: int, c: int|
                        0 <= r < n && 0 <= c < n && comes_before(r, c, i as int, j as int) ==> {
                            &&& 1 <= #[trigger] a[r][c] <= cells
                            &&& seen@[a[r][c] as int]
                            &&& owner[a[r][c] as int] == (r, c)
                        },
                decreases n - j,
            {
                let v = self.cells[i][j];
                assert(a[i as int][j as int] == v);
                if v < 1 || v as usize > cells {
                    assert(!in_range(a, n as nat));
                    return false;
                }
                if seen[v as usize] {
                    proof {
                        let (r, c) = owner[v as int];
                        assert(a[r][c] == a[i as int][j as int]);
                        assert(r != i || c != j);
                        assert(!all_distinct(a, n as nat));
                    }
                    return false;
                }
                seen.set(v as usize, true);
                proof {
                    owner = owner.update(v as int, (i as int, j as int));
                }
                j += 1;
            }
            i += 1;
        }
        proof {
            assert forall|r: int, c: int, k: int, l: int|
                0 <= r < n && 0 <= c < n && 0 <= k < n && 0 <= l < n && (r != k || c != l) implies (
            #[trigger] a[r][c]) != #[trigger] a[k][l] by {
                assert(comes_before(r, c, n as int, 0));
                assert(comes_before(k, l, n as int, 0));
                assert(owner[a[r][c] as int] == (r, c));
                assert(owner[a[k][l] as int] == (k, l));
            }
            assert forall|r: int, c: int| 0 <= r < n && 0 <= c < n implies 1 <= #[trigger] a[r][c]
                <= n * n by {
                assert(comes_before(r, c, n as int, 0));
            }
        }
        true
    }
}

/// Computes the energy of `values` on the grid `topology` in one pass over
/// the cells.
pub fn energy(topology: &GridTopology, values: &GridValues) -> (e: u64)
    requires
        topology@.wf(),
        values.fits(topology@.size),
    ensures
        e == energy_of(topology@, values@),
        e <= ENERGY_MAX,
{
    let n = topology.size;
    let ghost w = topology@;
    let ghost a = values@;
    proof {
        topology.lemma_row_lengths();
        values.lemma_rows(n as nat);
    }
    let mut total: u64 = 0;
    let mut i: usize = 0;
    while i < n
        invariant
            i <= n,
            n == topology.size,
            n <= MAX_SIZE,
            w == topology@,
            a == values@,
            w.wf(),
            values.fits(w.size),
            topology.vertical_walls.len() == n,
            n > 0 ==> topology.horizontal_walls.len() == n - 1,
            forall|r: int|
                0 <= r < topology.vertical_walls.len() ==> (#[trigger] topology.vertical_walls[r]).len()
                    == n - 1,
            forall|r: int|
                0 <= r < topology.horizontal_walls.len() ==> (
                #[trigger] topology.horizontal_walls[r]).len() == n,
            values.cells.len() == n,
            forall|r: int| 0 <= r < n ==> (#[trigger] values.cells[r]).len() == n,
            forall|r: int, c: int|
                0 <= r < n && 0 <= c < n ==> 1 <= #[trigger] values.cells[r][c] <= VALUE_MAX,
            total == rows_energy(w, a, i as nat),
            total <= i * ROW_ENERGY_MAX,
        decreases n - i,
    {
        let mut row_total: u64 = 0;
        let mut j: usize = 0;
        while j < n
            invariant
                i < n,
                j <= n,
                n == topology.size,
                n <= MAX_SIZE,
                w == topology@,
                a == values@,
                w.wf(),
                values.fits(w.size),
                topology.vertical_walls.len() == n,
                n > 0 ==> topology.horizontal_walls.len() == n - 1,
                forall|r: int|
                    0 <= r < topology.vertical_walls.len() ==> (
                    #[trigger] topology.vertical_walls[r]).len() == n - 1,
                forall|r: int|
                    0 <= r < topology.horizontal_walls.len() ==> (
                    #[trigger] topology.horizontal_walls[r]).len() == n,
                values.cells.len() == n,
                forall|r: int| 0 <= r < n ==> (#[trigger] values.cells[r]).len() == n,
                forall|r: int, c: int|
                    0 <= r < n && 0 <= c < n ==> 1 <= #[trigger] values.cells[r][c] <= VALUE_MAX,
                row_total == row_energy(w, a, i as int, j as nat),
                row_total <= j * CELL_ENERGY_MAX,
            decreases n - j,
        {
            proof {
                lemma_cell_energy_bound(w, a, i as int, j as int);
            }
            let here = values.cells[i][j];
            if j + 1 < n && !topology.vertical_walls[i][j] {
                row_total += squared_gap(here, values.cells[i][j + 1]);
            }
            if i + 1 < n && !topology.horizontal_walls[i][j] {
                row_total += squared_gap(here, values.cells[i + 1][j]);
            }
            j += 1;
        }
        total += row_total;
        i += 1;
    }
    total
}

/// The grid has no open edge: every pair of neighbouring cells is
/// separated by a wall.
pub open spec fn all_walled(w: Walls) -> bool {
    forall|i: int, j: int| !#[trigger] has_open_edge(w, i, j)
}

/// An open edge leads from cell `(i, j)` to the right or down.
pub open spec fn has_open_edge(w: Walls, i: int, j: int) -> bool {
    w.open_right(i, j) || w.open_down(i, j)
}

/// The energy is at least what any one cell adds to it.
proof fn lemma_energy_covers_cell(w: Walls, a: Seq<Seq<u32>>, i: int, j: int)
    requires
        w.wf(),
        is_square(a, w.size),
        in_range(a, w.size),
        w.contains(i, j),
    ensures
        energy_of(w, a) >= cell_energy(w, a, i, j),
{
    lemma_rows_cover_row(w, a, w.size, i);
    lemma_row_covers_cell(w, a, i, w.size, j);
}

/// The energy of a prefix of a row is at least what any one of its cells
/// adds to it.
proof fn lemma_row_covers_cell(w: Walls, a: Seq<Seq<u32>>, i: int, cols: nat, j: int)
    requires
        w.wf(),
        is_square(a, w.size),
        in_range(a, w.size),
        0 <= j < cols,
    ensures
        row_energy(w, a, i, cols) >= cell_energy(w, a, i, j),
    decreases cols,
{
    lemma_row_energy_bound(w, a, i, (cols - 1) as nat);
    lemma_cell_energy_bound(w, a, i, cols - 1);
    if j < cols - 1 {
        lemma_row_covers_cell(w, a, i, (cols - 1) as nat, j);
    }
}

/// The energy of the first rows is at least the energy of any one of them.
proof fn lemma_rows_cover_row(w: Walls, a: Seq<Seq<u32>>, rows: nat, i: int)
    requires
        w.wf(),
        is_square(a, w.size),
        in_range(a, w.size),
        0 <= i < rows,
    ensures
        rows_energy(w, a, rows) >= row_energy(w, a, i, w.size),
    decreases rows,
{
    lemma_rows_energy_bound(w, a, (rows - 1) as nat);
    lemma_row_energy_bound(w, a, rows - 1, w.size);
    if i < rows - 1 {
        lemma_rows_cover_row(w, a, (rows - 1) as nat, i);
    }
}

/// Without an open edge every prefix of a row has energy `0`.
proof fn lemma_walled_row(w: Walls, a: Seq<Seq<u32>>, i: int, cols: nat)
    requires
        all_walled(w),
    ensures
        row_energy(w, a, i, cols) == 0,
    decreases cols,
{
    if cols > 0 {
        lemma_walled_row(w, a, i, (cols - 1) as nat);
        assert(!has_open_edge(w, i, cols - 1));
    }
}

/// Without an open edge the first rows have energy `0`.
proof fn lemma_walled_rows(w: Walls, a: Seq<Seq<u32>>, rows: nat)
    requires
        all_walled(w),
    ensures
        rows_energy(w, a, rows) == 0,
    decreases rows,
{
    if rows > 0 {
        lemma_walled_rows(w, a, (rows - 1) as nat);
        lemma_walled_row(w, a, rows - 1, w.size);
    }
}

/// A permutation table has energy `0` on exactly the grids that have no
/// open edge: two neighbours never hold the same value, so every open edge
/// adds to the energy.
pub proof fn lemma_energy_zero_iff_all_walled(w: Walls, a: Seq<Seq<u32>>)
    requires
        w.wf(),
        is_permutation(a, w.size),
    ensures
        energy_of(w, a) == 0 <==> all_walled(w),
{
    if all_walled(w) {
        lemma_walled_rows(w, a, w.size);
    } else {
        let (i, j) = choose|i: int, j: int| #[trigger] has_open_edge(w, i, j);
        lemma_energy_covers_cell(w, a, i, j);
        lemma_value_bound(a, w.size, i, j);
        if w.open_right(i, j) {
            lemma_value_bound(a, w.size, i, j + 1);
            lemma_squared_difference(a[i][j], a[i][j + 1]);
            assert(a[i][j] != a[i][j + 1]);
        }
        if w.open_down(i, j) {
            lemma_value_bound(a, w.size, i + 1, j);
            lemma_squared_difference(a[i][j], a[i + 1][j]);
            assert(a[i][j] != a[i + 1][j]);
        }
    }
}

/// The energy summed cell by cell in the order in which `order` lists the
/// cells.
pub open spec fn energy_along(w: Walls, a: Seq<Seq<u32>>, order: Seq<(int, int)>) -> int {
    order.fold_left(0int, |sum: int, c: (int, int)| sum + cell_energy(w, a, c.0, c.1))
}

/// Whether `order` lists every cell of a grid of side `n` exactly once.
pub open spec fn visits_each_cell_once(order: Seq<(int, int)>, n: nat) -> bool {
    &&& order.no_duplicates()
    &&& forall|k: int|
        0 <= k < order.len() ==> 0 <= (#[trigger] order[k]).0 < n && 0 <= order[k].1 < n
    &&& forall|i: int, j: int| 0 <= i < n && 0 <= j < n ==> order.contains((i, j))
}

/// The first `cols` cells of row `i`, from left to right.
spec fn cells_of_row(i: int, cols: nat) -> Seq<(int, int)> {
    Seq::new(cols, |j: int| (i, j))
}

/// The cells of the first `rows` rows of a grid of side `n`, row by row.
spec fn cells_of_rows(n: nat, rows: nat) -> Seq<(int, int)>
    decreases rows,
{
    if rows == 0 {
        Seq::empty()
    } else {
        cells_of_rows(n, (rows - 1) as nat) + cells_of_row(rows - 1, n)
    }
}

/// Summing along two orders, one after the other, adds up.
proof fn lemma_energy_along_concat(
    w: Walls,
    a: Seq<Seq<u32>>,
    first: Seq<(int, int)>,
    second: Seq<(int, int)>,
)
    ensures
        energy_along(w, a, first + second) == energy_along(w, a, first) + energy_along(
            w,
            a,
            second,
        ),
    decreases second.len(),
{
    if second.len() == 0 {
        assert(first + second =~= first);
    } else {
        lemma_energy_along_concat(w, a, first, second.drop_last());
        assert((first + second).drop_last() =~= first + second.drop_last());
    }
}

/// Summing along a row from left to right gives the energy of the row.
proof fn lemma_energy_along_row(w: Walls, a: Seq<Seq<u32>>, i: int, cols: nat)
    ensures
        energy_along(w, a, cells_of_row(i, cols)) == row_energy(w, a, i, cols),
    decreases cols,
{
    if cols > 0 {
        lemma_energy_along_row(w, a, i, (cols - 1) as nat);
        assert(cells_of_row(i, cols).drop_last() =~= cells_of_row(i, (cols - 1) as nat));
    }
}

/// Summing row by row gives the energy of the rows.
proof fn lemma_energy_along_rows(w: Walls, a: Seq<Seq<u32>>, rows: nat)
    ensures
        energy_along(w, a, cells_of_rows(w.size, rows)) == rows_energy(w, a, rows),
    decreases rows,
{
    if rows > 0 {
        lemma_energy_along_rows(w, a, (rows - 1) as nat);
        lemma_energy_along_row(w, a, rows - 1, w.size);
        lemma_energy_along_concat(
            w,
            a,
            cells_of_rows(w.size, (rows - 1) as nat),
            cells_of_row(rows - 1, w.size),
        );
    }
}

/// Row by row, the first `rows` rows list each of their cells once.
proof fn lemma_cells_of_rows(n: nat, rows: nat)
    ensures
        cells_of_rows(n, rows).no_duplicates(),
        forall|k: int|
            0 <= k < cells_of_rows(n, rows).len() ==> 0 <= (#[trigger] cells_of_rows(
                n,
                rows,
            )[k]).0 < rows && 0 <= cells_of_rows(n, rows)[k].1 < n,
        forall|i: int, j: int|
            0 <= i < rows && 0 <= j < n ==> cells_of_rows(n, rows).contains((i, j)),
    decreases rows,
{
    if rows > 0 {
        let above = cells_of_rows(n, (rows - 1) as nat);
        let last = cells_of_row(rows - 1, n);
        let all = cells_of_rows(n, rows);
        lemma_cells_of_rows(n, (rows - 1) as nat);
        assert(all == above + last);
        vstd::seq_lib::lemma_no_dup_in_concat(above, last);
        assert forall|i: int, j: int| 0 <= i < rows && 0 <= j < n implies all.contains(
            (i, j),
        ) by {
            if i < rows - 1 {
                assert(above.contains((i, j)));
                let k = choose|k: int| 0 <= k < above.len() && above[k] == (i, j);
                assert(all[k] == (i, j));
            } else {
                assert(all[above.len() + j] == last[j]);
            }
        }
    }
}

/// Two orders that each list every cell once hold the same cells.
proof fn lemma_same_cells(first: Seq<(int, int)>, second: Seq<(int, int)>, n: nat)
    requires
        visits_each_cell_once(first, n),
        visits_each_cell_once(second, n),
    ensures
        first.to_multiset() == second.to_multiset(),
{
    first.to_multiset_ensures();
    second.to_multiset_ensures();
    first.lemma_multiset_has_no_duplicates();
    second.lemma_multiset_has_no_duplicates();
    assert forall|c: (int, int)| first.to_multiset().count(c) == second.to_multiset().count(
        c,
    ) by {
        if 0 <= c.0 < n && 0 <= c.1 < n {
            assert(first.contains((c.0, c.1)));
            assert(second.contains((c.0, c.1)));
        } else {
            if first.contains(c) {
                let k = choose|k: int| 0 <= k < first.len() && first[k] == c;
                assert(0 <= first[k].0 < n);
            }
            if second.contains(c) {
                let k = choose|k: int| 0 <= k < second.len() && second[k] == c;
                assert(0 <= second[k].0 < n);
            }
        }
    }
    assert(first.to_multiset() =~= second.to_multiset());
}

/// The energy does not depend on the order in which the cells are visited:
/// summed along any order that lists every cell of the grid exactly once, it
/// is the same.
pub proof fn lemma_energy_order_independent(w: Walls, a: Seq<Seq<u32>>, order: Seq<(int, int)>)
    requires
        visits_each_cell_once(order, w.size),
    ensures
        energy_along(w, a, order) == energy_of(w, a),
{
    let canonical = cells_of_rows(w.size, w.size);
    lemma_cells_of_rows(w.size, w.size);
    lemma_same_cells(order, canonical, w.size);
    let add = |sum: int, c: (int, int)| sum + cell_energy(w, a, c.0, c.1);
    assert(vstd::seq_lib::commutative_foldl(add));
    vstd::seq_lib::lemma_fold_left_permutation(order, canonical, add, 0int);
    lemma_energy_along_rows(w, a, w.size);
}

} // verus!
