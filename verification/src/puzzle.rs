use vstd::prelude::*;

verus! {

/// One cell of the 9-by-9 grid, identified by row and column.
#[derive(Clone, Copy, PartialEq, Eq, Structural, Debug)]
pub struct Cell {
    pub row: usize,
    pub col: usize,
}

impl Cell {
    /// The cell lies on the grid.
    pub open spec fn wf(self) -> bool {
        self.row < 9 && self.col < 9
    }

    /// Position of the cell in the row-major enumeration of the 81 cells.
    pub open spec fn idx(self) -> int {
        self.row * 9 + self.col
    }

    pub fn new(row: usize, col: usize) -> (c: Cell)
        ensures
            c == (Cell { row, col }),
    {
        Cell { row, col }
    }
}

/// A relative displacement that the offset rule applies to every cell.
#[derive(Clone, Copy, PartialEq, Eq, Structural, Debug)]
pub struct Offset {
    pub drow: i32,
    pub dcol: i32,
}

/// A declaratively specified puzzle instance: given digits, rule toggles,
/// and geometric constraint groups.
pub struct Puzzle {
    /// 9x9 grid of digits; a value outside [1,9] means "no clue here".
    pub given: Vec<Vec<u64>>,
    /// Require the nine values of every row to be pairwise distinct.
    pub horizontal_rule: bool,
    /// Require the nine values of every column to be pairwise distinct.
    pub vertical_rule: bool,
    /// Require the nine values of every 3x3 box to be pairwise distinct.
    pub nonet_rule: bool,
    /// Every cell must differ from every in-bounds offset target.
    pub offset: Vec<Offset>,
    /// Chains of cells with strictly increasing values.
    pub thermo: Vec<Vec<Cell>>,
    /// Groups whose first cell equals the sum of the remaining cells.
    pub arrow: Vec<Vec<Cell>>,
    /// Pairs whose values differ by exactly one.
    pub kropki_adjacent: Vec<(Cell, Cell)>,
    /// Pairs whose values stand in ratio one to two.
    pub kropki_double: Vec<(Cell, Cell)>,
    /// Chains where consecutive values differ by at least five.
    pub german_whispers: Vec<Vec<Cell>>,
}

/// Both coordinates lie on the grid.
pub open spec fn in_bounds(r: int, c: int) -> bool {
    0 <= r < 9 && 0 <= c < 9
}

/// The value that assignment `g` (81 cells, row-major) puts at row `r`, column `c`.
pub open spec fn val(g: Seq<u64>, r: int, c: int) -> int {
    g[r * 9 + c] as int
}

/// The value that assignment `g` puts in `cell`.
pub open spec fn cell_val(g: Seq<u64>, cell: Cell) -> int {
    g[cell.idx()] as int
}

/// Every cell of the assignment holds a digit in [1,9].
pub open spec fn in_domain(g: Seq<u64>) -> bool {
    forall|i: int| 0 <= i < 81 ==> 1 <= #[trigger] g[i] && g[i] <= 9
}

/// The digit given for row `r`, column `c` of the puzzle.
pub open spec fn clue_at(p: Puzzle, r: int, c: int) -> int {
    p.given[r][c] as int
}

/// Every in-range given digit is reproduced by the assignment.
pub open spec fn givens_ok(p: Puzzle, g: Seq<u64>) -> bool {
    forall|r: int, c: int|
        0 <= r < 9 && 0 <= c < 9 && 1 <= #[trigger] clue_at(p, r, c) <= 9 ==> val(g, r, c)
            == clue_at(p, r, c)
}

/// The nine values of every row are pairwise distinct.
pub open spec fn rows_distinct(g: Seq<u64>) -> bool {
    forall|r: int, c1: int, c2: int|
        0 <= r < 9 && 0 <= c1 < c2 < 9 ==> val(g, r, c1) != val(g, r, c2)
}

/// The nine values of every column are pairwise distinct.
pub open spec fn cols_distinct(g: Seq<u64>) -> bool {
    forall|c: int, r1: int, r2: int|
        0 <= c < 9 && 0 <= r1 < r2 < 9 ==> val(g, r1, c) != val(g, r2, c)
}

/// Row of the `k`-th member of box `b` under the standard box tiling.
pub open spec fn box_row(b: int, k: int) -> int {
    (b / 3) * 3 + k / 3
}

/// Column of the `k`-th member of box `b` under the standard box tiling.
pub open spec fn box_col(b: int, k: int) -> int {
    (b % 3) * 3 + k % 3
}

/// The nine values of every 3x3 box are pairwise distinct.
pub open spec fn boxes_distinct(g: Seq<u64>) -> bool {
    forall|b: int, k1: int, k2: int|
        0 <= b < 9 && 0 <= k1 < k2 < 9 ==> val(g, box_row(b, k1), box_col(b, k1)) != val(
            g,
            box_row(b, k2),
            box_col(b, k2),
        )
}

/// Every cell differs from every offset target that lies in bounds.
pub open spec fn offsets_ok(p: Puzzle, g: Seq<u64>) -> bool {
    forall|r: int, c: int, k: int|
        #![trigger val(g, r, c), p.offset[k]]
        0 <= r < 9 && 0 <= c < 9 && 0 <= k < p.offset.len() && in_bounds(
            r + p.offset[k].drow as int,
            c + p.offset[k].dcol as int,
        ) ==> val(g, r, c) != val(g, r + p.offset[k].drow as int, c + p.offset[k].dcol as int)
}

/// Values strictly increase along the chain.
pub open spec fn chain_increasing(cells: Seq<Cell>, g: Seq<u64>) -> bool {
    forall|k: int|
        #![trigger cells[k]]
        0 <= k && k + 1 < cells.len() ==> cell_val(g, cells[k]) < cell_val(g, cells[k + 1])
}

/// Every thermometer chain strictly increases.
pub open spec fn thermos_ok(p: Puzzle, g: Seq<u64>) -> bool {
    forall|t: int| 0 <= t < p.thermo.len() ==> chain_increasing((#[trigger] p.thermo[t])@, g)
}

/// Sum of the values that `g` puts in `cells`.
pub open spec fn sum_vals(g: Seq<u64>, cells: Seq<Cell>) -> int
    decreases cells.len(),
{
    if cells.len() == 0 {
        0
    } else {
        sum_vals(g, cells.drop_last()) + cell_val(g, cells.last())
    }
}

/// The first cell of the group carries the sum of the remaining cells.
pub open spec fn arrow_ok(group: Seq<Cell>, g: Seq<u64>) -> bool {
    group.len() >= 1 ==> cell_val(g, group[0]) == sum_vals(g, group.skip(1))
}

/// Every arrow group sums correctly.
pub open spec fn arrows_ok(p: Puzzle, g: Seq<u64>) -> bool {
    forall|a: int| 0 <= a < p.arrow.len() ==> arrow_ok((#[trigger] p.arrow[a])@, g)
}

/// The two values differ by exactly one.
pub open spec fn adjacent_pair_ok(a: Cell, b: Cell, g: Seq<u64>) -> bool {
    cell_val(g, a) - cell_val(g, b) == 1 || cell_val(g, b) - cell_val(g, a) == 1
}

/// Every white-dot kropki pair differs by exactly one.
pub open spec fn kropki_adjacent_ok(p: Puzzle, g: Seq<u64>) -> bool {
    forall|k: int|
        0 <= k < p.kropki_adjacent.len() ==> adjacent_pair_ok(
            (#[trigger] p.kropki_adjacent[k]).0,
            p.kropki_adjacent[k].1,
            g,
        )
}

/// One value is exactly double the other.
pub open spec fn double_pair_ok(a: Cell, b: Cell, g: Seq<u64>) -> bool {
    cell_val(g, a) == 2 * cell_val(g, b) || cell_val(g, b) == 2 * cell_val(g, a)
}

/// Every black-dot kropki pair stands in ratio one to two.
pub open spec fn kropki_double_ok(p: Puzzle, g: Seq<u64>) -> bool {
    forall|k: int|
        0 <= k < p.kropki_double.len() ==> double_pair_ok(
            (#[trigger] p.kropki_double[k]).0,
            p.kropki_double[k].1,
            g,
        )
}

/// Consecutive values along the chain differ by at least five.
pub open spec fn chain_whispers(cells: Seq<Cell>, g: Seq<u64>) -> bool {
    forall|k: int|
        #![trigger cells[k]]
        0 <= k && k + 1 < cells.len() ==> cell_val(g, cells[k]) - cell_val(g, cells[k + 1]) >= 5
            || cell_val(g, cells[k + 1]) - cell_val(g, cells[k]) >= 5
}

/// Every german-whispers chain keeps its gaps.
pub open spec fn whispers_ok(p: Puzzle, g: Seq<u64>) -> bool {
    forall|w: int|
        0 <= w < p.german_whispers.len() ==> chain_whispers((#[trigger] p.german_whispers[w])@, g)
}

/// The assignment `g` is a solution of the puzzle: it keeps the digit domain,
/// reproduces every given clue, and satisfies every enabled rule.
pub open spec fn satisfies(p: Puzzle, g: Seq<u64>) -> bool {
    &&& in_domain(g)
    &&& givens_ok(p, g)
    &&& (p.horizontal_rule ==> rows_distinct(g))
    &&& (p.vertical_rule ==> cols_distinct(g))
    &&& (p.nonet_rule ==> boxes_distinct(g))
    &&& offsets_ok(p, g)
    &&& thermos_ok(p, g)
    &&& arrows_ok(p, g)
    &&& kropki_adjacent_ok(p, g)
    &&& kropki_double_ok(p, g)
    &&& whispers_ok(p, g)
}

impl Puzzle {
    /// Shape validity of a puzzle instance: a 9x9 given grid and every
    /// referenced cell on the grid. The puzzle source validates this shape.
    pub open spec fn wf(self) -> bool {
        &&& self.given.len() == 9
        &&& (forall|r: int| 0 <= r < 9 ==> (#[trigger] self.given[r]).len() == 9)
        &&& (forall|t: int, k: int|
            0 <= t < self.thermo.len() && 0 <= k < self.thermo[t].len() ==> (
            #[trigger] self.thermo[t][k]).wf())
        &&& (forall|a: int, k: int|
            0 <= a < self.arrow.len() && 0 <= k < self.arrow[a].len() ==> (
            #[trigger] self.arrow[a][k]).wf())
        &&& (forall|k: int|
            0 <= k < self.kropki_adjacent.len() ==> (#[trigger] self.kropki_adjacent[k]).0.wf()
                && self.kropki_adjacent[k].1.wf())
        &&& (forall|k: int|
            0 <= k < self.kropki_double.len() ==> (#[trigger] self.kropki_double[k]).0.wf()
                && self.kropki_double[k].1.wf())
        &&& (forall|w: int, k: int|
            0 <= w < self.german_whispers.len() && 0 <= k < self.german_whispers[w].len() ==> (
            #[trigger] self.german_whispers[w][k]).wf())
    }
}

} // verus!
