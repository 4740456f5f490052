use vstd::prelude::*;

verus! {

use crate::puzzle::{Cell, cell_val, sum_vals, double_pair_ok};

/// One primitive constraint over the 81-cell variable grid, in the
/// engine-agnostic form that the compiler emits. A solving backend renders
/// each variant with its native comparison, disjunction and sum operations.
pub enum Constraint {
    /// The cell's value is at least the constant.
    GeConst(Cell, u64),
    /// The cell's value is at most the constant.
    LeConst(Cell, u64),
    /// The cell's value equals the constant.
    EqConst(Cell, u64),
    /// The cell's value differs from the constant.
    NeqConst(Cell, u64),
    /// The two cells hold different values.
    NeqCells(Cell, Cell),
    /// The first cell's value is strictly below the second's.
    LtCells(Cell, Cell),
    /// The listed cells hold pairwise distinct values.
    Distinct(Vec<Cell>),
    /// The first cell's value equals the sum over the listed cells.
    SumEq(Cell, Vec<Cell>),
    /// One value exceeds the other by exactly the constant, in either order.
    EitherDiffEq(Cell, Cell, u64),
    /// One value exceeds the other by at least the constant, in either order.
    EitherDiffGe(Cell, Cell, u64),
    /// The two values form one of the eight digit pairs in ratio one to two:
    /// (1,2), (2,1), (2,4), (3,6), (4,2), (4,8), (6,3), (8,4).
    DoubleRatio(Cell, Cell),
    /// Some cell of the grid differs from the recorded assignment
    /// (the blocking clause used when counting solutions).
    DiffersFrom(Vec<u64>),
}

impl Constraint {
    /// Every referenced cell lies on the grid, and a recorded assignment
    /// covers all 81 cells.
    pub open spec fn wf(self) -> bool {
        match self {
            Constraint::GeConst(a, _) => a.wf(),
            Constraint::LeConst(a, _) => a.wf(),
            Constraint::EqConst(a, _) => a.wf(),
            Constraint::NeqConst(a, _) => a.wf(),
            Constraint::NeqCells(a, b) => a.wf() && b.wf(),
            Constraint::LtCells(a, b) => a.wf() && b.wf(),
            Constraint::Distinct(cells) => forall|i: int|
                0 <= i < cells.len() ==> (#[trigger] cells[i]).wf(),
            Constraint::SumEq(t, cells) => t.wf() && forall|i: int|
                0 <= i < cells.len() ==> (#[trigger] cells[i]).wf(),
            Constraint::EitherDiffEq(a, b, _) => a.wf() && b.wf(),
            Constraint::EitherDiffGe(a, b, _) => a.wf() && b.wf(),
            Constraint::DoubleRatio(a, b) => a.wf() && b.wf(),
            Constraint::DiffersFrom(vals) => vals.len() == 81,
        }
    }
}

/// What it means for assignment `g` (81 cells, row-major) to satisfy one
/// primitive constraint.
pub open spec fn holds(c: Constraint, g: Seq<u64>) -> bool {
    match c {
        Constraint::GeConst(a, k) => cell_val(g, a) >= k,
        Constraint::LeConst(a, k) => cell_val(g, a) <= k,
        Constraint::EqConst(a, k) => cell_val(g, a) == k,
        Constraint::NeqConst(a, k) => cell_val(g, a) != k,
        Constraint::NeqCells(a, b) => cell_val(g, a) != cell_val(g, b),
        Constraint::LtCells(a, b) => cell_val(g, a) < cell_val(g, b),
        Constraint::Distinct(cells) => forall|i: int, j: int|
            0 <= i < j < cells.len() ==> cell_val(g, #[trigger] cells[i]) != cell_val(
                g,
                #[trigger] cells[j],
            ),
        Constraint::SumEq(t, cells) => cell_val(g, t) == sum_vals(g, cells@),
        Constraint::EitherDiffEq(a, b, k) => cell_val(g, a) - cell_val(g, b) == k || cell_val(g, b)
            - cell_val(g, a) == k,
        Constraint::EitherDiffGe(a, b, k) => cell_val(g, a) - cell_val(g, b) >= k || cell_val(g, b)
            - cell_val(g, a) >= k,
        Constraint::DoubleRatio(a, b) => {
            let x = cell_val(g, a);
            let y = cell_val(g, b);
            ||| (x == 1 && y == 2)
            ||| (x == 2 && y == 1)
            ||| (x == 2 && y == 4)
            ||| (x == 3 && y == 6)
            ||| (x == 4 && y == 2)
            ||| (x == 4 && y == 8)
            ||| (x == 6 && y == 3)
            ||| (x == 8 && y == 4)
        },
        Constraint::DiffersFrom(vals) => exists|i: int| 0 <= i < 81 && g[i] != #[trigger] vals[i],
    }
}

/// The assignment satisfies every constraint of the sequence.
pub open spec fn all_hold(cs: Seq<Constraint>, g: Seq<u64>) -> bool {
    forall|i: int| 0 <= i < cs.len() ==> holds(#[trigger] cs[i], g)
}

/// The assignment satisfies every constraint with position in [lo, hi).
pub open spec fn seg_holds(cs: Seq<Constraint>, lo: int, hi: int, g: Seq<u64>) -> bool {
    forall|i: int| lo <= i < hi ==> holds(#[trigger] cs[i], g)
}

/// Look up the value of `cell` in an 81-cell assignment.
fn read_cell(g: &Vec<u64>, cell: Cell) -> (v: u64)
    requires
        g@.len() == 81,
        cell.wf(),
    ensures
        v as int == cell_val(g@, cell),
{
    g[cell.row * 9 + cell.col]
}

fn eval_distinct(cells: &Vec<Cell>, g: &Vec<u64>) -> (r: bool)
    requires
        g@.len() == 81,
        forall|i: int| 0 <= i < cells@.len() ==> (#[trigger] cells@[i]).wf(),
    ensures
        r == (forall|i: int, j: int|
            0 <= i < j < cells@.len() ==> cell_val(g@, #[trigger] cells@[i]) != cell_val(
                g@,
                #[trigger] cells@[j],
            )),
{
    let n = cells.len();
    let mut i: usize = 0;
    while i < n
        invariant
            g@.len() == 81,
            n == cells@.len(),
            i <= n,
            forall|k: int| 0 <= k < cells@.len() ==> (#[trigger] cells@[k]).wf(),
            forall|p: int, q: int|
                0 <= p < q < cells@.len() && p < i ==> cell_val(g@, #[trigger] cells@[p])
                    != cell_val(g@, #[trigger] cells@[q]),
        decreases n - i,
    {
        let vi = read_cell(g, cells[i]);
        let mut j: usize = i + 1;
        while j < n
            invariant
                g@.len() == 81,
                n == cells@.len(),
                i < n,
                i < j <= n,
                forall|k: int| 0 <= k < cells@.len() ==> (#[trigger] cells@[k]).wf(),
                vi as int == cell_val(g@, cells@[i as int]),
                forall|q: int|
                    i < q < j ==> cell_val(g@, cells@[i as int]) != cell_val(
                        g@,
                        #[trigger] cells@[q],
                    ),
            decreases n - j,
        {
            if vi == read_cell(g, cells[j]) {
                assert(cell_val(g@, cells@[i as int]) == cell_val(g@, cells@[j as int]));
                return false;
            }
            j += 1;
        }
        i += 1;
    }
    true
}

fn eval_sum(t: Cell, cells: &Vec<Cell>, g: &Vec<u64>) -> (r: bool)
    requires
        g@.len() == 81,
        t.wf(),
        forall|i: int| 0 <= i < cells@.len() ==> (#[trigger] cells@[i]).wf(),
    ensures
        r == (cell_val(g@, t) == sum_vals(g@, cells@)),
{
    let mut acc: u128 = 0;
    let mut i: usize = 0;
    while i < cells.len()
        invariant
            g@.len() == 81,
            t.wf(),
            forall|k: int| 0 <= k < cells@.len() ==> (#[trigger] cells@[k]).wf(),
            i <= cells@.len(),
            acc as int == sum_vals(g@, cells@.take(i as int)),
            acc as int <= (i as int) * (u64::MAX as int),
        decreases cells@.len() - i,
    {
        let v = read_cell(g, cells[i]);
        proof {
            assert(acc as int + v as int <= (i as int) * (u64::MAX as int) + (u64::MAX as int));
            assert((i as int) * (u64::MAX as int) + (u64::MAX as int) == (i as int + 1) * (
            u64::MAX as int)) by (nonlinear_arith);
            assert((i as int + 1) * (u64::MAX as int) <= 0x10000000000000000 * (u64::MAX as int))
                by (nonlinear_arith)
                requires
                    0 <= i as int + 1 <= 0x10000000000000000,
            ;
            assert(cells@.take(i as int + 1).drop_last() =~= cells@.take(i as int));
            assert(cells@.take(i as int + 1).last() == cells@[i as int]);
        }
        acc = acc + (v as u128);
        i += 1;
    }
    proof {
        assert(cells@.take(cells@.len() as int) =~= cells@);
    }
    let tv = read_cell(g, t);
    (tv as u128) == acc
}

fn eval_differs(vals: &Vec<u64>, g: &Vec<u64>) -> (r: bool)
    requires
        g@.len() == 81,
        vals@.len() == 81,
    ensures
        r == (exists|i: int| 0 <= i < 81 && g@[i] != #[trigger] vals@[i]),
{
    let mut k: usize = 0;
    while k < 81
        invariant
            g@.len() == 81,
            vals@.len() == 81,
            k <= 81,
            forall|m: int| 0 <= m < k ==> g@[m] == #[trigger] vals@[m],
        decreases 81 - k,
    {
        if g[k] != vals[k] {
            return true;
        }
        k += 1;
    }
    false
}

/// Decide whether assignment `g` (81 cells, row-major) satisfies the
/// constraint; agrees exactly with the `holds` semantics.
pub fn eval(c: &Constraint, g: &Vec<u64>) -> (r: bool)
    requires
        g@.len() == 81,
        c.wf(),
    ensures
        r == holds(*c, g@),
{
    match c {
        Constraint::GeConst(a, k) => read_cell(g, *a) >= *k,
        Constraint::LeConst(a, k) => read_cell(g, *a) <= *k,
        Constraint::EqConst(a, k) => read_cell(g, *a) == *k,
        Constraint::NeqConst(a, k) => read_cell(g, *a) != *k,
        Constraint::NeqCells(a, b) => read_cell(g, *a) != read_cell(g, *b),
        Constraint::LtCells(a, b) => read_cell(g, *a) < read_cell(g, *b),
        Constraint::Distinct(cells) => eval_distinct(cells, g),
        Constraint::SumEq(t, cells) => eval_sum(*t, cells, g),
        Constraint::EitherDiffEq(a, b, k) => {
            let va = read_cell(g, *a);
            let vb = read_cell(g, *b);
            (va >= vb && va - vb == *k) || (vb >= va && vb - va == *k)
        },
        Constraint::EitherDiffGe(a, b, k) => {
            let va = read_cell(g, *a);
            let vb = read_cell(g, *b);
            (va >= vb && va - vb >= *k) || (vb >= va && vb - va >= *k)
        },
        Constraint::DoubleRatio(a, b) => {
            let x = read_cell(g, *a);
            let y = read_cell(g, *b);
            (x == 1 && y == 2) || (x == 2 && y == 1) || (x == 2 && y == 4) || (x == 3 && y == 6)
                || (x == 4 && y == 2) || (x == 4 && y == 8) || (x == 6 && y == 3) || (x == 8 && y
                == 4)
        },
        Constraint::DiffersFrom(vals) => eval_differs(vals, g),
    }
}

/// Decide whether the assignment satisfies every constraint of the list.
pub fn eval_all(cs: &Vec<Constraint>, g: &Vec<u64>) -> (r: bool)
    requires
        g@.len() == 81,
        forall|i: int| 0 <= i < cs@.len() ==> (#[trigger] cs@[i]).wf(),
    ensures
        r == all_hold(cs@, g@),
{
    let mut i: usize = 0;
    while i < cs.len()
        invariant
            g@.len() == 81,
            i <= cs@.len(),
            forall|k: int| 0 <= k < cs@.len() ==> (#[trigger] cs@[k]).wf(),
            forall|k: int| 0 <= k < i ==> holds(#[trigger] cs@[k], g@),
        decreases cs@.len() - i,
    {
        if !eval(&cs[i], g) {
            assert(!holds(cs@[i as int], g@));
            return false;
        }
        i += 1;
    }
    true
}

/// Over the digit domain, the eight hard-coded pairs of the ratio constraint
/// accept exactly the value pairs where one value doubles the other.
pub proof fn lemma_double_ratio_exact(a: Cell, b: Cell, g: Seq<u64>)
    requires
        1 <= cell_val(g, a) <= 9,
        1 <= cell_val(g, b) <= 9,
    ensures
        holds(Constraint::DoubleRatio(a, b), g) <==> double_pair_ok(a, b, g),
{
}

/// A segment claim transfers between sequences that agree on the segment.
pub proof fn lemma_seg_same(cs1: Seq<Constraint>, cs2: Seq<Constraint>, lo: int, hi: int)
    requires
        0 <= lo,
        hi <= cs1.len(),
        hi <= cs2.len(),
        forall|i: int| lo <= i < hi ==> cs1[i] == cs2[i],
    ensures
        forall|g: Seq<u64>| seg_holds(cs1, lo, hi, g) == seg_holds(cs2, lo, hi, g),
{
    assert forall|g: Seq<u64>| seg_holds(cs1, lo, hi, g) == seg_holds(cs2, lo, hi, g) by {
        if seg_holds(cs1, lo, hi, g) {
            assert forall|i: int| lo <= i < hi implies holds(#[trigger] cs2[i], g) by {
                assert(holds(cs1[i], g));
            }
        }
        if seg_holds(cs2, lo, hi, g) {
            assert forall|i: int| lo <= i < hi implies holds(#[trigger] cs1[i], g) by {
                assert(holds(cs2[i], g));
            }
        }
    }
}

/// A segment claim splits at any midpoint.
pub proof fn lemma_seg_split(cs: Seq<Constraint>, lo: int, mid: int, hi: int, g: Seq<u64>)
    requires
        lo <= mid <= hi,
    ensures
        seg_holds(cs, lo, hi, g) == (seg_holds(cs, lo, mid, g) && seg_holds(cs, mid, hi, g)),
{
    if seg_holds(cs, lo, mid, g) && seg_holds(cs, mid, hi, g) {
        assert forall|i: int| lo <= i < hi implies holds(#[trigger] cs[i], g) by {
            if i < mid {
                assert(holds(cs[i], g));
            } else {
                assert(holds(cs[i], g));
            }
        }
    }
}

} // verus!
