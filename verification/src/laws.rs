use vstd::prelude::*;

verus! {

use crate::puzzle::{
    Cell,
    Puzzle,
    clue_at,
    in_domain,
    satisfies,
    val,
    cell_val,
    box_row,
    box_col,
};
use crate::constraint::{Constraint, holds, all_hold};
use crate::explore::{HintState, marked};

/// With the three uniqueness rules disabled, no given clues in range, and
/// no geometric constraint groups, the puzzle is satisfiable: only the
/// domain constraints remain, and the grid holding five everywhere is a
/// solution.
pub proof fn lemma_no_rules_satisfiable(p: Puzzle)
    requires
        p.wf(),
        !p.horizontal_rule,
        !p.vertical_rule,
        !p.nonet_rule,
        p.offset@.len() == 0,
        p.thermo@.len() == 0,
        p.arrow@.len() == 0,
        p.kropki_adjacent@.len() == 0,
        p.kropki_double@.len() == 0,
        p.german_whispers@.len() == 0,
        forall|r: int, c: int|
            0 <= r < 9 && 0 <= c < 9 ==> !(1 <= #[trigger] clue_at(p, r, c) <= 9),
    ensures
        exists|g: Seq<u64>| g.len() == 81 && #[trigger] satisfies(p, g),
{
    let w = Seq::<u64>::new(81, |i: int| 5u64);
    assert(w.len() == 81);
    assert(in_domain(w));
    assert(satisfies(p, w));
    assert(exists|g: Seq<u64>| g.len() == 81 && #[trigger] satisfies(p, g));
}

/// Two given clues with the same in-range digit in one enabled row, column
/// or box make the puzzle unsatisfiable.
pub proof fn lemma_conflicting_givens(p: Puzzle, c1: Cell, c2: Cell, h: Seq<u64>)
    requires
        p.wf(),
        c1.wf(),
        c2.wf(),
        c1 != c2,
        1 <= clue_at(p, c1.row as int, c1.col as int) <= 9,
        clue_at(p, c1.row as int, c1.col as int) == clue_at(p, c2.row as int, c2.col as int),
        (c1.row == c2.row && p.horizontal_rule) || (c1.col == c2.col && p.vertical_rule) || (
        c1.row / 3 == c2.row / 3 && c1.col / 3 == c2.col / 3 && p.nonet_rule),
        h.len() == 81,
    ensures
        !satisfies(p, h),
{
    if satisfies(p, h) {
        let v = clue_at(p, c1.row as int, c1.col as int);
        assert(val(h, c1.row as int, c1.col as int) == v);
        assert(val(h, c2.row as int, c2.col as int) == v);
        if c1.row == c2.row && p.horizontal_rule {
            assert(c1.col != c2.col);
            if c1.col < c2.col {
                assert(val(h, c1.row as int, c1.col as int) != val(h, c1.row as int, c2.col as int));
            } else {
                assert(val(h, c2.row as int, c2.col as int) != val(h, c2.row as int, c1.col as int));
            }
            assert(false);
        } else if c1.col == c2.col && p.vertical_rule {
            assert(c1.row != c2.row);
            if c1.row < c2.row {
                assert(val(h, c1.row as int, c1.col as int) != val(h, c2.row as int, c1.col as int));
            } else {
                assert(val(h, c2.row as int, c2.col as int) != val(h, c1.row as int, c2.col as int));
            }
            assert(false);
        } else {
            let b = (c1.row / 3) * 3 + c1.col / 3;
            let k1 = (c1.row % 3) * 3 + c1.col % 3;
            let k2 = (c2.row % 3) * 3 + c2.col % 3;
            assert(0 <= b < 9);
            assert(0 <= k1 < 9 && 0 <= k2 < 9);
            assert(box_row(b, k1) == c1.row && box_col(b, k1) == c1.col);
            assert(box_row(b, k2) == c2.row && box_col(b, k2) == c2.col);
            assert(k1 != k2);
            if k1 < k2 {
                assert(val(h, box_row(b, k1), box_col(b, k1)) != val(
                    h,
                    box_row(b, k2),
                    box_col(b, k2),
                ));
            } else {
                assert(val(h, box_row(b, k2), box_col(b, k2)) != val(
                    h,
                    box_row(b, k1),
                    box_col(b, k1),
                ));
            }
            assert(false);
        }
    }
}

/// After counting finds the unique solution of a puzzle and asserts its
/// blocking clause, the constraint set admits no assignment at all: the
/// clause forbids exactly the found model, so the next check is
/// unsatisfiable and the count is exactly one.
pub proof fn lemma_unique_solution_blocked(
    p: Puzzle,
    cs: Seq<Constraint>,
    b: Constraint,
    sol: Seq<u64>,
    h: Seq<u64>,
)
    requires
        forall|g: Seq<u64>| g.len() == 81 ==> (all_hold(cs, g) <==> satisfies(p, g)),
        sol.len() == 81,
        satisfies(p, sol),
        forall|g: Seq<u64>| g.len() == 81 && satisfies(p, g) ==> g == sol,
        forall|g: Seq<u64>| g.len() == 81 ==> (holds(b, g) <==> g != sol),
        h.len() == 81,
    ensures
        !(all_hold(cs, h) && holds(b, h)),
{
    if all_hold(cs, h) && holds(b, h) {
        assert(satisfies(p, h));
        assert(h == sol);
        assert(h != sol);
    }
}

/// Candidate refinement never loses a model: every value that a processed
/// model placed in a cell is in that cell's candidate set.
pub proof fn lemma_candidates_cover_models(s: HintState, m: int, cell: int)
    requires
        s.wf(),
        0 <= m < s.models@.len(),
        0 <= cell < 81,
    ensures
        marked(s.clues@, cell, s.models@[m][cell] as int),
{
    assert(in_domain(s.models@[m]));
    assert(1 <= s.models@[m][cell] <= 9);
}

/// For a puzzle with exactly one solution, once every processed model is a
/// solution and at least one model has been processed, every cell's
/// candidate set holds exactly the solution's digit for that cell.
pub proof fn lemma_candidates_unique_solution(
    p: Puzzle,
    s: HintState,
    sol: Seq<u64>,
    cell: int,
    v: int,
)
    requires
        s.wf(),
        sol.len() == 81,
        satisfies(p, sol),
        forall|g: Seq<u64>| g.len() == 81 && satisfies(p, g) ==> g == sol,
        forall|m: int| 0 <= m < s.models@.len() ==> satisfies(p, #[trigger] s.models@[m]),
        s.models@.len() >= 1,
        0 <= cell < 81,
        1 <= v <= 9,
    ensures
        marked(s.clues@, cell, v) <==> v == sol[cell],
{
    assert(s.models@[0].len() == 81);
    assert(s.models@[0] == sol);
    if marked(s.clues@, cell, v) {
        let m = choose|m: int| 0 <= m < s.models@.len() && (#[trigger] s.models@[m])[cell] == v;
        assert(s.models@[m].len() == 81);
        assert(s.models@[m] == sol);
    }
    if v == sol[cell] {
        assert(s.models@[0][cell] == v);
    }
}

/// Probing a square that carries an in-range given clue: every assignment
/// admitted by the compiled constraints puts the clue's digit there, so the
/// probe of that digit changes nothing, and the probe of any other digit is
/// unsatisfiable.
pub proof fn lemma_probe_given_clue(
    p: Puzzle,
    cs: Seq<Constraint>,
    cell: Cell,
    d: u64,
    h: Seq<u64>,
)
    requires
        forall|g: Seq<u64>| g.len() == 81 ==> (all_hold(cs, g) <==> satisfies(p, g)),
        cell.wf(),
        1 <= clue_at(p, cell.row as int, cell.col as int) <= 9,
        1 <= d <= 9,
        h.len() == 81,
    ensures
        all_hold(cs, h) ==> cell_val(h, cell) == clue_at(p, cell.row as int, cell.col as int),
        d != clue_at(p, cell.row as int, cell.col as int) ==> !(all_hold(cs, h) && holds(
            Constraint::EqConst(cell, d),
            h,
        )),
        d == clue_at(p, cell.row as int, cell.col as int) ==> ((all_hold(cs, h) && holds(
            Constraint::EqConst(cell, d),
            h,
        )) <==> all_hold(cs, h)),
{
    if all_hold(cs, h) {
        assert(satisfies(p, h));
        assert(val(h, cell.row as int, cell.col as int) == clue_at(
            p,
            cell.row as int,
            cell.col as int,
        ));
        assert(cell_val(h, cell) == val(h, cell.row as int, cell.col as int));
    }
}

/// A two-cell whispers chain compiles to a single constraint that holds
/// exactly when the two values differ by at least five, in either
/// direction.
pub proof fn lemma_whisper_pair_exact(a: Cell, b: Cell, g: Seq<u64>)
    ensures
        holds(Constraint::EitherDiffGe(a, b, 5), g) <==> (cell_val(g, a) - cell_val(g, b) >= 5
            || cell_val(g, b) - cell_val(g, a) >= 5),
{
}

} // verus!
