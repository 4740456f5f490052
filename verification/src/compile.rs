use vstd::prelude::*;

verus! {

use crate::puzzle::{
    Cell,
    Puzzle,
    clue_at,
    in_domain,
    givens_ok,
    val,
    cell_val,
    rows_distinct,
    cols_distinct,
    boxes_distinct,
    box_row,
    box_col,
};
use crate::puzzle::{in_bounds, offsets_ok, chain_increasing, arrow_ok, sum_vals};
use crate::puzzle::{
    adjacent_pair_ok,
    double_pair_ok,
    chain_whispers,
    thermos_ok,
    arrows_ok,
    kropki_adjacent_ok,
    kropki_double_ok,
    whispers_ok,
    satisfies,
};
use crate::constraint::{
    Constraint,
    holds,
    seg_holds,
    all_hold,
    lemma_seg_same,
    lemma_seg_split,
    lemma_double_ratio_exact,
};

/// A fatal flaw in the puzzle's configuration, detected while compiling,
/// before any solving begins.
#[derive(Clone, Copy, PartialEq, Eq, Structural, Debug)]
pub enum ConfigError {
    /// An arrow group has no summand cells after its sum cell.
    ArrowWithoutSummands,
}

/// The constraint demands value at least one in the cell at position `m`.
spec fn is_ge_one(c: Constraint, m: int) -> bool {
    match c {
        Constraint::GeConst(a, k) => a.wf() && a.idx() == m && k == 1,
        _ => false,
    }
}

/// The constraint demands value at most nine in the cell at position `m`.
spec fn is_le_nine(c: Constraint, m: int) -> bool {
    match c {
        Constraint::LeConst(a, k) => a.wf() && a.idx() == m && k == 9,
        _ => false,
    }
}

/// The `rel`-th domain constraint: bounds alternate below/above per cell.
spec fn is_num_con(c: Constraint, rel: int) -> bool {
    if rel % 2 == 0 {
        is_ge_one(c, rel / 2)
    } else {
        is_le_nine(c, rel / 2)
    }
}

proof fn lemma_number_semantics(cs: Seq<Constraint>, base: int)
    requires
        0 <= base,
        base + 162 == cs.len(),
        forall|i: int| base <= i < cs.len() ==> is_num_con(#[trigger] cs[i], i - base),
    ensures
        forall|g: Seq<u64>|
            g.len() == 81 ==> (seg_holds(cs, base, cs.len() as int, g) <==> in_domain(g)),
{
    assert forall|g: Seq<u64>| g.len() == 81 implies (seg_holds(cs, base, cs.len() as int, g)
        <==> in_domain(g)) by {
        if seg_holds(cs, base, cs.len() as int, g) {
            assert forall|m: int| 0 <= m < 81 implies 1 <= #[trigger] g[m] && g[m] <= 9 by {
                assert(is_num_con(cs[base + 2 * m], 2 * m));
                assert(holds(cs[base + 2 * m], g));
                assert(is_num_con(cs[base + 2 * m + 1], 2 * m + 1));
                assert(holds(cs[base + 2 * m + 1], g));
            }
        }
        if in_domain(g) {
            assert forall|i: int| base <= i < cs.len() implies holds(#[trigger] cs[i], g) by {
                assert(is_num_con(cs[i], i - base));
                let m = (i - base) / 2;
                assert(0 <= m < 81);
                assert(1 <= g[m] && g[m] <= 9);
            }
        }
    }
}

/// Domain constraints: every cell holds a value between one and nine.
/// Always asserted, unconditionally.
pub fn add_number_constraints(out: &mut Vec<Constraint>)
    ensures
        final(out)@.len() == old(out)@.len() + 162,
        forall|i: int| 0 <= i < old(out)@.len() ==> final(out)@[i] == old(out)@[i],
        forall|i: int|
            old(out)@.len() <= i < final(out)@.len() ==> (#[trigger] final(out)@[i]).wf(),
        forall|g: Seq<u64>|
            g.len() == 81 ==> (seg_holds(
                final(out)@,
                old(out)@.len() as int,
                final(out)@.len() as int,
                g,
            ) <==> in_domain(g)),
{
    let ghost base = out@.len() as int;
    let mut m: usize = 0;
    while m < 81
        invariant
            base == old(out)@.len(),
            out@.len() == base + 2 * m,
            m <= 81,
            forall|i: int| 0 <= i < base ==> out@[i] == old(out)@[i],
            forall|i: int| base <= i < out@.len() ==> is_num_con(#[trigger] out@[i], i - base),
        decreases 81 - m,
    {
        let cell = Cell::new(m / 9, m % 9);
        proof {
            assert(cell.idx() == m);
        }
        out.push(Constraint::GeConst(cell, 1));
        out.push(Constraint::LeConst(cell, 9));
        m += 1;
    }
    proof {
        lemma_number_semantics(out@, base);
        assert forall|i: int| base <= i < out@.len() implies (#[trigger] out@[i]).wf() by {
            assert(is_num_con(out@[i], i - base));
        }
    }
}

/// The constraint repeats some in-range given clue of the puzzle.
spec fn is_given_con(c: Constraint, p: Puzzle) -> bool {
    match c {
        Constraint::EqConst(a, v) => a.wf() && 1 <= v <= 9 && clue_at(
            p,
            a.row as int,
            a.col as int,
        ) == v,
        _ => false,
    }
}

/// The constraint pins the cell at row `r`, column `c`.
spec fn is_eq_con_at(c: Constraint, r: int, c2: int) -> bool {
    match c {
        Constraint::EqConst(a, _) => a.row == r && a.col == c2,
        _ => false,
    }
}

/// Some constraint in [lo, hi) pins the cell at row `r`, column `c`.
spec fn has_eq_con_at(cs: Seq<Constraint>, lo: int, hi: int, r: int, c: int) -> bool {
    exists|i: int| lo <= i < hi && is_eq_con_at(#[trigger] cs[i], r, c)
}

proof fn lemma_given_semantics(cs: Seq<Constraint>, base: int, p: Puzzle)
    requires
        0 <= base <= cs.len(),
        forall|i: int| base <= i < cs.len() ==> is_given_con(#[trigger] cs[i], p),
        forall|r: int, c: int|
            0 <= r < 9 && 0 <= c < 9 && 1 <= #[trigger] clue_at(p, r, c) <= 9 ==> has_eq_con_at(
                cs,
                base,
                cs.len() as int,
                r,
                c,
            ),
    ensures
        forall|g: Seq<u64>|
            g.len() == 81 ==> (seg_holds(cs, base, cs.len() as int, g) <==> givens_ok(p, g)),
{
    assert forall|g: Seq<u64>| g.len() == 81 implies (seg_holds(cs, base, cs.len() as int, g)
        <==> givens_ok(p, g)) by {
        if seg_holds(cs, base, cs.len() as int, g) {
            assert forall|r: int, c: int|
                0 <= r < 9 && 0 <= c < 9 && 1 <= #[trigger] clue_at(p, r, c) <= 9 implies val(
                g,
                r,
                c,
            ) == clue_at(p, r, c) by {
                assert(has_eq_con_at(cs, base, cs.len() as int, r, c));
                let i = choose|i: int|
                    base <= i < cs.len() && is_eq_con_at(#[trigger] cs[i], r, c);
                assert(is_given_con(cs[i], p));
                assert(holds(cs[i], g));
            }
        }
        if givens_ok(p, g) {
            assert forall|i: int| base <= i < cs.len() implies holds(#[trigger] cs[i], g) by {
                assert(is_given_con(cs[i], p));
                match cs[i] {
                    Constraint::EqConst(a, v) => {
                        assert(clue_at(p, a.row as int, a.col as int) == v);
                        assert(val(g, a.row as int, a.col as int) == v);
                    },
                    _ => {},
                }
            }
        }
    }
}

/// Given constraints: every cell whose given digit lies in [1,9] is pinned
/// to it; out-of-range given values leave the cell unconstrained.
pub fn add_given_constraints(p: &Puzzle, out: &mut Vec<Constraint>)
    requires
        p.wf(),
    ensures
        final(out)@.len() >= old(out)@.len(),
        forall|i: int| 0 <= i < old(out)@.len() ==> final(out)@[i] == old(out)@[i],
        forall|i: int|
            old(out)@.len() <= i < final(out)@.len() ==> (#[trigger] final(out)@[i]).wf(),
        forall|g: Seq<u64>|
            g.len() == 81 ==> (seg_holds(
                final(out)@,
                old(out)@.len() as int,
                final(out)@.len() as int,
                g,
            ) <==> givens_ok(*p, g)),
{
    let ghost base = out@.len() as int;
    let mut m: usize = 0;
    while m < 81
        invariant
            p.wf(),
            base == old(out)@.len(),
            out@.len() >= base,
            m <= 81,
            forall|i: int| 0 <= i < base ==> out@[i] == old(out)@[i],
            forall|i: int| base <= i < out@.len() ==> is_given_con(#[trigger] out@[i], *p),
            forall|r: int, c: int|
                0 <= r < 9 && 0 <= c < 9 && r * 9 + c < m && 1 <= #[trigger] clue_at(*p, r, c)
                    <= 9 ==> has_eq_con_at(out@, base, out@.len() as int, r, c),
        decreases 81 - m,
    {
        let r = m / 9;
        let c = m % 9;
        let v = p.given[r][c];
        let ghost pre = out@;
        if 1 <= v && v <= 9 {
            out.push(Constraint::EqConst(Cell::new(r, c), v));
            proof {
                assert(is_given_con(out@[out@.len() - 1], *p));
            }
        }
        proof {
            assert forall|r2: int, c2: int|
                0 <= r2 < 9 && 0 <= c2 < 9 && r2 * 9 + c2 < m + 1 && 1 <= #[trigger] clue_at(
                    *p,
                    r2,
                    c2,
                ) <= 9 implies has_eq_con_at(out@, base, out@.len() as int, r2, c2) by {
                if r2 * 9 + c2 < m {
                    let i = choose|i: int|
                        base <= i < pre.len() && is_eq_con_at(#[trigger] pre[i], r2, c2);
                    assert(out@[i] == pre[i]);
                    assert(is_eq_con_at(out@[i], r2, c2));
                } else {
                    assert(r2 == r && c2 == c);
                    assert(is_eq_con_at(out@[out@.len() - 1], r2, c2));
                }
            }
        }
        m += 1;
    }
    proof {
        lemma_given_semantics(out@, base, *p);
        assert forall|i: int| base <= i < out@.len() implies (#[trigger] out@[i]).wf() by {
            assert(is_given_con(out@[i], *p));
        }
    }
}

/// The constraint demands pairwise distinct values over the nine cells of row `r`.
spec fn is_row_con(c: Constraint, r: int) -> bool {
    match c {
        Constraint::Distinct(cells) => cells.len() == 9 && forall|j: int|
            0 <= j < 9 ==> (#[trigger] cells[j]).row == r && cells[j].col == j,
        _ => false,
    }
}

proof fn lemma_row_semantics(cs: Seq<Constraint>, base: int)
    requires
        0 <= base,
        base + 9 == cs.len(),
        forall|i: int| base <= i < cs.len() ==> is_row_con(#[trigger] cs[i], i - base),
    ensures
        forall|g: Seq<u64>|
            g.len() == 81 ==> (seg_holds(cs, base, cs.len() as int, g) <==> rows_distinct(g)),
{
    assert forall|g: Seq<u64>| g.len() == 81 implies (seg_holds(cs, base, cs.len() as int, g)
        <==> rows_distinct(g)) by {
        if seg_holds(cs, base, cs.len() as int, g) {
            assert forall|r: int, c1: int, c2: int|
                0 <= r < 9 && 0 <= c1 < c2 < 9 implies val(g, r, c1) != val(g, r, c2) by {
                assert(is_row_con(cs[base + r], r));
                assert(holds(cs[base + r], g));
                match cs[base + r] {
                    Constraint::Distinct(cells) => {
                        assert(cell_val(g, cells[c1]) != cell_val(g, cells[c2]));
                        assert(cells[c1].idx() == r * 9 + c1);
                        assert(cells[c2].idx() == r * 9 + c2);
                    },
                    _ => {},
                }
            }
        }
        if rows_distinct(g) {
            assert forall|i: int| base <= i < cs.len() implies holds(#[trigger] cs[i], g) by {
                assert(is_row_con(cs[i], i - base));
                let r = i - base;
                match cs[i] {
                    Constraint::Distinct(cells) => {
                        assert forall|a: int, b: int| 0 <= a < b < cells.len() implies cell_val(
                            g,
                            #[trigger] cells[a],
                        ) != cell_val(g, #[trigger] cells[b]) by {
                            assert(val(g, r, a) != val(g, r, b));
                            assert(cells[a].idx() == r * 9 + a);
                            assert(cells[b].idx() == r * 9 + b);
                        }
                    },
                    _ => {},
                }
            }
        }
    }
}

/// Row constraints: the nine values of each row are pairwise distinct.
pub fn add_horizontal_constraints(out: &mut Vec<Constraint>)
    ensures
        final(out)@.len() == old(out)@.len() + 9,
        forall|i: int| 0 <= i < old(out)@.len() ==> final(out)@[i] == old(out)@[i],
        forall|i: int|
            old(out)@.len() <= i < final(out)@.len() ==> (#[trigger] final(out)@[i]).wf(),
        forall|g: Seq<u64>|
            g.len() == 81 ==> (seg_holds(
                final(out)@,
                old(out)@.len() as int,
                final(out)@.len() as int,
                g,
            ) <==> rows_distinct(g)),
{
    let ghost base = out@.len() as int;
    let mut r: usize = 0;
    while r < 9
        invariant
            base == old(out)@.len(),
            out@.len() == base + r,
            r <= 9,
            forall|i: int| 0 <= i < base ==> out@[i] == old(out)@[i],
            forall|i: int| base <= i < out@.len() ==> is_row_con(#[trigger] out@[i], i - base),
        decreases 9 - r,
    {
        let mut cells: Vec<Cell> = Vec::new();
        let mut c: usize = 0;
        while c < 9
            invariant
                c <= 9,
                cells@.len() == c,
                forall|j: int|
                    0 <= j < c ==> (#[trigger] cells@[j]).row == r && cells@[j].col == j,
            decreases 9 - c,
        {
            cells.push(Cell::new(r, c));
            c += 1;
        }
        out.push(Constraint::Distinct(cells));
        r += 1;
    }
    proof {
        lemma_row_semantics(out@, base);
        assert forall|i: int| base <= i < out@.len() implies (#[trigger] out@[i]).wf() by {
            assert(is_row_con(out@[i], i - base));
            match out@[i] {
                Constraint::Distinct(cells) => {
                    assert forall|k: int| 0 <= k < cells.len() implies (
                    #[trigger] cells[k]).wf() by {
                        assert(cells[k].row == i - base && cells[k].col == k);
                    }
                },
                _ => {},
            }
        }
    }
}

/// The constraint demands pairwise distinct values over the nine cells of column `c`.
spec fn is_col_con(c: Constraint, col: int) -> bool {
    match c {
        Constraint::Distinct(cells) => cells.len() == 9 && forall|j: int|
            0 <= j < 9 ==> (#[trigger] cells[j]).row == j && cells[j].col == col,
        _ => false,
    }
}

proof fn lemma_col_semantics(cs: Seq<Constraint>, base: int)
    requires
        0 <= base,
        base + 9 == cs.len(),
        forall|i: int| base <= i < cs.len() ==> is_col_con(#[trigger] cs[i], i - base),
    ensures
        forall|g: Seq<u64>|
            g.len() == 81 ==> (seg_holds(cs, base, cs.len() as int, g) <==> cols_distinct(g)),
{
    assert forall|g: Seq<u64>| g.len() == 81 implies (seg_holds(cs, base, cs.len() as int, g)
        <==> cols_distinct(g)) by {
        if seg_holds(cs, base, cs.len() as int, g) {
            assert forall|c: int, r1: int, r2: int|
                0 <= c < 9 && 0 <= r1 < r2 < 9 implies val(g, r1, c) != val(g, r2, c) by {
                assert(is_col_con(cs[base + c], c));
                assert(holds(cs[base + c], g));
                match cs[base + c] {
                    Constraint::Distinct(cells) => {
                        assert(cell_val(g, cells[r1]) != cell_val(g, cells[r2]));
                        assert(cells[r1].idx() == r1 * 9 + c);
                        assert(cells[r2].idx() == r2 * 9 + c);
                    },
                    _ => {},
                }
            }
        }
        if cols_distinct(g) {
            assert forall|i: int| base <= i < cs.len() implies holds(#[trigger] cs[i], g) by {
                assert(is_col_con(cs[i], i - base));
                let c = i - base;
                match cs[i] {
                    Constraint::Distinct(cells) => {
                        assert forall|a: int, b: int| 0 <= a < b < cells.len() implies cell_val(
                            g,
                            #[trigger] cells[a],
                        ) != cell_val(g, #[trigger] cells[b]) by {
                            assert(val(g, a, c) != val(g, b, c));
                            assert(cells[a].idx() == a * 9 + c);
                            assert(cells[b].idx() == b * 9 + c);
                        }
                    },
                    _ => {},
                }
            }
        }
    }
}

/// Column constraints: the nine values of each column are pairwise distinct.
pub fn add_vertical_constraints(out: &mut Vec<Constraint>)
    ensures
        final(out)@.len() == old(out)@.len() + 9,
        forall|i: int| 0 <= i < old(out)@.len() ==> final(out)@[i] == old(out)@[i],
        forall|i: int|
            old(out)@.len() <= i < final(out)@.len() ==> (#[trigger] final(out)@[i]).wf(),
        forall|g: Seq<u64>|
            g.len() == 81 ==> (seg_holds(
                final(out)@,
                old(out)@.len() as int,
                final(out)@.len() as int,
                g,
            ) <==> cols_distinct(g)),
{
    let ghost base = out@.len() as int;
    let mut c: usize = 0;
    while c < 9
        invariant
            base == old(out)@.len(),
            out@.len() == base + c,
            c <= 9,
            forall|i: int| 0 <= i < base ==> out@[i] == old(out)@[i],
            forall|i: int| base <= i < out@.len() ==> is_col_con(#[trigger] out@[i], i - base),
        decreases 9 - c,
    {
        let mut cells: Vec<Cell> = Vec::new();
        let mut r: usize = 0;
        while r < 9
            invariant
                r <= 9,
                cells@.len() == r,
                forall|j: int|
                    0 <= j < r ==> (#[trigger] cells@[j]).row == j && cells@[j].col == c,
            decreases 9 - r,
        {
            cells.push(Cell::new(r, c));
            r += 1;
        }
        out.push(Constraint::Distinct(cells));
        c += 1;
    }
    proof {
        lemma_col_semantics(out@, base);
        assert forall|i: int| base <= i < out@.len() implies (#[trigger] out@[i]).wf() by {
            assert(is_col_con(out@[i], i - base));
            match out@[i] {
                Constraint::Distinct(cells) => {
                    assert forall|k: int| 0 <= k < cells.len() implies (
                    #[trigger] cells[k]).wf() by {
                        assert(cells[k].row == k && cells[k].col == i - base);
                    }
                },
                _ => {},
            }
        }
    }
}

/// The constraint demands pairwise distinct values over the nine cells of box `b`.
spec fn is_box_con(c: Constraint, b: int) -> bool {
    match c {
        Constraint::Distinct(cells) => cells.len() == 9 && forall|j: int|
            0 <= j < 9 ==> (#[trigger] cells[j]).row == box_row(b, j) && cells[j].col == box_col(
                b,
                j,
            ),
        _ => false,
    }
}

proof fn lemma_box_semantics(cs: Seq<Constraint>, base: int)
    requires
        0 <= base,
        base + 9 == cs.len(),
        forall|i: int| base <= i < cs.len() ==> is_box_con(#[trigger] cs[i], i - base),
    ensures
        forall|g: Seq<u64>|
            g.len() == 81 ==> (seg_holds(cs, base, cs.len() as int, g) <==> boxes_distinct(g)),
{
    assert forall|g: Seq<u64>| g.len() == 81 implies (seg_holds(cs, base, cs.len() as int, g)
        <==> boxes_distinct(g)) by {
        if seg_holds(cs, base, cs.len() as int, g) {
            assert forall|b: int, k1: int, k2: int|
                0 <= b < 9 && 0 <= k1 < k2 < 9 implies val(g, box_row(b, k1), box_col(b, k1))
                != val(g, box_row(b, k2), box_col(b, k2)) by {
                assert(is_box_con(cs[base + b], b));
                assert(holds(cs[base + b], g));
                match cs[base + b] {
                    Constraint::Distinct(cells) => {
                        assert(cell_val(g, cells[k1]) != cell_val(g, cells[k2]));
                        assert(cells[k1].idx() == box_row(b, k1) * 9 + box_col(b, k1));
                        assert(cells[k2].idx() == box_row(b, k2) * 9 + box_col(b, k2));
                    },
                    _ => {},
                }
            }
        }
        if boxes_distinct(g) {
            assert forall|i: int| base <= i < cs.len() implies holds(#[trigger] cs[i], g) by {
                assert(is_box_con(cs[i], i - base));
                let b = i - base;
                match cs[i] {
                    Constraint::Distinct(cells) => {
                        assert forall|x: int, y: int| 0 <= x < y < cells.len() implies cell_val(
                            g,
                            #[trigger] cells[x],
                        ) != cell_val(g, #[trigger] cells[y]) by {
                            assert(val(g, box_row(b, x), box_col(b, x)) != val(
                                g,
                                box_row(b, y),
                                box_col(b, y),
                            ));
                            assert(cells[x].idx() == box_row(b, x) * 9 + box_col(b, x));
                            assert(cells[y].idx() == box_row(b, y) * 9 + box_col(b, y));
                        }
                    },
                    _ => {},
                }
            }
        }
    }
}

/// Box constraints: the nine values of each 3x3 box are pairwise distinct,
/// using the standard box tiling of the grid.
pub fn add_nonet_constraints(out: &mut Vec<Constraint>)
    ensures
        final(out)@.len() == old(out)@.len() + 9,
        forall|i: int| 0 <= i < old(out)@.len() ==> final(out)@[i] == old(out)@[i],
        forall|i: int|
            old(out)@.len() <= i < final(out)@.len() ==> (#[trigger] final(out)@[i]).wf(),
        forall|g: Seq<u64>|
            g.len() == 81 ==> (seg_holds(
                final(out)@,
                old(out)@.len() as int,
                final(out)@.len() as int,
                g,
            ) <==> boxes_distinct(g)),
{
    let ghost base = out@.len() as int;
    let mut b: usize = 0;
    while b < 9
        invariant
            base == old(out)@.len(),
            out@.len() == base + b,
            b <= 9,
            forall|i: int| 0 <= i < base ==> out@[i] == old(out)@[i],
            forall|i: int| base <= i < out@.len() ==> is_box_con(#[trigger] out@[i], i - base),
        decreases 9 - b,
    {
        let mut cells: Vec<Cell> = Vec::new();
        let mut j: usize = 0;
        while j < 9
            invariant
                b < 9,
                j <= 9,
                cells@.len() == j,
                forall|k: int|
                    0 <= k < j ==> (#[trigger] cells@[k]).row == box_row(b as int, k)
                        && cells@[k].col == box_col(b as int, k),
            decreases 9 - j,
        {
            cells.push(Cell::new(((b / 3) * 3) + (j / 3), ((b % 3) * 3) + (j % 3)));
            j += 1;
        }
        out.push(Constraint::Distinct(cells));
        b += 1;
    }
    proof {
        lemma_box_semantics(out@, base);
        assert forall|i: int| base <= i < out@.len() implies (#[trigger] out@[i]).wf() by {
            assert(is_box_con(out@[i], i - base));
            match out@[i] {
                Constraint::Distinct(cells) => {
                    assert forall|k: int| 0 <= k < cells.len() implies (
                    #[trigger] cells[k]).wf() by {
                        assert(cells[k].row == box_row(i - base, k) && cells[k].col == box_col(
                            i - base,
                            k,
                        ));
                    }
                },
                _ => {},
            }
        }
    }
}

/// The constraint separates some cell from its target under some offset
/// vector of the puzzle.
spec fn is_offset_con(c: Constraint, p: Puzzle) -> bool {
    match c {
        Constraint::NeqCells(a, b) => a.wf() && b.wf() && exists|k: int|
            0 <= k < p.offset.len() && b.row as int == a.row + (#[trigger] p.offset[k]).drow as int
                && b.col as int == a.col + p.offset[k].dcol as int,
        _ => false,
    }
}

/// The constraint separates exactly the cell (r, c) from the cell (tr, tc).
spec fn is_neq_con_at(c: Constraint, r: int, c2: int, tr: int, tc: int) -> bool {
    match c {
        Constraint::NeqCells(a, b) => a.row == r && a.col == c2 && b.row == tr && b.col == tc,
        _ => false,
    }
}

/// Some constraint from position `lo` on separates (r, c) from (tr, tc).
spec fn has_neq_con_from(cs: Seq<Constraint>, lo: int, r: int, c: int, tr: int, tc: int) -> bool {
    exists|i: int| lo <= i < cs.len() && is_neq_con_at(#[trigger] cs[i], r, c, tr, tc)
}

/// The instance (cell (r, c), offset vector k) is represented, when its
/// target lies in bounds.
spec fn offset_covered(cs: Seq<Constraint>, lo: int, p: Puzzle, r: int, c: int, k: int) -> bool {
    in_bounds(r + p.offset[k].drow as int, c + p.offset[k].dcol as int) ==> has_neq_con_from(
        cs,
        lo,
        r,
        c,
        r + p.offset[k].drow as int,
        c + p.offset[k].dcol as int,
    )
}

proof fn lemma_neq_con_mono(pre: Seq<Constraint>, post: Seq<Constraint>, lo: int)
    requires
        0 <= lo,
        pre.len() <= post.len(),
        forall|i: int| lo <= i < pre.len() ==> post[i] == pre[i],
    ensures
        forall|r: int, c: int, tr: int, tc: int|
            #![trigger has_neq_con_from(pre, lo, r, c, tr, tc)]
            has_neq_con_from(pre, lo, r, c, tr, tc) ==> has_neq_con_from(post, lo, r, c, tr, tc),
{
    assert forall|r: int, c: int, tr: int, tc: int|
        has_neq_con_from(pre, lo, r, c, tr, tc) implies has_neq_con_from(
        post,
        lo,
        r,
        c,
        tr,
        tc,
    ) by {
        let i = choose|i: int| lo <= i < pre.len() && is_neq_con_at(#[trigger] pre[i], r, c, tr, tc);
        assert(is_neq_con_at(post[i], r, c, tr, tc));
    }
}

proof fn lemma_offset_semantics(cs: Seq<Constraint>, base: int, p: Puzzle)
    requires
        0 <= base <= cs.len(),
        forall|i: int| base <= i < cs.len() ==> is_offset_con(#[trigger] cs[i], p),
        forall|r: int, c: int, k: int|
            #![trigger offset_covered(cs, base, p, r, c, k)]
            0 <= r < 9 && 0 <= c < 9 && 0 <= k < p.offset.len() ==> offset_covered(
                cs,
                base,
                p,
                r,
                c,
                k,
            ),
    ensures
        forall|g: Seq<u64>|
            g.len() == 81 ==> (seg_holds(cs, base, cs.len() as int, g) <==> offsets_ok(p, g)),
{
    assert forall|g: Seq<u64>| g.len() == 81 implies (seg_holds(cs, base, cs.len() as int, g)
        <==> offsets_ok(p, g)) by {
        if seg_holds(cs, base, cs.len() as int, g) {
            assert forall|r: int, c: int, k: int|
                #![trigger val(g, r, c), p.offset[k]]
                0 <= r < 9 && 0 <= c < 9 && 0 <= k < p.offset.len() && in_bounds(
                    r + p.offset[k].drow as int,
                    c + p.offset[k].dcol as int,
                ) implies val(g, r, c) != val(
                g,
                r + p.offset[k].drow as int,
                c + p.offset[k].dcol as int,
            ) by {
                let tr = r + p.offset[k].drow as int;
                let tc = c + p.offset[k].dcol as int;
                assert(offset_covered(cs, base, p, r, c, k));
                assert(has_neq_con_from(cs, base, r, c, tr, tc));
                let i = choose|i: int|
                    base <= i < cs.len() && is_neq_con_at(#[trigger] cs[i], r, c, tr, tc);
                assert(holds(cs[i], g));
                match cs[i] {
                    Constraint::NeqCells(a, b) => {
                        assert(a.idx() == r * 9 + c);
                        assert(b.idx() == tr * 9 + tc);
                    },
                    _ => {},
                }
            }
        }
        if offsets_ok(p, g) {
            assert forall|i: int| base <= i < cs.len() implies holds(#[trigger] cs[i], g) by {
                assert(is_offset_con(cs[i], p));
                match cs[i] {
                    Constraint::NeqCells(a, b) => {
                        let k = choose|k: int|
                            0 <= k < p.offset.len() && b.row as int == a.row + (
                            #[trigger] p.offset[k]).drow as int && b.col as int == a.col
                                + p.offset[k].dcol as int;
                        assert(in_bounds(
                            a.row + p.offset[k].drow as int,
                            a.col + p.offset[k].dcol as int,
                        ));
                        assert(val(g, a.row as int, a.col as int) != val(
                            g,
                            a.row + p.offset[k].drow as int,
                            a.col + p.offset[k].dcol as int,
                        ));
                        assert(a.idx() == a.row * 9 + a.col);
                        assert(b.idx() == b.row * 9 + b.col);
                    },
                    _ => {},
                }
            }
        }
    }
}

/// Offset constraints: every cell differs from each offset target that lies
/// on the grid; out-of-bounds translations are silently skipped.
pub fn add_offset_constraint(p: &Puzzle, out: &mut Vec<Constraint>)
    requires
        p.wf(),
    ensures
        final(out)@.len() >= old(out)@.len(),
        forall|i: int| 0 <= i < old(out)@.len() ==> final(out)@[i] == old(out)@[i],
        forall|i: int|
            old(out)@.len() <= i < final(out)@.len() ==> (#[trigger] final(out)@[i]).wf(),
        forall|g: Seq<u64>|
            g.len() == 81 ==> (seg_holds(
                final(out)@,
                old(out)@.len() as int,
                final(out)@.len() as int,
                g,
            ) <==> offsets_ok(*p, g)),
{
    let ghost base = out@.len() as int;
    let mut m: usize = 0;
    while m < 81
        invariant
            p.wf(),
            base == old(out)@.len(),
            out@.len() >= base,
            m <= 81,
            forall|i: int| 0 <= i < base ==> out@[i] == old(out)@[i],
            forall|i: int| base <= i < out@.len() ==> is_offset_con(#[trigger] out@[i], *p),
            forall|r: int, c: int, k: int|
                #![trigger offset_covered(out@, base, *p, r, c, k)]
                0 <= r < 9 && 0 <= c < 9 && 0 <= k < p.offset.len() && r * 9 + c < m
                    ==> offset_covered(out@, base, *p, r, c, k),
        decreases 81 - m,
    {
        let r = m / 9;
        let c = m % 9;
        let mut k: usize = 0;
        while k < p.offset.len()
            invariant
                p.wf(),
                base == old(out)@.len(),
                out@.len() >= base,
                m < 81,
                r == m / 9,
                c == m % 9,
                k <= p.offset.len(),
                forall|i: int| 0 <= i < base ==> out@[i] == old(out)@[i],
                forall|i: int| base <= i < out@.len() ==> is_offset_con(#[trigger] out@[i], *p),
                forall|r2: int, c2: int, k2: int|
                    #![trigger offset_covered(out@, base, *p, r2, c2, k2)]
                    0 <= r2 < 9 && 0 <= c2 < 9 && 0 <= k2 < p.offset.len() && r2 * 9 + c2 < m
                        ==> offset_covered(out@, base, *p, r2, c2, k2),
                forall|k2: int|
                    0 <= k2 < k ==> #[trigger] offset_covered(out@, base, *p, r as int, c as int, k2),
            decreases p.offset.len() - k,
        {
            let off = p.offset[k];
            let tr = r as i64 + off.drow as i64;
            let tc = c as i64 + off.dcol as i64;
            let ghost pre = out@;
            if 0 <= tr && tr < 9 && 0 <= tc && tc < 9 {
                out.push(
                    Constraint::NeqCells(Cell::new(r, c), Cell::new(tr as usize, tc as usize)),
                );
                proof {
                    assert(is_neq_con_at(
                        out@[out@.len() - 1],
                        r as int,
                        c as int,
                        r + off.drow as int,
                        c + off.dcol as int,
                    ));
                    assert(is_offset_con(out@[out@.len() - 1], *p));
                }
            }
            proof {
                lemma_neq_con_mono(pre, out@, base);
                assert forall|k2: int| 0 <= k2 < k + 1 implies #[trigger] offset_covered(
                    out@,
                    base,
                    *p,
                    r as int,
                    c as int,
                    k2,
                ) by {
                    if k2 < k {
                        assert(offset_covered(pre, base, *p, r as int, c as int, k2));
                    }
                }
                assert forall|r2: int, c2: int, k2: int|
                    0 <= r2 < 9 && 0 <= c2 < 9 && 0 <= k2 < p.offset.len() && r2 * 9 + c2
                        < m implies #[trigger] offset_covered(out@, base, *p, r2, c2, k2) by {
                    assert(offset_covered(pre, base, *p, r2, c2, k2));
                }
            }
            k += 1;
        }
        proof {
            assert forall|r2: int, c2: int, k2: int|
                0 <= r2 < 9 && 0 <= c2 < 9 && 0 <= k2 < p.offset.len() && r2 * 9 + c2 < m
                    + 1 implies #[trigger] offset_covered(out@, base, *p, r2, c2, k2) by {
                if r2 * 9 + c2 == m {
                    assert(r2 == r && c2 == c);
                    assert(offset_covered(out@, base, *p, r as int, c as int, k2 as int));
                }
            }
        }
        m += 1;
    }
    proof {
        lemma_offset_semantics(out@, base, *p);
        assert forall|i: int| base <= i < out@.len() implies (#[trigger] out@[i]).wf() by {
            assert(is_offset_con(out@[i], *p));
        }
    }
}

/// Thermometer constraints: strict increase along one chain; a chain of
/// fewer than two cells yields no constraints.
pub fn add_increasing_constraint(chain: &Vec<Cell>, out: &mut Vec<Constraint>)
    requires
        forall|k: int| 0 <= k < chain@.len() ==> (#[trigger] chain@[k]).wf(),
    ensures
        final(out)@.len() >= old(out)@.len(),
        forall|i: int| 0 <= i < old(out)@.len() ==> final(out)@[i] == old(out)@[i],
        forall|i: int|
            old(out)@.len() <= i < final(out)@.len() ==> (#[trigger] final(out)@[i]).wf(),
        forall|g: Seq<u64>|
            g.len() == 81 ==> (seg_holds(
                final(out)@,
                old(out)@.len() as int,
                final(out)@.len() as int,
                g,
            ) <==> chain_increasing(chain@, g)),
{
    let ghost base = out@.len() as int;
    if chain.len() >= 2 {
        let mut k: usize = 0;
        while k < chain.len() - 1
            invariant
                chain@.len() >= 2,
                base == old(out)@.len(),
                out@.len() == base + k,
                k <= chain@.len() - 1,
                forall|j: int| 0 <= j < chain@.len() ==> (#[trigger] chain@[j]).wf(),
                forall|i: int| 0 <= i < base ==> out@[i] == old(out)@[i],
                forall|i: int|
                    base <= i < out@.len() ==> #[trigger] out@[i] == Constraint::LtCells(
                        chain@[i - base],
                        chain@[i - base + 1],
                    ),
            decreases chain@.len() - k,
        {
            let ghost pre = out@;
            let next = Constraint::LtCells(chain[k], chain[k + 1]);
            out.push(next);
            proof {
                assert(out@ == pre.push(next));
                assert forall|i: int| base <= i < out@.len() implies #[trigger] out@[i]
                    == Constraint::LtCells(chain@[i - base], chain@[i - base + 1]) by {
                    if i < pre.len() {
                        assert(pre.push(next)[i] == pre[i]);
                    } else {
                        assert(i == base + k);
                        assert(pre.push(next)[i] == next);
                    }
                }
            }
            k += 1;
        }
    }
    proof {
        assert forall|g: Seq<u64>| g.len() == 81 implies (seg_holds(
            out@,
            base,
            out@.len() as int,
            g,
        ) <==> chain_increasing(chain@, g)) by {
            if seg_holds(out@, base, out@.len() as int, g) {
                assert forall|k: int|
                    #![trigger chain@[k]]
                    0 <= k && k + 1 < chain@.len() implies cell_val(g, chain@[k]) < cell_val(
                    g,
                    chain@[k + 1],
                ) by {
                    assert(out@[base + k] == Constraint::LtCells(chain@[k], chain@[k + 1]));
                    assert(holds(out@[base + k], g));
                }
            }
            if chain_increasing(chain@, g) {
                assert forall|i: int| base <= i < out@.len() implies holds(
                    #[trigger] out@[i],
                    g,
                ) by {
                    assert(out@[i] == Constraint::LtCells(chain@[i - base], chain@[i - base + 1]));
                    assert(cell_val(g, chain@[i - base]) < cell_val(g, chain@[i - base + 1]));
                }
            }
        }
    }
}

/// Arrow constraint: the group's first cell equals the sum of the remaining
/// cells. A group without summands is a fatal configuration error.
pub fn add_sum_constraint(group: &Vec<Cell>, out: &mut Vec<Constraint>) -> (r: Result<
    (),
    ConfigError,
>)
    requires
        forall|k: int| 0 <= k < group@.len() ==> (#[trigger] group@[k]).wf(),
    ensures
        (r matches Ok(_)) <==> group@.len() >= 2,
        (r matches Err(e) ==> final(out)@ == old(out)@ && e == ConfigError::ArrowWithoutSummands),
        r matches Ok(_) ==> {
            &&& final(out)@.len() == old(out)@.len() + 1
            &&& (forall|i: int| 0 <= i < old(out)@.len() ==> final(out)@[i] == old(out)@[i])
            &&& (forall|i: int|
                old(out)@.len() <= i < final(out)@.len() ==> (#[trigger] final(out)@[i]).wf())
            &&& (forall|g: Seq<u64>|
                g.len() == 81 ==> (seg_holds(
                    final(out)@,
                    old(out)@.len() as int,
                    final(out)@.len() as int,
                    g,
                ) <==> arrow_ok(group@, g)))
        },
{
    if group.len() < 2 {
        return Err(ConfigError::ArrowWithoutSummands);
    }
    let ghost base = out@.len() as int;
    let mut tail: Vec<Cell> = Vec::new();
    let mut i: usize = 1;
    while i < group.len()
        invariant
            1 <= i <= group@.len(),
            tail@.len() == i - 1,
            forall|j: int| 0 <= j < i - 1 ==> tail@[j] == group@[j + 1],
        decreases group@.len() - i,
    {
        tail.push(group[i]);
        i += 1;
    }
    proof {
        assert(tail@ =~= group@.skip(1));
    }
    let ghost tail_view = tail@;
    out.push(Constraint::SumEq(group[0], tail));
    proof {
        assert(out@[base] == Constraint::SumEq(group@[0], out@[base]->SumEq_1));
        assert forall|g: Seq<u64>| g.len() == 81 implies (seg_holds(out@, base, out@.len() as int, g)
            <==> arrow_ok(group@, g)) by {
            assert(seg_holds(out@, base, out@.len() as int, g) ==> holds(out@[base], g));
            if holds(out@[base], g) {
                assert forall|i2: int| base <= i2 < out@.len() implies holds(
                    #[trigger] out@[i2],
                    g,
                ) by {
                    assert(i2 == base);
                }
            }
            assert(holds(out@[base], g) == (cell_val(g, group@[0]) == sum_vals(g, tail_view)));
        }
    }
    Ok(())
}

/// White-dot kropki constraint: the two cells' values differ by exactly
/// `diff`, in one order or the other.
pub fn add_exact_diff_constraint(a: Cell, b: Cell, diff: u64, out: &mut Vec<Constraint>)
    requires
        a.wf(),
        b.wf(),
    ensures
        final(out)@ == old(out)@.push(Constraint::EitherDiffEq(a, b, diff)),
{
    out.push(Constraint::EitherDiffEq(a, b, diff));
}

/// German-whispers constraint: the two cells' values differ by at least
/// `diff`, in one order or the other.
pub fn add_at_least_diff_constraint(a: Cell, b: Cell, diff: u64, out: &mut Vec<Constraint>)
    requires
        a.wf(),
        b.wf(),
    ensures
        final(out)@ == old(out)@.push(Constraint::EitherDiffGe(a, b, diff)),
{
    out.push(Constraint::EitherDiffGe(a, b, diff));
}

/// Black-dot kropki constraint: the two cells' values stand in ratio one to
/// two, hard-coded as the eight digit pairs possible within [1,9].
pub fn add_kropki_double_constraint(a: Cell, b: Cell, out: &mut Vec<Constraint>)
    requires
        a.wf(),
        b.wf(),
    ensures
        final(out)@ == old(out)@.push(Constraint::DoubleRatio(a, b)),
{
    out.push(Constraint::DoubleRatio(a, b));
}

/// The first `n` thermometer chains strictly increase.
spec fn upto_thermo(p: Puzzle, g: Seq<u64>, n: int) -> bool {
    forall|t: int| 0 <= t < n ==> chain_increasing((#[trigger] p.thermo[t])@, g)
}

/// The first `n` arrow groups sum correctly.
spec fn upto_arrow(p: Puzzle, g: Seq<u64>, n: int) -> bool {
    forall|a: int| 0 <= a < n ==> arrow_ok((#[trigger] p.arrow[a])@, g)
}

/// The first `n` white-dot kropki pairs differ by exactly one.
spec fn upto_kadj(p: Puzzle, g: Seq<u64>, n: int) -> bool {
    forall|k: int|
        0 <= k < n ==> adjacent_pair_ok(
            (#[trigger] p.kropki_adjacent[k]).0,
            p.kropki_adjacent[k].1,
            g,
        )
}

/// The first `n` black-dot kropki pairs satisfy the eight-pair disjunction.
spec fn upto_kdbl(p: Puzzle, g: Seq<u64>, n: int) -> bool {
    forall|k: int|
        0 <= k < n ==> holds(
            Constraint::DoubleRatio((#[trigger] p.kropki_double[k]).0, p.kropki_double[k].1),
            g,
        )
}

/// The first `n` german-whispers chains keep their gaps.
spec fn upto_whisp(p: Puzzle, g: Seq<u64>, n: int) -> bool {
    forall|w: int| 0 <= w < n ==> chain_whispers((#[trigger] p.german_whispers[w])@, g)
}

/// The first `n` consecutive pairs of the chain keep the whispers gap.
spec fn upto_whisp_pairs(cells: Seq<Cell>, g: Seq<u64>, n: int) -> bool {
    forall|k: int|
        #![trigger cells[k]]
        0 <= k < n && k + 1 < cells.len() ==> cell_val(g, cells[k]) - cell_val(g, cells[k + 1])
            >= 5 || cell_val(g, cells[k + 1]) - cell_val(g, cells[k]) >= 5
}

/// Everything the compiled prefix expresses after the toggled uniqueness
/// rules and the unconditional groups: domain, givens, enabled row, column
/// and box uniqueness, and offsets.
spec fn stage_fixed(p: Puzzle, g: Seq<u64>) -> bool {
    &&& in_domain(g)
    &&& givens_ok(p, g)
    &&& (p.horizontal_rule ==> rows_distinct(g))
    &&& (p.vertical_rule ==> cols_distinct(g))
    &&& (p.nonet_rule ==> boxes_distinct(g))
    &&& offsets_ok(p, g)
}

/// The prefix during the thermometer loop: `n` chains already compiled.
spec fn stage_thermo_at(p: Puzzle, g: Seq<u64>, n: int) -> bool {
    stage_fixed(p, g) && upto_thermo(p, g, n)
}

/// The prefix after the thermometer groups.
spec fn stage_thermo_done(p: Puzzle, g: Seq<u64>) -> bool {
    stage_fixed(p, g) && thermos_ok(p, g)
}

/// The prefix after the arrow groups.
spec fn stage_arrow_done(p: Puzzle, g: Seq<u64>) -> bool {
    stage_thermo_done(p, g) && arrows_ok(p, g)
}

/// The prefix after the white-dot kropki pairs.
spec fn stage_kadj_done(p: Puzzle, g: Seq<u64>) -> bool {
    stage_arrow_done(p, g) && kropki_adjacent_ok(p, g)
}

/// The prefix after the black-dot kropki pairs, still in eight-pair form.
spec fn stage_kdbl_done(p: Puzzle, g: Seq<u64>) -> bool {
    stage_kadj_done(p, g) && upto_kdbl(p, g, p.kropki_double.len() as int)
}

/// The prefix during the arrow loop: `n` groups already compiled.
spec fn stage_arrow_at(p: Puzzle, g: Seq<u64>, n: int) -> bool {
    stage_thermo_done(p, g) && upto_arrow(p, g, n)
}

/// The prefix during the white-dot kropki loop: `n` pairs already compiled.
spec fn stage_kadj_at(p: Puzzle, g: Seq<u64>, n: int) -> bool {
    stage_arrow_done(p, g) && upto_kadj(p, g, n)
}

/// The prefix during the black-dot kropki loop: `n` pairs already compiled.
spec fn stage_kdbl_at(p: Puzzle, g: Seq<u64>, n: int) -> bool {
    stage_kadj_done(p, g) && upto_kdbl(p, g, n)
}

/// The prefix during the whispers loop: `n` chains already compiled.
spec fn stage_whisp_at(p: Puzzle, g: Seq<u64>, n: int) -> bool {
    stage_kdbl_done(p, g) && upto_whisp(p, g, n)
}

/// The prefix inside chain `w` of the whispers loop: `j` pairs already compiled.
spec fn stage_whisp_in(p: Puzzle, g: Seq<u64>, w: int, j: int) -> bool {
    stage_kdbl_done(p, g) && upto_whisp(p, g, w) && upto_whisp_pairs(
        p.german_whispers[w]@,
        g,
        j,
    )
}

/// Compile the puzzle into one list of primitive constraints over the
/// 81-cell variable grid. On success, an assignment satisfies every emitted
/// constraint exactly when it is a solution of the puzzle, and every emitted
/// constraint references only on-grid cells. Fails exactly when some arrow
/// group lacks summand cells.
#[verifier::rlimit(100)]
pub fn compile(p: &Puzzle) -> (r: Result<Vec<Constraint>, ConfigError>)
    requires
        p.wf(),
    ensures
        (r matches Ok(_)) <==> (forall|a: int|
            0 <= a < p.arrow@.len() ==> (#[trigger] p.arrow[a])@.len() >= 2),
        (r matches Err(e) ==> e == ConfigError::ArrowWithoutSummands),
        r matches Ok(cs) ==> {
            &&& (forall|i: int| 0 <= i < cs@.len() ==> (#[trigger] cs@[i]).wf())
            &&& (forall|g: Seq<u64>| g.len() == 81 ==> (all_hold(cs@, g) <==> satisfies(*p, g)))
        },
{
    let mut out: Vec<Constraint> = Vec::new();

    add_number_constraints(&mut out);
    proof {
        assert forall|g: Seq<u64>| g.len() == 81 implies (seg_holds(out@, 0, out@.len() as int, g)
            <==> in_domain(g)) by {}
    }

    let ghost snap1 = out@;
    add_given_constraints(p, &mut out);
    proof {
        lemma_seg_same(snap1, out@, 0, snap1.len() as int);
        assert forall|g: Seq<u64>| g.len() == 81 implies (seg_holds(out@, 0, out@.len() as int, g)
            <==> (in_domain(g) && givens_ok(*p, g))) by {
            lemma_seg_split(out@, 0, snap1.len() as int, out@.len() as int, g);
        }
    }

    let ghost snap2 = out@;
    if p.horizontal_rule {
        add_horizontal_constraints(&mut out);
    }
    proof {
        if p.horizontal_rule {
            lemma_seg_same(snap2, out@, 0, snap2.len() as int);
        }
        assert forall|g: Seq<u64>| g.len() == 81 implies (seg_holds(out@, 0, out@.len() as int, g)
            <==> (in_domain(g) && givens_ok(*p, g) && (p.horizontal_rule ==> rows_distinct(
            g,
        )))) by {
            if p.horizontal_rule {
                lemma_seg_split(out@, 0, snap2.len() as int, out@.len() as int, g);
            }
        }
    }

    let ghost snap3 = out@;
    if p.vertical_rule {
        add_vertical_constraints(&mut out);
    }
    proof {
        if p.vertical_rule {
            lemma_seg_same(snap3, out@, 0, snap3.len() as int);
        }
        assert forall|g: Seq<u64>| g.len() == 81 implies (seg_holds(out@, 0, out@.len() as int, g)
            <==> (in_domain(g) && givens_ok(*p, g) && (p.horizontal_rule ==> rows_distinct(g)) && (
        p.vertical_rule ==> cols_distinct(g)))) by {
            if p.vertical_rule {
                lemma_seg_split(out@, 0, snap3.len() as int, out@.len() as int, g);
            }
        }
    }

    let ghost snap4 = out@;
    if p.nonet_rule {
        add_nonet_constraints(&mut out);
    }
    proof {
        if p.nonet_rule {
            lemma_seg_same(snap4, out@, 0, snap4.len() as int);
        }
        assert forall|g: Seq<u64>| g.len() == 81 implies (seg_holds(out@, 0, out@.len() as int, g)
            <==> (in_domain(g) && givens_ok(*p, g) && (p.horizontal_rule ==> rows_distinct(g)) && (
        p.vertical_rule ==> cols_distinct(g)) && (p.nonet_rule ==> boxes_distinct(g)))) by {
            if p.nonet_rule {
                lemma_seg_split(out@, 0, snap4.len() as int, out@.len() as int, g);
            }
        }
    }

    let ghost snap5 = out@;
    add_offset_constraint(p, &mut out);
    proof {
        lemma_seg_same(snap5, out@, 0, snap5.len() as int);
        assert forall|g: Seq<u64>| g.len() == 81 implies (seg_holds(out@, 0, out@.len() as int, g)
            <==> stage_fixed(*p, g)) by {
            lemma_seg_split(out@, 0, snap5.len() as int, out@.len() as int, g);
        }
    }

    let mut t: usize = 0;
    while t < p.thermo.len()
        invariant
            p.wf(),
            t <= p.thermo.len(),
            forall|i: int| 0 <= i < out@.len() ==> (#[trigger] out@[i]).wf(),
            forall|g: Seq<u64>|
                g.len() == 81 ==> (seg_holds(out@, 0, out@.len() as int, g) <==> stage_thermo_at(
                    *p,
                    g,
                    t as int,
                )),
        decreases p.thermo.len() - t,
    {
        let ghost pre = out@;
        proof {
            assert forall|k: int| 0 <= k < p.thermo[t as int]@.len() implies (#[trigger] (p.thermo[
                t as int
            ]@)[k]).wf() by {
                assert(p.thermo[t as int][k].wf());
            }
        }
        add_increasing_constraint(&p.thermo[t], &mut out);
        proof {
            lemma_seg_same(pre, out@, 0, pre.len() as int);
            assert forall|g: Seq<u64>| g.len() == 81 implies (seg_holds(
                out@,
                0,
                out@.len() as int,
                g,
            ) <==> stage_thermo_at(*p, g, t as int + 1)) by {
                lemma_seg_split(out@, 0, pre.len() as int, out@.len() as int, g);
                assert(seg_holds(out@, 0, pre.len() as int, g) == seg_holds(
                    pre,
                    0,
                    pre.len() as int,
                    g,
                ));
                assert(seg_holds(pre, 0, pre.len() as int, g) <==> stage_thermo_at(
                    *p,
                    g,
                    t as int,
                ));
                assert(seg_holds(out@, pre.len() as int, out@.len() as int, g)
                    <==> chain_increasing((p.thermo[t as int])@, g));
                if upto_thermo(*p, g, t as int) && chain_increasing((p.thermo[t as int])@, g) {
                    assert forall|t2: int| 0 <= t2 < t + 1 implies chain_increasing(
                        (#[trigger] p.thermo[t2])@,
                        g,
                    ) by {}
                }
                if upto_thermo(*p, g, t as int + 1) {
                    assert(chain_increasing((p.thermo[t as int])@, g));
                    assert forall|t2: int| 0 <= t2 < t implies chain_increasing(
                        (#[trigger] p.thermo[t2])@,
                        g,
                    ) by {}
                }
            }
        }
        t += 1;
    }
    proof {
        assert forall|g: Seq<u64>| g.len() == 81 implies (seg_holds(out@, 0, out@.len() as int, g)
            <==> stage_arrow_at(*p, g, 0)) by {
            assert(seg_holds(out@, 0, out@.len() as int, g) <==> stage_thermo_at(
                *p,
                g,
                p.thermo.len() as int,
            ));
            assert(upto_thermo(*p, g, p.thermo.len() as int) <==> thermos_ok(*p, g));
        }
    }

    let mut a: usize = 0;
    while a < p.arrow.len()
        invariant
            p.wf(),
            a <= p.arrow.len(),
            forall|a2: int| 0 <= a2 < a ==> (#[trigger] p.arrow[a2])@.len() >= 2,
            forall|i: int| 0 <= i < out@.len() ==> (#[trigger] out@[i]).wf(),
            forall|g: Seq<u64>|
                g.len() == 81 ==> (seg_holds(out@, 0, out@.len() as int, g) <==> stage_arrow_at(
                    *p,
                    g,
                    a as int,
                )),
        decreases p.arrow.len() - a,
    {
        let ghost pre = out@;
        proof {
            assert forall|k: int| 0 <= k < p.arrow[a as int]@.len() implies (#[trigger] (p.arrow[
                a as int
            ]@)[k]).wf() by {
                assert(p.arrow[a as int][k].wf());
            }
        }
        match add_sum_constraint(&p.arrow[a], &mut out) {
            Ok(()) => {
                proof {
                    lemma_seg_same(pre, out@, 0, pre.len() as int);
                    assert forall|g: Seq<u64>| g.len() == 81 implies (seg_holds(
                        out@,
                        0,
                        out@.len() as int,
                        g,
                    ) <==> stage_arrow_at(*p, g, a as int + 1)) by {
                        lemma_seg_split(out@, 0, pre.len() as int, out@.len() as int, g);
                        assert(seg_holds(out@, 0, pre.len() as int, g) == seg_holds(
                            pre,
                            0,
                            pre.len() as int,
                            g,
                        ));
                        assert(seg_holds(pre, 0, pre.len() as int, g) <==> stage_arrow_at(
                            *p,
                            g,
                            a as int,
                        ));
                        assert(seg_holds(out@, pre.len() as int, out@.len() as int, g)
                            <==> arrow_ok((p.arrow[a as int])@, g));
                        if upto_arrow(*p, g, a as int) && arrow_ok((p.arrow[a as int])@, g) {
                            assert forall|a2: int| 0 <= a2 < a + 1 implies arrow_ok(
                                (#[trigger] p.arrow[a2])@,
                                g,
                            ) by {}
                        }
                        if upto_arrow(*p, g, a as int + 1) {
                            assert(arrow_ok((p.arrow[a as int])@, g));
                            assert forall|a2: int| 0 <= a2 < a implies arrow_ok(
                                (#[trigger] p.arrow[a2])@,
                                g,
                            ) by {}
                        }
                    }
                }
            },
            Err(e) => {
                proof {
                    assert(p.arrow[a as int]@.len() < 2);
                }
                return Err(e);
            },
        }
        a += 1;
    }
    proof {
        assert forall|g: Seq<u64>| g.len() == 81 implies (seg_holds(out@, 0, out@.len() as int, g)
            <==> stage_kadj_at(*p, g, 0)) by {
            assert(seg_holds(out@, 0, out@.len() as int, g) <==> stage_arrow_at(
                *p,
                g,
                p.arrow.len() as int,
            ));
            assert(upto_arrow(*p, g, p.arrow.len() as int) <==> arrows_ok(*p, g));
        }
    }

    let mut k: usize = 0;
    while k < p.kropki_adjacent.len()
        invariant
            p.wf(),
            k <= p.kropki_adjacent.len(),
            forall|a2: int| 0 <= a2 < p.arrow.len() ==> (#[trigger] p.arrow[a2])@.len() >= 2,
            forall|i: int| 0 <= i < out@.len() ==> (#[trigger] out@[i]).wf(),
            forall|g: Seq<u64>|
                g.len() == 81 ==> (seg_holds(out@, 0, out@.len() as int, g) <==> stage_kadj_at(
                    *p,
                    g,
                    k as int,
                )),
        decreases p.kropki_adjacent.len() - k,
    {
        let ghost pre = out@;
        let pair = p.kropki_adjacent[k];
        proof {
            assert((p.kropki_adjacent[k as int]).0.wf() && (p.kropki_adjacent[k as int]).1.wf());
        }
        add_exact_diff_constraint(pair.0, pair.1, 1, &mut out);
        proof {
            lemma_seg_same(pre, out@, 0, pre.len() as int);
            assert forall|i: int| 0 <= i < out@.len() implies (#[trigger] out@[i]).wf() by {
                if i < pre.len() {
                    assert(out@[i] == pre[i]);
                }
            }
            assert forall|g: Seq<u64>| g.len() == 81 implies (seg_holds(
                out@,
                0,
                out@.len() as int,
                g,
            ) <==> stage_kadj_at(*p, g, k as int + 1)) by {
                lemma_seg_split(out@, 0, pre.len() as int, out@.len() as int, g);
                assert(seg_holds(out@, 0, pre.len() as int, g) == seg_holds(
                    pre,
                    0,
                    pre.len() as int,
                    g,
                ));
                assert(seg_holds(pre, 0, pre.len() as int, g) <==> stage_kadj_at(
                    *p,
                    g,
                    k as int,
                ));
                assert(out@[pre.len() as int] == Constraint::EitherDiffEq(pair.0, pair.1, 1));
                if holds(out@[pre.len() as int], g) {
                    assert forall|i: int| pre.len() <= i < out@.len() implies holds(
                        #[trigger] out@[i],
                        g,
                    ) by {
                        assert(i == pre.len());
                    }
                }
                assert(seg_holds(out@, pre.len() as int, out@.len() as int, g) == holds(
                    out@[pre.len() as int],
                    g,
                ));
                assert(holds(out@[pre.len() as int], g) == adjacent_pair_ok(pair.0, pair.1, g));
                if upto_kadj(*p, g, k as int) && adjacent_pair_ok(pair.0, pair.1, g) {
                    assert forall|k2: int| 0 <= k2 < k + 1 implies adjacent_pair_ok(
                        (#[trigger] p.kropki_adjacent[k2]).0,
                        p.kropki_adjacent[k2].1,
                        g,
                    ) by {}
                }
                if upto_kadj(*p, g, k as int + 1) {
                    assert(adjacent_pair_ok(
                        (p.kropki_adjacent[k as int]).0,
                        p.kropki_adjacent[k as int].1,
                        g,
                    ));
                    assert forall|k2: int| 0 <= k2 < k implies adjacent_pair_ok(
                        (#[trigger] p.kropki_adjacent[k2]).0,
                        p.kropki_adjacent[k2].1,
                        g,
                    ) by {}
                }
            }
        }
        k += 1;
    }
    proof {
        assert forall|g: Seq<u64>| g.len() == 81 implies (seg_holds(out@, 0, out@.len() as int, g)
            <==> stage_kdbl_at(*p, g, 0)) by {
            assert(seg_holds(out@, 0, out@.len() as int, g) <==> stage_kadj_at(
                *p,
                g,
                p.kropki_adjacent.len() as int,
            ));
            assert(upto_kadj(*p, g, p.kropki_adjacent.len() as int) <==> kropki_adjacent_ok(
                *p,
                g,
            ));
        }
    }

    let mut d: usize = 0;
    while d < p.kropki_double.len()
        invariant
            p.wf(),
            d <= p.kropki_double.len(),
            forall|a2: int| 0 <= a2 < p.arrow.len() ==> (#[trigger] p.arrow[a2])@.len() >= 2,
            forall|i: int| 0 <= i < out@.len() ==> (#[trigger] out@[i]).wf(),
            forall|g: Seq<u64>|
                g.len() == 81 ==> (seg_holds(out@, 0, out@.len() as int, g) <==> stage_kdbl_at(
                    *p,
                    g,
                    d as int,
                )),
        decreases p.kropki_double.len() - d,
    {
        let ghost pre = out@;
        let pair = p.kropki_double[d];
        proof {
            assert((p.kropki_double[d as int]).0.wf() && (p.kropki_double[d as int]).1.wf());
        }
        add_kropki_double_constraint(pair.0, pair.1, &mut out);
        proof {
            lemma_seg_same(pre, out@, 0, pre.len() as int);
            assert forall|i: int| 0 <= i < out@.len() implies (#[trigger] out@[i]).wf() by {
                if i < pre.len() {
                    assert(out@[i] == pre[i]);
                }
            }
            assert forall|g: Seq<u64>| g.len() == 81 implies (seg_holds(
                out@,
                0,
                out@.len() as int,
                g,
            ) <==> stage_kdbl_at(*p, g, d as int + 1)) by {
                lemma_seg_split(out@, 0, pre.len() as int, out@.len() as int, g);
                assert(seg_holds(out@, 0, pre.len() as int, g) == seg_holds(
                    pre,
                    0,
                    pre.len() as int,
                    g,
                ));
                assert(seg_holds(pre, 0, pre.len() as int, g) <==> stage_kdbl_at(
                    *p,
                    g,
                    d as int,
                ));
                assert(out@[pre.len() as int] == Constraint::DoubleRatio(pair.0, pair.1));
                if holds(out@[pre.len() as int], g) {
                    assert forall|i: int| pre.len() <= i < out@.len() implies holds(
                        #[trigger] out@[i],
                        g,
                    ) by {
                        assert(i == pre.len());
                    }
                }
                assert(seg_holds(out@, pre.len() as int, out@.len() as int, g) == holds(
                    out@[pre.len() as int],
                    g,
                ));
                if upto_kdbl(*p, g, d as int) && holds(Constraint::DoubleRatio(pair.0, pair.1), g) {
                    assert forall|k2: int| 0 <= k2 < d + 1 implies holds(
                        Constraint::DoubleRatio(
                            (#[trigger] p.kropki_double[k2]).0,
                            p.kropki_double[k2].1,
                        ),
                        g,
                    ) by {}
                }
                if upto_kdbl(*p, g, d as int + 1) {
                    assert(holds(
                        Constraint::DoubleRatio(
                            (p.kropki_double[d as int]).0,
                            p.kropki_double[d as int].1,
                        ),
                        g,
                    ));
                    assert forall|k2: int| 0 <= k2 < d implies holds(
                        Constraint::DoubleRatio(
                            (#[trigger] p.kropki_double[k2]).0,
                            p.kropki_double[k2].1,
                        ),
                        g,
                    ) by {}
                }
            }
        }
        d += 1;
    }
    proof {
        assert forall|g: Seq<u64>| g.len() == 81 implies (seg_holds(out@, 0, out@.len() as int, g)
            <==> stage_whisp_at(*p, g, 0)) by {
            assert(seg_holds(out@, 0, out@.len() as int, g) <==> stage_kdbl_at(
                *p,
                g,
                p.kropki_double.len() as int,
            ));
        }
    }

    let mut w: usize = 0;
    while w < p.german_whispers.len()
        invariant
            p.wf(),
            w <= p.german_whispers.len(),
            forall|a2: int| 0 <= a2 < p.arrow.len() ==> (#[trigger] p.arrow[a2])@.len() >= 2,
            forall|i: int| 0 <= i < out@.len() ==> (#[trigger] out@[i]).wf(),
            forall|g: Seq<u64>|
                g.len() == 81 ==> (seg_holds(out@, 0, out@.len() as int, g) <==> stage_whisp_at(
                    *p,
                    g,
                    w as int,
                )),
        decreases p.german_whispers.len() - w,
    {
        let chain_len = p.german_whispers[w].len();
        if chain_len >= 1 {
            proof {
                assert forall|g: Seq<u64>| g.len() == 81 implies (seg_holds(
                    out@,
                    0,
                    out@.len() as int,
                    g,
                ) <==> stage_whisp_in(*p, g, w as int, 0)) by {
                    assert(seg_holds(out@, 0, out@.len() as int, g) <==> stage_whisp_at(
                        *p,
                        g,
                        w as int,
                    ));
                }
            }
            let mut j: usize = 0;
            while j < chain_len - 1
                invariant
                    p.wf(),
                    w < p.german_whispers.len(),
                    chain_len == p.german_whispers[w as int]@.len(),
                    chain_len >= 1,
                    j <= chain_len - 1,
                    forall|a2: int|
                        0 <= a2 < p.arrow.len() ==> (#[trigger] p.arrow[a2])@.len() >= 2,
                    forall|i: int| 0 <= i < out@.len() ==> (#[trigger] out@[i]).wf(),
                    forall|g: Seq<u64>|
                        g.len() == 81 ==> (seg_holds(out@, 0, out@.len() as int, g)
                            <==> stage_whisp_in(*p, g, w as int, j as int)),
                decreases chain_len - j,
            {
                let ghost pre = out@;
                let ca = p.german_whispers[w][j];
                let cb = p.german_whispers[w][j + 1];
                proof {
                    assert(p.german_whispers[w as int][j as int].wf());
                    assert(p.german_whispers[w as int][j as int + 1].wf());
                }
                add_at_least_diff_constraint(ca, cb, 5, &mut out);
                proof {
                    lemma_seg_same(pre, out@, 0, pre.len() as int);
                    assert forall|i: int| 0 <= i < out@.len() implies (#[trigger] out@[i]).wf() by {
                        if i < pre.len() {
                            assert(out@[i] == pre[i]);
                        }
                    }
                    assert forall|g: Seq<u64>| g.len() == 81 implies (seg_holds(
                        out@,
                        0,
                        out@.len() as int,
                        g,
                    ) <==> stage_whisp_in(*p, g, w as int, j as int + 1)) by {
                        lemma_seg_split(out@, 0, pre.len() as int, out@.len() as int, g);
                        assert(seg_holds(out@, 0, pre.len() as int, g) == seg_holds(
                            pre,
                            0,
                            pre.len() as int,
                            g,
                        ));
                        assert(seg_holds(pre, 0, pre.len() as int, g) <==> stage_whisp_in(
                            *p,
                            g,
                            w as int,
                            j as int,
                        ));
                        assert(out@[pre.len() as int] == Constraint::EitherDiffGe(ca, cb, 5));
                        if holds(out@[pre.len() as int], g) {
                            assert forall|i: int| pre.len() <= i < out@.len() implies holds(
                                #[trigger] out@[i],
                                g,
                            ) by {
                                assert(i == pre.len());
                            }
                        }
                        assert(seg_holds(out@, pre.len() as int, out@.len() as int, g) == holds(
                            out@[pre.len() as int],
                            g,
                        ));
                        let cells = p.german_whispers[w as int]@;
                        assert(cells[j as int] == ca && cells[j as int + 1] == cb);
                        if upto_whisp_pairs(cells, g, j as int) && holds(
                            Constraint::EitherDiffGe(ca, cb, 5),
                            g,
                        ) {
                            assert forall|k2: int|
                                #![trigger cells[k2]]
                                0 <= k2 < j + 1 && k2 + 1 < cells.len() implies cell_val(
                                g,
                                cells[k2],
                            ) - cell_val(g, cells[k2 + 1]) >= 5 || cell_val(g, cells[k2 + 1])
                                - cell_val(g, cells[k2]) >= 5 by {
                                if k2 == j {
                                    assert(cells[k2] == ca && cells[k2 + 1] == cb);
                                }
                            }
                        }
                        if upto_whisp_pairs(cells, g, j as int + 1) {
                            assert forall|k2: int|
                                #![trigger cells[k2]]
                                0 <= k2 < j && k2 + 1 < cells.len() implies cell_val(g, cells[k2])
                                - cell_val(g, cells[k2 + 1]) >= 5 || cell_val(g, cells[k2 + 1])
                                - cell_val(g, cells[k2]) >= 5 by {}
                        }
                    }
                }
                j += 1;
            }
        }
        proof {
            assert forall|g: Seq<u64>| g.len() == 81 implies (seg_holds(
                out@,
                0,
                out@.len() as int,
                g,
            ) <==> stage_whisp_at(*p, g, w as int + 1)) by {
                let cells = p.german_whispers[w as int]@;
                if chain_len >= 1 {
                    assert(seg_holds(out@, 0, out@.len() as int, g) <==> stage_whisp_in(
                        *p,
                        g,
                        w as int,
                        chain_len - 1,
                    ));
                    assert(upto_whisp_pairs(cells, g, chain_len - 1) <==> chain_whispers(
                        cells,
                        g,
                    ));
                } else {
                    assert(seg_holds(out@, 0, out@.len() as int, g) <==> stage_whisp_at(
                        *p,
                        g,
                        w as int,
                    ));
                    assert(chain_whispers(cells, g));
                }
                if upto_whisp(*p, g, w as int) && chain_whispers(cells, g) {
                    assert forall|w2: int| 0 <= w2 < w + 1 implies chain_whispers(
                        (#[trigger] p.german_whispers[w2])@,
                        g,
                    ) by {}
                }
                if upto_whisp(*p, g, w as int + 1) {
                    assert(chain_whispers((p.german_whispers[w as int])@, g));
                    assert forall|w2: int| 0 <= w2 < w implies chain_whispers(
                        (#[trigger] p.german_whispers[w2])@,
                        g,
                    ) by {}
                }
            }
        }
        w += 1;
    }

    proof {
        assert forall|g: Seq<u64>| g.len() == 81 implies (all_hold(out@, g) <==> satisfies(
            *p,
            g,
        )) by {
            assert(seg_holds(out@, 0, out@.len() as int, g) <==> stage_whisp_at(
                *p,
                g,
                p.german_whispers.len() as int,
            ));
            assert(all_hold(out@, g) <==> seg_holds(out@, 0, out@.len() as int, g));
            assert(upto_whisp(*p, g, p.german_whispers.len() as int) <==> whispers_ok(*p, g));
            if in_domain(g) {
                assert forall|k2: int| 0 <= k2 < p.kropki_double.len() implies (holds(
                    Constraint::DoubleRatio(
                        (#[trigger] p.kropki_double[k2]).0,
                        p.kropki_double[k2].1,
                    ),
                    g,
                ) <==> double_pair_ok((p.kropki_double[k2]).0, (p.kropki_double[k2]).1, g)) by {
                    let ca = (p.kropki_double[k2]).0;
                    let cb = (p.kropki_double[k2]).1;
                    assert(ca.wf() && cb.wf());
                    assert(1 <= g[ca.idx()] <= 9);
                    assert(1 <= g[cb.idx()] <= 9);
                    lemma_double_ratio_exact(ca, cb, g);
                }
                assert(upto_kdbl(*p, g, p.kropki_double.len() as int) <==> kropki_double_ok(
                    *p,
                    g,
                ));
            }
        }
    }
    Ok(out)
}

} // verus!
