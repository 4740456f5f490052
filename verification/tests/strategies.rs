use sudoku_smt::compile::compile;
use sudoku_smt::constraint::{eval, eval_all, Constraint};
use sudoku_smt::explore::{
    blocking_constraint, probe_answer, probe_constraints, solution_outcome, CountAction,
    CountOutcome, CountState, EngineReply, Grid, HintAction, HintState, ProbeAnswer, ProbeError,
    SolveOutcome,
};
use sudoku_smt::puzzle::Puzzle;

fn empty_spec() -> Puzzle {
    Puzzle {
        given: vec![vec![0u64; 9]; 9],
        horizontal_rule: false,
        vertical_rule: false,
        nonet_rule: false,
        offset: vec![],
        thermo: vec![],
        arrow: vec![],
        kropki_adjacent: vec![],
        kropki_double: vec![],
        german_whispers: vec![],
    }
}

fn solved_rows() -> [[u64; 9]; 9] {
    [
        [5, 3, 4, 6, 7, 8, 9, 1, 2],
        [6, 7, 2, 1, 9, 5, 3, 4, 8],
        [1, 9, 8, 3, 4, 2, 5, 6, 7],
        [8, 5, 9, 7, 6, 1, 4, 2, 3],
        [4, 2, 6, 8, 5, 3, 7, 9, 1],
        [7, 1, 3, 9, 2, 4, 8, 5, 6],
        [9, 6, 1, 5, 3, 7, 2, 8, 4],
        [2, 8, 7, 4, 1, 9, 6, 3, 5],
        [3, 4, 5, 2, 8, 6, 1, 7, 9],
    ]
}

fn solved_grid() -> Grid {
    let mut flat = Vec::new();
    for row in solved_rows().iter() {
        for v in row.iter() {
            flat.push(*v);
        }
    }
    Grid { cells: flat }
}

fn filled_grid(v: u64) -> Grid {
    Grid { cells: vec![v; 81] }
}

#[test]
fn solution_outcome_mirrors_the_engine() {
    match solution_outcome(EngineReply::Sat(solved_grid())) {
        SolveOutcome::Solution(g) => assert_eq!(g.cells, solved_grid().cells),
        _ => panic!("expected a solution"),
    }
    assert!(matches!(
        solution_outcome(EngineReply::Unsat),
        SolveOutcome::NoSolution
    ));
    assert!(matches!(
        solution_outcome(EngineReply::Unknown),
        SolveOutcome::Indeterminate
    ));
}

#[test]
fn blocking_clause_forbids_exactly_the_model() {
    let model = solved_grid();
    let c = blocking_constraint(&model);
    assert!(!eval(&c, &model.cells));
    let mut other = solved_grid();
    other.cells[40] = if other.cells[40] == 9 { 1 } else { other.cells[40] + 1 };
    assert!(eval(&c, &other.cells));
}

#[test]
fn count_reaches_exact_one_on_a_unique_solution() {
    // A fully specified valid puzzle with all three uniqueness rules: the
    // engine would report one model, then unsat once it is blocked.
    let mut p = empty_spec();
    p.horizontal_rule = true;
    p.vertical_rule = true;
    p.nonet_rule = true;
    let rows = solved_rows();
    for r in 0..9 {
        for c in 0..9 {
            p.given[r][c] = rows[r][c];
        }
    }
    let cs = compile(&p).unwrap();
    assert!(eval_all(&cs, &solved_grid().cells));

    let mut st = CountState::new(1000);
    assert!(st.wants_check());
    let action = st.step(&EngineReply::Sat(solved_grid()));
    let blocking = match action {
        CountAction::AddBlocking(c) => c,
        _ => panic!("expected a blocking clause"),
    };
    // The blocked set rejects the found model: the next check is unsat.
    assert!(!eval(&blocking, &solved_grid().cells));
    match st.step(&EngineReply::Unsat) {
        CountAction::Finished(CountOutcome::Exact(n)) => assert_eq!(n, 1),
        _ => panic!("expected an exact count"),
    }
}

#[test]
fn count_reports_a_lower_bound_at_the_cap() {
    let mut st = CountState::new(2);
    assert!(matches!(
        st.step(&EngineReply::Sat(filled_grid(5))),
        CountAction::AddBlocking(_)
    ));
    assert!(matches!(
        st.step(&EngineReply::Sat(filled_grid(6))),
        CountAction::Finished(CountOutcome::MoreThan(2))
    ));
    assert!(!st.wants_check());
}

#[test]
fn count_stops_on_an_undecided_check() {
    let mut st = CountState::new(7);
    assert!(matches!(
        st.step(&EngineReply::Unknown),
        CountAction::Finished(CountOutcome::Indeterminate)
    ));
}

#[test]
fn count_of_an_unsatisfiable_puzzle_is_zero() {
    let mut st = CountState::new(9);
    match st.step(&EngineReply::Unsat) {
        CountAction::Finished(CountOutcome::Exact(n)) => assert_eq!(n, 0),
        _ => panic!("expected an exact count"),
    }
}

#[test]
fn refinement_reaches_a_fixpoint_and_reports_candidates() {
    let mut st = HintState::new(10);
    assert!(st.wants_check());

    // First model: every mark is new, so the strategy asks to refine with
    // one weight-one soft constraint per cell.
    match st.step(&EngineReply::Sat(solved_grid())) {
        HintAction::Refine(softs, new_marks) => {
            assert_eq!(new_marks, 81);
            assert_eq!(softs.len(), 81);
            assert_eq!(softs[0].weight, 1);
            assert!(matches!(&softs[0].constraint, Constraint::NeqConst(_, 5)));
            // Each soft constraint discourages exactly the value just seen.
            for s in softs.iter() {
                assert!(!eval(&s.constraint, &solved_grid().cells));
            }
        },
        _ => panic!("expected a refinement round"),
    }

    // A second model adds marks for its own values.
    // Nine cells of the solution already hold a one, so the all-ones model
    // contributes exactly 72 new marks.
    match st.step(&EngineReply::Sat(filled_grid(1))) {
        HintAction::Refine(softs, new_marks) => {
            assert_eq!(softs.len(), 81);
            assert_eq!(new_marks, 72);
        },
        _ => panic!("expected a refinement round"),
    }

    // Replaying an already-seen model adds nothing: the fixpoint.
    assert!(matches!(
        st.step(&EngineReply::Sat(solved_grid())),
        HintAction::Fixpoint
    ));

    // Each cell's candidate set holds exactly the values seen there, in
    // increasing order.
    let rows = solved_rows();
    for r in 0..9 {
        for c in 0..9 {
            let mut expected = vec![1u64, rows[r][c]];
            expected.sort();
            expected.dedup();
            assert_eq!(st.candidates(r, c), expected, "candidates at ({r}, {c})");
        }
    }
}

#[test]
fn refinement_stops_on_unsat_and_unknown() {
    let mut st = HintState::new(4);
    assert!(matches!(st.step(&EngineReply::Unsat), HintAction::NoCompletion));
    assert!(matches!(
        st.step(&EngineReply::Unknown),
        HintAction::Indeterminate
    ));
}

#[test]
fn probe_rejects_targets_off_the_grid() {
    assert!(matches!(probe_constraints(9, 0), Err(ProbeError::InvalidSquare)));
    assert!(matches!(probe_constraints(0, 9), Err(ProbeError::InvalidSquare)));
    assert!(matches!(probe_constraints(42, 42), Err(ProbeError::InvalidSquare)));
}

#[test]
fn probe_on_a_given_clue_accepts_only_that_digit() {
    // The square (2, 3) carries the clue 7; probing digit d asserts
    // "cell = d" on top of the compiled set.
    let mut p = empty_spec();
    p.given[2][3] = 7;
    let cs = compile(&p).unwrap();
    let probes = probe_constraints(2, 3).unwrap();
    assert_eq!(probes.len(), 9);
    let mut witness = filled_grid(5);
    witness.cells[2 * 9 + 3] = 7;
    for d in 0..9 {
        let satisfiable = eval_all(&cs, &witness.cells) && eval(&probes[d], &witness.cells);
        assert_eq!(satisfiable, d + 1 == 7, "probe of digit {}", d + 1);
    }
}

#[test]
fn probe_answer_mirrors_the_engine() {
    assert_eq!(probe_answer(&EngineReply::Sat(filled_grid(3))), ProbeAnswer::Feasible);
    assert_eq!(probe_answer(&EngineReply::Unsat), ProbeAnswer::Infeasible);
    assert_eq!(probe_answer(&EngineReply::Unknown), ProbeAnswer::Undecided);
}

#[test]
fn grid_domain_check_flags_out_of_range_cells() {
    assert!(solved_grid().check_domain());
    assert!(!filled_grid(0).check_domain());
    assert!(!filled_grid(10).check_domain());
}
