use sudoku_smt::compile::{compile, ConfigError};
use sudoku_smt::constraint::eval_all;
use sudoku_smt::puzzle::{Cell, Offset, Puzzle};

fn blank_puzzle() -> Puzzle {
    Puzzle {
        given: vec![vec![0u64; 9]; 9],
        horizontal_rule: false,
        vertical_rule: false,
        nonet_rule: false,
        offset: vec![],
        thermo: vec![],
        arrow: vec![],
        kropki_adjacent: vec![],
        kropki_double: vec![],
        german_whispers: vec![],
    }
}

fn classic_solution() -> Vec<u64> {
    let rows: [[u64; 9]; 9] = [
        [5, 3, 4, 6, 7, 8, 9, 1, 2],
        [6, 7, 2, 1, 9, 5, 3, 4, 8],
        [1, 9, 8, 3, 4, 2, 5, 6, 7],
        [8, 5, 9, 7, 6, 1, 4, 2, 3],
        [4, 2, 6, 8, 5, 3, 7, 9, 1],
        [7, 1, 3, 9, 2, 4, 8, 5, 6],
        [9, 6, 1, 5, 3, 7, 2, 8, 4],
        [2, 8, 7, 4, 1, 9, 6, 3, 5],
        [3, 4, 5, 2, 8, 6, 1, 7, 9],
    ];
    let mut flat = Vec::new();
    for row in rows.iter() {
        for v in row.iter() {
            flat.push(*v);
        }
    }
    flat
}

fn uniform_grid(v: u64) -> Vec<u64> {
    vec![v; 81]
}

#[test]
fn all_blank_puzzle_compiles_to_domain_only() {
    let p = blank_puzzle();
    let cs = compile(&p).unwrap();
    assert_eq!(cs.len(), 162);
    assert!(eval_all(&cs, &uniform_grid(5)));
    assert!(!eval_all(&cs, &uniform_grid(0)));
    assert!(!eval_all(&cs, &uniform_grid(10)));
}

#[test]
fn full_rules_accept_classic_solution() {
    let mut p = blank_puzzle();
    p.horizontal_rule = true;
    p.vertical_rule = true;
    p.nonet_rule = true;
    let cs = compile(&p).unwrap();
    assert_eq!(cs.len(), 162 + 27);
    assert!(eval_all(&cs, &classic_solution()));
    assert!(!eval_all(&cs, &uniform_grid(5)));
}

#[test]
fn conflicting_givens_reject_valid_grids() {
    let mut p = blank_puzzle();
    p.horizontal_rule = true;
    p.given[0][0] = 5;
    p.given[0][8] = 5;
    let cs = compile(&p).unwrap();
    // The classic solution has 5 at row 0 column 0, but 2 at row 0 column 8.
    assert!(!eval_all(&cs, &classic_solution()));
    // Forcing both cells to 5 breaks row uniqueness instead.
    let mut g = classic_solution();
    g[8] = 5;
    assert!(!eval_all(&cs, &g));
}

#[test]
fn given_out_of_range_is_unconstrained() {
    let mut p = blank_puzzle();
    p.given[4][4] = 0;
    p.given[3][3] = 77;
    let cs = compile(&p).unwrap();
    assert_eq!(cs.len(), 162);
    assert!(eval_all(&cs, &uniform_grid(9)));
}

#[test]
fn kropki_double_accepts_exactly_eight_pairs() {
    let mut p = blank_puzzle();
    p.kropki_double = vec![(Cell::new(0, 0), Cell::new(0, 1))];
    let cs = compile(&p).unwrap();
    for a in 1u64..=9 {
        for b in 1u64..=9 {
            let mut g = uniform_grid(5);
            g[0] = a;
            g[1] = b;
            let expected = a == 2 * b || b == 2 * a;
            assert_eq!(eval_all(&cs, &g), expected, "kropki double on ({a}, {b})");
        }
    }
}

#[test]
fn german_whispers_pair_needs_gap_of_five() {
    let mut p = blank_puzzle();
    p.german_whispers = vec![vec![Cell::new(0, 0), Cell::new(0, 1)]];
    let cs = compile(&p).unwrap();
    for a in 1u64..=9 {
        for b in 1u64..=9 {
            let mut g = uniform_grid(5);
            g[0] = a;
            g[1] = b;
            let expected = a + 5 <= b || b + 5 <= a;
            assert_eq!(eval_all(&cs, &g), expected, "whisper on ({a}, {b})");
        }
    }
}

#[test]
fn kropki_adjacent_needs_difference_of_one() {
    let mut p = blank_puzzle();
    p.kropki_adjacent = vec![(Cell::new(8, 8), Cell::new(8, 7))];
    let cs = compile(&p).unwrap();
    for a in 1u64..=9 {
        for b in 1u64..=9 {
            let mut g = uniform_grid(5);
            g[80] = a;
            g[79] = b;
            let expected = a + 1 == b || b + 1 == a;
            assert_eq!(eval_all(&cs, &g), expected, "kropki adjacent on ({a}, {b})");
        }
    }
}

#[test]
fn offsets_skip_targets_off_the_grid() {
    // A displacement that always lands off the grid yields no constraints.
    let mut p = blank_puzzle();
    p.offset = vec![Offset { drow: 9, dcol: 9 }];
    let cs = compile(&p).unwrap();
    assert_eq!(cs.len(), 162);

    // From corner cells, (-1, -1) only applies where both coordinates exist:
    // the 64 cells with row >= 1 and column >= 1.
    let mut q = blank_puzzle();
    q.offset = vec![Offset { drow: -1, dcol: -1 }];
    let ds = compile(&q).unwrap();
    assert_eq!(ds.len(), 162 + 64);

    // A long sideways displacement applies only where the column fits.
    let mut r = blank_puzzle();
    r.offset = vec![Offset { drow: 0, dcol: -5 }];
    let es = compile(&r).unwrap();
    assert_eq!(es.len(), 162 + 9 * 4);
}

#[test]
fn offset_forbids_equal_neighbours() {
    let mut p = blank_puzzle();
    p.offset = vec![Offset { drow: 0, dcol: 1 }];
    let cs = compile(&p).unwrap();
    assert!(eval_all(&cs, &classic_solution()));
    let mut g = classic_solution();
    g[1] = g[0];
    assert!(!eval_all(&cs, &g));
}

#[test]
fn thermo_needs_strict_increase() {
    let mut p = blank_puzzle();
    p.thermo = vec![vec![Cell::new(0, 0), Cell::new(0, 1), Cell::new(0, 2)]];
    let cs = compile(&p).unwrap();
    let mut g = uniform_grid(5);
    g[0] = 1;
    g[1] = 2;
    g[2] = 3;
    assert!(eval_all(&cs, &g));
    g[2] = 2;
    assert!(!eval_all(&cs, &g));
}

#[test]
fn short_thermo_chain_yields_no_constraints() {
    let mut p = blank_puzzle();
    p.thermo = vec![vec![Cell::new(4, 4)]];
    let cs = compile(&p).unwrap();
    assert_eq!(cs.len(), 162);
}

#[test]
fn arrow_sums_its_summands() {
    let mut p = blank_puzzle();
    p.arrow = vec![vec![Cell::new(0, 0), Cell::new(1, 0), Cell::new(2, 0)]];
    let cs = compile(&p).unwrap();
    let mut g = uniform_grid(5);
    g[0] = 9;
    g[9] = 4;
    g[18] = 5;
    assert!(eval_all(&cs, &g));
    g[18] = 4;
    assert!(!eval_all(&cs, &g));
}

#[test]
fn arrow_without_summands_is_a_configuration_error() {
    let mut p = blank_puzzle();
    p.arrow = vec![vec![Cell::new(0, 0)]];
    assert!(matches!(compile(&p), Err(ConfigError::ArrowWithoutSummands)));

    let mut q = blank_puzzle();
    q.arrow = vec![vec![]];
    assert!(matches!(compile(&q), Err(ConfigError::ArrowWithoutSummands)));
}
