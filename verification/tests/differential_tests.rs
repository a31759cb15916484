//! The solving engine against plain enumeration, over whole families of
//! small puzzles.

use kakuro::base_solver;
use kakuro::relaxed::Constraint;
use kakuro::sum_table::calculate_sum_table;

fn sorted(mut solutions: Vec<Vec<u8>>) -> Vec<Vec<u8>> {
    solutions.sort();
    solutions
}

#[test]
fn two_cell_runs_match_enumeration_for_every_target() {
    let table = calculate_sum_table();
    for t in 1..=45u8 {
        let constraints = vec![Constraint {
            cells: vec![0, 1],
            min: t,
            max: t,
        }];
        let got = sorted(base_solver::solve(2, &constraints, &table));
        let mut expected = vec![];
        for a in 1..=9u8 {
            for b in 1..=9u8 {
                if a != b && a + b == t {
                    expected.push(vec![a, b]);
                }
            }
        }
        assert_eq!(got, sorted(expected), "target {}", t);
    }
}

#[test]
fn crossing_three_cell_puzzles_match_enumeration() {
    // cells 0 1 / 2 with a horizontal run over 0,1 and a vertical over 0,2
    let table = calculate_sum_table();
    for h in 3..=17u8 {
        for v in 3..=17u8 {
            let constraints = vec![
                Constraint {
                    cells: vec![0, 1],
                    min: h,
                    max: h,
                },
                Constraint {
                    cells: vec![0, 2],
                    min: v,
                    max: v,
                },
            ];
            let got = sorted(base_solver::solve(3, &constraints, &table));
            let mut expected = vec![];
            for a in 1..=9u8 {
                for b in 1..=9u8 {
                    for c in 1..=9u8 {
                        if a != b && a != c && a + b == h && a + c == v {
                            expected.push(vec![a, b, c]);
                        }
                    }
                }
            }
            assert_eq!(got, sorted(expected), "h {} v {}", h, v);
        }
    }
}

#[test]
fn ranged_constraints_accept_every_sum_in_range() {
    let table = calculate_sum_table();
    let constraints = vec![Constraint {
        cells: vec![0, 1],
        min: 3,
        max: 5,
    }];
    let got = sorted(base_solver::solve(2, &constraints, &table));
    let mut expected = vec![];
    for a in 1..=9u8 {
        for b in 1..=9u8 {
            if a != b && (3..=5).contains(&(a + b)) {
                expected.push(vec![a, b]);
            }
        }
    }
    assert_eq!(got, sorted(expected));
}

#[test]
fn empty_range_is_unsatisfiable() {
    let table = calculate_sum_table();
    let constraints = vec![Constraint {
        cells: vec![0, 1],
        min: 5,
        max: 4,
    }];
    assert_eq!(
        base_solver::solve(2, &constraints, &table),
        Vec::<Vec<u8>>::new()
    );
}
