//! End-to-end tests of the two solvers on small puzzles.

use kakuro::divide;
use kakuro::game::{Constraint, Input};
use kakuro::sum_reachable;

fn input(num_cells: usize, constraints: Vec<(Vec<usize>, u8)>) -> Input {
    Input {
        num_cells,
        constraints: constraints
            .into_iter()
            .map(|(cells, sum)| Constraint { cells, sum })
            .collect(),
    }
}

fn sorted(mut solutions: Vec<Vec<u8>>) -> Vec<Vec<u8>> {
    solutions.sort();
    solutions
}

#[test]
fn empty_puzzle_has_one_empty_solution() {
    let inp = input(0, vec![]);
    assert!(inp.is_valid());
    let direct = sum_reachable::solve(&inp);
    assert_eq!(direct, vec![Vec::<u8>::new()]);
    let lazy = divide::solve(&inp);
    assert_eq!(lazy, vec![Vec::<u8>::new()]);
}

#[test]
fn single_cell_target_too_large_is_unsatisfiable() {
    let inp = input(1, vec![(vec![0], 45)]);
    assert!(inp.is_valid());
    assert_eq!(sum_reachable::solve(&inp), Vec::<Vec<u8>>::new());
    assert_eq!(divide::solve(&inp), Vec::<Vec<u8>>::new());
}

#[test]
fn single_cell_target_in_range() {
    let inp = input(1, vec![(vec![0], 7)]);
    assert_eq!(sum_reachable::solve(&inp), vec![vec![7u8]]);
    assert_eq!(sorted(divide::solve(&inp)), vec![vec![7u8]]);
}

#[test]
fn two_cell_run_with_target_three() {
    let inp = input(2, vec![(vec![0, 1], 3)]);
    let direct = sorted(sum_reachable::solve(&inp));
    assert_eq!(direct, vec![vec![1u8, 2u8], vec![2u8, 1u8]]);
    let lazy = sorted(divide::solve(&inp));
    assert_eq!(lazy, vec![vec![1u8, 2u8], vec![2u8, 1u8]]);
}

#[test]
fn mini_puzzle_has_the_hand_solved_answer() {
    // cells laid out as A B / C D with runs A+B=4, C+D=6, A+C=3, B+D=7
    let inp = input(
        4,
        vec![
            (vec![0, 1], 4),
            (vec![2, 3], 6),
            (vec![0, 2], 3),
            (vec![1, 3], 7),
        ],
    );
    assert!(inp.is_valid());
    assert_eq!(sum_reachable::solve(&inp), vec![vec![1u8, 3, 2, 4]]);
    assert_eq!(divide::solve(&inp), vec![vec![1u8, 3, 2, 4]]);
}

#[test]
fn disconnected_components_multiply() {
    // two components with no connecting constraint: counts multiply
    let inp = input(4, vec![(vec![0, 1], 3), (vec![2, 3], 4)]);
    let direct = sorted(sum_reachable::solve(&inp));
    assert_eq!(direct.len(), 4);
    let lazy = sorted(divide::solve(&inp));
    assert_eq!(lazy.len(), 4);
    assert_eq!(direct, lazy);
    let expected: Vec<Vec<u8>> = vec![
        vec![1, 2, 1, 3],
        vec![1, 2, 3, 1],
        vec![2, 1, 1, 3],
        vec![2, 1, 3, 1],
    ];
    assert_eq!(direct, expected);
}

#[test]
fn divide_and_direct_agree_on_a_crossing_puzzle() {
    // a 2x3 block of cells with two horizontal and three vertical runs
    // cells: 0 1 2 / 3 4 5
    let inp = input(
        6,
        vec![
            (vec![0, 1, 2], 7),
            (vec![3, 4, 5], 20),
            (vec![0, 3], 9),
            (vec![1, 4], 9),
            (vec![2, 5], 9),
        ],
    );
    assert!(inp.is_valid());
    let direct = sorted(sum_reachable::solve(&inp));
    let lazy = sorted(divide::solve(&inp));
    assert_eq!(direct, lazy);
    assert!(!direct.is_empty());
    for solution in &direct {
        assert!(inp.is_solution(solution));
    }
}

#[test]
fn one_connecting_constraint_is_cut_and_restored() {
    // two horizontal runs tied by one vertical run: removing the vertical
    // splits the board, and the combine step restores its exact check
    let inp = input(4, vec![(vec![0, 1], 4), (vec![2, 3], 6), (vec![0, 2], 3)]);
    let direct = sorted(sum_reachable::solve(&inp));
    let lazy = sorted(divide::solve(&inp));
    assert_eq!(direct, vec![vec![1u8, 3, 2, 4]]);
    assert_eq!(lazy, vec![vec![1u8, 3, 2, 4]]);
}

#[test]
fn uneven_components_are_balanced() {
    // one big component and one single free cell under a one-cell run
    let inp = input(5, vec![(vec![0, 1, 2, 3], 10), (vec![4], 5)]);
    let direct = sorted(sum_reachable::solve(&inp));
    let lazy = sorted(divide::solve(&inp));
    assert_eq!(direct, lazy);
    assert_eq!(direct.len(), 24);
    for solution in &direct {
        assert_eq!(solution[4], 5);
    }
}

#[test]
fn solving_twice_yields_the_same_solutions() {
    let inp = input(
        4,
        vec![
            (vec![0, 1], 4),
            (vec![2, 3], 6),
            (vec![0, 2], 3),
            (vec![1, 3], 7),
        ],
    );
    let first = sorted(divide::solve(&inp));
    let second = sorted(divide::solve(&inp));
    assert_eq!(first, second);
    let direct_first = sorted(sum_reachable::solve(&inp));
    let direct_second = sorted(sum_reachable::solve(&inp));
    assert_eq!(direct_first, direct_second);
}

#[test]
fn every_reported_solution_is_a_solution() {
    let inp = input(2, vec![(vec![0, 1], 16)]);
    for solution in sum_reachable::solve(&inp) {
        assert!(inp.is_solution(&solution));
    }
    for solution in divide::solve(&inp) {
        assert!(inp.is_solution(&solution));
    }
}

#[test]
fn is_solution_checks_length_range_distinctness_and_sum() {
    let inp = input(2, vec![(vec![0, 1], 10)]);
    assert!(inp.is_solution(&vec![1, 9]));
    assert!(inp.is_solution(&vec![9, 1]));
    assert!(!inp.is_solution(&vec![5, 5]));
    assert!(!inp.is_solution(&vec![4, 7]));
    assert!(!inp.is_solution(&vec![1, 9, 1]));
    assert!(!inp.is_solution(&vec![10, 0]));
    assert!(!inp.is_solution(&vec![1]));
}

#[test]
fn is_valid_rejects_malformed_puzzles() {
    assert!(input(2, vec![(vec![0, 1], 3)]).is_valid());
    // a constraint with no cells
    assert!(!input(2, vec![(vec![], 3)]).is_valid());
    // an out-of-range cell index
    assert!(!input(2, vec![(vec![0, 2], 3)]).is_valid());
    // a repeated cell
    assert!(!input(2, vec![(vec![0, 0], 3)]).is_valid());
    // targets outside 1..=45
    assert!(!input(2, vec![(vec![0, 1], 0)]).is_valid());
    assert!(!input(2, vec![(vec![0, 1], 46)]).is_valid());
    // more than nine cells
    assert!(!input(
        10,
        vec![(vec![0, 1, 2, 3, 4, 5, 6, 7, 8, 9], 45)]
    )
    .is_valid());
}
