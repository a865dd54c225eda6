use nonogram::solver::{solve_puzzle, SolveStatus};
use nonogram::Cell;

fn unknowns_in(grid: &[Vec<Cell>]) -> usize {
    grid.iter().map(|row| row.iter().filter(|c| **c == Cell::Unknown).count()).sum()
}

#[test]
fn test_single_cell_puzzle_solves_in_one_step() {
    let rows = vec![vec![1]];
    let cols = vec![vec![1]];
    let report = solve_puzzle(&rows, &cols);
    assert_eq!(report.status, SolveStatus::Solved);
    assert_eq!(report.steps, 1);
    assert_eq!(report.grid, vec![vec![Cell::Filled]]);
}

#[test]
fn test_infeasible_row_clue() {
    let rows = vec![vec![1, 1]];
    let cols = vec![vec![1]];
    let report = solve_puzzle(&rows, &cols);
    assert_eq!(report.status, SolveStatus::InfeasibleRow { row: 0 });
    assert_eq!(report.steps, 0);
    assert!(report.snapshots.is_empty());
}

#[test]
fn test_infeasible_col_clue() {
    let rows = vec![vec![1]];
    let cols = vec![vec![1, 1]];
    let report = solve_puzzle(&rows, &cols);
    assert_eq!(report.status, SolveStatus::InfeasibleCol { col: 0 });
    assert_eq!(report.steps, 0);
}

#[test]
fn test_conflicting_row_and_col_clues() {
    let rows = vec![vec![1]];
    let cols = vec![Vec::new()];
    let report = solve_puzzle(&rows, &cols);
    assert_eq!(report.status, SolveStatus::Contradiction { row: 0, col: 0 });
    assert_eq!(report.steps, 1);
    assert!(report.snapshots.is_empty());
}

#[test]
fn test_filtering_can_empty_a_row_set() {
    let rows = vec![vec![2], vec![1]];
    let cols = vec![vec![2], vec![1], vec![2]];
    let report = solve_puzzle(&rows, &cols);
    assert_eq!(report.status, SolveStatus::EmptyRowCombos { row: 0 });
    assert_eq!(report.steps, 1);
}

#[test]
fn test_filtering_can_empty_a_col_set() {
    let rows = vec![vec![2], vec![1], vec![2]];
    let cols = vec![vec![2], vec![1]];
    let report = solve_puzzle(&rows, &cols);
    assert_eq!(report.status, SolveStatus::EmptyColCombos { col: 0 });
    assert_eq!(report.steps, 1);
}

#[test]
fn test_underconstrained_puzzle_stalls() {
    let rows = vec![vec![1], vec![1]];
    let cols = vec![vec![1], vec![1]];
    let report = solve_puzzle(&rows, &cols);
    assert_eq!(report.status, SolveStatus::Stalled);
    assert_eq!(report.steps, 1);
    assert_eq!(report.snapshots.len(), 1);
    assert_eq!(report.grid, report.snapshots[0]);
    assert!(unknowns_in(&report.grid) > 0);
    assert!(report.steps <= rows.len() * cols.len() + 1);
}

#[test]
fn test_cross_puzzle_solves_in_two_steps() {
    let rows = vec![vec![1], vec![3], vec![1]];
    let cols = vec![vec![1], vec![3], vec![1]];
    let report = solve_puzzle(&rows, &cols);
    assert_eq!(report.status, SolveStatus::Solved);
    assert_eq!(report.steps, 2);
    let e = Cell::Empty;
    let f = Cell::Filled;
    assert_eq!(report.grid, vec![vec![e, f, e], vec![f, f, f], vec![e, f, e]]);
    assert!(report.steps <= rows.len() * cols.len() + 1);
}

#[test]
fn test_unknown_counts_never_grow_over_snapshots() {
    let rows = vec![vec![1], vec![3], vec![1]];
    let cols = vec![vec![1], vec![3], vec![1]];
    let report = solve_puzzle(&rows, &cols);
    assert_eq!(report.snapshots.len(), 2);
    for t in 1..report.snapshots.len() {
        assert!(unknowns_in(&report.snapshots[t]) <= unknowns_in(&report.snapshots[t - 1]));
        for i in 0..report.snapshots[t].len() {
            let before = &report.snapshots[t - 1][i];
            let after = &report.snapshots[t][i];
            let count_before = before.iter().filter(|c| **c == Cell::Unknown).count();
            let count_after = after.iter().filter(|c| **c == Cell::Unknown).count();
            assert!(count_after <= count_before);
        }
    }
}

#[test]
fn test_ring_puzzle_solves() {
    let rows = vec![vec![4], vec![1, 1], vec![1, 1], vec![4]];
    let cols = vec![vec![4], vec![1, 1], vec![1, 1], vec![4]];
    let report = solve_puzzle(&rows, &cols);
    assert_eq!(report.status, SolveStatus::Solved);
    assert_eq!(report.steps, 2);
    let f = Cell::Filled;
    let e = Cell::Empty;
    assert_eq!(
        report.grid,
        vec![vec![f, f, f, f], vec![f, e, e, f], vec![f, e, e, f], vec![f, f, f, f]]
    );
}

#[test]
fn test_wide_solved_puzzle() {
    let rows = vec![vec![2], Vec::new()];
    let cols = vec![vec![1], vec![1]];
    let report = solve_puzzle(&rows, &cols);
    assert_eq!(report.status, SolveStatus::Solved);
    let f = Cell::Filled;
    let e = Cell::Empty;
    assert_eq!(report.grid, vec![vec![f, f], vec![e, e]]);
}
