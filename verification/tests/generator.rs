use nonogram::combos::{create_combos, min_size_of_chunk_list};
use nonogram::masks::{create_mask, filter_with_mask};
use nonogram::Cell;

fn binomial(n: usize, k: usize) -> usize {
    if k > n {
        return 0;
    }
    let mut result: usize = 1;
    for i in 0..k {
        result = result * (n - i) / (i + 1);
    }
    result
}

/// Number of candidate fillings: distribute the free cells left over by
/// the runs and mandatory separators into the gaps around the runs.
fn expected_count(clue: &[usize], length: usize) -> usize {
    if clue.is_empty() {
        return 1;
    }
    let min: usize = clue.iter().sum::<usize>() + clue.len() - 1;
    if min > length {
        return 0;
    }
    binomial(length - min + clue.len(), clue.len())
}

fn runs_of(combo: &[Cell]) -> Vec<usize> {
    let mut runs = Vec::new();
    let mut current = 0usize;
    for cell in combo {
        if *cell == Cell::Filled {
            current += 1;
        } else if current > 0 {
            runs.push(current);
            current = 0;
        }
    }
    if current > 0 {
        runs.push(current);
    }
    runs
}

#[test]
fn test_create_combos() {
    let chunk_list = vec![1, 2, 3];
    let combos = create_combos(&chunk_list, 10);
    assert_eq!(combos.len(), expected_count(&chunk_list, 10));
    assert_eq!(combos.len(), 10);
    for combo in &combos {
        assert_eq!(combo.len(), 10);
        assert_eq!(runs_of(combo), chunk_list);
    }
}

#[test]
fn test_scenario_two_runs_in_five() {
    let combos = create_combos(&vec![1, 2], 5);
    assert_eq!(combos.len(), 3);
    let a = vec![Cell::Filled, Cell::Empty, Cell::Filled, Cell::Filled, Cell::Empty];
    let b = vec![Cell::Empty, Cell::Filled, Cell::Empty, Cell::Filled, Cell::Filled];
    assert!(combos.contains(&a));
    assert!(combos.contains(&b));
    let mask = create_mask(&combos);
    assert!(mask.contains(&Cell::Unknown));
    assert_eq!(
        mask,
        vec![Cell::Unknown, Cell::Unknown, Cell::Unknown, Cell::Filled, Cell::Unknown]
    );
}

#[test]
fn test_empty_clue_gives_one_empty_line() {
    let combos = create_combos(&Vec::new(), 3);
    assert_eq!(combos, vec![vec![Cell::Empty, Cell::Empty, Cell::Empty]]);
}

#[test]
fn test_infeasible_clue_gives_no_combo() {
    let combos = create_combos(&vec![1, 1], 1);
    assert!(combos.is_empty());
}

#[test]
fn test_min_size_of_chunk_list() {
    assert_eq!(min_size_of_chunk_list(&Vec::new()), 0);
    assert_eq!(min_size_of_chunk_list(&vec![5]), 5);
    assert_eq!(min_size_of_chunk_list(&vec![1, 2, 3]), 8);
}

#[test]
fn test_combo_counts_match_closed_form() {
    let cases: Vec<(Vec<usize>, usize)> = vec![
        (vec![1], 1),
        (vec![1], 5),
        (vec![2], 6),
        (vec![1, 1, 1], 7),
        (vec![1, 2], 5),
        (vec![3, 1], 6),
        (vec![2, 2], 4),
    ];
    for (clue, length) in cases {
        let combos = create_combos(&clue, length);
        assert_eq!(combos.len(), expected_count(&clue, length));
    }
}

#[test]
fn test_every_combo_reproduces_its_clue() {
    let clue = vec![2, 1];
    let combos = create_combos(&clue, 6);
    assert_eq!(combos.len(), expected_count(&clue, 6));
    for combo in &combos {
        assert_eq!(combo.len(), 6);
        assert_eq!(runs_of(combo), clue);
    }
}

#[test]
fn test_combos_are_distinct() {
    let combos = create_combos(&vec![1, 2], 6);
    for i in 0..combos.len() {
        for j in 0..combos.len() {
            if i != j {
                assert_ne!(combos[i], combos[j]);
            }
        }
    }
}

#[test]
fn test_filter_keeps_only_agreeing_combos() {
    let combos = create_combos(&vec![1, 2], 5);
    let mask = vec![Cell::Filled, Cell::Unknown, Cell::Unknown, Cell::Unknown, Cell::Unknown];
    let kept = filter_with_mask(&combos, &mask);
    assert_eq!(kept.len(), 2);
    for combo in &kept {
        assert_eq!(combo[0], Cell::Filled);
    }
    let free = vec![Cell::Unknown; 5];
    assert_eq!(filter_with_mask(&combos, &free), combos);
}

#[test]
fn test_filter_with_own_mask_is_no_op() {
    let combos = create_combos(&vec![1, 2], 5);
    let mask = create_mask(&combos);
    assert_eq!(filter_with_mask(&combos, &mask), combos);
}

#[test]
fn test_mask_of_single_combo_is_that_combo() {
    let combos = create_combos(&vec![2], 2);
    assert_eq!(combos.len(), 1);
    let mask = create_mask(&combos);
    assert_eq!(mask, vec![Cell::Filled, Cell::Filled]);
}
