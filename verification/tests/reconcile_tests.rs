use minesweeper::reconcile::{
    cartesian_product, feasible, mine_counts, mines_then_empties, retain_empty_at,
    sum_counts, surviving_combinations,
};
use minesweeper::search::{find_solutions, Topology};
use std::collections::VecDeque;

fn all_assignments(cells: usize) -> VecDeque<minesweeper::bits::Bits> {
    find_solutions(&Topology { unknown_count: cells, clues: Vec::new() })
}

#[test]
fn the_product_runs_the_first_list_fastest() {
    let basis = vec![vec![1, 2], vec![10, 20, 30]];
    assert_eq!(
        cartesian_product(&basis),
        vec![vec![1, 10], vec![2, 10], vec![1, 20], vec![2, 20], vec![1, 30], vec![2, 30]]
    );
}

#[test]
fn the_product_of_no_list_is_one_empty_combination() {
    let basis: Vec<Vec<usize>> = Vec::new();
    assert_eq!(cartesian_product(&basis), vec![Vec::<usize>::new()]);
}

#[test]
fn the_product_with_an_empty_list_is_empty() {
    let basis = vec![vec![1, 2], vec![]];
    assert!(cartesian_product(&basis).is_empty());
}

#[test]
fn a_combination_is_feasible_when_the_rest_fits_the_free_cells() {
    assert!(feasible(&vec![2, 1], 5, 2));
    assert!(feasible(&vec![2, 1], 3, 0));
    assert!(!feasible(&vec![2, 1], 5, 1));
    assert!(!feasible(&vec![2, 2], 3, 10));
    assert!(feasible(&Vec::new(), 0, 0));
    assert!(!feasible(&Vec::new(), 1, 0));
}

#[test]
fn counts_are_summed() {
    assert_eq!(sum_counts(&vec![2, 0, 5], 7), 7);
    assert_eq!(sum_counts(&Vec::new(), 3), 0);
}

#[test]
fn mines_come_first_before_the_shuffle() {
    assert_eq!(mines_then_empties(2, 5), vec![true, true, false, false, false]);
    assert_eq!(mines_then_empties(0, 0), Vec::<bool>::new());
    assert_eq!(mines_then_empties(3, 3), vec![true, true, true]);
}

#[test]
fn alternatives_are_sorted_by_their_number_of_mines() {
    // In order: 00, 01, 10, 11.
    let alternatives = all_assignments(2);
    let buckets = mine_counts(&alternatives);
    assert_eq!(buckets, vec![(0, vec![0]), (1, vec![1, 2]), (2, vec![3])]);
}

#[test]
fn alternatives_with_a_mine_on_the_tile_are_dropped() {
    let mut alternatives = all_assignments(2);
    retain_empty_at(&mut alternatives, 1);
    let left: Vec<Vec<bool>> = alternatives.iter().map(|alt| alt.to_vec()).collect();
    assert_eq!(left, vec![vec![false, false], vec![true, false]]);
}

#[test]
fn combinations_survive_in_the_order_of_the_product() {
    let first = mine_counts(&all_assignments(2));
    let second = mine_counts(&all_assignments(1));
    let buckets = vec![first, second];
    // Three mines are hidden and one cell is free: two or three mines go to the groups.
    assert_eq!(
        surviving_combinations(&buckets, 3, 1),
        vec![vec![2, 0], vec![1, 1], vec![2, 1]]
    );
    assert!(surviving_combinations(&buckets, 5, 1).is_empty());
}
