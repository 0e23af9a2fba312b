use minesweeper::search::{find_solutions, Clue, Topology};

fn solutions(unknown_count: usize, clues: Vec<(u8, Vec<usize>)>) -> Vec<Vec<bool>> {
    let clues = clues
        .into_iter()
        .map(|(mine_count, adjacency)| Clue { mine_count, adjacency })
        .collect();
    let topology = Topology { unknown_count, clues };
    find_solutions(&topology).iter().map(|alt| alt.to_vec()).collect()
}

fn mines_on(alt: &[bool], adjacency: &[usize]) -> usize {
    adjacency.iter().filter(|&&j| alt[j]).count()
}

#[test]
fn one_clue_over_one_cell_has_one_solution() {
    assert_eq!(solutions(1, vec![(1, vec![0])]), vec![vec![true]]);
}

#[test]
fn one_mine_among_three_cells_has_three_solutions() {
    let found = solutions(3, vec![(1, vec![0, 1, 2])]);
    assert_eq!(
        found,
        vec![
            vec![false, false, true],
            vec![false, true, false],
            vec![true, false, false],
        ]
    );
}

#[test]
fn clues_that_overlap_can_leave_a_single_solution() {
    // x + y = 1, x + y + z = 2, y + z = 1: only x and z hold mines.
    let found = solutions(3, vec![(1, vec![0, 1]), (2, vec![0, 1, 2]), (1, vec![1, 2])]);
    assert_eq!(found, vec![vec![true, false, true]]);
}

#[test]
fn clues_that_contradict_each_other_have_no_solution() {
    let found = solutions(2, vec![(2, vec![0, 1]), (1, vec![0, 1])]);
    assert!(found.is_empty());
}

#[test]
fn a_clue_that_counts_more_mines_than_it_touches_cells_has_no_solution() {
    assert!(solutions(2, vec![(3, vec![0, 1])]).is_empty());
    assert!(solutions(0, vec![(1, vec![])]).is_empty());
}

#[test]
fn without_clues_every_assignment_is_a_solution() {
    let found = solutions(2, vec![]);
    assert_eq!(
        found,
        vec![
            vec![false, false],
            vec![false, true],
            vec![true, false],
            vec![true, true],
        ]
    );
}

#[test]
fn a_group_without_cells_has_the_empty_assignment_as_its_solution() {
    assert_eq!(solutions(0, vec![]), vec![Vec::<bool>::new()]);
    assert_eq!(solutions(0, vec![(0, vec![])]), vec![Vec::<bool>::new()]);
}

#[test]
fn every_solution_gives_every_clue_its_count_and_no_other_assignment_does() {
    let clues: Vec<(u8, Vec<usize>)> =
        vec![(1, vec![0, 1, 2]), (2, vec![1, 2, 3, 4]), (1, vec![3, 4, 5]), (1, vec![0, 5])];
    let found = solutions(6, clues.clone());
    for alt in &found {
        assert_eq!(alt.len(), 6);
        for (count, adjacency) in &clues {
            assert_eq!(mines_on(alt, adjacency), *count as usize);
        }
    }
    let mut expected = 0;
    for code in 0..64u32 {
        let alt: Vec<bool> = (0..6).map(|j| code & (1 << j) != 0).collect();
        if clues.iter().all(|(count, adjacency)| mines_on(&alt, adjacency) == *count as usize) {
            expected += 1;
            assert!(found.contains(&alt));
        }
    }
    assert_eq!(found.len(), expected);
}
