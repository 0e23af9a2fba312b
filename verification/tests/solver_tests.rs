use minesweeper::board::CellState;
use minesweeper::solver::PartialSolution;
use rand_core::SeedableRng;
use rand_xoshiro::Xoshiro256StarStar;

fn rng(seed: u64) -> Xoshiro256StarStar {
    Xoshiro256StarStar::seed_from_u64(seed)
}

/// Two rows of three cells with mines at (0, 0) and (0, 2), the lower row revealed:
///
/// ```text
///  x y z
///  1 2 1
/// ```
fn cornered() -> PartialSolution {
    let mut sol = PartialSolution::new(3, 2, 2);
    sol.add_clue((1, 0), 1);
    sol.add_clue((1, 1), 2);
    sol.add_clue((1, 2), 1);
    sol
}

#[test]
fn a_new_board_knows_nothing() {
    let sol = PartialSolution::new(4, 3, 5);
    for row in 0..3 {
        for col in 0..4 {
            assert_eq!(sol.state(row, col), CellState::UnknownUnconstrained);
        }
    }
    assert_eq!(sol.free_cell_count(), 12);
    assert_eq!(sol.hidden_mine_count(), 5);
    assert_eq!(sol.group_count(), 0);
}

#[test]
fn a_clue_of_zero_makes_its_neighbors_empty() {
    let mut sol = PartialSolution::new(3, 3, 0);
    sol.add_clue((1, 1), 0);
    assert_eq!(sol.state(1, 1), CellState::Clue(0));
    for row in 0..3 {
        for col in 0..3 {
            if (row, col) != (1, 1) {
                assert_eq!(sol.state(row, col), CellState::Empty);
            }
        }
    }
    assert_eq!(sol.free_cell_count(), 0);
    assert_eq!(sol.hidden_mine_count(), 0);
}

#[test]
fn a_clue_that_counts_all_its_neighbors_makes_them_mines() {
    let mut sol = PartialSolution::new(2, 1, 1);
    sol.add_clue((0, 0), 1);
    // The mine is known now, so the clue counts nothing more.
    assert_eq!(sol.state(0, 0), CellState::Clue(0));
    assert_eq!(sol.state(0, 1), CellState::Mine);
    assert_eq!(sol.hidden_mine_count(), 0);
    assert_eq!(sol.free_cell_count(), 0);
}

#[test]
fn a_clue_opens_the_free_cells_around_it_only() {
    let mut sol = PartialSolution::new(4, 4, 3);
    sol.add_clue((0, 0), 1);
    assert_eq!(sol.state(0, 0), CellState::Clue(1));
    assert_eq!(sol.state(0, 1), CellState::UnknownConstrained);
    assert_eq!(sol.state(1, 0), CellState::UnknownConstrained);
    assert_eq!(sol.state(1, 1), CellState::UnknownConstrained);
    assert_eq!(sol.state(0, 2), CellState::UnknownUnconstrained);
    assert_eq!(sol.state(2, 2), CellState::UnknownUnconstrained);
    assert_eq!(sol.free_cell_count(), 12);
    assert_eq!(sol.hidden_mine_count(), 3);
}

#[test]
fn deductions_spread_from_clue_to_clue() {
    // One row, mines at columns 1 and 4:  . M . . M
    let mut sol = PartialSolution::new(5, 1, 2);
    sol.add_clue((0, 2), 1);
    assert_eq!(sol.state(0, 1), CellState::UnknownConstrained);
    assert_eq!(sol.state(0, 3), CellState::UnknownConstrained);
    // The clue at column 3 counts the mine at column 4 only, so column 2 ... was empty
    // already, column 4 must be the mine, and with that column 1 is the mine of the
    // first clue.
    sol.add_clue((0, 3), 1);
    assert_eq!(sol.state(0, 3), CellState::Clue(0));
    assert_eq!(sol.state(0, 4), CellState::Mine);
    assert_eq!(sol.state(0, 2), CellState::Clue(0));
    assert_eq!(sol.state(0, 1), CellState::Mine);
    assert_eq!(sol.state(0, 0), CellState::UnknownUnconstrained);
    assert_eq!(sol.hidden_mine_count(), 0);
    assert_eq!(sol.free_cell_count(), 1);
}

#[test]
fn a_known_mine_is_taken_off_a_new_clue() {
    // One row, mine at column 1:  . M . .
    let mut sol = PartialSolution::new(4, 1, 1);
    sol.add_clue((0, 0), 1);
    assert_eq!(sol.state(0, 1), CellState::Mine);
    sol.add_clue((0, 2), 1);
    assert_eq!(sol.state(0, 2), CellState::Clue(0));
    assert_eq!(sol.state(0, 3), CellState::Empty);
}

#[test]
fn clues_stay_between_zero_and_eight() {
    let mut sol = PartialSolution::new(3, 3, 8);
    sol.add_clue((1, 1), 8);
    // All eight neighbors are mines, and all of them are known.
    assert_eq!(sol.state(1, 1), CellState::Clue(0));
    for row in 0..3 {
        for col in 0..3 {
            if (row, col) != (1, 1) {
                assert_eq!(sol.state(row, col), CellState::Mine);
            }
        }
    }
    assert_eq!(sol.hidden_mine_count(), 0);
}

#[test]
fn what_no_single_clue_settles_stays_open() {
    let sol = cornered();
    assert_eq!(sol.state(1, 0), CellState::Clue(1));
    assert_eq!(sol.state(1, 1), CellState::Clue(2));
    assert_eq!(sol.state(1, 2), CellState::Clue(1));
    assert_eq!(sol.state(0, 0), CellState::UnknownConstrained);
    assert_eq!(sol.state(0, 1), CellState::UnknownConstrained);
    assert_eq!(sol.state(0, 2), CellState::UnknownConstrained);
    assert_eq!(sol.free_cell_count(), 0);
    assert_eq!(sol.hidden_mine_count(), 2);
}

#[test]
fn the_open_cells_around_tied_clues_form_one_group() {
    let mut sol = cornered();
    sol.find_graph_solutions();
    assert_eq!(sol.group_count(), 1);
    assert_eq!(sol.group_tiles(0), vec![(0, 0), (0, 1), (0, 2)]);
    assert_eq!(sol.group_alternatives(0), vec![vec![true, false, true]]);
}

#[test]
fn clues_that_share_no_open_cell_have_groups_of_their_own() {
    // One row of seven cells, clues at columns 1 and 5, one mine next to each.
    let mut sol = PartialSolution::new(7, 1, 2);
    sol.add_clue((0, 1), 1);
    sol.add_clue((0, 5), 1);
    sol.find_graph_solutions();
    assert_eq!(sol.group_count(), 2);
    assert_eq!(sol.group_tiles(0), vec![(0, 0), (0, 2)]);
    assert_eq!(sol.group_tiles(1), vec![(0, 4), (0, 6)]);
    assert_eq!(sol.group_alternatives(0), vec![vec![false, true], vec![true, false]]);
    assert_eq!(sol.group_alternatives(1), vec![vec![false, true], vec![true, false]]);
    assert_eq!(sol.state(0, 3), CellState::UnknownUnconstrained);
}

#[test]
fn every_alternative_gives_every_clue_of_its_group_its_count() {
    let mut sol = PartialSolution::new(4, 4, 4);
    sol.add_clue((1, 1), 2);
    sol.add_clue((2, 2), 3);
    sol.find_graph_solutions();
    assert_eq!(sol.group_count(), 1);
    let tiles = sol.group_tiles(0);
    let alternatives = sol.group_alternatives(0);
    assert!(!alternatives.is_empty());
    for alt in &alternatives {
        for (cell, owed) in [((1u16, 1u16), 2usize), ((2, 2), 3)] {
            let mines = tiles
                .iter()
                .zip(alt.iter())
                .filter(|(tile, mine)| {
                    **mine
                        && (tile.0 as i32 - cell.0 as i32).abs() <= 1
                        && (tile.1 as i32 - cell.1 as i32).abs() <= 1
                })
                .count();
            assert_eq!(mines, owed);
        }
    }
}

#[test]
fn a_cell_that_is_a_mine_in_every_alternative_cannot_be_made_safe() {
    let mut sol = cornered();
    sol.find_graph_solutions();
    let found = sol.find_acomodating_solution(&mut rng(1), &vec![(0, 0)]);
    assert!(found.is_none());
}

#[test]
fn a_cell_that_is_empty_in_some_alternative_is_made_safe() {
    let mut sol = cornered();
    sol.find_graph_solutions();
    let found = sol.find_acomodating_solution(&mut rng(1), &vec![(0, 1)]);
    assert_eq!(found, Some(vec![(0, 0, true), (0, 1, false), (0, 2, true)]));
}

#[test]
fn a_known_mine_cannot_be_made_safe() {
    let mut sol = PartialSolution::new(2, 1, 1);
    sol.add_clue((0, 0), 1);
    sol.find_graph_solutions();
    assert!(sol.find_acomodating_solution(&mut rng(7), &vec![(0, 1)]).is_none());
}

#[test]
fn a_free_cell_is_made_safe_and_the_mines_go_to_the_other_free_cells() {
    let mut sol = PartialSolution::new(3, 3, 2);
    sol.find_graph_solutions();
    let found = sol.find_acomodating_solution(&mut rng(3), &vec![(1, 1)]).unwrap();
    assert_eq!(sol.state(1, 1), CellState::Empty);
    assert_eq!(sol.free_cell_count(), 8);
    assert_eq!(sol.hidden_mine_count(), 2);
    assert_eq!(found.len(), 9);
    assert_eq!(found[0], (1, 1, false));
    assert_eq!(found.iter().filter(|commit| commit.2).count(), 2);
    let mut cells: Vec<(u16, u16)> = found.iter().map(|commit| (commit.0, commit.1)).collect();
    cells.sort();
    cells.dedup();
    assert_eq!(cells.len(), 9);
}

#[test]
fn with_a_mine_for_every_cell_nothing_can_be_made_safe() {
    let mut sol = PartialSolution::new(2, 2, 4);
    sol.find_graph_solutions();
    assert!(sol.find_acomodating_solution(&mut rng(5), &vec![(0, 0)]).is_none());
}

#[test]
fn the_mines_that_the_groups_do_not_take_must_fit_the_free_cells() {
    // Clue at column 1 with one mine around it; three mines in all, two free cells.
    let mut sol = PartialSolution::new(5, 1, 3);
    sol.add_clue((0, 1), 1);
    sol.find_graph_solutions();
    assert_eq!(sol.free_cell_count(), 2);
    // Making column 3 safe leaves one free cell for two mines: no layout is left.
    assert!(sol.find_acomodating_solution(&mut rng(11), &vec![(0, 3)]).is_none());
}

#[test]
fn the_same_seed_gives_the_same_layout() {
    let layout = |seed: u64| {
        let mut sol = PartialSolution::new(6, 6, 9);
        sol.add_clue((2, 2), 2);
        sol.add_clue((3, 4), 3);
        sol.find_graph_solutions();
        sol.find_acomodating_solution(&mut rng(seed), &vec![(5, 5), (1, 1)])
    };
    let first = layout(99);
    assert!(first.is_some());
    assert_eq!(first, layout(99));
    let commits = first.unwrap();
    assert_eq!(commits.iter().filter(|commit| commit.2).count(), 9);
    assert!(commits.contains(&(5, 5, false)));
    assert!(commits.contains(&(1, 1, false)));
}
