use minesweeper::board::CellState;
use minesweeper::minefield::{Content, Minefield, Tile, UserMarking};
use rand_core::SeedableRng;
use rand_xoshiro::Xoshiro256StarStar;

fn rng(seed: u64) -> Xoshiro256StarStar {
    Xoshiro256StarStar::seed_from_u64(seed)
}

fn tiles(field: &Minefield, width: u16, height: u16) -> Vec<Tile> {
    let mut all = Vec::new();
    for row in 0..height {
        for col in 0..width {
            all.push(field.tile_at(row, col));
        }
    }
    all
}

fn is_mine(tile: Tile) -> bool {
    matches!(tile, Tile::Hidden(Content::Mine, _))
}

fn mines_around(field: &Minefield, width: u16, height: u16, row: u16, col: u16) -> u8 {
    let mut count = 0;
    for r in row.saturating_sub(1)..=(row + 1).min(height - 1) {
        for c in col.saturating_sub(1)..=(col + 1).min(width - 1) {
            if (r, c) != (row, col) && is_mine(field.tile_at(r, c)) {
                count += 1;
            }
        }
    }
    count
}

/// Every revealed tile shows the mines around it, a revealed tile without mines around
/// it has only revealed tiles around it, and the mines are as many as they should be.
fn check(field: &Minefield, width: u16, height: u16, mines: usize) {
    let all = tiles(field, width, height);
    assert_eq!(all.iter().filter(|tile| is_mine(**tile)).count(), mines);
    let revealed = all.iter().filter(|tile| matches!(tile, Tile::Revealed(_))).count();
    assert_eq!(field.revealed_count() as usize, revealed);
    for row in 0..height {
        for col in 0..width {
            if let Tile::Revealed(n) = field.tile_at(row, col) {
                assert!(n <= 8);
                assert_eq!(n, mines_around(field, width, height, row, col));
                if n == 0 {
                    for r in row.saturating_sub(1)..=(row + 1).min(height - 1) {
                        for c in col.saturating_sub(1)..=(col + 1).min(width - 1) {
                            assert!(matches!(field.tile_at(r, c), Tile::Revealed(_)));
                        }
                    }
                }
            }
        }
    }
}

#[test]
fn a_new_field_hides_every_tile_and_has_its_mines() {
    let field = Minefield::create_random(7, 5, 11, &mut rng(1));
    let all = tiles(&field, 7, 5);
    assert_eq!(all.len(), 35);
    for tile in &all {
        assert!(matches!(tile, Tile::Hidden(_, UserMarking::Unmarked)));
    }
    assert_eq!(all.iter().filter(|tile| is_mine(**tile)).count(), 11);
    assert_eq!(field.mine_count, 11);
    assert_eq!(field.flag_count(), 0);
    assert_eq!(field.revealed_count(), 0);
    assert!(!field.is_all_revealed());
}

#[test]
fn a_single_tile_without_a_mine_is_revealed_and_the_game_is_won() {
    let mut field = Minefield::create_random(1, 1, 0, &mut rng(2));
    assert!(field.reveal_at(&mut rng(3), 0, 0));
    assert_eq!(field.tile_at(0, 0), Tile::Revealed(0));
    assert!(field.is_all_revealed());
}

#[test]
fn a_single_tile_with_a_mine_is_lost() {
    let mut field = Minefield::create_random(1, 1, 1, &mut rng(2));
    assert!(!field.reveal_at(&mut rng(3), 0, 0));
    assert_eq!(field.tile_at(0, 0), Tile::Hidden(Content::Mine, UserMarking::Unmarked));
}

#[test]
fn marking_three_times_comes_back_to_no_marking() {
    let mut field = Minefield::create_random(3, 3, 2, &mut rng(4));
    let before = field.tile_at(1, 2);
    field.switch_mark(1, 2);
    assert!(matches!(field.tile_at(1, 2), Tile::Hidden(_, UserMarking::Flag)));
    assert_eq!(field.flag_count(), 1);
    field.switch_mark(1, 2);
    assert!(matches!(field.tile_at(1, 2), Tile::Hidden(_, UserMarking::QuestionMark)));
    assert_eq!(field.flag_count(), 0);
    field.switch_mark(1, 2);
    assert_eq!(field.tile_at(1, 2), before);
    assert_eq!(field.flag_count(), 0);
}

#[test]
fn marking_a_revealed_tile_changes_nothing() {
    let mut field = Minefield::create_random(3, 3, 0, &mut rng(4));
    assert!(field.reveal_at(&mut rng(5), 0, 0));
    let before = tiles(&field, 3, 3);
    field.switch_mark(1, 1);
    assert_eq!(tiles(&field, 3, 3), before);
    assert_eq!(field.flag_count(), 0);
}

#[test]
fn a_flagged_tile_is_not_revealed() {
    let mut field = Minefield::create_random(3, 3, 4, &mut rng(6));
    field.switch_mark(1, 1);
    let before = tiles(&field, 3, 3);
    assert!(field.reveal_at(&mut rng(7), 1, 1));
    assert_eq!(tiles(&field, 3, 3), before);
}

#[test]
fn a_field_without_mines_is_revealed_at_once() {
    let mut field = Minefield::create_random(6, 4, 0, &mut rng(8));
    assert!(field.reveal_at(&mut rng(9), 2, 3));
    for tile in tiles(&field, 6, 4) {
        assert_eq!(tile, Tile::Revealed(0));
    }
    assert_eq!(field.revealed_count(), 24);
    assert!(field.is_all_revealed());
}

#[test]
fn revealed_ground_ends_at_the_tiles_that_count_mines() {
    for seed in 0..40 {
        let mut field = Minefield::create_random(9, 9, 10, &mut rng(seed));
        let hidden_before = tiles(&field, 9, 9);
        assert!(field.reveal_at(&mut rng(seed + 1000), 4, 4));
        check(&field, 9, 9, 10);
        // Each tile that was revealed is the tile asked for or touches a revealed tile
        // without mines around it.
        for row in 0..9u16 {
            for col in 0..9u16 {
                if matches!(field.tile_at(row, col), Tile::Revealed(_)) && (row, col) != (4, 4) {
                    let mut touches_open_ground = false;
                    for r in row.saturating_sub(1)..=(row + 1).min(8) {
                        for c in col.saturating_sub(1)..=(col + 1).min(8) {
                            if field.tile_at(r, c) == Tile::Revealed(0) {
                                touches_open_ground = true;
                            }
                        }
                    }
                    assert!(touches_open_ground);
                }
            }
        }
        assert_eq!(hidden_before.len(), 81);
    }
}

#[test]
fn the_first_reveal_is_safe_while_a_tile_is_free_of_mines() {
    for seed in 0..60 {
        let mut field = Minefield::create_random(4, 4, 15, &mut rng(seed));
        assert!(field.reveal_at(&mut rng(seed + 500), 1, 2));
        assert_eq!(field.tile_at(1, 2), Tile::Revealed(8));
        check(&field, 4, 4, 15);
        assert!(field.is_all_revealed());
    }
}

#[test]
fn with_a_mine_under_every_tile_the_first_reveal_is_lost() {
    let mut field = Minefield::create_random(2, 2, 4, &mut rng(10));
    assert!(!field.reveal_at(&mut rng(11), 0, 1));
    for tile in tiles(&field, 2, 2) {
        assert_eq!(tile, Tile::Hidden(Content::Mine, UserMarking::Unmarked));
    }
}

#[test]
fn a_mine_that_the_clues_pin_down_cannot_be_moved() {
    // Looks for the layout  M . M  over three empty tiles, reveals the lower row, and
    // then asks for the tile in the upper left corner.
    let mut tried = 0;
    for seed in 0..2000 {
        let mut field = Minefield::create_random(3, 2, 2, &mut rng(seed));
        if !(is_mine(field.tile_at(0, 0)) && is_mine(field.tile_at(0, 2))) {
            continue;
        }
        tried += 1;
        let mut moves = rng(seed + 1);
        assert!(field.reveal_at(&mut moves, 1, 0));
        assert!(field.reveal_at(&mut moves, 1, 1));
        assert!(field.reveal_at(&mut moves, 1, 2));
        assert_eq!(field.tile_at(1, 0), Tile::Revealed(1));
        assert_eq!(field.tile_at(1, 1), Tile::Revealed(2));
        assert_eq!(field.tile_at(1, 2), Tile::Revealed(1));
        assert!(!field.is_all_revealed());
        assert!(!field.reveal_at(&mut moves, 0, 0));
        assert!(is_mine(field.tile_at(0, 0)));
    }
    assert!(tried > 0);
}

#[test]
fn a_mine_that_the_clues_leave_open_moves_away() {
    let mut moved = 0;
    for seed in 0..200 {
        let mut field = Minefield::create_random(5, 5, 6, &mut rng(seed));
        let mut moves = rng(seed + 7);
        assert!(field.reveal_at(&mut moves, 2, 2));
        check(&field, 5, 5, 6);
        // Asks for hidden tiles one after the other, as long as the player survives.
        for row in 0..5 {
            for col in 0..5 {
                let tile = field.tile_at(row, col);
                if matches!(tile, Tile::Hidden(_, _)) {
                    let was_mine = is_mine(tile);
                    if field.reveal_at(&mut moves, row, col) {
                        if was_mine {
                            moved += 1;
                        }
                        assert!(matches!(field.tile_at(row, col), Tile::Revealed(_)));
                        check(&field, 5, 5, 6);
                    } else {
                        assert!(was_mine);
                        assert!(is_mine(field.tile_at(row, col)));
                        return;
                    }
                }
            }
        }
        assert!(field.is_all_revealed());
    }
    assert!(moved > 0);
}

#[test]
fn revealing_around_a_clue_needs_as_many_flags_as_the_clue_counts() {
    let mut done = 0;
    for seed in 0..300 {
        let mut field = Minefield::create_random(4, 4, 2, &mut rng(seed));
        let mut moves = rng(seed + 3);
        assert!(field.reveal_at(&mut moves, 0, 0));
        // Looks for a revealed tile that counts one mine and flags that mine.
        for row in 0..4u16 {
            for col in 0..4u16 {
                if done > 0 || field.tile_at(row, col) != Tile::Revealed(1) {
                    continue;
                }
                let before = tiles(&field, 4, 4);
                // Without a flag nothing happens.
                assert!(field.reveal_at(&mut moves, row, col));
                assert_eq!(tiles(&field, 4, 4), before);
                let mut flagged = false;
                for r in row.saturating_sub(1)..=(row + 1).min(3) {
                    for c in col.saturating_sub(1)..=(col + 1).min(3) {
                        if is_mine(field.tile_at(r, c)) {
                            field.switch_mark(r, c);
                            flagged = true;
                        }
                    }
                }
                assert!(flagged);
                assert!(field.reveal_at(&mut moves, row, col));
                for r in row.saturating_sub(1)..=(row + 1).min(3) {
                    for c in col.saturating_sub(1)..=(col + 1).min(3) {
                        let tile = field.tile_at(r, c);
                        assert!(
                            matches!(tile, Tile::Revealed(_))
                                || matches!(tile, Tile::Hidden(Content::Mine, UserMarking::Flag))
                        );
                    }
                }
                check(&field, 4, 4, 2);
                done += 1;
            }
        }
    }
    assert!(done > 0);
}

#[test]
fn the_same_seeds_and_moves_give_the_same_game() {
    let play = |seed: u64| {
        let mut field = Minefield::create_random(8, 8, 12, &mut rng(seed));
        let mut moves = rng(seed ^ 0xabcdef);
        let mut outcomes = Vec::new();
        for (row, col) in [(3u16, 3u16), (0, 0), (7, 7), (0, 7), (5, 2), (6, 1), (2, 6)] {
            outcomes.push(field.reveal_at(&mut moves, row, col));
            if !*outcomes.last().unwrap() {
                break;
            }
        }
        (outcomes, tiles(&field, 8, 8))
    };
    for seed in 0..20 {
        assert_eq!(play(seed), play(seed));
    }
}

#[test]
fn what_was_deduced_agrees_with_what_is_shown() {
    for seed in 0..30 {
        let mut field = Minefield::create_random(6, 6, 7, &mut rng(seed));
        assert!(field.reveal_at(&mut rng(seed + 77), 3, 3));
        for row in 0..6 {
            for col in 0..6 {
                let tile = field.tile_at(row, col);
                match field.deductions().state(row, col) {
                    CellState::Clue(n) => {
                        assert!(matches!(tile, Tile::Revealed(_)));
                        // The clue counts the mines around it that are not yet known.
                        let mut owed = 0;
                        for r in row.saturating_sub(1)..=(row + 1).min(5) {
                            for c in col.saturating_sub(1)..=(col + 1).min(5) {
                                if field.deductions().state(r, c) == CellState::UnknownConstrained
                                    && is_mine(field.tile_at(r, c))
                                {
                                    owed += 1;
                                }
                                assert!(
                                    field.deductions().state(r, c)
                                        != CellState::UnknownUnconstrained
                                );
                            }
                        }
                        assert_eq!(n, owed);
                    }
                    CellState::Mine => assert!(is_mine(tile)),
                    CellState::Empty => {
                        assert!(matches!(tile, Tile::Hidden(Content::Empty, _)))
                    }
                    _ => assert!(matches!(tile, Tile::Hidden(_, _))),
                }
            }
        }
    }
}

#[test]
fn the_mines_of_a_new_field_are_spread_by_the_generator() {
    let layout = |seed: u64| -> Vec<bool> {
        let field = Minefield::create_random(10, 10, 10, &mut rng(seed));
        tiles(&field, 10, 10).into_iter().map(is_mine).collect()
    };
    let mut mines_first = vec![true; 10];
    mines_first.resize(100, false);
    // The mines do not stay where they were put before the shuffle.
    assert!((0..5).any(|seed| layout(seed) != mines_first));
    // Another seed gives another field.
    assert!((1..5).any(|seed| layout(seed) != layout(0)));
}
