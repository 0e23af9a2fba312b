use minesweeper::grid::Grid;
use minesweeper::minefield::{Content, MinefieldCounters, Tile, UserMarking};

fn counters() -> MinefieldCounters {
    MinefieldCounters { flag_count: 0, revealed_count: 0 }
}

fn hidden(mark: UserMarking) -> Tile {
    Tile::Hidden(Content::Empty, mark)
}

#[test]
fn new_grid_holds_the_default_everywhere() {
    let grid = Grid::new(3, 2, counters(), hidden(UserMarking::Unmarked));
    assert_eq!(grid.width(), 3);
    assert_eq!(grid.height(), 2);
    for row in 0..2 {
        for col in 0..3 {
            assert_eq!(*grid.get(row, col), hidden(UserMarking::Unmarked));
        }
    }
}

#[test]
fn from_vec_takes_exactly_width_times_height_cells() {
    let five = vec![Tile::Revealed(0); 5];
    assert!(Grid::from_vec(3, 2, counters(), five).is_none());
    let six = vec![Tile::Revealed(0); 6];
    assert!(Grid::from_vec(3, 2, counters(), six).is_some());
    let none: Vec<Tile> = Vec::new();
    assert!(Grid::from_vec(0, 7, counters(), none).is_some());
}

#[test]
fn from_vec_is_row_major() {
    let data: Vec<Tile> = (0..6).map(|n| Tile::Revealed(n)).collect();
    let grid = Grid::from_vec(3, 2, counters(), data).unwrap();
    assert_eq!(*grid.get(0, 0), Tile::Revealed(0));
    assert_eq!(*grid.get(0, 2), Tile::Revealed(2));
    assert_eq!(*grid.get(1, 0), Tile::Revealed(3));
    assert_eq!(*grid.get(1, 2), Tile::Revealed(5));
}

#[test]
fn set_writes_one_cell_and_tells_the_counters() {
    let mut grid = Grid::new(2, 2, counters(), hidden(UserMarking::Unmarked));
    grid.set(0, 1, hidden(UserMarking::Flag));
    assert_eq!(grid.counters().flag_count, 1);
    assert_eq!(grid.counters().revealed_count, 0);
    grid.set(1, 0, Tile::Revealed(3));
    assert_eq!(grid.counters().flag_count, 1);
    assert_eq!(grid.counters().revealed_count, 1);
    grid.set(0, 1, Tile::Revealed(0));
    assert_eq!(grid.counters().flag_count, 0);
    assert_eq!(grid.counters().revealed_count, 2);
    assert_eq!(*grid.get(0, 0), hidden(UserMarking::Unmarked));
    assert_eq!(*grid.get(0, 1), Tile::Revealed(0));
    assert_eq!(*grid.get(1, 0), Tile::Revealed(3));
    assert_eq!(*grid.get(1, 1), hidden(UserMarking::Unmarked));
}

#[test]
fn rows_come_top_to_bottom_with_full_width() {
    let data: Vec<Tile> = (0..6).map(|n| Tile::Revealed(n)).collect();
    let grid = Grid::from_vec(2, 3, counters(), data).unwrap();
    let mut rows = grid.rows();
    assert_eq!(rows.next().unwrap(), &[Tile::Revealed(0), Tile::Revealed(1)][..]);
    assert_eq!(rows.next().unwrap(), &[Tile::Revealed(2), Tile::Revealed(3)][..]);
    assert_eq!(rows.next().unwrap(), &[Tile::Revealed(4), Tile::Revealed(5)][..]);
    assert!(rows.next().is_none());
    assert!(rows.next().is_none());
}

#[test]
fn a_grid_without_columns_has_no_rows_to_show() {
    let none: Vec<Tile> = Vec::new();
    let grid = Grid::from_vec(0, 4, counters(), none).unwrap();
    let mut rows = grid.rows();
    assert!(rows.next().is_none());
}
