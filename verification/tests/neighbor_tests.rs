use minesweeper::neighbor_iter::NeighborIter;

fn all(width: u16, height: u16, row: u16, col: u16) -> Vec<(u16, u16)> {
    let mut it = NeighborIter::new(width, height, row, col);
    let mut cells = Vec::new();
    loop {
        match it.next() {
            Some(cell) => cells.push(cell),
            None => break,
        }
    }
    cells
}

#[test]
fn a_cell_in_the_middle_has_eight_neighbors_in_fixed_order() {
    assert_eq!(
        all(3, 3, 1, 1),
        vec![(0, 0), (0, 1), (0, 2), (1, 0), (1, 2), (2, 0), (2, 1), (2, 2)]
    );
}

#[test]
fn a_corner_has_three_neighbors() {
    assert_eq!(all(3, 3, 0, 0), vec![(0, 1), (1, 0), (1, 1)]);
    assert_eq!(all(3, 3, 2, 2), vec![(1, 1), (1, 2), (2, 1)]);
}

#[test]
fn an_edge_has_five_neighbors() {
    assert_eq!(all(3, 3, 0, 1), vec![(0, 0), (0, 2), (1, 0), (1, 1), (1, 2)]);
}

#[test]
fn the_only_cell_of_a_board_has_no_neighbor() {
    assert_eq!(all(1, 1, 0, 0), Vec::<(u16, u16)>::new());
}

#[test]
fn neighbors_are_clipped_at_the_far_edge_of_a_wide_board() {
    assert_eq!(all(65535, 1, 0, 65534), vec![(0, 65533)]);
}

#[test]
fn the_same_walk_gives_the_same_neighbors_again() {
    assert_eq!(all(5, 4, 3, 4), all(5, 4, 3, 4));
    assert_eq!(all(5, 4, 3, 4), vec![(2, 3), (2, 4), (3, 3)]);
}

#[test]
fn a_walk_that_is_used_up_stays_used_up() {
    let mut it = NeighborIter::new(2, 2, 0, 0);
    assert_eq!(it.next(), Some((0, 1)));
    assert_eq!(it.next(), Some((1, 0)));
    assert_eq!(it.next(), Some((1, 1)));
    assert_eq!(it.next(), None);
    assert_eq!(it.next(), None);
}
