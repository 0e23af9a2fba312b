//! The up to eight cells around a cell, clipped to the board.

use vstd::prelude::*;

verus! {

/// The row step of the `k`-th of the eight unit offsets, for `k` in `0..8`.
pub open spec fn delta_row(k: int) -> int {
    if k < 3 {
        -1
    } else if k < 5 {
        0
    } else {
        1
    }
}

/// The column step of the `k`-th of the eight unit offsets, for `k` in `0..8`.
pub open spec fn delta_col(k: int) -> int {
    if k == 0 || k == 3 || k == 5 {
        -1
    } else if k == 1 || k == 6 {
        0
    } else {
        1
    }
}

/// Whether the `k`-th neighbor of `(row, col)` lies on a `width` by `height` board.
pub open spec fn neighbor_inside(width: int, height: int, row: int, col: int, k: int) -> bool {
    &&& 0 <= k < 8
    &&& 0 <= row + delta_row(k) < height
    &&& 0 <= col + delta_col(k) < width
}

/// Whether two cells touch by a side or a corner.
pub open spec fn adjacent(r1: int, c1: int, r2: int, c2: int) -> bool {
    &&& -1 <= r2 - r1 <= 1
    &&& -1 <= c2 - c1 <= 1
    &&& !(r1 == r2 && c1 == c2)
}

/// The offset that leads from a cell to a cell that touches it.
pub open spec fn offset_between(r1: int, c1: int, r2: int, c2: int) -> int {
    let dr = r2 - r1;
    let dc = c2 - c1;
    if dr == -1 {
        dc + 1
    } else if dr == 0 {
        if dc == -1 {
            3
        } else {
            4
        }
    } else {
        dc + 6
    }
}

/// The eight offsets reach exactly the cells that touch a cell, each by one offset.
pub proof fn lemma_offsets(r1: int, c1: int, r2: int, c2: int)
    ensures
        adjacent(r1, c1, r2, c2) <==> exists|k: int|
            0 <= k < 8 && r1 + #[trigger] delta_row(k) == r2 && c1 + delta_col(k) == c2,
        adjacent(r1, c1, r2, c2) ==> {
            let k = offset_between(r1, c1, r2, c2);
            0 <= k < 8 && r1 + delta_row(k) == r2 && c1 + delta_col(k) == c2
        },
        forall|j: int, k: int|
            0 <= j < 8 && 0 <= k < 8 && delta_row(j) == delta_row(k) && delta_col(j) == delta_col(
                k,
            ) ==> j == k,
        adjacent(r1, c1, r2, c2) <==> adjacent(r2, c2, r1, c1),
{
    if adjacent(r1, c1, r2, c2) {
        let k = offset_between(r1, c1, r2, c2);
        assert(0 <= k < 8 && r1 + delta_row(k) == r2 && c1 + delta_col(k) == c2);
    }
}

/// Whether `(row, col)` touches `(r0, c0)` by one of the first `cursor` offsets.
pub open spec fn before(r0: int, c0: int, cursor: int, row: int, col: int) -> bool {
    adjacent(r0, c0, row, col) && offset_between(r0, c0, row, col) < cursor
}

/// Going on from offset `prev` to the next neighbor on the board, found at offset `k`, adds
/// that neighbor to those reached and no other cell of the board.
pub proof fn lemma_before_step(
    width: int,
    height: int,
    r0: int,
    c0: int,
    prev: int,
    k: int,
    row: int,
    col: int,
)
    requires
        0 <= prev <= k < 8,
        forall|j: int| prev <= j < k ==> !neighbor_inside(width, height, r0, c0, j),
        0 <= row < height,
        0 <= col < width,
    ensures
        before(r0, c0, k + 1, row, col) <==> before(r0, c0, prev, row, col) || (row == r0
            + delta_row(k) && col == c0 + delta_col(k)),
{
    lemma_offsets(r0, c0, row, col);
    if adjacent(r0, c0, row, col) {
        let j = offset_between(r0, c0, row, col);
        if prev <= j < k {
            assert(neighbor_inside(width, height, r0, c0, j));
        }
    }
}

/// When no offset from `prev` on leads to the board, the neighbors reached so far are all.
pub proof fn lemma_before_done(
    width: int,
    height: int,
    r0: int,
    c0: int,
    prev: int,
    row: int,
    col: int,
)
    requires
        0 <= prev,
        forall|j: int| prev <= j < 8 ==> !neighbor_inside(width, height, r0, c0, j),
        0 <= row < height,
        0 <= col < width,
    ensures
        before(r0, c0, prev, row, col) <==> adjacent(r0, c0, row, col),
        before(r0, c0, 8, row, col) <==> adjacent(r0, c0, row, col),
{
    lemma_offsets(r0, c0, row, col);
    if adjacent(r0, c0, row, col) {
        let j = offset_between(r0, c0, row, col);
        if prev <= j {
            assert(neighbor_inside(width, height, r0, c0, j));
        }
    }
}

/// A walk over the neighbors of one cell, in the fixed order of the eight offsets.
pub struct NeighborIter {
    width: u16,
    height: u16,
    row: u16,
    col: u16,
    i: u8,
}

impl NeighborIter {
    /// The number of columns of the board.
    pub closed spec fn board_width(&self) -> int {
        self.width as int
    }

    /// The number of rows of the board.
    pub closed spec fn board_height(&self) -> int {
        self.height as int
    }

    /// The row of the cell whose neighbors are named.
    pub closed spec fn center_row(&self) -> int {
        self.row as int
    }

    /// The column of the cell whose neighbors are named.
    pub closed spec fn center_col(&self) -> int {
        self.col as int
    }

    /// The index of the first offset that has not been looked at yet.
    pub closed spec fn cursor(&self) -> int {
        self.i as int
    }

    /// Whether the `k`-th neighbor of the center lies on the board.
    pub open spec fn inside(&self, k: int) -> bool {
        neighbor_inside(
            self.board_width(),
            self.board_height(),
            self.center_row(),
            self.center_col(),
            k,
        )
    }

    /// A walk around `(row, col)` on a `width` by `height` board, from the first offset.
    pub fn new(width: u16, height: u16, row: u16, col: u16) -> (it: Self)
        ensures
            it.board_width() == width,
            it.board_height() == height,
            it.center_row() == row,
            it.center_col() == col,
            it.cursor() == 0,
    {
        NeighborIter { width, height, row, col, i: 0 }
    }

    /// The `k`-th offset.
    fn delta(k: u8) -> (d: (i32, i32))
        requires
            k < 8,
        ensures
            d.0 == delta_row(k as int),
            d.1 == delta_col(k as int),
    {
        match k {
            0 => (-1, -1),
            1 => (-1, 0),
            2 => (-1, 1),
            3 => (0, -1),
            4 => (0, 1),
            5 => (1, -1),
            6 => (1, 0),
            _ => (1, 1),
        }
    }

    /// The next neighbor that lies on the board, or `None` when the eight offsets are used up.
    pub fn next(&mut self) -> (cell: Option<(u16, u16)>)
        ensures
            final(self).board_width() == old(self).board_width(),
            final(self).board_height() == old(self).board_height(),
            final(self).center_row() == old(self).center_row(),
            final(self).center_col() == old(self).center_col(),
            old(self).cursor() <= final(self).cursor(),
            old(self).cursor() <= 8 ==> final(self).cursor() <= 8,
            match cell {
                Some((row, col)) => {
                    let k = final(self).cursor() - 1;
                    &&& old(self).cursor() <= k < 8
                    &&& old(self).inside(k)
                    &&& row == old(self).center_row() + delta_row(k)
                    &&& col == old(self).center_col() + delta_col(k)
                    &&& forall|j: int|
                        old(self).cursor() <= j < k ==> !neighbor_inside(
                            old(self).board_width(),
                            old(self).board_height(),
                            old(self).center_row(),
                            old(self).center_col(),
                            j,
                        )
                },
                None => {
                    &&& final(self).cursor() >= 8
                    &&& old(self).cursor() >= 8 ==> final(self).cursor() == old(self).cursor()
                    &&& forall|j: int|
                        old(self).cursor() <= j < 8 ==> !neighbor_inside(
                            old(self).board_width(),
                            old(self).board_height(),
                            old(self).center_row(),
                            old(self).center_col(),
                            j,
                        )
                },
            },
    {
        while self.i < 8
            invariant
                self.width == old(self).width,
                self.height == old(self).height,
                self.row == old(self).row,
                self.col == old(self).col,
                old(self).i <= self.i,
                self.i <= 8 || self.i == old(self).i,
                forall|j: int|
                    old(self).cursor() <= j < self.i ==> !neighbor_inside(
                        self.width as int,
                        self.height as int,
                        self.row as int,
                        self.col as int,
                        j,
                    ),
            decreases 8 - self.i,
        {
            let (dr, dc) = Self::delta(self.i);
            self.i = self.i + 1;
            let row: i32 = dr + self.row as i32;
            let col: i32 = dc + self.col as i32;
            if 0 <= row && row < self.height as i32 && 0 <= col && col < self.width as i32 {
                return Some((row as u16, col as u16));
            }
        }
        None
    }
}

/// A board that can name the neighbors of its cells.
pub trait NeighborIterable {
    /// The number of columns.
    spec fn board_width(&self) -> u16;

    /// The number of rows.
    spec fn board_height(&self) -> u16;

    /// The number of columns.
    fn width(&self) -> (w: u16)
        ensures
            w == self.board_width(),
    ;

    /// The number of rows.
    fn height(&self) -> (h: u16)
        ensures
            h == self.board_height(),
    ;

    /// A walk over the neighbors of `(row, col)` that lie on this board.
    fn neighbors_of(&self, row: u16, col: u16) -> (it: NeighborIter)
        ensures
            it.board_width() == self.board_width(),
            it.board_height() == self.board_height(),
            it.center_row() == row,
            it.center_col() == col,
            it.cursor() == 0,
    {
        NeighborIter::new(self.width(), self.height(), row, col)
    }
}

} // verus!
