//! What is known of each cell, and which mine layouts agree with it.
//!
//! A [`Board`] is the mathematical picture of the deduction state: one
//! [`CellState`] per cell. A layout is a sequence of booleans in the same
//! row-major order, `true` where a mine lies.

use crate::counting::{b2i, count_true};
use crate::grid::{flat, lemma_flat_bounds, lemma_flat_injective};
use crate::neighbor_iter::{adjacent, delta_col, delta_row, neighbor_inside, offset_between};
use vstd::prelude::*;

verus! {

/// What the deductions so far say of one cell.
#[derive(Clone, Copy, Debug, PartialEq, Eq, Structural)]
pub enum CellState {
    /// No revealed cell touches it: it may or may not hold a mine.
    UnknownUnconstrained,
    /// A revealed cell touches it, and what it holds is still open.
    UnknownConstrained,
    /// It holds a mine.
    Mine,
    /// It holds no mine, and has not been revealed.
    Empty,
    /// It has been revealed; the number counts the mines among its neighbors that are still open.
    Clue(u8),
}

/// A property of a cell that is counted around another cell.
pub enum Around {
    /// Still open.
    Open,
    /// Still open, and a mine in the layout.
    OpenMine,
    /// A mine in the layout.
    LayoutMine,
    /// Known to be a mine.
    KnownMine,
    /// Touched by no revealed cell.
    Free,
    /// Revealed, with mines still owed.
    PositiveClue,
    /// Revealed.
    AnyClue,
}

/// The deduction state as a mathematical value.
pub struct Board {
    /// The number of columns.
    pub width: int,
    /// The number of rows.
    pub height: int,
    /// The cells, row by row.
    pub cells: Seq<CellState>,
}

impl Board {
    /// The board has one cell for each place, and dimensions that fit the machine types.
    pub open spec fn wf(self) -> bool {
        &&& 0 <= self.width <= 0xffff
        &&& 0 <= self.height <= 0xffff
        &&& self.cells.len() == self.width * self.height
    }

    /// Whether `(row, col)` is a cell of the board.
    pub open spec fn inside(self, row: int, col: int) -> bool {
        0 <= row < self.height && 0 <= col < self.width
    }

    /// What is known of the cell at `(row, col)`.
    pub open spec fn at(self, row: int, col: int) -> CellState {
        self.cells[flat(self.width, row, col)]
    }

    /// The board with the cell at `(row, col)` replaced.
    pub open spec fn put(self, row: int, col: int, state: CellState) -> Board {
        Board { cells: self.cells.update(flat(self.width, row, col), state), ..self }
    }

    /// Whether the layout has a mine at `(row, col)`.
    pub open spec fn mined(self, layout: Seq<bool>, row: int, col: int) -> bool {
        layout[flat(self.width, row, col)]
    }

    /// Whether the cell at `(row, col)` has the property `kind`.
    pub open spec fn sat(self, layout: Seq<bool>, kind: Around, row: int, col: int) -> bool {
        match kind {
            Around::Open => self.at(row, col) is UnknownConstrained,
            Around::OpenMine => self.at(row, col) is UnknownConstrained && self.mined(
                layout,
                row,
                col,
            ),
            Around::LayoutMine => self.mined(layout, row, col),
            Around::KnownMine => self.at(row, col) is Mine,
            Around::Free => self.at(row, col) is UnknownUnconstrained,
            Around::PositiveClue => self.at(row, col) matches CellState::Clue(n) && n > 0,
            Around::AnyClue => self.at(row, col) is Clue,
        }
    }

    /// Whether the `k`-th neighbor of `(row, col)` is on the board and has the property `kind`.
    pub open spec fn hit(self, layout: Seq<bool>, kind: Around, row: int, col: int, k: int) -> bool {
        neighbor_inside(self.width, self.height, row, col, k) && self.sat(
            layout,
            kind,
            row + delta_row(k),
            col + delta_col(k),
        )
    }

    /// The number of neighbors of `(row, col)` that have the property `kind`.
    pub open spec fn around(self, layout: Seq<bool>, kind: Around, row: int, col: int) -> int {
        b2i(self.hit(layout, kind, row, col, 0)) + b2i(self.hit(layout, kind, row, col, 1)) + b2i(
            self.hit(layout, kind, row, col, 2),
        ) + b2i(self.hit(layout, kind, row, col, 3)) + b2i(self.hit(layout, kind, row, col, 4))
            + b2i(self.hit(layout, kind, row, col, 5)) + b2i(self.hit(layout, kind, row, col, 6))
            + b2i(self.hit(layout, kind, row, col, 7))
    }

    /// The number of neighbors of `(row, col)`, among those at the first `cursor` offsets,
    /// that have the property `kind`.
    pub open spec fn around_upto(
        self,
        layout: Seq<bool>,
        kind: Around,
        row: int,
        col: int,
        cursor: int,
    ) -> int {
        b2i(0 < cursor && self.hit(layout, kind, row, col, 0)) + b2i(
            1 < cursor && self.hit(layout, kind, row, col, 1),
        ) + b2i(2 < cursor && self.hit(layout, kind, row, col, 2)) + b2i(
            3 < cursor && self.hit(layout, kind, row, col, 3),
        ) + b2i(4 < cursor && self.hit(layout, kind, row, col, 4)) + b2i(
            5 < cursor && self.hit(layout, kind, row, col, 5),
        ) + b2i(6 < cursor && self.hit(layout, kind, row, col, 6)) + b2i(
            7 < cursor && self.hit(layout, kind, row, col, 7),
        )
    }

    /// The number of neighbors of `(row, col)` that are still open.
    pub open spec fn open_count(self, row: int, col: int) -> int {
        self.around(Seq::empty(), Around::Open, row, col)
    }

    /// The number of neighbors of `(row, col)` that are still open and mined in the layout.
    pub open spec fn open_mines(self, layout: Seq<bool>, row: int, col: int) -> int {
        self.around(layout, Around::OpenMine, row, col)
    }

    /// The number of neighbors of `(row, col)` that are mined in the layout.
    pub open spec fn mines_around(self, layout: Seq<bool>, row: int, col: int) -> int {
        self.around(layout, Around::LayoutMine, row, col)
    }

    /// The number of neighbors of `(row, col)` that are known to be mines.
    pub open spec fn known_mines(self, row: int, col: int) -> int {
        self.around(Seq::empty(), Around::KnownMine, row, col)
    }

    /// A clue is at most eight and touches no free cell.
    pub open spec fn structural_at(self, row: int, col: int) -> bool {
        self.at(row, col) matches CellState::Clue(n) ==> n <= 8 && self.around(
            Seq::empty(),
            Around::Free,
            row,
            col,
        ) == 0
    }

    /// No revealed cell touches a free cell, and no clue exceeds eight.
    pub open spec fn structural(self) -> bool {
        forall|row: int, col: int| self.inside(row, col) ==> #[trigger] self.structural_at(row, col)
    }

    /// Nothing follows at once from the clue at `(row, col)`, if there is one: a clue of
    /// zero has no open neighbor, and a positive clue has more open neighbors than it
    /// counts mines.
    pub open spec fn stable_at(self, row: int, col: int) -> bool {
        self.at(row, col) matches CellState::Clue(n) ==> {
            &&& n == 0 ==> self.open_count(row, col) == 0
            &&& n > 0 ==> self.open_count(row, col) > n
        }
    }

    /// No clue is left from which a neighbor's content follows at once.
    pub open spec fn stable(self) -> bool {
        forall|row: int, col: int| self.inside(row, col) ==> #[trigger] self.stable_at(row, col)
    }

    /// An open cell at `(row, col)` touches a revealed cell.
    pub open spec fn clued_at(self, row: int, col: int) -> bool {
        self.at(row, col) is UnknownConstrained ==> self.around(
            Seq::empty(),
            Around::AnyClue,
            row,
            col,
        ) > 0
    }

    /// Every open cell touches a revealed cell.
    pub open spec fn clued(self) -> bool {
        forall|row: int, col: int| self.inside(row, col) ==> #[trigger] self.clued_at(row, col)
    }

    /// An open cell at `(row, col)` touches a revealed cell that still counts mines.
    pub open spec fn anchored_at(self, row: int, col: int) -> bool {
        self.at(row, col) is UnknownConstrained ==> self.around(
            Seq::empty(),
            Around::PositiveClue,
            row,
            col,
        ) > 0
    }

    /// Every open cell touches a revealed cell that still counts mines.
    pub open spec fn anchored(self) -> bool {
        forall|row: int, col: int| self.inside(row, col) ==> #[trigger] self.anchored_at(row, col)
    }

    /// The layout puts a mine on every known mine and none on a cell known to be empty.
    pub open spec fn agrees(self, layout: Seq<bool>) -> bool {
        &&& layout.len() == self.cells.len()
        &&& forall|row: int, col: int|
            self.inside(row, col) ==> match #[trigger] self.at(row, col) {
                CellState::Mine => self.mined(layout, row, col),
                CellState::Empty => !self.mined(layout, row, col),
                CellState::Clue(_) => !self.mined(layout, row, col),
                _ => true,
            }
    }

    /// The clue at `(row, col)`, if there is one, counts exactly the mines that the layout
    /// puts on its open neighbors.
    pub open spec fn exact_at(self, layout: Seq<bool>, row: int, col: int) -> bool {
        self.at(row, col) matches CellState::Clue(n) ==> n == self.open_mines(layout, row, col)
    }

    /// Every clue counts exactly the mines that the layout puts on its open neighbors.
    pub open spec fn exact(self, layout: Seq<bool>) -> bool {
        forall|row: int, col: int|
            self.inside(row, col) ==> #[trigger] self.exact_at(layout, row, col)
    }

    /// The layout agrees with everything the board knows.
    pub open spec fn consistent(self, layout: Seq<bool>) -> bool {
        self.agrees(layout) && self.exact(layout)
    }

    /// For each cell, whether the layout has a mine there that is not yet known.
    pub open spec fn hidden_flags(self, layout: Seq<bool>) -> Seq<bool> {
        Seq::new(self.cells.len(), |i: int| !(self.cells[i] is Mine) && layout[i])
    }

    /// The number of mines of the layout that are not yet known.
    pub open spec fn hidden(self, layout: Seq<bool>) -> nat {
        count_true(self.hidden_flags(layout))
    }

    /// For each cell, whether no revealed cell touches it.
    pub open spec fn free_flags(self) -> Seq<bool> {
        Seq::new(self.cells.len(), |i: int| self.cells[i] is UnknownUnconstrained)
    }

    /// The number of cells that no revealed cell touches.
    pub open spec fn free_cells(self) -> nat {
        count_true(self.free_flags())
    }

    /// For each cell, whether it is still open.
    pub open spec fn open_flags(self) -> Seq<bool> {
        Seq::new(self.cells.len(), |i: int| self.cells[i] is UnknownConstrained)
    }

    /// The number of cells that are still open.
    pub open spec fn open_cells(self) -> nat {
        count_true(self.open_flags())
    }

    /// A cell of the board has its place in the cell sequence.
    pub proof fn lemma_place(self, row: int, col: int)
        requires
            self.wf(),
            self.inside(row, col),
        ensures
            0 <= flat(self.width, row, col) < self.cells.len(),
    {
        lemma_flat_bounds(self.width, self.height, row, col);
    }

    /// Replacing one cell leaves every other cell as it was.
    pub proof fn lemma_put(self, row: int, col: int, state: CellState)
        requires
            self.wf(),
            self.inside(row, col),
        ensures
            self.put(row, col, state).wf(),
            self.put(row, col, state).at(row, col) == state,
            forall|r: int, c: int|
                self.inside(r, c) && !(r == row && c == col) ==> #[trigger] self.put(
                    row,
                    col,
                    state,
                ).at(r, c) == self.at(r, c),
    {
        self.lemma_place(row, col);
        assert forall|r: int, c: int| self.inside(r, c) && !(r == row && c == col) implies self.put(
            row,
            col,
            state,
        ).at(r, c) == self.at(r, c) by {
            self.lemma_place(r, c);
            if flat(self.width, r, c) == flat(self.width, row, col) {
                lemma_flat_injective(self.width, r, c, row, col);
            }
        }
    }

    /// Two boards whose cells have the property `kind` alike around `(row, col)`, but for the
    /// cell `(qr, qc)`, count alike around `(row, col)`, but for that cell.
    pub proof fn lemma_around_diff(
        self,
        layout: Seq<bool>,
        other: Board,
        other_layout: Seq<bool>,
        kind: Around,
        row: int,
        col: int,
        qr: int,
        qc: int,
    )
        requires
            self.width == other.width,
            self.height == other.height,
            forall|k: int|
                0 <= k < 8 && neighbor_inside(self.width, self.height, row, col, k) && !(row
                    + delta_row(k) == qr && col + delta_col(k) == qc) ==> #[trigger] other.hit(
                    other_layout,
                    kind,
                    row,
                    col,
                    k,
                ) == self.hit(layout, kind, row, col, k),
        ensures
            other.around(other_layout, kind, row, col) == self.around(layout, kind, row, col) + if adjacent(
                row,
                col,
                qr,
                qc,
            ) && self.inside(qr, qc) {
                b2i(other.sat(other_layout, kind, qr, qc)) - b2i(self.sat(layout, kind, qr, qc))
            } else {
                0
            },
    {
        let k0 = offset_between(row, col, qr, qc);
        // Naming each of the eight terms brings in what is required of it.
        assert(other.hit(other_layout, kind, row, col, 0) == other.hit(other_layout, kind, row, col, 0));
        assert(other.hit(other_layout, kind, row, col, 1) == other.hit(other_layout, kind, row, col, 1));
        assert(other.hit(other_layout, kind, row, col, 2) == other.hit(other_layout, kind, row, col, 2));
        assert(other.hit(other_layout, kind, row, col, 3) == other.hit(other_layout, kind, row, col, 3));
        assert(other.hit(other_layout, kind, row, col, 4) == other.hit(other_layout, kind, row, col, 4));
        assert(other.hit(other_layout, kind, row, col, 5) == other.hit(other_layout, kind, row, col, 5));
        assert(other.hit(other_layout, kind, row, col, 6) == other.hit(other_layout, kind, row, col, 6));
        assert(other.hit(other_layout, kind, row, col, 7) == other.hit(other_layout, kind, row, col, 7));
    }

    /// A count around a cell lies between zero and eight.
    pub proof fn lemma_around_bounds(self, layout: Seq<bool>, kind: Around, row: int, col: int)
        ensures
            0 <= self.around(layout, kind, row, col) <= 8,
    {
    }

    /// The open neighbors that the layout mines are among the open neighbors.
    pub proof fn lemma_open_mines_le(self, layout: Seq<bool>, row: int, col: int)
        ensures
            self.open_mines(layout, row, col) <= self.open_count(row, col),
    {
    }
}

} // verus!
