//! A dense two-dimensional grid that reports every cell write to a set of counters.

use vstd::prelude::*;

verus! {

/// The position of cell `(row, col)` in the row-major sequence of a grid of width `w`.
pub closed spec fn flat(w: int, row: int, col: int) -> int {
    row * w + col
}

/// A cell inside a `w` by `h` grid has its position inside the cell sequence.
pub proof fn lemma_flat_bounds(w: int, h: int, row: int, col: int)
    requires
        0 <= row < h,
        0 <= col < w,
    ensures
        0 <= flat(w, row, col) < w * h,
        0 <= w * h,
{
    assert(0 <= row * w && row * w + w <= h * w && h * w == w * h) by (nonlinear_arith)
        requires
            0 <= row < h,
            0 <= w,
    ;
}

/// Two different cells of one grid have different positions.
pub proof fn lemma_flat_injective(w: int, r1: int, c1: int, r2: int, c2: int)
    requires
        0 <= c1 < w,
        0 <= c2 < w,
        0 <= r1,
        0 <= r2,
        flat(w, r1, c1) == flat(w, r2, c2),
    ensures
        r1 == r2,
        c1 == c2,
{
    if r1 < r2 {
        assert(r1 * w + w <= r2 * w) by (nonlinear_arith)
            requires
                r1 + 1 <= r2,
                0 <= w,
        ;
    } else if r2 < r1 {
        assert(r2 * w + w <= r1 * w) by (nonlinear_arith)
            requires
                r2 + 1 <= r1,
                0 <= w,
        ;
    }
}

/// Every position of the cell sequence belongs to exactly one cell of the grid.
pub proof fn lemma_flat_onto(w: int, h: int, i: int) -> (cell: (int, int))
    requires
        0 <= i < w * h,
        0 <= w,
        0 <= h,
    ensures
        0 <= cell.0 < h,
        0 <= cell.1 < w,
        flat(w, cell.0, cell.1) == i,
{
    assert(w > 0) by (nonlinear_arith)
        requires
            0 <= i < w * h,
            0 <= w,
            0 <= h,
    ;
    let row = i / w;
    let col = i % w;
    assert(i == row * w + col && 0 <= col < w && 0 <= row) by (nonlinear_arith)
        requires
            row == i / w,
            col == i % w,
            w > 0,
            0 <= i,
    ;
    assert(row < h) by (nonlinear_arith)
        requires
            row * w + col < w * h,
            0 <= col,
            w > 0,
    ;
    (row, col)
}

/// How positions follow one another: along a row by one, from row to row by the width.
pub proof fn lemma_flat_step(w: int, row: int, col: int)
    ensures
        flat(w, row, col + 1) == flat(w, row, col) + 1,
        flat(w, row + 1, 0) == flat(w, row, 0) + w,
        flat(w, row, col) == flat(w, row, 0) + col,
        flat(w, 0, 0) == 0,
        flat(w, row, 0) == w * row,
{
    assert(row * w == w * row) by (nonlinear_arith);
    assert((row + 1) * w == row * w + w) by (nonlinear_arith);
}

/// Running aggregates over the cells of a [`Grid`], told of every write.
pub trait GridCounters<T>: Sized {
    /// Whether the aggregates can take in a cell going from `from` to `to`.
    spec fn accepts(&self, from: &T, to: &T) -> bool;

    /// The aggregates once a cell has gone from `from` to `to`.
    spec fn absorbed(&self, from: &T, to: &T) -> Self;

    /// Called by the grid before it overwrites a cell holding `from` with `to`.
    fn notify_change(&mut self, from: &T, to: &T)
        requires
            old(self).accepts(from, to),
        ensures
            *final(self) == old(self).absorbed(from, to),
    ;
}

/// A `width` by `height` grid of cells in row-major order, with its counters.
pub struct Grid<T, C> {
    /// Running totals, told of every write.
    pub counters: C,
    data: Vec<T>,
    w: u16,
    h: u16,
}

/// A walk over the rows of a grid, top to bottom.
pub struct RowsIter<'a, T, C> {
    grid: &'a Grid<T, C>,
    row: usize,
}

impl<T, C> Grid<T, C> {
    /// The grid holds exactly `width * height` cells.
    pub closed spec fn wf(&self) -> bool {
        self.data@.len() == self.w as int * self.h as int
    }

    /// The number of columns.
    pub closed spec fn spec_width(&self) -> u16 {
        self.w
    }

    /// The number of rows.
    pub closed spec fn spec_height(&self) -> u16 {
        self.h
    }

    /// The number of columns.
    #[verifier::when_used_as_spec(spec_width)]
    pub fn width(&self) -> (w: u16)
        ensures
            w == self.spec_width(),
    {
        self.w
    }

    /// The number of rows.
    #[verifier::when_used_as_spec(spec_height)]
    pub fn height(&self) -> (h: u16)
        ensures
            h == self.spec_height(),
    {
        self.h
    }

    /// The counters as the writes so far have left them.
    pub closed spec fn spec_counters(&self) -> &C {
        &self.counters
    }

    /// The counters as the writes so far have left them.
    #[verifier::when_used_as_spec(spec_counters)]
    pub fn counters(&self) -> (c: &C)
        ensures
            c == self.spec_counters(),
    {
        &self.counters
    }

    /// All cells, row after row.
    pub closed spec fn cells(&self) -> Seq<T> {
        self.data@
    }

    /// Whether `(row, col)` names a cell of this grid.
    pub open spec fn in_bounds(&self, row: int, col: int) -> bool {
        0 <= row < self.spec_height() && 0 <= col < self.spec_width()
    }

    /// The position of cell `(row, col)` in [`Self::cells`].
    pub open spec fn pos(&self, row: int, col: int) -> int {
        flat(self.spec_width() as int, row, col)
    }

    /// The cell at `(row, col)`.
    pub open spec fn at(&self, row: int, col: int) -> T {
        self.cells()[self.pos(row, col)]
    }

    /// The cells of row `row`, left to right.
    pub open spec fn row(&self, row: int) -> Seq<T> {
        Seq::new(self.spec_width() as nat, |col: int| self.at(row, col))
    }

    /// The number of cells is the product of the two dimensions.
    pub proof fn lemma_len(&self)
        requires
            self.wf(),
        ensures
            self.cells().len() == self.spec_width() as int * self.spec_height() as int,
    {
    }
}

impl<T: Copy, C: GridCounters<T>> Grid<T, C> {
    /// A grid with every cell set to `default_value`.
    pub fn new(width: u16, height: u16, counters: C, default_value: T) -> (grid: Self)
        ensures
            grid.wf(),
            grid.spec_width() == width,
            grid.spec_height() == height,
            *grid.spec_counters() == counters,
            grid.cells() == Seq::new((width as int * height as int) as nat, |i: int| default_value),
    {
        assert(0 <= width as int * height as int <= 0xffff * 0xffff) by (nonlinear_arith)
            requires
                0 <= width <= 0xffff,
                0 <= height <= 0xffff,
        ;
        let total: usize = (width as usize) * (height as usize);
        let mut data: Vec<T> = Vec::new();
        while data.len() < total
            invariant
                data.len() <= total,
                forall|i: int| 0 <= i < data.len() ==> data@[i] == default_value,
            decreases total - data.len(),
        {
            data.push(default_value);
        }
        assert(data@ =~= Seq::new((width as int * height as int) as nat, |i: int| default_value));
        Grid { counters, data, w: width, h: height }
    }

    /// A grid over the given cells, or `None` unless there are `width * height` of them.
    pub fn from_vec(width: u16, height: u16, counters: C, data: Vec<T>) -> (grid: Option<Self>)
        ensures
            grid is Some <==> data@.len() == width as int * height as int,
            grid matches Some(g) ==> {
                &&& g.wf()
                &&& g.spec_width() == width
                &&& g.spec_height() == height
                &&& *g.spec_counters() == counters
                &&& g.cells() == data@
            },
    {
        assert(0 <= width as int * height as int <= 0xffff * 0xffff) by (nonlinear_arith)
            requires
                0 <= width <= 0xffff,
                0 <= height <= 0xffff,
        ;
        if (width as usize) * (height as usize) != data.len() {
            return None;
        }
        Some(Grid { counters, data, w: width, h: height })
    }

    /// A walk over the rows, starting at the top.
    pub fn rows(&self) -> (it: RowsIter<'_, T, C>)
        ensures
            it.grid() == self,
            it.next_row() == 0,
    {
        RowsIter { grid: self, row: 0 }
    }

    fn to_idx(&self, row: u16, col: u16) -> (idx: usize)
        requires
            self.wf(),
            self.in_bounds(row as int, col as int),
        ensures
            idx == self.pos(row as int, col as int),
            idx < self.cells().len(),
    {
        proof {
            lemma_flat_bounds(self.w as int, self.h as int, row as int, col as int);
            assert(self.w as int * self.h as int <= 0xffff * 0xffff) by (nonlinear_arith)
                requires
                    0 <= self.w <= 0xffff,
                    0 <= self.h <= 0xffff,
            ;
            assert(0 <= row as int * self.w as int) by (nonlinear_arith)
                requires
                    0 <= row,
                    0 <= self.w,
            ;
        }
        (row as usize) * (self.w as usize) + (col as usize)
    }

    /// The cell at `(row, col)`.
    pub fn get(&self, row: u16, col: u16) -> (cell: &T)
        requires
            self.wf(),
            self.in_bounds(row as int, col as int),
        ensures
            *cell == self.at(row as int, col as int),
    {
        let idx = self.to_idx(row, col);
        &self.data[idx]
    }

    /// Overwrites the cell at `(row, col)`, after telling the counters of the change.
    pub fn set(&mut self, row: u16, col: u16, val: T)
        requires
            old(self).wf(),
            old(self).in_bounds(row as int, col as int),
            old(self).spec_counters().accepts(&old(self).at(row as int, col as int), &val),
        ensures
            final(self).wf(),
            final(self).spec_width() == old(self).spec_width(),
            final(self).spec_height() == old(self).spec_height(),
            final(self).cells() == old(self).cells().update(
                old(self).pos(row as int, col as int),
                val,
            ),
            *final(self).spec_counters() == old(self).spec_counters().absorbed(
                &old(self).at(row as int, col as int),
                &val,
            ),
    {
        let idx = self.to_idx(row, col);
        let before = self.data[idx];
        self.counters.notify_change(&before, &val);
        self.data[idx] = val;
    }
}

impl<'a, T, C> RowsIter<'a, T, C> {
    /// The grid whose rows are walked.
    pub closed spec fn grid(&self) -> &'a Grid<T, C> {
        self.grid
    }

    /// The index of the row that [`Self::next`] hands out next.
    pub closed spec fn next_row(&self) -> int {
        self.row as int
    }

    /// The next row, or `None` after the last one. A grid without columns has no rows to show.
    pub fn next(&mut self) -> (row: Option<&'a [T]>)
        requires
            old(self).grid().wf(),
        ensures
            final(self).grid() == old(self).grid(),
            old(self).next_row() < old(self).grid().spec_height() && old(self).grid().spec_width()
                > 0 ==> {
                &&& row is Some
                &&& row.unwrap()@ == old(self).grid().row(old(self).next_row())
                &&& final(self).next_row() == old(self).next_row() + 1
            },
            old(self).next_row() >= old(self).grid().spec_height() || old(self).grid().spec_width()
                == 0 ==> {
                &&& row is None
                &&& final(self).next_row() == old(self).next_row()
            },
    {
        let w = self.grid.w as usize;
        if w == 0 || self.row >= self.grid.h as usize {
            return None;
        }
        let ghost r = self.row as int;
        proof {
            lemma_flat_bounds(w as int, self.grid.h as int, r, 0);
            lemma_flat_bounds(w as int, self.grid.h as int, r, w - 1);
            assert(w as int * self.grid.h as int <= 0xffff * 0xffff) by (nonlinear_arith)
                requires
                    0 <= w <= 0xffff,
                    0 <= self.grid.h <= 0xffff,
            ;
            assert(0 <= r * w) by (nonlinear_arith)
                requires
                    0 <= r,
                    0 <= w,
            ;
        }
        let start = self.row * w;
        let out = vstd::slice::slice_subrange(self.grid.data.as_slice(), start, start + w);
        self.row = self.row + 1;
        assert(out@ =~= self.grid.row(r));
        Some(out)
    }
}

} // verus!
