//! Poisson-disc sampling after Bridson: the bookkeeping.
//!
//! Points are known here by their index and by the grid cell that holds
//! them. The sampler keeps the grid, the cell of every point, and the list
//! of points around which new candidates may still be tried.

use vstd::prelude::*;
use crate::grid::SpatialGrid;

verus! {

/// How many cells away a point closer than the minimum distance can lie.
pub const REACH: usize = 2;

/// Two cells are at most `REACH` columns and `REACH` rows apart.
pub open spec fn near(a: (usize, usize), b: (usize, usize)) -> bool {
    &&& a.0 <= b.0 + REACH
    &&& b.0 <= a.0 + REACH
    &&& a.1 <= b.1 + REACH
    &&& b.1 <= a.1 + REACH
}

/// No point has `cell` as its cell.
pub open spec fn free(cells: Seq<(usize, usize)>, cell: (usize, usize)) -> bool {
    forall|i: int| 0 <= i < cells.len() ==> #[trigger] cells[i] != cell
}

/// The grid, the cell of every point, and the active list.
pub struct Sampler {
    grid: SpatialGrid,
    cells: Vec<(usize, usize)>,
    active: Vec<usize>,
}

impl Sampler {
    /// The cell of every point, by index.
    pub closed spec fn cells(&self) -> Seq<(usize, usize)> {
        self.cells@
    }

    /// The indices of the points around which candidates are still tried,
    /// in the order in which they became active.
    pub closed spec fn active(&self) -> Seq<usize> {
        self.active@
    }

    /// The number of cells along the first axis.
    pub closed spec fn columns(&self) -> usize {
        self.grid.columns()
    }

    /// The number of cells along the second axis.
    pub closed spec fn rows(&self) -> usize {
        self.grid.rows()
    }

    /// The number of cells that hold no point.
    pub closed spec fn vacancies(&self) -> nat {
        self.grid.vacancies()
    }

    /// The indices that the grid holds for the cell `(col, row)`.
    pub closed spec fn bucket(&self, col: int, row: int) -> Seq<usize> {
        self.grid.bucket(col, row)
    }

    /// The points in the cells at most `REACH` away from `(col, row)`, in
    /// the order of the grid: row by row, within a row cell by cell, within
    /// a cell by index.
    pub closed spec fn nearby(&self, col: int, row: int) -> Seq<usize> {
        self.grid.block(col, row, REACH as int)
    }

    /// The cell `(col, row)` is one of the grid.
    pub open spec fn has_cell(&self, col: int, row: int) -> bool {
        0 <= col < self.columns() && 0 <= row < self.rows()
    }

    /// No point lies in the cell `(col, row)`.
    pub open spec fn vacant(&self, col: int, row: int) -> bool {
        free(self.cells(), (col as usize, row as usize))
    }

    /// The grid lists every point in its own cell and nowhere else, and the
    /// active list names points only.
    pub closed spec fn wf(&self) -> bool {
        &&& self.grid.wf()
        &&& forall|i: int|
            0 <= i < self.cells@.len() ==> {
                let cell = #[trigger] self.cells@[i];
                &&& self.has_cell(cell.0 as int, cell.1 as int)
                &&& self.grid.bucket(cell.0 as int, cell.1 as int).contains(i as usize)
            }
        &&& forall|c: int, r: int, x: usize|
            self.has_cell(c, r) && #[trigger] self.grid.bucket(c, r).contains(x) ==> x < self.cells@.len()
                && self.cells@[x as int] == (c as usize, r as usize)
        &&& forall|k: int| 0 <= k < self.active@.len() ==> #[trigger] self.active@[k] < self.cells@.len()
        &&& self.cells@.len() <= usize::MAX
    }

    /// What well-formedness says to the outside: every point has a cell of
    /// the grid, and every active index names a point.
    pub proof fn lemma_wf(&self)
        requires
            self.wf(),
        ensures
            forall|i: int|
                0 <= i < self.cells().len() ==> self.has_cell(
                    (#[trigger] self.cells()[i]).0 as int,
                    self.cells()[i].1 as int,
                ),
            forall|k: int| 0 <= k < self.active().len() ==> #[trigger] self.active()[k] < self.cells().len(),
            forall|c: int, r: int| self.has_cell(c, r) ==> (self.vacant(c, r) <==> self.bucket(c, r).len() == 0),
            self.cells().len() <= usize::MAX,
    {
        assert forall|c: int, r: int| self.has_cell(c, r) implies (self.vacant(c, r) <==> self.bucket(c, r).len()
            == 0) by {
            let b = self.grid.bucket(c, r);
            if b.len() > 0 {
                assert(b.contains(b[0]));
                assert(self.cells()[b[0] as int] == (c as usize, r as usize));
                assert(!self.vacant(c, r));
            }
            if !self.vacant(c, r) {
                let i = choose|i: int| 0 <= i < self.cells().len() && self.cells()[i] == (c as usize, r as usize);
                let cell = self.cells@[i];
                assert(self.grid.bucket(cell.0 as int, cell.1 as int).contains(i as usize));
                assert(b.contains(i as usize));
                assert(b.len() > 0);
            }
        }
    }

    /// A sampler over `columns` by `rows` cells with no point yet, unless
    /// the number of cells does not fit the machine word.
    pub fn new(columns: usize, rows: usize) -> (made: Option<Sampler>)
        ensures
            made is Some <==> columns * rows <= usize::MAX,
            made matches Some(s) ==> {
                &&& s.wf()
                &&& s.columns() == columns
                &&& s.rows() == rows
                &&& s.cells().len() == 0
                &&& s.active().len() == 0
                &&& s.vacancies() == columns * rows
            },
    {
        match SpatialGrid::new(columns, rows) {
            None => None,
            Some(grid) => {
                let s = Sampler { grid, cells: Vec::new(), active: Vec::new() };
                proof {
                    assert forall|c: int, r: int, x: usize|
                        s.has_cell(c, r) && #[trigger] s.grid.bucket(c, r).contains(x) implies false by {
                        assert(s.grid.bucket(c, r).len() == 0);
                    }
                }
                Some(s)
            },
        }
    }

    /// The number of cells along the first axis.
    pub fn column_count(&self) -> (n: usize)
        ensures
            n == self.columns(),
    {
        self.grid.column_count()
    }

    /// The number of cells along the second axis.
    pub fn row_count(&self) -> (n: usize)
        ensures
            n == self.rows(),
    {
        self.grid.row_count()
    }

    /// The number of points.
    pub fn len(&self) -> (n: usize)
        ensures
            n == self.cells().len(),
    {
        self.cells.len()
    }

    /// The number of active points.
    pub fn active_count(&self) -> (n: usize)
        ensures
            n == self.active().len(),
    {
        self.active.len()
    }

    /// The cell of the point `index`.
    pub fn cell(&self, index: usize) -> (cell: (usize, usize))
        requires
            index < self.cells().len(),
        ensures
            cell == self.cells()[index as int],
    {
        self.cells[index]
    }

    /// The `k`-th entry of the active list.
    pub fn pick(&self, k: usize) -> (index: usize)
        requires
            self.wf(),
            k < self.active().len(),
        ensures
            index == self.active()[k as int],
            index < self.cells().len(),
    {
        self.active[k]
    }

    /// Whether no point lies in the cell `(col, row)`.
    pub fn is_vacant(&self, col: usize, row: usize) -> (vacant: bool)
        requires
            self.wf(),
            self.has_cell(col as int, row as int),
        ensures
            vacant == self.vacant(col as int, row as int),
    {
        proof {
            self.lemma_wf();
        }
        self.grid.is_vacant(col, row)
    }

    /// Takes the next point into the cell `(col, row)` and makes it active.
    /// Its index is the number of points before.
    pub fn accept(&mut self, col: usize, row: usize) -> (index: usize)
        requires
            old(self).wf(),
            old(self).has_cell(col as int, row as int),
            old(self).cells().len() < usize::MAX,
        ensures
            final(self).wf(),
            index == old(self).cells().len(),
            final(self).cells() == old(self).cells().push((col, row)),
            final(self).active() == old(self).active().push(index),
            final(self).columns() == old(self).columns(),
            final(self).rows() == old(self).rows(),
            final(self).vacancies() == old(self).vacancies() - if old(self).vacant(col as int, row as int) {
                1nat
            } else {
                0nat
            },
    {
        proof {
            old(self).lemma_wf();
        }
        let index = self.cells.len();
        self.grid.insert(col, row, index);
        self.cells.push((col, row));
        self.active.push(index);
        proof {
            let before = old(self).grid;
            assert forall|i: int| 0 <= i < self.cells@.len() implies {
                let cell = #[trigger] self.cells@[i];
                &&& self.has_cell(cell.0 as int, cell.1 as int)
                &&& self.grid.bucket(cell.0 as int, cell.1 as int).contains(i as usize)
            } by {
                let cell = self.cells@[i];
                if i < index {
                    assert(cell == old(self).cells@[i]);
                    let b = before.bucket(cell.0 as int, cell.1 as int);
                    assert(b.contains(i as usize));
                    if cell == (col, row) {
                        let w = choose|w: int| 0 <= w < b.len() && b[w] == i as usize;
                        assert(b.push(index)[w] == i as usize);
                    }
                } else {
                    let b = before.bucket(col as int, row as int);
                    assert(b.push(index)[b.len() as int] == index);
                }
            }
            assert forall|c: int, r: int, x: usize|
                self.has_cell(c, r) && #[trigger] self.grid.bucket(c, r).contains(x) implies x < self.cells@.len()
                && self.cells@[x as int] == (c as usize, r as usize) by {
                if c == col && r == row {
                    let b = before.bucket(c, r);
                    let now = self.grid.bucket(c, r);
                    let w = choose|w: int| 0 <= w < now.len() && now[w] == x;
                    if w < b.len() {
                        assert(b[w] == x);
                        assert(b.contains(x));
                    }
                } else {
                    assert(before.bucket(c, r).contains(x));
                }
            }
        }
        index
    }

    /// Gives up the sampler for the cell of every point, by index.
    pub fn into_cells(self) -> (cells: Vec<(usize, usize)>)
        ensures
            cells@ == self.cells(),
    {
        self.cells
    }

    /// Strikes the `k`-th entry from the active list. The point stays.
    pub fn retire(&mut self, k: usize)
        requires
            old(self).wf(),
            k < old(self).active().len(),
        ensures
            final(self).wf(),
            final(self).active() == old(self).active().remove(k as int),
            final(self).cells() == old(self).cells(),
            final(self).columns() == old(self).columns(),
            final(self).rows() == old(self).rows(),
            final(self).vacancies() == old(self).vacancies(),
            forall|c: int, r: int| final(self).bucket(c, r) == old(self).bucket(c, r),
    {
        self.active.remove(k);
    }

    /// The points in the cells at most `REACH` away from `(col, row)`:
    /// every point that can be closer than the minimum distance to a point
    /// of that cell, and in a fixed order.
    pub fn neighbours(&self, col: usize, row: usize) -> (found: Vec<usize>)
        requires
            self.wf(),
            self.has_cell(col as int, row as int),
        ensures
            found@ == self.nearby(col as int, row as int),
            forall|j: usize|
                #![trigger found@.contains(j)]
                #![trigger self.cells()[j as int]]
                found@.contains(j) <==> (j < self.cells().len() && near(self.cells()[j as int], (col, row))),
            forall|i: int| 0 <= i < found@.len() ==> #[trigger] found@[i] < self.cells().len(),
    {
        let found = self.grid.query_block(col, row, REACH);
        proof {
            let from_col = crate::grid::block_low(col as int, REACH as int);
            let to_col = crate::grid::block_high(col as int, REACH as int, self.grid.columns() as int);
            let from_row = crate::grid::block_low(row as int, REACH as int);
            let to_row = crate::grid::block_high(row as int, REACH as int, self.grid.rows() as int);
            assert forall|j: usize|
                #![trigger found@.contains(j)]
                #![trigger self.cells()[j as int]]
                found@.contains(j) <==> (j < self.cells().len() && near(self.cells()[j as int], (col, row))) by {
                self.grid.lemma_block_holds(from_row, to_row, from_col, to_col, j);
                if found@.contains(j) {
                    let (c, r) = choose|c: int, r: int|
                        from_col <= c < to_col && from_row <= r < to_row && #[trigger] self.grid.bucket(c, r).contains(
                            j,
                        );
                    assert(self.has_cell(c, r));
                }
                if j < self.cells().len() && near(self.cells()[j as int], (col, row)) {
                    let cell = self.cells@[j as int];
                    assert(self.grid.bucket(cell.0 as int, cell.1 as int).contains(j));
                    assert(from_col <= cell.0 < to_col && from_row <= cell.1 < to_row);
                }
            }
            assert forall|i: int| 0 <= i < found@.len() implies #[trigger] found@[i] < self.cells().len() by {
                assert(found@.contains(found@[i]));
            }
        }
        found
    }
}

} // verus!
