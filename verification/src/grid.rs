//! A uniform bucket grid over the bounding box.
//!
//! The box is cut into `columns` by `rows` square cells. Each cell lists the
//! indices of the points that lie in it, in the order in which they were
//! inserted. With cells of side `h / sqrt(2)`, every point closer than `h`
//! to a point of cell `(c, r)` lies in a cell at most two columns and two
//! rows away, so a query of that block finds them all.
//!
//! Which cell holds a point is the caller's computation; the grid works on
//! cell coordinates.

use vstd::prelude::*;

verus! {

/// The first coordinate of the block of the given reach around `centre`.
pub open spec fn block_low(centre: int, reach: int) -> int {
    if centre >= reach {
        centre - reach
    } else {
        0
    }
}

/// One past the last coordinate of the block of the given reach around
/// `centre`, on an axis of `size` cells.
pub open spec fn block_high(centre: int, reach: int, size: int) -> int {
    if centre + reach < size {
        centre + reach + 1
    } else {
        size
    }
}

/// The number of lists in `buckets` that are empty.
spec fn count_vacant(buckets: Seq<Vec<usize>>) -> nat
    decreases buckets.len(),
{
    if buckets.len() == 0 {
        0
    } else {
        count_vacant(buckets.drop_last()) + if buckets.last()@.len() == 0 {
            1nat
        } else {
            0nat
        }
    }
}

/// Replacing one list changes the count by what that list contributes.
proof fn lemma_count_vacant_update(before: Seq<Vec<usize>>, now: Seq<Vec<usize>>, k: int)
    requires
        0 <= k < before.len(),
        now.len() == before.len(),
        forall|i: int| 0 <= i < before.len() && i != k ==> now[i] == before[i],
    ensures
        count_vacant(now) + (if before[k]@.len() == 0 {
            1nat
        } else {
            0nat
        }) == count_vacant(before) + (if now[k]@.len() == 0 {
            1nat
        } else {
            0nat
        }),
    decreases before.len(),
{
    let b = before.drop_last();
    let n = now.drop_last();
    if k == before.len() - 1 {
        assert(b =~= n);
    } else {
        lemma_count_vacant_update(b, n, k);
    }
}

proof fn lemma_slot_bounds(col: int, row: int, columns: int, rows: int)
    requires
        0 <= col < columns,
        0 <= row < rows,
    ensures
        0 <= row * columns + col < columns * rows,
        0 <= row * columns <= columns * rows,
{
    assert(row * columns + columns <= rows * columns) by (nonlinear_arith)
        requires
            0 <= row < rows,
            0 < columns,
    ;
    assert(0 <= row * columns) by (nonlinear_arith)
        requires
            0 <= row,
            0 < columns,
    ;
    assert(rows * columns == columns * rows) by (nonlinear_arith);
}

proof fn lemma_slot_unique(col: int, row: int, col2: int, row2: int, columns: int)
    requires
        0 <= col < columns,
        0 <= col2 < columns,
        0 <= row,
        0 <= row2,
        row * columns + col == row2 * columns + col2,
    ensures
        col == col2,
        row == row2,
{
    if row < row2 {
        assert(row * columns + columns <= row2 * columns) by (nonlinear_arith)
            requires
                row < row2,
                0 < columns,
        ;
    } else if row2 < row {
        assert(row2 * columns + columns <= row * columns) by (nonlinear_arith)
            requires
                row2 < row,
                0 < columns,
        ;
    }
}

/// The bucket grid.
pub struct SpatialGrid {
    columns: usize,
    rows: usize,
    buckets: Vec<Vec<usize>>,
}

impl SpatialGrid {
    /// The number of cells along the first axis.
    pub closed spec fn columns(&self) -> usize {
        self.columns
    }

    /// The number of cells along the second axis.
    pub closed spec fn rows(&self) -> usize {
        self.rows
    }

    /// The grid holds one list for each of its cells.
    pub closed spec fn wf(&self) -> bool {
        &&& self.buckets@.len() == self.columns * self.rows
        &&& self.columns * self.rows <= usize::MAX
    }

    /// The cell `(col, row)` is one of the grid.
    pub open spec fn has_cell(&self, col: int, row: int) -> bool {
        0 <= col < self.columns() && 0 <= row < self.rows()
    }

    /// The indices held in the cell `(col, row)`, oldest first.
    pub closed spec fn bucket(&self, col: int, row: int) -> Seq<usize> {
        self.buckets@[row * self.columns + col]@
    }

    /// The number of cells that hold no index.
    pub closed spec fn vacancies(&self) -> nat {
        count_vacant(self.buckets@)
    }

    /// The indices held in the cells `from_col .. to_col` of one row, cell
    /// by cell.
    pub open spec fn strip(&self, row: int, from_col: int, to_col: int) -> Seq<usize>
        decreases to_col - from_col,
    {
        if from_col >= to_col {
            Seq::empty()
        } else {
            self.strip(row, from_col, to_col - 1) + self.bucket(to_col - 1, row)
        }
    }

    /// The indices held in the cells of the rows `from_row .. to_row` and
    /// the columns `from_col .. to_col`, row by row.
    pub open spec fn rows_of_block(&self, from_row: int, to_row: int, from_col: int, to_col: int) -> Seq<usize>
        decreases to_row - from_row,
    {
        if from_row >= to_row {
            Seq::empty()
        } else {
            self.rows_of_block(from_row, to_row - 1, from_col, to_col) + self.strip(
                to_row - 1,
                from_col,
                to_col,
            )
        }
    }

    /// The cell `(c, r)` lies in the block of the given reach around
    /// `(col, row)`.
    pub open spec fn in_block(&self, col: int, row: int, reach: int, c: int, r: int) -> bool {
        &&& block_low(col, reach) <= c < block_high(col, reach, self.columns() as int)
        &&& block_low(row, reach) <= r < block_high(row, reach, self.rows() as int)
    }

    /// The indices held in the block of the given reach around
    /// `(col, row)`: row by row, within a row cell by cell, within a cell
    /// oldest first.
    pub open spec fn block(&self, col: int, row: int, reach: int) -> Seq<usize> {
        self.rows_of_block(
            block_low(row, reach),
            block_high(row, reach, self.rows() as int),
            block_low(col, reach),
            block_high(col, reach, self.columns() as int),
        )
    }

    /// An index is in a strip exactly when one of its cells holds it.
    pub proof fn lemma_strip_holds(&self, row: int, from_col: int, to_col: int, index: usize)
        ensures
            self.strip(row, from_col, to_col).contains(index) <==> exists|c: int|
                from_col <= c < to_col && #[trigger] self.bucket(c, row).contains(index),
        decreases to_col - from_col,
    {
        if from_col < to_col {
            let head = self.strip(row, from_col, to_col - 1);
            let last = self.bucket(to_col - 1, row);
            self.lemma_strip_holds(row, from_col, to_col - 1, index);
            lemma_concat_contains(head, last, index);
            if exists|c: int| from_col <= c < to_col && #[trigger] self.bucket(c, row).contains(index) {
                let c = choose|c: int| from_col <= c < to_col && #[trigger] self.bucket(c, row).contains(index);
                if c < to_col - 1 {
                    assert(from_col <= c < to_col - 1 && self.bucket(c, row).contains(index));
                }
            }
            if head.contains(index) {
                let c = choose|c: int| from_col <= c < to_col - 1 && #[trigger] self.bucket(c, row).contains(index);
                assert(from_col <= c < to_col && self.bucket(c, row).contains(index));
            }
            if last.contains(index) {
                assert(from_col <= to_col - 1 < to_col && self.bucket(to_col - 1, row).contains(index));
            }
        }
    }

    /// An index is in a block exactly when one of its cells holds it.
    pub proof fn lemma_block_holds(&self, from_row: int, to_row: int, from_col: int, to_col: int, index: usize)
        ensures
            self.rows_of_block(from_row, to_row, from_col, to_col).contains(index) <==> exists|c: int, r: int|
                from_col <= c < to_col && from_row <= r < to_row && #[trigger] self.bucket(c, r).contains(index),
        decreases to_row - from_row,
    {
        if from_row < to_row {
            let head = self.rows_of_block(from_row, to_row - 1, from_col, to_col);
            let last = self.strip(to_row - 1, from_col, to_col);
            self.lemma_block_holds(from_row, to_row - 1, from_col, to_col, index);
            self.lemma_strip_holds(to_row - 1, from_col, to_col, index);
            lemma_concat_contains(head, last, index);
            if exists|c: int, r: int|
                from_col <= c < to_col && from_row <= r < to_row && #[trigger] self.bucket(c, r).contains(index) {
                let (c, r) = choose|c: int, r: int|
                    from_col <= c < to_col && from_row <= r < to_row && #[trigger] self.bucket(c, r).contains(
                        index,
                    );
                if r < to_row - 1 {
                    assert(from_col <= c < to_col && from_row <= r < to_row - 1 && self.bucket(c, r).contains(
                        index,
                    ));
                } else {
                    assert(from_col <= c < to_col && self.bucket(c, to_row - 1).contains(index));
                }
            }
            if head.contains(index) {
                let (c, r) = choose|c: int, r: int|
                    from_col <= c < to_col && from_row <= r < to_row - 1 && #[trigger] self.bucket(c, r).contains(
                        index,
                    );
                assert(from_col <= c < to_col && from_row <= r < to_row && self.bucket(c, r).contains(index));
            }
            if last.contains(index) {
                let c = choose|c: int| from_col <= c < to_col && #[trigger] self.bucket(c, to_row - 1).contains(index);
                assert(from_col <= c < to_col && from_row <= to_row - 1 < to_row && self.bucket(
                    c,
                    to_row - 1,
                ).contains(index));
            }
        }
    }

    /// A grid of `columns` by `rows` empty cells, unless their number does
    /// not fit the machine word.
    pub fn new(columns: usize, rows: usize) -> (made: Option<SpatialGrid>)
        ensures
            made is Some <==> columns * rows <= usize::MAX,
            made matches Some(g) ==> {
                &&& g.wf()
                &&& g.columns() == columns
                &&& g.rows() == rows
                &&& g.vacancies() == columns * rows
                &&& forall|c: int, r: int| g.has_cell(c, r) ==> (#[trigger] g.bucket(c, r)).len() == 0
            },
    {
        let count = match columns.checked_mul(rows) {
            Some(count) => count,
            None => {
                return None;
            },
        };
        let mut buckets: Vec<Vec<usize>> = Vec::new();
        let mut k: usize = 0;
        while k < count
            invariant
                k <= count,
                buckets@.len() == k,
                count_vacant(buckets@) == k,
                forall|i: int| 0 <= i < k ==> (#[trigger] buckets@[i])@.len() == 0,
            decreases count - k,
        {
            let ghost before = buckets@;
            buckets.push(Vec::new());
            assert(buckets@.drop_last() =~= before);
            k += 1;
        }
        let g = SpatialGrid { columns, rows, buckets };
        proof {
            assert forall|c: int, r: int| g.has_cell(c, r) implies (#[trigger] g.bucket(c, r)).len() == 0 by {
                lemma_slot_bounds(c, r, columns as int, rows as int);
            }
        }
        Some(g)
    }

    /// The place of the cell `(col, row)` among the lists.
    fn slot(&self, col: usize, row: usize) -> (k: usize)
        requires
            self.wf(),
            self.has_cell(col as int, row as int),
        ensures
            k == row * self.columns + col,
            k < self.buckets@.len(),
    {
        proof {
            lemma_slot_bounds(col as int, row as int, self.columns as int, self.rows as int);
        }
        row * self.columns + col
    }

    /// Records `index` as the newest occupant of the cell `(col, row)`.
    pub fn insert(&mut self, col: usize, row: usize, index: usize)
        requires
            old(self).wf(),
            old(self).has_cell(col as int, row as int),
        ensures
            final(self).wf(),
            final(self).columns() == old(self).columns(),
            final(self).rows() == old(self).rows(),
            final(self).bucket(col as int, row as int) == old(self).bucket(col as int, row as int).push(index),
            forall|c: int, r: int|
                old(self).has_cell(c, r) && (c != col || r != row) ==> #[trigger] final(self).bucket(c, r) == old(
                    self,
                ).bucket(c, r),
            final(self).vacancies() == old(self).vacancies() - if old(self).bucket(col as int, row as int).len() == 0 {
                1nat
            } else {
                0nat
            },
    {
        let k = self.slot(col, row);
        let ghost before = self.buckets@;
        self.buckets[k].push(index);
        proof {
            lemma_count_vacant_update(before, self.buckets@, k as int);
            assert forall|c: int, r: int| old(self).has_cell(c, r) && (c != col || r != row) implies #[trigger] self.bucket(
                c,
                r,
            ) == old(self).bucket(c, r) by {
                lemma_slot_bounds(c, r, self.columns as int, self.rows as int);
                if r * self.columns + c == k {
                    lemma_slot_unique(c, r, col as int, row as int, self.columns as int);
                }
            }
        }
    }

    /// The indices held in the cell `(col, row)`, oldest first.
    pub fn occupants(&self, col: usize, row: usize) -> (list: &Vec<usize>)
        requires
            self.wf(),
            self.has_cell(col as int, row as int),
        ensures
            list@ == self.bucket(col as int, row as int),
    {
        let k = self.slot(col, row);
        &self.buckets[k]
    }

    /// Whether the cell `(col, row)` holds no index.
    pub fn is_vacant(&self, col: usize, row: usize) -> (vacant: bool)
        requires
            self.wf(),
            self.has_cell(col as int, row as int),
        ensures
            vacant == (self.bucket(col as int, row as int).len() == 0),
    {
        self.occupants(col, row).len() == 0
    }

    /// The number of cells along the first axis.
    pub fn column_count(&self) -> (n: usize)
        ensures
            n == self.columns(),
    {
        self.columns
    }

    /// The number of cells along the second axis.
    pub fn row_count(&self) -> (n: usize)
        ensures
            n == self.rows(),
    {
        self.rows
    }

    /// The indices held in the block of the given reach around the cell
    /// `(col, row)`, in a fixed order.
    pub fn query_block(&self, col: usize, row: usize, reach: usize) -> (found: Vec<usize>)
        requires
            self.wf(),
            self.has_cell(col as int, row as int),
        ensures
            found@ == self.block(col as int, row as int, reach as int),
            forall|index: usize|
                found@.contains(index) <==> exists|c: int, r: int|
                    self.in_block(col as int, row as int, reach as int, c, r) && #[trigger] self.bucket(c, r).contains(
                        index,
                    ),
    {
        let from_col = low_end(col, reach);
        let to_col = high_end(col, reach, self.columns);
        let from_row = low_end(row, reach);
        let to_row = high_end(row, reach, self.rows);
        let mut found: Vec<usize> = Vec::new();
        let mut r = from_row;
        while r < to_row
            invariant
                self.wf(),
                from_row <= r <= to_row <= self.rows,
                from_col <= to_col <= self.columns,
                found@ == self.rows_of_block(from_row as int, r as int, from_col as int, to_col as int),
            decreases to_row - r,
        {
            let ghost above = found@;
            let mut c = from_col;
            while c < to_col
                invariant
                    self.wf(),
                    r < to_row <= self.rows,
                    from_col <= c <= to_col <= self.columns,
                    found@ == above + self.strip(r as int, from_col as int, c as int),
                decreases to_col - c,
            {
                let ghost left = found@;
                let list = self.occupants(c, r);
                let mut i: usize = 0;
                while i < list.len()
                    invariant
                        i <= list@.len(),
                        found@ == left + list@.take(i as int),
                    decreases list@.len() - i,
                {
                    found.push(list[i]);
                    assert(list@.take(i + 1) =~= list@.take(i as int).push(list@[i as int]));
                    i += 1;
                }
                assert(list@.take(list@.len() as int) =~= list@);
                assert(found@ =~= above + self.strip(r as int, from_col as int, c + 1));
                c += 1;
            }
            r += 1;
        }
        proof {
            assert forall|index: usize|
                found@.contains(index) <==> exists|c: int, r: int|
                    self.in_block(col as int, row as int, reach as int, c, r) && #[trigger] self.bucket(c, r).contains(
                        index,
                    ) by {
                self.lemma_block_holds(from_row as int, to_row as int, from_col as int, to_col as int, index);
            }
        }
        found
    }
}

proof fn lemma_concat_contains(s: Seq<usize>, t: Seq<usize>, x: usize)
    ensures
        (s + t).contains(x) <==> (s.contains(x) || t.contains(x)),
{
    let u = s + t;
    if s.contains(x) {
        let i = choose|i: int| 0 <= i < s.len() && s[i] == x;
        assert(u[i] == x);
    }
    if t.contains(x) {
        let i = choose|i: int| 0 <= i < t.len() && t[i] == x;
        assert(u[s.len() + i] == x);
    }
    if u.contains(x) {
        let i = choose|i: int| 0 <= i < u.len() && u[i] == x;
        if i < s.len() {
            assert(s[i] == x);
        } else {
            assert(t[i - s.len()] == x);
        }
    }
}

fn low_end(centre: usize, reach: usize) -> (low: usize)
    ensures
        low == block_low(centre as int, reach as int),
{
    if centre >= reach {
        centre - reach
    } else {
        0
    }
}

fn high_end(centre: usize, reach: usize, size: usize) -> (high: usize)
    requires
        centre < size,
    ensures
        high == block_high(centre as int, reach as int, size as int),
        centre < high <= size,
{
    if reach < size - centre {
        centre + reach + 1
    } else {
        size
    }
}

} // verus!
