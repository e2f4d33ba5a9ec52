//! The playing field: a square grid of rows of optional tile values, swiped
//! in four directions and fed by random insertion of fresh tiles.

use std::io::Write;
use vstd::prelude::*;

use crate::cells::cells_fit;
use crate::cells::cells_pos;
use crate::cells::count_empty;
use crate::cells::has_empty;
use crate::cells::swipe_cells_left;
use crate::cells::swipe_cells_right;
use crate::cells::swipe_left_rel;
use crate::cells::swipe_right_rel;
use crate::cells::lemma_count_empty_has;
use crate::cells::lemma_count_empty_update;

verus! {

/// One line of the field.  The vector always has length `length`; an empty
/// cell holds `None`, a tile holds its positive value.
#[derive(Clone, Debug, PartialEq)]
pub struct Row {
    pub row: Vec<Option<usize>>,
    pub length: usize,
}

/// The whole field: `size` rows of `size` cells each, mutated in place.
#[derive(Clone, Debug, PartialEq)]
pub struct Field {
    pub rows: Vec<Row>,
    pub size: usize,
}

impl View for Row {
    type V = Seq<Option<usize>>;

    open spec fn view(&self) -> Seq<Option<usize>> {
        self.row@
    }
}

impl View for Field {
    type V = Seq<Seq<Option<usize>>>;

    open spec fn view(&self) -> Seq<Seq<Option<usize>>> {
        self.rows@.map_values(|r: Row| r@)
    }
}

/// Column `i` of a grid: the cells at index `i` of every row, top to bottom.
pub open spec fn col(g: Seq<Seq<Option<usize>>>, i: int) -> Seq<Option<usize>> {
    Seq::new(g.len(), |j: int| g[j][i])
}

/// Every tile of the grid can be doubled without overflowing a machine word.
pub open spec fn grid_fits(g: Seq<Seq<Option<usize>>>) -> bool {
    forall|j: int| 0 <= j < g.len() ==> cells_fit(#[trigger] g[j])
}

/// How many cells of the grid are empty.
pub open spec fn grid_count_empty(g: Seq<Seq<Option<usize>>>) -> int
    decreases g.len(),
{
    if g.len() == 0 {
        0
    } else {
        grid_count_empty(g.drop_last()) + count_empty(g.last())
    }
}

/// How many rows of the grid still have an empty cell.
pub open spec fn count_insertable(g: Seq<Seq<Option<usize>>>) -> int
    decreases g.len(),
{
    if g.len() == 0 {
        0
    } else {
        let rest = count_insertable(g.drop_last());
        if has_empty(g.last()) {
            rest + 1
        } else {
            rest
        }
    }
}

/// `count_insertable` lies between zero and the number of rows, and is
/// positive exactly when some row has an empty cell.
pub proof fn lemma_count_insertable_has(g: Seq<Seq<Option<usize>>>)
    ensures
        0 <= count_insertable(g) <= g.len(),
        count_insertable(g) > 0 <==> (exists|j: int|
            0 <= j < g.len() && has_empty(#[trigger] g[j])),
    decreases g.len(),
{
    if g.len() > 0 {
        let front = g.drop_last();
        let m = g.len() - 1;
        lemma_count_insertable_has(front);
        if count_insertable(g) > 0 {
            if has_empty(g.last()) {
                assert(has_empty(g[m]));
            } else {
                let j = choose|j: int| 0 <= j < front.len() && has_empty(#[trigger] front[j]);
                assert(has_empty(g[j]));
            }
        }
        if exists|j: int| 0 <= j < g.len() && has_empty(#[trigger] g[j]) {
            let j = choose|j: int| 0 <= j < g.len() && has_empty(#[trigger] g[j]);
            if j < m {
                assert(has_empty(front[j]));
            }
        }
    }
}

/// How replacing one row changes the number of empty cells of the grid.
pub proof fn lemma_grid_count_empty_update(g: Seq<Seq<Option<usize>>>, j: int, r: Seq<Option<usize>>)
    requires
        0 <= j < g.len(),
    ensures
        grid_count_empty(g.update(j, r)) == grid_count_empty(g) - count_empty(g[j]) + count_empty(r),
    decreases g.len(),
{
    let m = g.len() - 1;
    if j == m {
        assert(g.update(j, r).drop_last() =~= g.drop_last());
        assert(g.update(j, r).last() == r);
    } else {
        assert(g.update(j, r).drop_last() =~= g.drop_last().update(j, r));
        assert(g.update(j, r).last() == g.last());
        lemma_grid_count_empty_update(g.drop_last(), j, r);
    }
}

/// Relies on rand::random_range, which draws uniformly from the given
/// range and panics only when the range is empty; here it never is, so the
/// draw lies below `n`.
#[verifier::external_body]
fn random_below(n: usize) -> (r: usize)
    requires
        n >= 1,
    ensures
        r < n,
{
    rand::random_range(0..n)
}

/// Relies on rand::random with the StandardUniform distribution to draw a
/// fair boolean; nothing is promised of the value drawn.
#[verifier::external_body]
fn random_bool() -> bool {
    rand::random()
}

impl Row {
    /// The rows of the field keep their size, hold only positive tile
    /// values, and are never empty of cells.
    pub open spec fn wf(self) -> bool {
        &&& self.row@.len() == self.length
        &&& self.length >= 1
        &&& cells_pos(self@)
    }

    /// Relies on std::io::Stdout and std::io::Write to emit the row's debug
    /// form on standard output; diagnostic only, nothing is promised.
    #[verifier::external_body]
    pub fn print(&self) {
        let mut out = std::io::stdout();
        let _ = writeln!(out, "{:?}", self.row);
    }

    /// Builds a row of `length` empty cells.
    #[verifier::loop_isolation(false)]
    pub fn new(length: usize) -> (r: Row)
        requires
            length >= 1,
        ensures
            r.wf(),
            r.length == length,
            r@.len() == length,
            forall|i: int| 0 <= i < length ==> (#[trigger] r@[i]) is None,
    {
        let mut row: Vec<Option<usize>> = Vec::new();
        for k in 0..length
            invariant
                row@.len() == k,
                forall|t: int| 0 <= t < k ==> (#[trigger] row@[t]) is None,
        {
            row.push(None);
        }
        Row { row, length }
    }

    /// Builds a row holding the given cells, so that swipe behaviour can be
    /// driven from a chosen position.
    pub fn from_cells(cells: Vec<Option<usize>>) -> (r: Row)
        requires
            cells@.len() >= 1,
            cells_pos(cells@),
        ensures
            r.wf(),
            r@ == cells@,
            r.length == cells@.len(),
    {
        let length = cells.len();
        Row { row: cells, length }
    }

    /// Read-only access to the ordered cells of the row.
    pub fn row(&self) -> (r: &Vec<Option<usize>>)
        ensures
            r@ == self@,
    {
        &self.row
    }

    /// True iff at least one cell of the row is empty.
    #[verifier::loop_isolation(false)]
    pub fn insertable(&self) -> (r: bool)
        ensures
            r == has_empty(self@),
    {
        let n = self.row.len();
        for j in 0..n
            invariant
                forall|t: int| 0 <= t < j ==> !((#[trigger] self.row@[t]) is None),
        {
            if self.row[j].is_none() {
                return true;
            }
        }
        false
    }

    /// How many cells of the row are empty.
    #[verifier::loop_isolation(false)]
    fn empty_cells(&self) -> (c: usize)
        ensures
            c == count_empty(self@),
    {
        let n = self.row.len();
        let mut c: usize = 0;
        for j in 0..n
            invariant
                c == count_empty(self.row@.take(j as int)),
                c <= j,
        {
            proof {
                assert(self.row@.take(j + 1).drop_last() =~= self.row@.take(j as int));
                assert(self.row@.take(j + 1).last() == self.row@[j as int]);
            }
            if self.row[j].is_none() {
                c = c + 1;
            }
        }
        proof {
            assert(self.row@.take(n as int) =~= self.row@);
        }
        c
    }

    /// The position of the `k`-th empty cell, counted from the left.
    #[verifier::loop_isolation(false)]
    fn nth_empty(&self, k: usize) -> (idx: usize)
        requires
            k < count_empty(self@),
        ensures
            idx < self@.len(),
            self@[idx as int] is None,
    {
        let n = self.row.len();
        let mut seen: usize = 0;
        for j in 0..n
            invariant
                seen == count_empty(self.row@.take(j as int)),
                seen <= k,
        {
            proof {
                assert(self.row@.take(j + 1).drop_last() =~= self.row@.take(j as int));
                assert(self.row@.take(j + 1).last() == self.row@[j as int]);
            }
            if self.row[j].is_none() {
                if seen == k {
                    return j;
                }
                seen = seen + 1;
            }
        }
        proof {
            assert(self.row@.take(n as int) =~= self.row@);
            assert(false);
        }
        0
    }

    /// Places a fresh tile of value 1 or 2, each drawn with equal
    /// probability, at a position drawn uniformly among the empty cells.
    /// Reports false, and changes nothing, iff the row has no empty cell.
    pub fn insert_random(&mut self) -> (r: bool)
        requires
            old(self).wf(),
        ensures
            final(self).wf(),
            final(self).length == old(self).length,
            final(self)@.len() == old(self)@.len(),
            r == has_empty(old(self)@),
            !r ==> final(self)@ == old(self)@,
            r ==> (exists|i: int|
                0 <= i < old(self)@.len() && (#[trigger] old(self)@[i]) is None && (final(self)@[i]
                    == Some(1usize) || final(self)@[i] == Some(2usize)) && final(self)@ == old(
                    self,
                )@.update(i, final(self)@[i])),
            r ==> count_empty(final(self)@) == count_empty(old(self)@) - 1,
    {
        proof {
            lemma_count_empty_has(self@);
        }
        let total = self.empty_cells();
        if total == 0 {
            return false;
        }
        let k = random_below(total);
        let idx = self.nth_empty(k);
        let value: usize = if random_bool() {
            2
        } else {
            1
        };
        proof {
            lemma_count_empty_update(self.row@, idx as int, Some(value));
        }
        self.row[idx] = Some(value);
        proof {
            assert(final(self)@ == old(self)@.update(idx as int, Some(value)));
            assert forall|t: int|
                0 <= t < self@.len() implies ((#[trigger] self@[t]) matches Some(v) ==> v
                >= 1) by {
                if t != idx {
                    assert(self@[t] == old(self)@[t]);
                }
            }
        }
        true
    }

    /// Swipes the row toward the left wall: compacts the tiles against the
    /// wall, merges adjacent equal pairs once each, nearest the wall first,
    /// and compacts again.
    pub fn swipe_left(&mut self)
        requires
            old(self).wf(),
            cells_fit(old(self)@),
        ensures
            final(self).wf(),
            final(self).length == old(self).length,
            swipe_left_rel(old(self)@, final(self)@),
    {
        swipe_cells_left(&mut self.row);
    }

    /// Swipes the row toward the right wall; the mirror image of
    /// `swipe_left`.
    pub fn swipe_right(&mut self)
        requires
            old(self).wf(),
            cells_fit(old(self)@),
        ensures
            final(self).wf(),
            final(self).length == old(self).length,
            swipe_right_rel(old(self)@, final(self)@),
    {
        swipe_cells_right(&mut self.row);
    }
}

impl Field {
    /// The field is a square of `size` well-formed rows, `size` at least one.
    pub open spec fn wf(self) -> bool {
        &&& self.rows@.len() == self.size
        &&& self.size >= 1
        &&& forall|j: int|
            0 <= j < self.rows@.len() ==> (#[trigger] self.rows@[j]).wf() && self.rows@[j].length
                == self.size
    }

    /// Prints each row of the field on its own line.
    #[verifier::loop_isolation(false)]
    pub fn print(&self) {
        let n = self.rows.len();
        for j in 0..n {
            let rowref = &self.rows[j];
            rowref.print();
        }
    }

    /// Read-only access to the ordered rows of the field.
    pub fn rows(&self) -> (r: &Vec<Row>)
        ensures
            r@.len() == self@.len(),
            forall|j: int| 0 <= j < r@.len() ==> (#[trigger] r@[j])@ == self@[j],
    {
        &self.rows
    }

    /// Builds a field of `size` rows of `size` empty cells each.
    #[verifier::loop_isolation(false)]
    pub fn new(size: usize) -> (f: Field)
        requires
            size >= 1,
        ensures
            f.wf(),
            f.size == size,
            f@.len() == size,
            forall|j: int| 0 <= j < size ==> (#[trigger] f@[j]).len() == size,
            forall|j: int, i: int|
                0 <= j < size && 0 <= i < size ==> (#[trigger] f@[j][i]) is None,
    {
        let mut field: Vec<Row> = Vec::new();
        for k in 0..size
            invariant
                field@.len() == k,
                forall|t: int|
                    0 <= t < k ==> (#[trigger] field@[t]).wf() && field@[t].length == size
                        && field@[t]@.len() == size,
                forall|t: int, i: int|
                    0 <= t < k && 0 <= i < size ==> (#[trigger] field@[t]@[i]) is None,
        {
            field.push(Row::new(size));
        }
        Field { rows: field, size }
    }

    /// Builds a field from the given rows, so that swipe behaviour can be
    /// driven from a chosen position.
    pub fn from_rows(rows: Vec<Row>) -> (f: Field)
        requires
            rows@.len() >= 1,
            forall|j: int|
                0 <= j < rows@.len() ==> (#[trigger] rows@[j]).wf() && rows@[j].length
                    == rows@.len(),
        ensures
            f.wf(),
            f.size == rows@.len(),
            f@.len() == rows@.len(),
            forall|j: int| 0 <= j < rows@.len() ==> (#[trigger] f@[j]) == rows@[j]@,
    {
        let size = rows.len();
        Field { rows, size }
    }

    /// True iff at least one cell anywhere in the field is empty.
    #[verifier::loop_isolation(false)]
    pub fn insertable(&self) -> (r: bool)
        ensures
            r == (exists|j: int| 0 <= j < self@.len() && has_empty(#[trigger] self@[j])),
    {
        let n = self.rows.len();
        for j in 0..n
            invariant
                forall|t: int| 0 <= t < j ==> !has_empty(#[trigger] self@[t]),
        {
            let rowref = &self.rows[j];
            if rowref.insertable() {
                proof {
                    assert(has_empty(self@[j as int]));
                }
                return true;
            }
        }
        false
    }

    /// How many rows still have an empty cell.
    #[verifier::loop_isolation(false)]
    fn insertable_rows(&self) -> (c: usize)
        ensures
            c == count_insertable(self@),
    {
        let n = self.rows.len();
        let mut c: usize = 0;
        for j in 0..n
            invariant
                c == count_insertable(self@.take(j as int)),
                c <= j,
        {
            proof {
                assert(self@.take(j + 1).drop_last() =~= self@.take(j as int));
                assert(self@.take(j + 1).last() == self@[j as int]);
            }
            let rowref = &self.rows[j];
            if rowref.insertable() {
                c = c + 1;
            }
        }
        proof {
            assert(self@.take(n as int) =~= self@);
        }
        c
    }

    /// The position of the `k`-th row with an empty cell, counted from the
    /// top.
    #[verifier::loop_isolation(false)]
    fn nth_insertable_row(&self, k: usize) -> (idx: usize)
        requires
            k < count_insertable(self@),
        ensures
            idx < self@.len(),
            has_empty(self@[idx as int]),
    {
        let n = self.rows.len();
        let mut seen: usize = 0;
        for j in 0..n
            invariant
                seen == count_insertable(self@.take(j as int)),
                seen <= k,
        {
            proof {
                assert(self@.take(j + 1).drop_last() =~= self@.take(j as int));
                assert(self@.take(j + 1).last() == self@[j as int]);
            }
            let rowref = &self.rows[j];
            if rowref.insertable() {
                if seen == k {
                    return j;
                }
                seen = seen + 1;
            }
        }
        proof {
            assert(self@.take(n as int) =~= self@);
            assert(false);
        }
        0
    }

    /// Places a fresh tile of value 1 or 2 somewhere in the field: a row is
    /// drawn uniformly among the rows that still have an empty cell, then a
    /// cell is drawn uniformly among that row's empty cells.  Reports false,
    /// and changes nothing, iff no cell of the field is empty.
    pub fn insert_random(&mut self) -> (r: bool)
        requires
            old(self).wf(),
        ensures
            final(self).wf(),
            final(self).size == old(self).size,
            final(self)@.len() == old(self)@.len(),
            r == (exists|j: int| 0 <= j < old(self)@.len() && has_empty(#[trigger] old(self)@[j])),
            !r ==> final(self)@ == old(self)@,
            r ==> (exists|j: int, i: int|
                0 <= j < old(self)@.len() && 0 <= i < old(self)@[j].len() && old(self)@[j][i]
                    is None && (final(self)@[j][i] == Some(1usize) || final(self)@[j][i] == Some(
                    2usize,
                )) && final(self)@ == old(self)@.update(
                    j,
                    old(self)@[j].update(i, final(self)@[j][i]),
                )),
            r ==> grid_count_empty(final(self)@) == grid_count_empty(old(self)@) - 1,
    {
        proof {
            lemma_count_insertable_has(self@);
        }
        let avail = self.insertable_rows();
        if avail == 0 {
            return false;
        }
        let k = random_below(avail);
        let j = self.nth_insertable_row(k);
        proof {
            assert(self@[j as int] == self.rows@[j as int]@);
        }
        let rowref = &mut self.rows[j];
        let ok = rowref.insert_random();
        proof {
            assert(ok);
            assert(self@ =~= old(self)@.update(j as int, self.rows@[j as int]@));
            let i = choose|i: int|
                0 <= i < old(self)@[j as int].len() && (#[trigger] old(self)@[j as int][i]) is None
                    && (self@[j as int][i] == Some(1usize) || self@[j as int][i] == Some(2usize))
                    && self@[j as int] == old(self)@[j as int].update(i, self@[j as int][i]);
            assert(0 <= j < old(self)@.len() && 0 <= i < old(self)@[j as int].len() && old(
                self,
            )@[j as int][i] is None && (self@[j as int][i] == Some(1usize) || self@[j as int][i]
                == Some(2usize)) && self@ == old(self)@.update(
                j as int,
                old(self)@[j as int].update(i, self@[j as int][i]),
            ));
            lemma_grid_count_empty_update(old(self)@, j as int, self.rows@[j as int]@);
        }
        true
    }

    /// Swipes every row toward the left wall; rows do not interact.
    #[verifier::loop_isolation(false)]
    pub fn swipe_left(&mut self)
        requires
            old(self).wf(),
            grid_fits(old(self)@),
        ensures
            final(self).wf(),
            final(self).size == old(self).size,
            final(self)@.len() == old(self)@.len(),
            forall|j: int|
                0 <= j < old(self)@.len() ==> swipe_left_rel(
                    old(self)@[j],
                    #[trigger] final(self)@[j],
                ),
    {
        let n = self.rows.len();
        for j in 0..n
            invariant
                self.rows@.len() == n,
                self.size == old(self).size,
                forall|t: int| j <= t < n ==> (#[trigger] self.rows@[t]) == old(self).rows@[t],
                forall|t: int|
                    0 <= t < j ==> swipe_left_rel(old(self)@[t], (#[trigger] self.rows@[t])@),
                forall|t: int|
                    0 <= t < n ==> (#[trigger] self.rows@[t]).wf() && self.rows@[t].length
                        == self.size,
        {
            proof {
                assert(cells_fit(old(self)@[j as int]));
                assert(old(self)@[j as int] == old(self).rows@[j as int]@);
            }
            let rowref = &mut self.rows[j];
            rowref.swipe_left();
        }
    }

    /// Swipes every row toward the right wall; rows do not interact.
    #[verifier::loop_isolation(false)]
    pub fn swipe_right(&mut self)
        requires
            old(self).wf(),
            grid_fits(old(self)@),
        ensures
            final(self).wf(),
            final(self).size == old(self).size,
            final(self)@.len() == old(self)@.len(),
            forall|j: int|
                0 <= j < old(self)@.len() ==> swipe_right_rel(
                    old(self)@[j],
                    #[trigger] final(self)@[j],
                ),
    {
        let n = self.rows.len();
        for j in 0..n
            invariant
                self.rows@.len() == n,
                self.size == old(self).size,
                forall|t: int| j <= t < n ==> (#[trigger] self.rows@[t]) == old(self).rows@[t],
                forall|t: int|
                    0 <= t < j ==> swipe_right_rel(old(self)@[t], (#[trigger] self.rows@[t])@),
                forall|t: int|
                    0 <= t < n ==> (#[trigger] self.rows@[t]).wf() && self.rows@[t].length
                        == self.size,
        {
            proof {
                assert(cells_fit(old(self)@[j as int]));
                assert(old(self)@[j as int] == old(self).rows@[j as int]@);
            }
            let rowref = &mut self.rows[j];
            rowref.swipe_right();
        }
    }

    /// Swipes column `i` toward the top wall: the column is gathered into a
    /// buffer, run through the shared compact-merge-compact pass, and
    /// scattered back, so no transposed copy of the field is built.
    #[verifier::loop_isolation(false)]
    fn swipe_up_single(&mut self, i: usize)
        requires
            old(self).wf(),
            i < old(self).size,
            cells_fit(col(old(self)@, i as int)),
        ensures
            final(self).wf(),
            final(self).size == old(self).size,
            final(self)@.len() == old(self)@.len(),
            forall|j: int|
                0 <= j < old(self)@.len() ==> (#[trigger] final(self)@[j]) == old(self)@[j].update(
                    i as int,
                    final(self)@[j][i as int],
                ),
            swipe_left_rel(col(old(self)@, i as int), col(final(self)@, i as int)),
    {
        let n = self.rows.len();
        let mut buf: Vec<Option<usize>> = Vec::new();
        for j in 0..n
            invariant
                buf@.len() == j,
                forall|t: int| 0 <= t < j ==> (#[trigger] buf@[t]) == self@[t][i as int],
        {
            let rowref = &self.rows[j];
            let c = rowref.row[i];
            buf.push(c);
        }
        proof {
            assert(buf@ =~= col(self@, i as int));
            assert forall|t: int|
                0 <= t < buf@.len() implies ((#[trigger] buf@[t]) matches Some(v) ==> v >= 1) by {
                assert(self.rows@[t].wf());
                assert(buf@[t] == self.rows@[t]@[i as int]);
            }
        }
        swipe_cells_left(&mut buf);
        let ghost mid = buf@;
        for j in 0..n
            invariant
                self.rows@.len() == n,
                self.size == old(self).size,
                buf@ == mid,
                mid.len() == n,
                cells_pos(mid),
                forall|t: int| j <= t < n ==> (#[trigger] self.rows@[t]) == old(self).rows@[t],
                forall|t: int|
                    0 <= t < j ==> (#[trigger] self.rows@[t])@ == old(self)@[t].update(
                        i as int,
                        mid[t],
                    ),
                forall|t: int|
                    0 <= t < n ==> (#[trigger] self.rows@[t]).wf() && self.rows@[t].length
                        == self.size,
        {
            let c = buf[j];
            let rowref = &mut self.rows[j];
            rowref.row[i] = c;
            proof {
                let jj = j as int;
                assert forall|t: int|
                    0 <= t < self.rows@[jj]@.len() implies ((#[trigger] self.rows@[jj]@[t])
                    matches Some(v) ==> v >= 1) by {
                    if t != i {
                        assert(self.rows@[jj]@[t] == old(self).rows@[jj]@[t]);
                    }
                }
            }
        }
        proof {
            assert(col(self@, i as int) =~= mid);
        }
    }

    /// Swipes every column toward the top wall: for each column the same
    /// transformation that `Row::swipe_left` performs on a row.
    #[verifier::loop_isolation(false)]
    pub fn swipe_up(&mut self)
        requires
            old(self).wf(),
            grid_fits(old(self)@),
        ensures
            final(self).wf(),
            final(self).size == old(self).size,
            final(self)@.len() == old(self)@.len(),
            forall|i: int|
                0 <= i < old(self).size ==> swipe_left_rel(
                    #[trigger] col(old(self)@, i),
                    col(final(self)@, i),
                ),
    {
        let n = self.size;
        for i in 0..n
            invariant
                self.wf(),
                self.size == old(self).size,
                self.rows@.len() == n,
                forall|t: int| i <= t < n ==> #[trigger] col(self@, t) == col(old(self)@, t),
                forall|t: int|
                    0 <= t < i ==> swipe_left_rel(#[trigger] col(old(self)@, t), col(self@, t)),
        {
            let ghost prev = self@;
            proof {
                assert(col(prev, i as int) == col(old(self)@, i as int));
                assert forall|t: int|
                    0 <= t < col(prev, i as int).len() implies ((#[trigger] col(
                    prev,
                    i as int,
                )[t]) matches Some(v) ==> 2 * v <= usize::MAX) by {
                    assert(col(prev, i as int)[t] == old(self)@[t][i as int]);
                    assert(cells_fit(old(self)@[t]));
                }
            }
            self.swipe_up_single(i);
            proof {
                assert forall|t: int| 0 <= t < n && t != i implies #[trigger] col(self@, t) == col(
                    prev,
                    t,
                ) by {
                    assert forall|j: int| 0 <= j < n implies col(self@, t)[j] == col(prev, t)[j] by {
                        assert(self@[j] == prev[j].update(i as int, self@[j][i as int]));
                    }
                    assert(col(self@, t) =~= col(prev, t));
                }
            }
        }
    }

    /// Swipes column `i` toward the bottom wall; the mirror image of
    /// `swipe_up_single`.
    #[verifier::loop_isolation(false)]
    fn swipe_down_single(&mut self, i: usize)
        requires
            old(self).wf(),
            i < old(self).size,
            cells_fit(col(old(self)@, i as int)),
        ensures
            final(self).wf(),
            final(self).size == old(self).size,
            final(self)@.len() == old(self)@.len(),
            forall|j: int|
                0 <= j < old(self)@.len() ==> (#[trigger] final(self)@[j]) == old(self)@[j].update(
                    i as int,
                    final(self)@[j][i as int],
                ),
            swipe_right_rel(col(old(self)@, i as int), col(final(self)@, i as int)),
    {
        let n = self.rows.len();
        let mut buf: Vec<Option<usize>> = Vec::new();
        for j in 0..n
            invariant
                buf@.len() == j,
                forall|t: int| 0 <= t < j ==> (#[trigger] buf@[t]) == self@[t][i as int],
        {
            let rowref = &self.rows[j];
            let c = rowref.row[i];
            buf.push(c);
        }
        proof {
            assert(buf@ =~= col(self@, i as int));
            assert forall|t: int|
                0 <= t < buf@.len() implies ((#[trigger] buf@[t]) matches Some(v) ==> v >= 1) by {
                assert(self.rows@[t].wf());
                assert(buf@[t] == self.rows@[t]@[i as int]);
            }
        }
        swipe_cells_right(&mut buf);
        let ghost mid = buf@;
        for j in 0..n
            invariant
                self.rows@.len() == n,
                self.size == old(self).size,
                buf@ == mid,
                mid.len() == n,
                cells_pos(mid),
                forall|t: int| j <= t < n ==> (#[trigger] self.rows@[t]) == old(self).rows@[t],
                forall|t: int|
                    0 <= t < j ==> (#[trigger] self.rows@[t])@ == old(self)@[t].update(
                        i as int,
                        mid[t],
                    ),
                forall|t: int|
                    0 <= t < n ==> (#[trigger] self.rows@[t]).wf() && self.rows@[t].length
                        == self.size,
        {
            let c = buf[j];
            let rowref = &mut self.rows[j];
            rowref.row[i] = c;
            proof {
                let jj = j as int;
                assert forall|t: int|
                    0 <= t < self.rows@[jj]@.len() implies ((#[trigger] self.rows@[jj]@[t])
                    matches Some(v) ==> v >= 1) by {
                    if t != i {
                        assert(self.rows@[jj]@[t] == old(self).rows@[jj]@[t]);
                    }
                }
            }
        }
        proof {
            assert(col(self@, i as int) =~= mid);
        }
    }

    /// Swipes every column toward the bottom wall: for each column the same
    /// transformation that `Row::swipe_right` performs on a row.
    #[verifier::loop_isolation(false)]
    pub fn swipe_down(&mut self)
        requires
            old(self).wf(),
            grid_fits(old(self)@),
        ensures
            final(self).wf(),
            final(self).size == old(self).size,
            final(self)@.len() == old(self)@.len(),
            forall|i: int|
                0 <= i < old(self).size ==> swipe_right_rel(
                    #[trigger] col(old(self)@, i),
                    col(final(self)@, i),
                ),
    {
        let n = self.size;
        for i in 0..n
            invariant
                self.wf(),
                self.size == old(self).size,
                self.rows@.len() == n,
                forall|t: int| i <= t < n ==> #[trigger] col(self@, t) == col(old(self)@, t),
                forall|t: int|
                    0 <= t < i ==> swipe_right_rel(#[trigger] col(old(self)@, t), col(self@, t)),
        {
            let ghost prev = self@;
            proof {
                assert(col(prev, i as int) == col(old(self)@, i as int));
                assert forall|t: int|
                    0 <= t < col(prev, i as int).len() implies ((#[trigger] col(
                    prev,
                    i as int,
                )[t]) matches Some(v) ==> 2 * v <= usize::MAX) by {
                    assert(col(prev, i as int)[t] == old(self)@[t][i as int]);
                    assert(cells_fit(old(self)@[t]));
                }
            }
            self.swipe_down_single(i);
            proof {
                assert forall|t: int| 0 <= t < n && t != i implies #[trigger] col(self@, t) == col(
                    prev,
                    t,
                ) by {
                    assert forall|j: int| 0 <= j < n implies col(self@, t)[j] == col(prev, t)[j] by {
                        assert(self@[j] == prev[j].update(i as int, self@[j][i as int]));
                    }
                    assert(col(self@, t) =~= col(prev, t));
                }
            }
        }
    }
}

} // verus!
