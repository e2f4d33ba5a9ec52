//! The general properties of the engine, stated over the mathematical model
//! and proved once and for all.

use vstd::prelude::*;

use crate::cells::lemma_packed_left_unique;
use crate::cells::lemma_packed_right_unique;
use crate::cells::lemma_tile_vals_push;
use crate::cells::merge_left;
use crate::cells::merge_right;
use crate::cells::swipe_left_rel;
use crate::cells::swipe_right_rel;
use crate::cells::tile_vals;
use crate::data::col;

verus! {

/// The sum of a sequence of tile values.
pub open spec fn seq_sum(v: Seq<int>) -> int
    decreases v.len(),
{
    if v.len() == 0 {
        0
    } else {
        v[0] + seq_sum(v.skip(1))
    }
}

/// The sum of all tile values of a grid, row by row.
pub open spec fn grid_sum(g: Seq<Seq<Option<usize>>>) -> int
    decreases g.len(),
{
    if g.len() == 0 {
        0
    } else {
        grid_sum(g.drop_last()) + seq_sum(tile_vals(g.last()))
    }
}

/// The sum of all tile values of the first `i` columns of a grid.
pub open spec fn cols_sum(g: Seq<Seq<Option<usize>>>, i: int) -> int
    decreases i,
{
    if i <= 0 {
        0
    } else {
        cols_sum(g, i - 1) + seq_sum(tile_vals(col(g, i - 1)))
    }
}

pub proof fn lemma_seq_sum_drop_last(v: Seq<int>)
    requires
        v.len() > 0,
    ensures
        seq_sum(v) == seq_sum(v.drop_last()) + v.last(),
    decreases v.len(),
{
    if v.len() == 1 {
        assert(v.skip(1) =~= Seq::<int>::empty());
        assert(v.drop_last() =~= Seq::<int>::empty());
    } else {
        lemma_seq_sum_drop_last(v.skip(1));
        assert(v.skip(1).drop_last() =~= v.drop_last().skip(1));
        assert(v.skip(1).last() == v.last());
    }
}

pub proof fn lemma_seq_sum_reverse(v: Seq<int>)
    ensures
        seq_sum(v.reverse()) == seq_sum(v),
    decreases v.len(),
{
    if v.len() > 0 {
        assert(v.reverse()[0] == v.last());
        assert(v.reverse().skip(1) =~= v.drop_last().reverse());
        lemma_seq_sum_reverse(v.drop_last());
        lemma_seq_sum_drop_last(v);
    }
}

/// One merge pass conserves the total value: two equal tiles are replaced
/// by a single tile of twice that value, nothing else changes.
pub proof fn lemma_merge_left_sum(v: Seq<int>)
    ensures
        seq_sum(merge_left(v)) == seq_sum(v),
    decreases v.len(),
{
    if v.len() <= 1 {
    } else if v[0] == v[1] {
        lemma_merge_left_sum(v.skip(2));
        let m = merge_left(v.skip(2));
        assert((seq![2 * v[0]] + m)[0] == 2 * v[0]);
        assert((seq![2 * v[0]] + m).skip(1) =~= m);
        assert(v.skip(1)[0] == v[1]);
        assert(v.skip(1).skip(1) =~= v.skip(2));
        assert(seq_sum(v.skip(1)) == v[1] + seq_sum(v.skip(2)));
    } else {
        lemma_merge_left_sum(v.skip(1));
        let m = merge_left(v.skip(1));
        assert((seq![v[0]] + m)[0] == v[0]);
        assert((seq![v[0]] + m).skip(1) =~= m);
    }
}

/// The mirror image of `lemma_merge_left_sum`.
pub proof fn lemma_merge_right_sum(v: Seq<int>)
    ensures
        seq_sum(merge_right(v)) == seq_sum(v),
{
    lemma_merge_left_sum(v.reverse());
    lemma_seq_sum_reverse(v);
    lemma_seq_sum_reverse(merge_left(v.reverse()));
}

/// Value conservation for one line: a swipe toward the left wall leaves the
/// sum of the line's tile values unchanged.
pub proof fn lemma_swipe_left_sum(before: Seq<Option<usize>>, after: Seq<Option<usize>>)
    requires
        swipe_left_rel(before, after),
    ensures
        seq_sum(tile_vals(after)) == seq_sum(tile_vals(before)),
{
    lemma_merge_left_sum(tile_vals(before));
}

/// Value conservation for one line: a swipe toward the right wall leaves
/// the sum of the line's tile values unchanged.
pub proof fn lemma_swipe_right_sum(before: Seq<Option<usize>>, after: Seq<Option<usize>>)
    requires
        swipe_right_rel(before, after),
    ensures
        seq_sum(tile_vals(after)) == seq_sum(tile_vals(before)),
{
    lemma_merge_right_sum(tile_vals(before));
}

/// Rows with pairwise equal sums make grids with equal sums.
pub proof fn lemma_grid_sum_rowwise(g1: Seq<Seq<Option<usize>>>, g2: Seq<Seq<Option<usize>>>)
    requires
        g1.len() == g2.len(),
        forall|j: int|
            0 <= j < g1.len() ==> seq_sum(tile_vals(#[trigger] g2[j])) == seq_sum(
                tile_vals(g1[j]),
            ),
    ensures
        grid_sum(g2) == grid_sum(g1),
    decreases g1.len(),
{
    if g1.len() > 0 {
        let m = g1.len() - 1;
        assert(seq_sum(tile_vals(g2[m])) == seq_sum(tile_vals(g1[m])));
        assert(forall|j: int|
            0 <= j < m ==> (#[trigger] g1.drop_last()[j]) == g1[j] && g2.drop_last()[j] == g2[j]);
        lemma_grid_sum_rowwise(g1.drop_last(), g2.drop_last());
    }
}

/// Value conservation for the grid under a horizontal swipe: every row
/// keeps its sum, so the grid keeps its sum.
pub proof fn lemma_grid_swipe_rows_sum(g1: Seq<Seq<Option<usize>>>, g2: Seq<Seq<Option<usize>>>)
    requires
        g1.len() == g2.len(),
        forall|j: int|
            0 <= j < g1.len() ==> (swipe_left_rel(g1[j], #[trigger] g2[j]) || swipe_right_rel(
                g1[j],
                g2[j],
            )),
    ensures
        grid_sum(g2) == grid_sum(g1),
{
    assert forall|j: int|
        0 <= j < g1.len() implies seq_sum(tile_vals(#[trigger] g2[j])) == seq_sum(
        tile_vals(g1[j]),
    ) by {
        if swipe_left_rel(g1[j], g2[j]) {
            lemma_swipe_left_sum(g1[j], g2[j]);
        } else {
            lemma_swipe_right_sum(g1[j], g2[j]);
        }
    }
    lemma_grid_sum_rowwise(g1, g2);
}

pub proof fn lemma_cols_sum_empty(g: Seq<Seq<Option<usize>>>, i: int)
    requires
        g.len() == 0,
    ensures
        cols_sum(g, i) == 0,
    decreases i,
{
    if i > 0 {
        lemma_cols_sum_empty(g, i - 1);
        assert(col(g, i - 1) =~= Seq::<Option<usize>>::empty());
    }
}

pub proof fn lemma_cols_sum_snoc(g: Seq<Seq<Option<usize>>>, w: int, i: int)
    requires
        g.len() > 0,
        0 <= i <= w,
        g.last().len() == w,
    ensures
        cols_sum(g, i) == cols_sum(g.drop_last(), i) + seq_sum(tile_vals(g.last().take(i))),
    decreases i,
{
    let front = g.drop_last();
    let r = g.last();
    if i == 0 {
        assert(r.take(0) =~= Seq::<Option<usize>>::empty());
    } else {
        lemma_cols_sum_snoc(g, w, i - 1);
        assert(col(g, i - 1) =~= col(front, i - 1).push(r[i - 1]));
        lemma_tile_vals_push(col(front, i - 1), r[i - 1]);
        assert(r.take(i).drop_last() =~= r.take(i - 1));
        assert(r.take(i).last() == r[i - 1]);
        match r[i - 1] {
            Some(v) => {
                lemma_seq_sum_drop_last(tile_vals(col(front, i - 1)).push(v as int));
                assert(tile_vals(col(front, i - 1)).push(v as int).drop_last() =~= tile_vals(
                    col(front, i - 1),
                ));
                lemma_seq_sum_drop_last(tile_vals(r.take(i - 1)).push(v as int));
                assert(tile_vals(r.take(i - 1)).push(v as int).drop_last() =~= tile_vals(
                    r.take(i - 1),
                ));
                assert(tile_vals(r.take(i)) == tile_vals(r.take(i - 1)).push(v as int));
            },
            None => {
                assert(tile_vals(r.take(i)) == tile_vals(r.take(i - 1)));
            },
        }
    }
}

/// Counting the grid's value row by row and column by column agree.
pub proof fn lemma_grid_sum_cols(g: Seq<Seq<Option<usize>>>, w: int)
    requires
        w >= 0,
        forall|j: int| 0 <= j < g.len() ==> (#[trigger] g[j]).len() == w,
    ensures
        cols_sum(g, w) == grid_sum(g),
    decreases g.len(),
{
    if g.len() == 0 {
        lemma_cols_sum_empty(g, w);
    } else {
        let front = g.drop_last();
        assert(forall|j: int| 0 <= j < front.len() ==> (#[trigger] front[j]).len() == w);
        lemma_grid_sum_cols(front, w);
        lemma_cols_sum_snoc(g, w, w);
        assert(g.last().take(w) =~= g.last());
    }
}

pub proof fn lemma_cols_sum_colwise(g1: Seq<Seq<Option<usize>>>, g2: Seq<Seq<Option<usize>>>, i: int)
    requires
        forall|t: int|
            0 <= t < i ==> seq_sum(tile_vals(#[trigger] col(g2, t))) == seq_sum(
                tile_vals(col(g1, t)),
            ),
    ensures
        cols_sum(g2, i) == cols_sum(g1, i),
    decreases i,
{
    if i > 0 {
        lemma_cols_sum_colwise(g1, g2, i - 1);
    }
}

/// Value conservation for the grid under a vertical swipe: every column
/// keeps its sum, and the column-wise total is the row-wise total.
pub proof fn lemma_grid_swipe_cols_sum(
    g1: Seq<Seq<Option<usize>>>,
    g2: Seq<Seq<Option<usize>>>,
    w: int,
)
    requires
        w >= 0,
        forall|j: int| 0 <= j < g1.len() ==> (#[trigger] g1[j]).len() == w,
        forall|j: int| 0 <= j < g2.len() ==> (#[trigger] g2[j]).len() == w,
        forall|i: int|
            0 <= i < w ==> (swipe_left_rel(col(g1, i), #[trigger] col(g2, i)) || swipe_right_rel(
                col(g1, i),
                col(g2, i),
            )),
    ensures
        grid_sum(g2) == grid_sum(g1),
{
    assert forall|t: int|
        0 <= t < w implies seq_sum(tile_vals(#[trigger] col(g2, t))) == seq_sum(
        tile_vals(col(g1, t)),
    ) by {
        if swipe_left_rel(col(g1, t), col(g2, t)) {
            lemma_swipe_left_sum(col(g1, t), col(g2, t));
        } else {
            lemma_swipe_right_sum(col(g1, t), col(g2, t));
        }
    }
    lemma_cols_sum_colwise(g1, g2, w);
    lemma_grid_sum_cols(g1, w);
    lemma_grid_sum_cols(g2, w);
}

/// Each tile merges at most once per pass: a pass removes at most half of
/// the tiles, rounded down, and never adds any.
pub proof fn lemma_merge_left_len(v: Seq<int>)
    ensures
        merge_left(v).len() <= v.len(),
        2 * merge_left(v).len() >= v.len(),
    decreases v.len(),
{
    if v.len() <= 1 {
    } else if v[0] == v[1] {
        lemma_merge_left_len(v.skip(2));
    } else {
        lemma_merge_left_len(v.skip(1));
    }
}

/// The mirror image of `lemma_merge_left_len`.
pub proof fn lemma_merge_right_len(v: Seq<int>)
    ensures
        merge_right(v).len() <= v.len(),
        2 * merge_right(v).len() >= v.len(),
{
    lemma_merge_left_len(v.reverse());
}

/// Iterated merge passes, the model of repeated same-direction swipes.
pub open spec fn merge_left_iter(v: Seq<int>, k: nat) -> Seq<int>
    decreases k,
{
    if k == 0 {
        v
    } else {
        merge_left(merge_left_iter(v, (k - 1) as nat))
    }
}

/// A further pass either changes nothing or strictly reduces the number of
/// tiles; swiping is in general not idempotent, but it cannot churn.
pub proof fn lemma_merge_left_progress(v: Seq<int>)
    ensures
        merge_left(v) == v || merge_left(v).len() < v.len(),
    decreases v.len(),
{
    if v.len() <= 1 {
    } else if v[0] == v[1] {
        lemma_merge_left_len(v.skip(2));
    } else {
        lemma_merge_left_progress(v.skip(1));
        if merge_left(v.skip(1)) == v.skip(1) {
            assert(seq![v[0]] + v.skip(1) =~= v);
        } else {
            lemma_merge_left_len(v.skip(1));
        }
    }
}

pub proof fn lemma_merge_left_iter_shift(v: Seq<int>, k: nat)
    requires
        k >= 1,
    ensures
        merge_left_iter(v, k) == merge_left_iter(merge_left(v), (k - 1) as nat),
    decreases k,
{
    if k == 1 {
        assert(merge_left_iter(v, 1) == merge_left(merge_left_iter(v, 0)));
        assert(merge_left_iter(merge_left(v), 0) == merge_left(v));
    } else {
        lemma_merge_left_iter_shift(v, (k - 1) as nat);
        assert(merge_left_iter(v, k) == merge_left(merge_left_iter(v, (k - 1) as nat)));
        assert(merge_left_iter(merge_left(v), (k - 1) as nat) == merge_left(
            merge_left_iter(merge_left(v), (k - 2) as nat),
        ));
    }
}

pub proof fn lemma_merge_left_iter_fixed(v: Seq<int>, k: nat)
    requires
        merge_left(v) == v,
    ensures
        merge_left_iter(v, k) == v,
    decreases k,
{
    if k > 0 {
        lemma_merge_left_iter_fixed(v, (k - 1) as nat);
    }
}

/// Convergence: after at most as many passes as there are tiles, a further
/// pass changes nothing.  For a line of length `N` this bounds repeated
/// same-direction swipes by `N`.
pub proof fn lemma_merge_left_converges(v: Seq<int>, k: nat)
    requires
        k >= v.len(),
    ensures
        merge_left(merge_left_iter(v, k)) == merge_left_iter(v, k),
    decreases v.len(),
{
    lemma_merge_left_progress(v);
    if merge_left(v) == v {
        lemma_merge_left_iter_fixed(v, k);
    } else {
        let w = merge_left(v);
        assert(v.len() >= 2);
        assert(k >= 1);
        assert(w.len() <= k - 1);
        lemma_merge_left_iter_shift(v, k);
        lemma_merge_left_converges(w, (k - 1) as nat);
        assert(merge_left_iter(v, k) == merge_left_iter(w, (k - 1) as nat));
    }
}

/// Iterated merge passes toward the right wall.
pub open spec fn merge_right_iter(v: Seq<int>, k: nat) -> Seq<int>
    decreases k,
{
    if k == 0 {
        v
    } else {
        merge_right(merge_right_iter(v, (k - 1) as nat))
    }
}

pub proof fn lemma_merge_right_iter_reverse(v: Seq<int>, k: nat)
    ensures
        merge_right_iter(v, k) == merge_left_iter(v.reverse(), k).reverse(),
    decreases k,
{
    if k == 0 {
        assert(v.reverse().reverse() =~= v);
    } else {
        lemma_merge_right_iter_reverse(v, (k - 1) as nat);
        let w = merge_left_iter(v.reverse(), (k - 1) as nat);
        assert(w.reverse().reverse() =~= w);
        assert(merge_left_iter(v.reverse(), k) == merge_left(w));
    }
}

/// The mirror image of `lemma_merge_left_converges`: repeated swipes toward
/// the right wall settle after at most as many passes as there are tiles.
pub proof fn lemma_merge_right_converges(v: Seq<int>, k: nat)
    requires
        k >= v.len(),
    ensures
        merge_right(merge_right_iter(v, k)) == merge_right_iter(v, k),
{
    lemma_merge_right_iter_reverse(v, k);
    lemma_merge_left_converges(v.reverse(), k);
    let w = merge_left_iter(v.reverse(), k);
    assert(w.reverse().reverse() =~= w);
}

/// The swipe relation admits one outcome only: two lines related to the
/// same input are equal.  Since a vertical swipe puts each column in the
/// same relation that a horizontal swipe puts a row in, a column is
/// transformed exactly as a row holding the same cells: row/column
/// symmetry.
pub proof fn lemma_swipe_left_deterministic(
    before: Seq<Option<usize>>,
    a: Seq<Option<usize>>,
    b: Seq<Option<usize>>,
)
    requires
        swipe_left_rel(before, a),
        swipe_left_rel(before, b),
    ensures
        a == b,
{
    lemma_packed_left_unique(a, b);
}

/// The mirror image of `lemma_swipe_left_deterministic`.
pub proof fn lemma_swipe_right_deterministic(
    before: Seq<Option<usize>>,
    a: Seq<Option<usize>>,
    b: Seq<Option<usize>>,
)
    requires
        swipe_right_rel(before, a),
        swipe_right_rel(before, b),
    ensures
        a == b,
{
    lemma_packed_right_unique(a, b);
}

} // verus!
