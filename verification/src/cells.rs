//! The one-dimensional primitive shared by rows and columns: a line of
//! optional tile values that is compacted toward a wall and merged once,
//! pair by pair, nearest the wall first.

use vstd::prelude::*;

verus! {

/// The tile values of a line, in order, with empty cells skipped,
/// as mathematical integers.
pub open spec fn tile_vals(s: Seq<Option<usize>>) -> Seq<int>
    decreases s.len(),
{
    if s.len() == 0 {
        Seq::empty()
    } else {
        let rest = tile_vals(s.drop_last());
        match s.last() {
            Some(v) => rest.push(v as int),
            None => rest,
        }
    }
}

/// A vector of machine-word values, read as mathematical integers.
pub open spec fn vals_int(v: Seq<usize>) -> Seq<int> {
    v.map_values(|x: usize| x as int)
}

/// The non-empty cells form a prefix: every tile sits left of every empty cell.
pub open spec fn packed_left(s: Seq<Option<usize>>) -> bool {
    forall|i: int, j: int|
        0 <= i < j < s.len() && (#[trigger] s[i]) is None ==> (#[trigger] s[j]) is None
}

/// The non-empty cells form a suffix: every tile sits right of every empty cell.
pub open spec fn packed_right(s: Seq<Option<usize>>) -> bool {
    forall|i: int, j: int|
        0 <= i < j < s.len() && (#[trigger] s[j]) is None ==> (#[trigger] s[i]) is None
}

/// Every tile value is positive.
pub open spec fn cells_pos(s: Seq<Option<usize>>) -> bool {
    forall|i: int| 0 <= i < s.len() ==> ((#[trigger] s[i]) matches Some(v) ==> v >= 1)
}

/// Every tile value can be doubled without overflowing a machine word.
pub open spec fn cells_fit(s: Seq<Option<usize>>) -> bool {
    forall|i: int|
        0 <= i < s.len() ==> ((#[trigger] s[i]) matches Some(v) ==> 2 * v <= usize::MAX)
}

/// Every value is positive.
pub open spec fn vals_pos(v: Seq<usize>) -> bool {
    forall|k: int| 0 <= k < v.len() ==> (#[trigger] v[k]) >= 1
}

/// Every value can be doubled without overflowing a machine word.
pub open spec fn vals_fit(v: Seq<usize>) -> bool {
    forall|k: int| 0 <= k < v.len() ==> 2 * ((#[trigger] v[k]) as int) <= usize::MAX
}

/// How many cells of the line are empty.
pub open spec fn count_empty(s: Seq<Option<usize>>) -> int
    decreases s.len(),
{
    if s.len() == 0 {
        0
    } else {
        let rest = count_empty(s.drop_last());
        if s.last() is None {
            rest + 1
        } else {
            rest
        }
    }
}

/// True iff at least one cell of the line is empty.
pub open spec fn has_empty(s: Seq<Option<usize>>) -> bool {
    exists|i: int| 0 <= i < s.len() && (#[trigger] s[i]) is None
}

/// One merge pass toward the left wall: adjacent equal pairs are examined
/// nearest the wall first, the pair nearer the wall merges into a doubled
/// tile, and a merged tile is never merged again within the same pass.
pub open spec fn merge_left(v: Seq<int>) -> Seq<int>
    decreases v.len(),
{
    if v.len() <= 1 {
        v
    } else if v[0] == v[1] {
        seq![2 * v[0]] + merge_left(v.skip(2))
    } else {
        seq![v[0]] + merge_left(v.skip(1))
    }
}

/// One merge pass toward the right wall: the mirror image of `merge_left`.
pub open spec fn merge_right(v: Seq<int>) -> Seq<int> {
    merge_left(v.reverse()).reverse()
}

/// What one swipe toward the left wall does to a line: afterwards the tiles
/// form a prefix and read, in order, as one merge pass over the original
/// tiles.  Together with `laws::lemma_swipe_left_deterministic` this pins
/// the resulting line completely.
pub open spec fn swipe_left_rel(before: Seq<Option<usize>>, after: Seq<Option<usize>>) -> bool {
    &&& after.len() == before.len()
    &&& packed_left(after)
    &&& tile_vals(after) == merge_left(tile_vals(before))
}

/// What one swipe toward the right wall does to a line.
pub open spec fn swipe_right_rel(before: Seq<Option<usize>>, after: Seq<Option<usize>>) -> bool {
    &&& after.len() == before.len()
    &&& packed_right(after)
    &&& tile_vals(after) == merge_right(tile_vals(before))
}

pub proof fn lemma_tile_vals_push(s: Seq<Option<usize>>, e: Option<usize>)
    ensures
        tile_vals(s.push(e)) == (match e {
            Some(v) => tile_vals(s).push(v as int),
            None => tile_vals(s),
        }),
{
    assert(s.push(e).drop_last() =~= s);
    assert(s.push(e).last() == e);
}

pub proof fn lemma_vals_int_push(v: Seq<usize>, x: usize)
    ensures
        vals_int(v.push(x)) == vals_int(v).push(x as int),
{
    assert(vals_int(v.push(x)) =~= vals_int(v).push(x as int));
}

pub proof fn lemma_tile_vals_len(s: Seq<Option<usize>>)
    ensures
        tile_vals(s).len() <= s.len(),
    decreases s.len(),
{
    if s.len() > 0 {
        lemma_tile_vals_len(s.drop_last());
    }
}

pub proof fn lemma_tile_vals_all_none(s: Seq<Option<usize>>)
    requires
        forall|i: int| 0 <= i < s.len() ==> (#[trigger] s[i]) is None,
    ensures
        tile_vals(s) == Seq::<int>::empty(),
    decreases s.len(),
{
    if s.len() > 0 {
        assert(s.last() is None);
        lemma_tile_vals_all_none(s.drop_last());
    }
}

/// In a line packed toward the left wall, the tiles occupy exactly the first
/// `tile_vals(s).len()` cells, in order.
pub proof fn lemma_packed_left_tiles(s: Seq<Option<usize>>)
    requires
        packed_left(s),
    ensures
        tile_vals(s).len() <= s.len(),
        forall|i: int| 0 <= i < s.len() ==> ((#[trigger] s[i]) is Some <==> i < tile_vals(s).len()),
        forall|i: int|
            0 <= i < tile_vals(s).len() ==> (#[trigger] s[i]) == Some(tile_vals(s)[i] as usize),
    decreases s.len(),
{
    lemma_tile_vals_len(s);
    if s.len() > 0 {
        let front = s.drop_last();
        let m = s.len() - 1;
        assert(packed_left(front)) by {
            assert(forall|i: int| 0 <= i < m ==> front[i] == s[i]);
        }
        lemma_packed_left_tiles(front);
        lemma_tile_vals_len(front);
        match s.last() {
            Some(v) => {
                assert forall|i: int| 0 <= i < m implies (#[trigger] front[i]) is Some by {
                    if front[i] is None {
                        assert(s[i] is None);
                        assert(s[m] is None);
                    }
                }
                if tile_vals(front).len() < m {
                    assert(front[tile_vals(front).len() as int] is Some);
                    assert(false);
                }
                assert(tile_vals(front).len() == m);
                assert(tile_vals(s) == tile_vals(front).push(v as int));
                assert(tile_vals(s).len() == m + 1);
                assert forall|i: int| 0 <= i < tile_vals(s).len() implies (#[trigger] s[i]) == Some(
                    tile_vals(s)[i] as usize,
                ) by {
                    if i < m {
                        assert(s[i] == front[i]);
                        assert(tile_vals(s)[i] == tile_vals(front)[i]);
                    } else {
                        assert(s[i] == Some(v));
                        assert(tile_vals(s)[i] == v as int);
                    }
                }
            },
            None => {
                assert(tile_vals(s) == tile_vals(front));
                assert(tile_vals(s).len() <= m);
                assert forall|i: int| 0 <= i < s.len() implies ((#[trigger] s[i]) is Some <==> i
                    < tile_vals(s).len()) by {
                    if i < m {
                        assert(s[i] == front[i]);
                    } else {
                        assert(s[i] is None);
                    }
                }
                assert forall|i: int| 0 <= i < tile_vals(s).len() implies (#[trigger] s[i]) == Some(
                    tile_vals(s)[i] as usize,
                ) by {
                    assert(s[i] == front[i]);
                    assert(tile_vals(s)[i] == tile_vals(front)[i]);
                }
            },
        }
    }
}

/// In a line packed toward the right wall, the tiles occupy exactly the last
/// `tile_vals(s).len()` cells, in order.
pub proof fn lemma_packed_right_tiles(s: Seq<Option<usize>>)
    requires
        packed_right(s),
    ensures
        tile_vals(s).len() <= s.len(),
        forall|i: int|
            0 <= i < s.len() ==> ((#[trigger] s[i]) is Some <==> i >= s.len() - tile_vals(s).len()),
        forall|i: int|
            s.len() - tile_vals(s).len() <= i < s.len() ==> (#[trigger] s[i]) == Some(
                tile_vals(s)[i - (s.len() - tile_vals(s).len())] as usize,
            ),
    decreases s.len(),
{
    lemma_tile_vals_len(s);
    if s.len() > 0 {
        let front = s.drop_last();
        let m = s.len() - 1;
        assert(packed_right(front)) by {
            assert(forall|i: int| 0 <= i < m ==> front[i] == s[i]);
        }
        lemma_packed_right_tiles(front);
        lemma_tile_vals_len(front);
        match s.last() {
            Some(v) => {
                assert(tile_vals(s) == tile_vals(front).push(v as int));
                let t = tile_vals(s).len();
                assert(t == tile_vals(front).len() + 1);
                let base = s.len() - t;
                assert(base == front.len() - tile_vals(front).len());
                assert forall|i: int| 0 <= i < s.len() implies ((#[trigger] s[i]) is Some <==> i
                    >= base) by {
                    if i < m {
                        assert(s[i] == front[i]);
                    } else {
                        assert(s[i] == Some(v));
                    }
                }
                assert forall|i: int| base <= i < s.len() implies (#[trigger] s[i]) == Some(
                    tile_vals(s)[i - base] as usize,
                ) by {
                    if i < m {
                        assert(s[i] == front[i]);
                        assert(front[i] == Some(tile_vals(front)[i - base] as usize));
                        assert(tile_vals(s)[i - base] == tile_vals(front)[i - base]);
                    } else {
                        assert(s[i] == Some(v));
                        assert(i - base == t - 1);
                        assert(tile_vals(s)[t - 1] == v as int);
                    }
                }
            },
            None => {
                assert forall|i: int| 0 <= i < s.len() implies (#[trigger] s[i]) is None by {
                    if i < m {
                        assert(s[m] is None);
                    }
                }
                lemma_tile_vals_all_none(s);
                assert(tile_vals(s).len() == 0);
            },
        }
    }
}

/// A line packed toward a wall is determined by its length and its tiles.
pub proof fn lemma_packed_left_unique(a: Seq<Option<usize>>, b: Seq<Option<usize>>)
    requires
        a.len() == b.len(),
        packed_left(a),
        packed_left(b),
        tile_vals(a) == tile_vals(b),
    ensures
        a == b,
{
    lemma_packed_left_tiles(a);
    lemma_packed_left_tiles(b);
    assert forall|i: int| 0 <= i < a.len() implies a[i] == b[i] by {
        if i >= tile_vals(a).len() {
            assert(a[i] is None);
            assert(b[i] is None);
        }
    }
    assert(a =~= b);
}

/// The mirror image of `lemma_packed_left_unique`.
pub proof fn lemma_packed_right_unique(a: Seq<Option<usize>>, b: Seq<Option<usize>>)
    requires
        a.len() == b.len(),
        packed_right(a),
        packed_right(b),
        tile_vals(a) == tile_vals(b),
    ensures
        a == b,
{
    lemma_packed_right_tiles(a);
    lemma_packed_right_tiles(b);
    assert forall|i: int| 0 <= i < a.len() implies a[i] == b[i] by {
        if i < a.len() - tile_vals(a).len() {
            assert(a[i] is None);
            assert(b[i] is None);
        }
    }
    assert(a =~= b);
}

/// `count_empty` lies between zero and the length, and is positive exactly
/// when some cell is empty.
pub proof fn lemma_count_empty_has(s: Seq<Option<usize>>)
    ensures
        0 <= count_empty(s) <= s.len(),
        count_empty(s) > 0 <==> has_empty(s),
    decreases s.len(),
{
    if s.len() > 0 {
        let front = s.drop_last();
        let m = s.len() - 1;
        lemma_count_empty_has(front);
        if count_empty(s) > 0 {
            if s.last() is None {
                assert(s[m] is None);
            } else {
                let i = choose|i: int| 0 <= i < front.len() && (#[trigger] front[i]) is None;
                assert(s[i] is None);
            }
        }
        if has_empty(s) {
            let i = choose|i: int| 0 <= i < s.len() && (#[trigger] s[i]) is None;
            if i < m {
                assert(front[i] is None);
            }
        }
    }
}

/// How replacing one cell changes the number of empty cells.
pub proof fn lemma_count_empty_update(s: Seq<Option<usize>>, i: int, e: Option<usize>)
    requires
        0 <= i < s.len(),
    ensures
        count_empty(s.update(i, e)) == count_empty(s) - (if s[i] is None {
            1int
        } else {
            0int
        }) + (if e is None {
            1int
        } else {
            0int
        }),
    decreases s.len(),
{
    let m = s.len() - 1;
    if i == m {
        assert(s.update(i, e).drop_last() =~= s.drop_last());
        assert(s.update(i, e).last() == e);
    } else {
        assert(s.update(i, e).drop_last() =~= s.drop_last().update(i, e));
        assert(s.update(i, e).last() == s.last());
        lemma_count_empty_update(s.drop_last(), i, e);
    }
}

/// Collects the values of the non-empty cells, in order.
#[verifier::loop_isolation(false)]
pub fn line_vals(cells: &Vec<Option<usize>>) -> (vals: Vec<usize>)
    ensures
        vals_int(vals@) == tile_vals(cells@),
        cells_fit(cells@) ==> vals_fit(vals@),
        cells_pos(cells@) ==> vals_pos(vals@),
{
    let mut vals: Vec<usize> = Vec::new();
    let n = cells.len();
    for j in 0..n
        invariant
            vals_int(vals@) == tile_vals(cells@.take(j as int)),
            cells_fit(cells@) ==> vals_fit(vals@),
            cells_pos(cells@) ==> vals_pos(vals@),
    {
        proof {
            assert(cells@.take(j + 1).drop_last() =~= cells@.take(j as int));
            assert(cells@.take(j + 1).last() == cells@[j as int]);
        }
        if let Some(a) = cells[j] {
            proof {
                lemma_vals_int_push(vals@, a);
            }
            vals.push(a);
        }
    }
    proof {
        assert(cells@.take(n as int) =~= cells@);
    }
    vals
}

/// One in-order merge pass over the collected values, wall side first:
/// the executable twin of `merge_left`.
#[verifier::loop_isolation(false)]
pub fn merge_vals(vals: &Vec<usize>) -> (out: Vec<usize>)
    requires
        vals_fit(vals@),
    ensures
        vals_int(out@) == merge_left(vals_int(vals@)),
        vals_pos(vals@) ==> vals_pos(out@),
        out@.len() <= vals@.len(),
{
    let ghost v = vals_int(vals@);
    let mut out: Vec<usize> = Vec::new();
    let mut i: usize = 0;
    proof {
        assert(v.skip(0) =~= v);
        assert(vals_int(out@) =~= Seq::<int>::empty());
        assert(vals_int(out@) + merge_left(v) =~= merge_left(v));
    }
    while i < vals.len()
        invariant
            i <= vals@.len(),
            merge_left(v) == vals_int(out@) + merge_left(v.skip(i as int)),
            out@.len() <= i,
            vals_pos(vals@) ==> vals_pos(out@),
        decreases vals@.len() - i,
    {
        if i + 1 < vals.len() && vals[i] == vals[i + 1] {
            let doubled = 2 * vals[i];
            proof {
                assert(v.skip(i as int).len() >= 2);
                assert(v.skip(i as int)[0] == v[i as int]);
                assert(v.skip(i as int)[1] == v[i as int + 1]);
                assert(v.skip(i as int).skip(2) =~= v.skip(i + 2));
                lemma_vals_int_push(out@, doubled);
                assert(vals_int(out@).push(doubled as int) + merge_left(v.skip(i + 2)) =~= vals_int(
                    out@,
                ) + (seq![2 * v[i as int]] + merge_left(v.skip(i + 2))));
            }
            out.push(doubled);
            i = i + 2;
        } else {
            let kept = vals[i];
            proof {
                assert(v.skip(i as int)[0] == v[i as int]);
                if i + 1 < vals@.len() {
                    assert(v.skip(i as int)[1] == v[i as int + 1]);
                    assert(v.skip(i as int).len() >= 2);
                } else {
                    assert(v.skip(i as int).len() == 1);
                    assert(v.skip(i as int) =~= seq![v[i as int]]);
                }
                assert(v.skip(i as int).skip(1) =~= v.skip(i + 1));
                lemma_vals_int_push(out@, kept);
                assert(vals_int(out@).push(kept as int) + merge_left(v.skip(i + 1)) =~= vals_int(
                    out@,
                ) + (seq![v[i as int]] + merge_left(v.skip(i + 1))));
            }
            out.push(kept);
            i = i + 1;
        }
    }
    proof {
        assert(v.skip(vals@.len() as int) =~= Seq::<int>::empty());
        assert(vals_int(out@) + Seq::<int>::empty() =~= vals_int(out@));
    }
    out
}

/// Lays the values back into a line of length `n`, packed against the left
/// wall, the rest of the line empty.
#[verifier::loop_isolation(false)]
pub fn pack_left(n: usize, vals: &Vec<usize>) -> (cells: Vec<Option<usize>>)
    requires
        vals@.len() <= n,
    ensures
        cells@.len() == n,
        packed_left(cells@),
        tile_vals(cells@) == vals_int(vals@),
        vals_pos(vals@) ==> cells_pos(cells@),
{
    let mut cells: Vec<Option<usize>> = Vec::new();
    let m = vals.len();
    for k in 0..m
        invariant
            cells@.len() == k,
            forall|t: int| 0 <= t < k ==> (#[trigger] cells@[t]) == Some(vals@[t]),
            tile_vals(cells@) == vals_int(vals@.take(k as int)),
    {
        proof {
            lemma_tile_vals_push(cells@, Some(vals@[k as int]));
            lemma_vals_int_push(vals@.take(k as int), vals@[k as int]);
            assert(vals@.take(k + 1) =~= vals@.take(k as int).push(vals@[k as int]));
        }
        cells.push(Some(vals[k]));
    }
    proof {
        assert(vals@.take(m as int) =~= vals@);
    }
    while cells.len() < n
        invariant
            m <= cells@.len() <= n,
            forall|t: int| 0 <= t < m ==> (#[trigger] cells@[t]) == Some(vals@[t]),
            forall|t: int| m <= t < cells@.len() ==> (#[trigger] cells@[t]) is None,
            tile_vals(cells@) == vals_int(vals@),
        decreases n - cells@.len(),
    {
        proof {
            lemma_tile_vals_push(cells@, None);
        }
        cells.push(None);
    }
    cells
}

/// Lays the values back into a line of length `n`, packed against the right
/// wall, the rest of the line empty.
#[verifier::loop_isolation(false)]
pub fn pack_right(n: usize, vals: &Vec<usize>) -> (cells: Vec<Option<usize>>)
    requires
        vals@.len() <= n,
    ensures
        cells@.len() == n,
        packed_right(cells@),
        tile_vals(cells@) == vals_int(vals@),
        vals_pos(vals@) ==> cells_pos(cells@),
{
    let mut cells: Vec<Option<usize>> = Vec::new();
    let m = vals.len();
    let pad = n - m;
    for k in 0..pad
        invariant
            cells@.len() == k,
            forall|t: int| 0 <= t < k ==> (#[trigger] cells@[t]) is None,
            tile_vals(cells@) == Seq::<int>::empty(),
    {
        proof {
            lemma_tile_vals_push(cells@, None);
        }
        cells.push(None);
    }
    for k in 0..m
        invariant
            cells@.len() == pad + k,
            forall|t: int| 0 <= t < pad ==> (#[trigger] cells@[t]) is None,
            forall|t: int| pad <= t < pad + k ==> (#[trigger] cells@[t]) == Some(vals@[t - pad]),
            tile_vals(cells@) == vals_int(vals@.take(k as int)),
    {
        proof {
            lemma_tile_vals_push(cells@, Some(vals@[k as int]));
            lemma_vals_int_push(vals@.take(k as int), vals@[k as int]);
            assert(vals@.take(k + 1) =~= vals@.take(k as int).push(vals@[k as int]));
        }
        cells.push(Some(vals[k]));
    }
    proof {
        assert(vals@.take(m as int) =~= vals@);
    }
    cells
}

/// Reverses the collected values, so that the single merge pass serves
/// both walls.
#[verifier::loop_isolation(false)]
pub fn reverse_vals(vals: &Vec<usize>) -> (out: Vec<usize>)
    ensures
        out@ == vals@.reverse(),
{
    let n = vals.len();
    let mut out: Vec<usize> = Vec::new();
    for k in 0..n
        invariant
            out@.len() == k,
            forall|t: int| 0 <= t < k ==> (#[trigger] out@[t]) == vals@[n - 1 - t],
    {
        out.push(vals[n - 1 - k]);
    }
    proof {
        assert(out@ =~= vals@.reverse());
    }
    out
}

/// One swipe toward the left wall: gather the tiles, merge once nearest the
/// wall first, and lay them back compacted against the wall.
pub fn swipe_cells_left(cells: &mut Vec<Option<usize>>)
    requires
        cells_fit(old(cells)@),
        cells_pos(old(cells)@),
    ensures
        swipe_left_rel(old(cells)@, final(cells)@),
        cells_pos(final(cells)@),
{
    let n = cells.len();
    let vals = line_vals(cells);
    let merged = merge_vals(&vals);
    proof {
        lemma_tile_vals_len(cells@);
    }
    *cells = pack_left(n, &merged);
}

/// One swipe toward the right wall: the same pass run from the other end.
pub fn swipe_cells_right(cells: &mut Vec<Option<usize>>)
    requires
        cells_fit(old(cells)@),
        cells_pos(old(cells)@),
    ensures
        swipe_right_rel(old(cells)@, final(cells)@),
        cells_pos(final(cells)@),
{
    let n = cells.len();
    let vals = line_vals(cells);
    let rev = reverse_vals(&vals);
    proof {
        assert(vals_int(rev@) =~= vals_int(vals@).reverse());
        assert forall|k: int| 0 <= k < rev@.len() implies 2 * ((#[trigger] rev@[k]) as int)
            <= usize::MAX by {
            if cells_fit(cells@) {
                assert(rev@[k] == vals@[vals@.len() - 1 - k]);
            }
        }
        assert forall|k: int| 0 <= k < rev@.len() implies (#[trigger] rev@[k]) >= 1 by {
            if cells_pos(cells@) {
                assert(rev@[k] == vals@[vals@.len() - 1 - k]);
            }
        }
    }
    let merged_rev = merge_vals(&rev);
    let merged = reverse_vals(&merged_rev);
    proof {
        assert(vals_int(merged@) =~= vals_int(merged_rev@).reverse());
        lemma_tile_vals_len(cells@);
        assert forall|k: int| 0 <= k < merged@.len() implies (#[trigger] merged@[k]) >= 1 by {
            if vals_pos(merged_rev@) {
                assert(merged@[k] == merged_rev@[merged_rev@.len() - 1 - k]);
            }
        }
    }
    *cells = pack_right(n, &merged);
}

} // verus!
