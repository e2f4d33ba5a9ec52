use lib_2048::data::Row;

fn row_of(cells: Vec<Option<usize>>) -> Row {
    Row::from_cells(cells)
}

#[test]
fn new_row_is_empty() {
    let r = Row::new(4);
    assert_eq!(r.row(), &vec![None, None, None, None]);
    assert!(r.insertable());
}

#[test]
fn wall_first_tie_break_left() {
    // [2,2,None,2] compacts to [2,2,2,None]; the pair nearest the left wall
    // merges; final compaction closes the gap.
    let mut r = row_of(vec![Some(2), Some(2), None, Some(2)]);
    r.swipe_left();
    assert_eq!(r.row(), &vec![Some(4), Some(2), None, None]);
}

#[test]
fn single_merge_per_tile_left() {
    // Four equal tiles merge as two pairs, not into one tile.
    let mut r = row_of(vec![Some(2), Some(2), Some(2), Some(2)]);
    r.swipe_left();
    assert_eq!(r.row(), &vec![Some(4), Some(4), None, None]);
}

#[test]
fn three_equal_tiles_left() {
    let mut r = row_of(vec![Some(2), Some(2), Some(2)]);
    r.swipe_left();
    assert_eq!(r.row(), &vec![Some(4), Some(2), None]);
}

#[test]
fn three_equal_tiles_right() {
    // The pair nearest the right wall merges.
    let mut r = row_of(vec![Some(2), Some(2), Some(2)]);
    r.swipe_right();
    assert_eq!(r.row(), &vec![None, Some(2), Some(4)]);
}

#[test]
fn swipe_right_compacts_and_merges() {
    let mut r = row_of(vec![Some(2), Some(2), None, Some(2)]);
    r.swipe_right();
    assert_eq!(r.row(), &vec![None, None, Some(2), Some(4)]);
}

#[test]
fn swipe_is_not_idempotent() {
    // A second swipe in the same direction can merge tiles that only became
    // adjacent after the first one.
    let mut r = row_of(vec![Some(2), Some(2), Some(2), Some(2)]);
    r.swipe_left();
    assert_eq!(r.row(), &vec![Some(4), Some(4), None, None]);
    r.swipe_left();
    assert_eq!(r.row(), &vec![Some(8), None, None, None]);
}

#[test]
fn swipe_converges_within_length_swipes() {
    let mut r = row_of(vec![Some(2), Some(2), Some(4), Some(4), Some(8), Some(8)]);
    for _ in 0..6 {
        r.swipe_left();
    }
    let settled = r.row().clone();
    r.swipe_left();
    assert_eq!(r.row(), &settled);
}

#[test]
fn swipe_conserves_value() {
    let cells = vec![Some(2), Some(2), Some(4), None, Some(4), Some(1)];
    let before: usize = cells.iter().flatten().sum();
    let mut r = row_of(cells);
    r.swipe_left();
    let after: usize = r.row().iter().flatten().sum();
    assert_eq!(before, after);
    r.swipe_right();
    let again: usize = r.row().iter().flatten().sum();
    assert_eq!(before, again);
}

#[test]
fn unequal_tiles_do_not_merge() {
    let mut r = row_of(vec![Some(1), Some(2), None, Some(4)]);
    r.swipe_left();
    assert_eq!(r.row(), &vec![Some(1), Some(2), Some(4), None]);
}

#[test]
fn swipe_on_single_cell_row() {
    let mut r = row_of(vec![Some(2)]);
    r.swipe_left();
    assert_eq!(r.row(), &vec![Some(2)]);
    r.swipe_right();
    assert_eq!(r.row(), &vec![Some(2)]);
}

#[test]
fn row_insertable_iff_some_cell_empty() {
    let r = row_of(vec![Some(1), None, Some(2)]);
    assert!(r.insertable());
    let full = row_of(vec![Some(1), Some(2), Some(4)]);
    assert!(!full.insertable());
}

#[test]
fn row_insert_random_fills_one_empty_cell() {
    let mut r = row_of(vec![Some(4), None, Some(4), None]);
    let ok = r.insert_random();
    assert!(ok);
    let empties = r.row().iter().filter(|c| c.is_none()).count();
    assert_eq!(empties, 1);
    let fresh: Vec<usize> = r
        .row()
        .iter()
        .flatten()
        .copied()
        .filter(|v| *v == 1 || *v == 2)
        .collect();
    assert!(!fresh.is_empty());
    assert_eq!(r.row()[0], Some(4));
    assert_eq!(r.row()[2], Some(4));
}

#[test]
fn row_insert_random_fails_on_full_row() {
    let mut r = row_of(vec![Some(1), Some(2)]);
    let ok = r.insert_random();
    assert!(!ok);
    assert_eq!(r.row(), &vec![Some(1), Some(2)]);
}
