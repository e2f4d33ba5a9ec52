use lib_2048::data::Field;
use lib_2048::data::Row;

fn field_of(rows: Vec<Vec<Option<usize>>>) -> Field {
    let rows = rows.into_iter().map(Row::from_cells).collect();
    Field::from_rows(rows)
}

fn empty_count(f: &Field) -> usize {
    f.rows().iter().map(|r| r.row().iter().filter(|c| c.is_none()).count()).sum()
}

#[test]
fn grid_insertable_iff_some_cell_empty() {
    let f = field_of(vec![
        vec![Some(1), Some(2)],
        vec![Some(4), None],
    ]);
    assert!(f.insertable());
    let full = field_of(vec![
        vec![Some(1), Some(2)],
        vec![Some(4), Some(8)],
    ]);
    assert!(!full.insertable());
}

#[test]
fn insert_fills_exactly_one_empty_cell_with_one_or_two() {
    let mut f = field_of(vec![
        vec![Some(4), None, Some(4)],
        vec![None, Some(8), None],
        vec![Some(4), Some(8), Some(16)],
    ]);
    let before = empty_count(&f);
    let ok = f.insert_random();
    assert!(ok);
    assert_eq!(empty_count(&f), before - 1);
    let mut fresh = 0;
    for r in f.rows() {
        for c in r.row() {
            if let Some(v) = c {
                if *v == 1 || *v == 2 {
                    fresh += 1;
                }
            }
        }
    }
    assert_eq!(fresh, 1);
    // Previously occupied cells are untouched.
    assert_eq!(f.rows()[0].row()[0], Some(4));
    assert_eq!(f.rows()[1].row()[1], Some(8));
    assert_eq!(f.rows()[2].row(), &vec![Some(4), Some(8), Some(16)]);
}

#[test]
fn insert_fails_on_full_grid_and_changes_nothing() {
    let mut f = field_of(vec![
        vec![Some(1), Some(2)],
        vec![Some(4), Some(8)],
    ]);
    let ok = f.insert_random();
    assert!(!ok);
    assert_eq!(f.rows()[0].row(), &vec![Some(1), Some(2)]);
    assert_eq!(f.rows()[1].row(), &vec![Some(4), Some(8)]);
}

#[test]
fn insert_into_last_free_cell_then_fail() {
    let mut f = Field::new(1);
    assert!(f.insertable());
    assert!(f.insert_random());
    assert!(!f.insertable());
    assert!(!f.insert_random());
    let v = f.rows()[0].row()[0];
    assert!(v == Some(1) || v == Some(2));
}

#[test]
fn repeated_inserts_fill_the_grid() {
    let mut f = Field::new(3);
    for _ in 0..9 {
        assert!(f.insert_random());
    }
    assert!(!f.insertable());
    assert_eq!(empty_count(&f), 0);
    for r in f.rows() {
        for c in r.row() {
            let v = c.expect("cell must be filled");
            assert!(v == 1 || v == 2);
        }
    }
}

#[test]
fn insert_prefers_no_cell_outside_chosen_row_policy() {
    // One row is nearly full, the other wide open; insertion still lands in
    // an empty cell and only one cell changes.
    let mut f = field_of(vec![
        vec![Some(4), Some(4), None],
        vec![None, None, None],
        vec![Some(8), Some(8), Some(8)],
    ]);
    let before = empty_count(&f);
    assert!(f.insert_random());
    assert_eq!(empty_count(&f), before - 1);
    assert_eq!(f.rows()[2].row(), &vec![Some(8), Some(8), Some(8)]);
}
