use lib_2048::data::Field;
use lib_2048::data::Row;

fn field_of(rows: Vec<Vec<Option<usize>>>) -> Field {
    let rows = rows.into_iter().map(Row::from_cells).collect();
    Field::from_rows(rows)
}

fn cells_of(f: &Field) -> Vec<Vec<Option<usize>>> {
    f.rows().iter().map(|r| r.row().clone()).collect()
}

fn column_of(f: &Field, i: usize) -> Vec<Option<usize>> {
    f.rows().iter().map(|r| r.row()[i]).collect()
}

fn grid_sum(f: &Field) -> usize {
    f.rows().iter().map(|r| r.row().iter().flatten().sum::<usize>()).sum()
}

#[test]
fn new_field_is_empty_square() {
    let f = Field::new(3);
    assert_eq!(f.rows().len(), 3);
    for r in f.rows() {
        assert_eq!(r.row(), &vec![None, None, None]);
    }
}

#[test]
fn swipe_left_acts_on_every_row() {
    let mut f = field_of(vec![
        vec![Some(2), Some(2), None, Some(2)],
        vec![Some(2), Some(2), Some(2), Some(2)],
        vec![None, Some(4), None, Some(4)],
        vec![Some(1), Some(2), Some(4), Some(8)],
    ]);
    f.swipe_left();
    assert_eq!(
        cells_of(&f),
        vec![
            vec![Some(4), Some(2), None, None],
            vec![Some(4), Some(4), None, None],
            vec![Some(8), None, None, None],
            vec![Some(1), Some(2), Some(4), Some(8)],
        ]
    );
}

#[test]
fn swipe_right_acts_on_every_row() {
    let mut f = field_of(vec![
        vec![Some(2), Some(2)],
        vec![Some(4), None],
    ]);
    f.swipe_right();
    assert_eq!(
        cells_of(&f),
        vec![vec![None, Some(4)], vec![None, Some(4)]]
    );
}

#[test]
fn swipe_up_matches_row_swipe_left_on_columns() {
    // Column 0 is seeded with the wall-first tie-break example.
    let mut f = field_of(vec![
        vec![Some(2), None, None, None],
        vec![Some(2), None, None, None],
        vec![None, None, None, None],
        vec![Some(2), None, None, None],
    ]);
    f.swipe_up();
    let mut r = Row::from_cells(vec![Some(2), Some(2), None, Some(2)]);
    r.swipe_left();
    assert_eq!(column_of(&f, 0), r.row().clone());
    for i in 1..4 {
        assert_eq!(column_of(&f, i), vec![None, None, None, None]);
    }
}

#[test]
fn swipe_down_matches_row_swipe_right_on_columns() {
    let mut f = field_of(vec![
        vec![Some(2), Some(1), None],
        vec![Some(2), None, None],
        vec![Some(2), Some(1), None],
    ]);
    f.swipe_down();
    let mut r0 = Row::from_cells(vec![Some(2), Some(2), Some(2)]);
    r0.swipe_right();
    let mut r1 = Row::from_cells(vec![Some(1), None, Some(1)]);
    r1.swipe_right();
    assert_eq!(column_of(&f, 0), r0.row().clone());
    assert_eq!(column_of(&f, 1), r1.row().clone());
    assert_eq!(column_of(&f, 2), vec![None, None, None]);
}

#[test]
fn vertical_swipe_moves_values_between_rows() {
    let mut f = field_of(vec![
        vec![None, None],
        vec![Some(2), None],
    ]);
    f.swipe_up();
    assert_eq!(
        cells_of(&f),
        vec![vec![Some(2), None], vec![None, None]]
    );
}

#[test]
fn single_merge_per_tile_in_columns() {
    let mut f = field_of(vec![
        vec![Some(2), None, None, None],
        vec![Some(2), None, None, None],
        vec![Some(2), None, None, None],
        vec![Some(2), None, None, None],
    ]);
    f.swipe_up();
    assert_eq!(column_of(&f, 0), vec![Some(4), Some(4), None, None]);
    f.swipe_down();
    assert_eq!(column_of(&f, 0), vec![None, None, None, Some(8)]);
}

#[test]
fn swipes_conserve_grid_value() {
    let mut f = field_of(vec![
        vec![Some(2), Some(2), Some(4)],
        vec![None, Some(2), Some(4)],
        vec![Some(1), Some(1), Some(2)],
    ]);
    let total = grid_sum(&f);
    f.swipe_left();
    assert_eq!(grid_sum(&f), total);
    f.swipe_up();
    assert_eq!(grid_sum(&f), total);
    f.swipe_right();
    assert_eq!(grid_sum(&f), total);
    f.swipe_down();
    assert_eq!(grid_sum(&f), total);
}

#[test]
fn grid_of_size_one_swipes_without_change() {
    let mut f = field_of(vec![vec![Some(2)]]);
    f.swipe_left();
    f.swipe_right();
    f.swipe_up();
    f.swipe_down();
    assert_eq!(cells_of(&f), vec![vec![Some(2)]]);
}

#[test]
fn print_emits_without_panicking() {
    let f = Field::new(2);
    f.print();
}
