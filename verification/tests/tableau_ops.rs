use rational_tableau::rational::Rational;
use rational_tableau::tableau::{History, PivotError, Tableau, TableauError, UndoError};

fn rat(n: i32, d: i32) -> Rational {
    Rational::new(n, d).unwrap()
}

fn int_row(vals: &[i32]) -> Vec<Rational> {
    vals.iter().map(|v| rat(*v, 1)).collect()
}

fn names(list: &[&str]) -> Vec<String> {
    list.iter().map(|s| s.to_string()).collect()
}

/// The two-row tableau of the worked scenario: [[1,2,0,4],[0,1,1,3]] with
/// variables x, y, s1.
fn scenario_tableau() -> Tableau {
    Tableau::new(
        2,
        4,
        vec![int_row(&[1, 2, 0, 4]), int_row(&[0, 1, 1, 3])],
        names(&["x", "y", "s1"]),
        names(&["b0", "b1"]),
    )
    .unwrap()
}

fn matrix_of(t: &Tableau) -> Vec<Vec<Rational>> {
    let mut rows = Vec::new();
    for i in 0..t.num_rows() {
        let mut row = Vec::new();
        for j in 0..t.num_cols() {
            row.push(t.cell(i, j));
        }
        rows.push(row);
    }
    rows
}

#[test]
fn new_validates_dimensions() {
    let bad_rows = Tableau::new(
        3,
        4,
        vec![int_row(&[1, 2, 0, 4]), int_row(&[0, 1, 1, 3])],
        names(&["x", "y", "s1"]),
        names(&["b0", "b1", "b2"]),
    );
    assert_eq!(bad_rows.err(), Some(TableauError::DimensionMismatch));
    let bad_cols = Tableau::new(
        2,
        4,
        vec![int_row(&[1, 2, 0, 4]), int_row(&[0, 1, 1])],
        names(&["x", "y", "s1"]),
        names(&["b0", "b1"]),
    );
    assert_eq!(bad_cols.err(), Some(TableauError::DimensionMismatch));
    let empty = Tableau::new(0, 4, vec![], names(&["x", "y", "s1"]), names(&[]));
    assert_eq!(empty.err(), Some(TableauError::DimensionMismatch));
}

#[test]
fn new_validates_names() {
    let bad_vars = Tableau::new(
        2,
        4,
        vec![int_row(&[1, 2, 0, 4]), int_row(&[0, 1, 1, 3])],
        names(&["x", "y"]),
        names(&["b0", "b1"]),
    );
    assert_eq!(bad_vars.err(), Some(TableauError::NamingMismatch));
    let bad_basics = Tableau::new(
        2,
        4,
        vec![int_row(&[1, 2, 0, 4]), int_row(&[0, 1, 1, 3])],
        names(&["x", "y", "s1"]),
        names(&["b0"]),
    );
    assert_eq!(bad_basics.err(), Some(TableauError::NamingMismatch));
}

#[test]
fn new_starts_at_iteration_zero() {
    let t = scenario_tableau();
    assert_eq!(t.iteration(), 0);
    assert_eq!(t.num_rows(), 2);
    assert_eq!(t.num_cols(), 4);
    assert_eq!(t.var_name(0), "x");
    assert_eq!(t.basic_var(1), "b1");
}

#[test]
fn pivot_scenario_already_unit_column() {
    // Pivot at (0,0): the pivot element is already 1 and the other row's
    // entry in column 0 is already 0, so the matrix is unchanged and the
    // basic variable of row 0 becomes "x".
    let mut t = scenario_tableau();
    assert_eq!(t.pivot(0, 0), Ok(()));
    assert_eq!(matrix_of(&t), vec![int_row(&[1, 2, 0, 4]), int_row(&[0, 1, 1, 3])]);
    assert_eq!(t.basic_var(0), "x");
    assert_eq!(t.basic_var(1), "b1");
    assert_eq!(t.iteration(), 1);
}

#[test]
fn pivot_eliminates_column_exactly() {
    // Pivot at (0,1): scale row 0 by 1/2, then clear column 1 in row 1.
    let mut t = scenario_tableau();
    assert_eq!(t.pivot(0, 1), Ok(()));
    assert_eq!(
        matrix_of(&t),
        vec![
            vec![rat(1, 2), rat(1, 1), rat(0, 1), rat(2, 1)],
            vec![rat(-1, 2), rat(0, 1), rat(1, 1), rat(1, 1)],
        ]
    );
    assert_eq!(t.basic_var(0), "y");
    assert_eq!(t.iteration(), 1);
}

#[test]
fn pivot_column_becomes_identity() {
    let mut t = Tableau::new(
        2,
        3,
        vec![int_row(&[2, 1, 4]), int_row(&[1, 1, 3])],
        names(&["x", "y"]),
        names(&["b0", "b1"]),
    )
    .unwrap();
    assert_eq!(t.pivot(0, 0), Ok(()));
    assert_eq!(t.cell(0, 0), rat(1, 1));
    assert_eq!(t.cell(1, 0), rat(0, 1));
    assert_eq!(
        matrix_of(&t),
        vec![
            vec![rat(1, 1), rat(1, 2), rat(2, 1)],
            vec![rat(0, 1), rat(1, 2), rat(1, 1)],
        ]
    );
}

#[test]
fn pivot_same_cell_twice_is_idempotent() {
    let mut t = Tableau::new(
        2,
        3,
        vec![int_row(&[2, 1, 4]), int_row(&[1, 1, 3])],
        names(&["x", "y"]),
        names(&["b0", "b1"]),
    )
    .unwrap();
    assert_eq!(t.pivot(0, 0), Ok(()));
    let once = matrix_of(&t);
    assert_eq!(t.pivot(0, 0), Ok(()));
    assert_eq!(matrix_of(&t), once);
    assert_eq!(t.iteration(), 2);
}

#[test]
fn pivot_rejects_out_of_bounds() {
    let mut t = scenario_tableau();
    assert_eq!(t.pivot(2, 0), Err(PivotError::OutOfBounds));
    // The right-hand-side column (index 3) may not be pivoted on.
    assert_eq!(t.pivot(0, 3), Err(PivotError::OutOfBounds));
    assert_eq!(t.pivot(0, 7), Err(PivotError::OutOfBounds));
    assert_eq!(matrix_of(&t), vec![int_row(&[1, 2, 0, 4]), int_row(&[0, 1, 1, 3])]);
    assert_eq!(t.iteration(), 0);
}

#[test]
fn pivot_rejects_zero_pivot() {
    let mut t = scenario_tableau();
    assert_eq!(t.pivot(1, 0), Err(PivotError::ZeroPivot));
    assert_eq!(matrix_of(&t), vec![int_row(&[1, 2, 0, 4]), int_row(&[0, 1, 1, 3])]);
    assert_eq!(t.iteration(), 0);
}

#[test]
fn pivot_overflow_leaves_tableau_unchanged() {
    // 2^30 / (1/3) = 3 * 2^30, which does not fit an i32 numerator.
    let mut t = Tableau::new(
        1,
        2,
        vec![vec![rat(1, 3), rat(1073741824, 1)]],
        names(&["x"]),
        names(&["b0"]),
    )
    .unwrap();
    assert_eq!(t.pivot(0, 0), Err(PivotError::Overflow));
    assert_eq!(t.cell(0, 0), rat(1, 3));
    assert_eq!(t.cell(0, 1), rat(1073741824, 1));
    assert_eq!(t.iteration(), 0);
}

#[test]
fn add_constraint_appends_row() {
    let mut t = scenario_tableau();
    assert_eq!(t.add_constraint(int_row(&[1, 0, 0, 5]), "b2".to_string()), Ok(()));
    assert_eq!(t.num_rows(), 3);
    assert_eq!(
        matrix_of(&t),
        vec![int_row(&[1, 2, 0, 4]), int_row(&[0, 1, 1, 3]), int_row(&[1, 0, 0, 5])]
    );
    assert_eq!(t.basic_var(2), "b2");
}

#[test]
fn add_constraint_rejects_wrong_length() {
    // A row of the wrong length always fails and the tableau is unchanged.
    let mut t = scenario_tableau();
    assert_eq!(
        t.add_constraint(int_row(&[1, 0, 0]), "b2".to_string()),
        Err(TableauError::DimensionMismatch)
    );
    assert_eq!(
        t.add_constraint(int_row(&[1, 0, 0, 5, 6]), "b2".to_string()),
        Err(TableauError::DimensionMismatch)
    );
    assert_eq!(t.num_rows(), 2);
    assert_eq!(matrix_of(&t), vec![int_row(&[1, 2, 0, 4]), int_row(&[0, 1, 1, 3])]);
}

#[test]
fn add_variable_inserts_before_rhs() {
    let mut t = scenario_tableau();
    assert_eq!(t.add_variable(int_row(&[7, 8]), "s2".to_string()), Ok(()));
    assert_eq!(t.num_cols(), 5);
    assert_eq!(
        matrix_of(&t),
        vec![int_row(&[1, 2, 0, 7, 4]), int_row(&[0, 1, 1, 8, 3])]
    );
    assert_eq!(t.var_name(3), "s2");
}

#[test]
fn add_variable_rejects_wrong_length() {
    let mut t = scenario_tableau();
    assert_eq!(
        t.add_variable(int_row(&[7]), "s2".to_string()),
        Err(TableauError::DimensionMismatch)
    );
    assert_eq!(t.num_cols(), 4);
    assert_eq!(matrix_of(&t), vec![int_row(&[1, 2, 0, 4]), int_row(&[0, 1, 1, 3])]);
}

#[test]
fn undo_on_empty_history() {
    let mut h = History::new();
    assert_eq!(h.undo().err(), Some(UndoError::NothingToUndo));
}

#[test]
fn undo_restores_pre_pivot_matrix() {
    let mut t = scenario_tableau();
    let mut h = History::new();
    h.push_snapshot(&t);
    assert_eq!(t.pivot(0, 1), Ok(()));
    assert_ne!(matrix_of(&t), vec![int_row(&[1, 2, 0, 4]), int_row(&[0, 1, 1, 3])]);
    let restored = h.undo().unwrap();
    assert_eq!(matrix_of(&restored), vec![int_row(&[1, 2, 0, 4]), int_row(&[0, 1, 1, 3])]);
    assert_eq!(restored.iteration(), 0);
    assert_eq!(restored.basic_var(0), "b0");
    assert_eq!(h.undo().err(), Some(UndoError::NothingToUndo));
}

#[test]
fn display_rows_render_canonical_text() {
    let mut t = scenario_tableau();
    assert_eq!(t.pivot(0, 1), Ok(()));
    let rows = t.display_rows();
    assert_eq!(rows.len(), 2);
    assert_eq!(rows[0], vec!["1/2", "1", "0", "2"]);
    assert_eq!(rows[1], vec!["-1/2", "0", "1", "1"]);
}
