//! The Simplex tableau: an exact-rational matrix with variable names, basic
//! variables, a pivot counter, structural edits, and an undo history.
//!
//! The pivot operation is one Gauss-Jordan elimination step around a chosen
//! nonzero element: the pivot row is scaled so the pivot entry becomes one,
//! and every other row has a multiple of the scaled row subtracted so the
//! pivot column becomes an identity column.  All arithmetic is exact; a step
//! whose canonical results would not fit the 32-bit rational fields is
//! refused whole, leaving the tableau unchanged.

use crate::rational::{
    lemma_norm_canon, lemma_rat_div_one, lemma_rat_div_self, lemma_rat_mul_one_right,
    lemma_rat_mul_zero_left, lemma_rat_sub_self, lemma_rat_sub_zero_right, rat_canon, rat_div,
    rat_fits, rat_mul, rat_one, rat_sub, rat_zero, Rational,
};
use vstd::pervasive::VecAdditionalExecFns;
use vstd::prelude::*;

verus! {

/// Why a pivot request was refused.
#[derive(Clone, Copy, PartialEq, Eq, Structural, Debug)]
pub enum PivotError {
    /// The pivot row is out of range, or the pivot column is out of range or
    /// names the right-hand-side column.
    OutOfBounds,
    /// The chosen pivot element is zero.
    ZeroPivot,
    /// Some canonical result of the elimination step does not fit the 32-bit
    /// rational fields.
    Overflow,
}

/// Why a construction or structural edit was refused.
#[derive(Clone, Copy, PartialEq, Eq, Structural, Debug)]
pub enum TableauError {
    /// The supplied matrix, row or column has the wrong dimensions.
    DimensionMismatch,
    /// The variable-name or basic-variable-name list has the wrong length.
    NamingMismatch,
}

/// Why an undo request was refused.
#[derive(Clone, Copy, PartialEq, Eq, Structural, Debug)]
pub enum UndoError {
    /// The history holds no snapshot.
    NothingToUndo,
}

/// The mathematical view of one matrix row.
pub open spec fn row_view(v: Vec<Rational>) -> Seq<(int, int)> {
    v@.map(|j: int, x: Rational| x@)
}

/// The mathematical view of a whole matrix.
pub open spec fn rows_view(m: Vec<Vec<Rational>>) -> Seq<Seq<(int, int)>> {
    m@.map(|i: int, row: Vec<Rational>| row_view(row))
}

/// The mathematical view of a list of names.
pub open spec fn names_view(v: Vec<String>) -> Seq<Seq<char>> {
    v@.map(|i: int, s: String| s@)
}

/// A well-formed matrix view: at least one row and one column, rectangular,
/// every cell canonical.
pub open spec fn mat_wf(m: Seq<Seq<(int, int)>>) -> bool {
    &&& m.len() >= 1
    &&& m[0].len() >= 1
    &&& forall|i: int| 0 <= i < m.len() ==> (#[trigger] m[i]).len() == m[0].len()
    &&& forall|i: int, j: int|
        0 <= i < m.len() && 0 <= j < m[i].len() ==> rat_canon(#[trigger] m[i][j])
}

/// A pivot position is applicable: the row exists, the column exists and is
/// not the right-hand-side column, and the pivot element is nonzero.
pub open spec fn pivot_applicable(m: Seq<Seq<(int, int)>>, r: int, c: int) -> bool {
    &&& 0 <= r < m.len()
    &&& 0 <= c
    &&& c + 1 < m[0].len()
    &&& m[r][c].0 != 0
}

/// The cell at `(i, j)` after a Gauss-Jordan pivot at `(r, c)`: the pivot row
/// is divided by the pivot element, and from every other row the multiple of
/// the scaled pivot row given by that row's pivot-column entry is subtracted.
pub open spec fn pivot_cell(m: Seq<Seq<(int, int)>>, r: int, c: int, i: int, j: int) -> (
    int,
    int,
) {
    if i == r {
        rat_div(m[r][j], m[r][c])
    } else {
        rat_sub(m[i][j], rat_mul(m[i][c], rat_div(m[r][j], m[r][c])))
    }
}

/// The whole matrix after a Gauss-Jordan pivot at `(r, c)`.
pub open spec fn pivot_mat(m: Seq<Seq<(int, int)>>, r: int, c: int) -> Seq<Seq<(int, int)>> {
    Seq::new(m.len(), |i: int| Seq::new(m[i].len(), |j: int| pivot_cell(m, r, c, i, j)))
}

/// Every canonical result of the pivot step at `(r, c)`, including the
/// intermediate products, fits the 32-bit rational fields.
pub open spec fn pivot_fits(m: Seq<Seq<(int, int)>>, r: int, c: int) -> bool {
    forall|i: int, j: int|
        0 <= i < m.len() && 0 <= j < m[i].len() ==> {
            &&& rat_fits(#[trigger] pivot_cell(m, r, c, i, j))
            &&& (i != r ==> rat_fits(rat_mul(m[i][c], rat_div(m[r][j], m[r][c]))))
        }
}

/// A pivot keeps the matrix well-formed: the shape is unchanged and every
/// resulting cell is again canonical.
pub proof fn lemma_pivot_preserves_wf(m: Seq<Seq<(int, int)>>, r: int, c: int)
    requires
        mat_wf(m),
        pivot_applicable(m, r, c),
    ensures
        mat_wf(pivot_mat(m, r, c)),
        pivot_mat(m, r, c).len() == m.len(),
        forall|i: int|
            0 <= i < m.len() ==> (#[trigger] pivot_mat(m, r, c)[i]).len() == m[i].len(),
{
    let pm = pivot_mat(m, r, c);
    let p = m[r][c];
    assert forall|i: int, j: int| 0 <= i < pm.len() && 0 <= j < pm[i].len() implies rat_canon(
        #[trigger] pm[i][j],
    ) by {
        assert(m[i].len() == m[0].len());
        assert(pm[i][j] == pivot_cell(m, r, c, i, j));
        assert(m[r][j].1 * p.0 != 0) by (nonlinear_arith)
            requires
                m[r][j].1 >= 1,
                p.0 != 0,
        ;
        lemma_norm_canon(m[r][j].0 * p.1, m[r][j].1 * p.0);
        if i != r {
            let s = rat_div(m[r][j], p);
            assert(m[i][c].1 * s.1 >= 1) by (nonlinear_arith)
                requires
                    m[i][c].1 >= 1,
                    s.1 >= 1,
            ;
            lemma_norm_canon(m[i][c].0 * s.0, m[i][c].1 * s.1);
            let t = rat_mul(m[i][c], s);
            assert(m[i][j].1 * t.1 >= 1) by (nonlinear_arith)
                requires
                    m[i][j].1 >= 1,
                    t.1 >= 1,
            ;
            lemma_norm_canon(m[i][j].0 * t.1 - t.0 * m[i][j].1, m[i][j].1 * t.1);
        }
    }
}

/// After a pivot at `(r, c)`, column `c` is the identity column for row `r`:
/// exactly one at `(r, c)` and exactly zero everywhere else in the column.
pub proof fn lemma_pivot_identity_column(m: Seq<Seq<(int, int)>>, r: int, c: int)
    requires
        mat_wf(m),
        pivot_applicable(m, r, c),
    ensures
        forall|i: int|
            0 <= i < m.len() ==> #[trigger] pivot_mat(m, r, c)[i][c] == if i == r {
                rat_one()
            } else {
                rat_zero()
            },
{
    let p = m[r][c];
    lemma_rat_div_self(p);
    assert forall|i: int| 0 <= i < m.len() implies #[trigger] pivot_mat(m, r, c)[i][c] == (if i
        == r {
        rat_one()
    } else {
        rat_zero()
    }) by {
        assert(m[i].len() == m[0].len());
        assert(pivot_mat(m, r, c)[i][c] == pivot_cell(m, r, c, i, c));
        if i != r {
            lemma_rat_mul_one_right(m[i][c]);
            lemma_rat_sub_self(m[i][c]);
        }
    }
}

/// Pivoting a second time on the same cell leaves the matrix unchanged: the
/// pivot element is already one and the rest of its column already zero, so
/// the scaling and the eliminations are all identities.  (A second pivot does
/// not in general restore the matrix from before the first one.)
pub proof fn lemma_pivot_same_cell_idempotent(m: Seq<Seq<(int, int)>>, r: int, c: int)
    requires
        mat_wf(m),
        pivot_applicable(m, r, c),
    ensures
        pivot_applicable(pivot_mat(m, r, c), r, c),
        pivot_mat(pivot_mat(m, r, c), r, c) == pivot_mat(m, r, c),
{
    let m1 = pivot_mat(m, r, c);
    lemma_pivot_preserves_wf(m, r, c);
    lemma_pivot_identity_column(m, r, c);
    assert(m1[r][c] == rat_one());
    assert forall|i: int, j: int|
        0 <= i < m1.len() && 0 <= j < m1[i].len() implies #[trigger] pivot_cell(m1, r, c, i, j)
        == m1[i][j] by {
        assert(m1[i].len() == m[i].len() && m[i].len() == m[0].len());
        assert(rat_canon(m1[i][j]) && rat_canon(m1[r][j]));
        lemma_rat_div_one(m1[r][j]);
        if i != r {
            assert(m1[i][c] == rat_zero());
            lemma_rat_mul_zero_left(m1[r][j]);
            lemma_rat_sub_zero_right(m1[i][j]);
        }
    }
    assert(pivot_mat(m1, r, c) =~~= m1);
}

/// The dimensions a constructor was asked for: at least one row and column,
/// and a matrix of exactly that shape.
pub open spec fn dims_ok(rows: int, cols: int, m: Seq<Seq<(int, int)>>) -> bool {
    &&& rows >= 1
    &&& cols >= 1
    &&& m.len() == rows
    &&& forall|i: int| 0 <= i < m.len() ==> (#[trigger] m[i]).len() == cols
}

/// Name lists that match the matrix shape: one variable name per column but
/// the right-hand side, one basic-variable name per row.
pub open spec fn names_ok(rows: int, cols: int, vars: Seq<Seq<char>>, basics: Seq<Seq<char>>) -> bool {
    &&& vars.len() == cols - 1
    &&& basics.len() == rows
}

/// Two tableaus with the same mathematical content.
pub open spec fn same_tableau(a: Tableau, b: Tableau) -> bool {
    &&& a.mat() == b.mat()
    &&& a.vars() == b.vars()
    &&& a.basics() == b.basics()
    &&& a.pivots_done() == b.pivots_done()
}

/// An independent copy of a row of rationals.
fn clone_row(v: &Vec<Rational>) -> (r: Vec<Rational>)
    ensures
        r@ == v@,
{
    let mut r: Vec<Rational> = Vec::new();
    let mut i: usize = 0;
    while i < v.len()
        invariant
            i <= v@.len(),
            r@.len() == i,
            forall|k: int| 0 <= k < i ==> #[trigger] r@[k] == v@[k],
        decreases v@.len() - i,
    {
        r.push(v[i]);
        i += 1;
    }
    proof {
        assert(r@ =~= v@);
    }
    r
}

/// An independent copy of a list of names.
fn clone_names(v: &Vec<String>) -> (r: Vec<String>)
    ensures
        r@ == v@,
{
    let mut r: Vec<String> = Vec::new();
    let mut i: usize = 0;
    while i < v.len()
        invariant
            i <= v@.len(),
            r@.len() == i,
            forall|k: int| 0 <= k < i ==> #[trigger] r@[k] == v@[k],
        decreases v@.len() - i,
    {
        let s: &String = &v[i];
        r.push(s.clone());
        i += 1;
    }
    proof {
        assert(r@ =~= v@);
    }
    r
}

/// A Simplex tableau: a well-formed matrix of exact rationals, the variable
/// name of every column but the right-hand side, the basic variable of every
/// row, and the number of pivots performed so far.
pub struct Tableau {
    matrix: Vec<Vec<Rational>>,
    var_names: Vec<String>,
    basic_vars: Vec<String>,
    iteration: usize,
}

impl Tableau {
    /// The mathematical view of the matrix.
    pub closed spec fn mat(self) -> Seq<Seq<(int, int)>> {
        rows_view(self.matrix)
    }

    /// The views of the variable names.
    pub closed spec fn vars(self) -> Seq<Seq<char>> {
        names_view(self.var_names)
    }

    /// The views of the basic-variable names, one per row.
    pub closed spec fn basics(self) -> Seq<Seq<char>> {
        names_view(self.basic_vars)
    }

    /// How many pivots have been performed on this tableau.
    pub closed spec fn pivots_done(self) -> int {
        self.iteration as int
    }

    /// The structural invariant: a well-formed matrix and matching name lists.
    pub open spec fn wf(self) -> bool {
        &&& mat_wf(self.mat())
        &&& self.vars().len() == self.mat()[0].len() - 1
        &&& self.basics().len() == self.mat().len()
    }

    /// Build a tableau from an initial matrix (objective row included) and
    /// its name lists.  The matrix must have exactly `rows` rows of exactly
    /// `cols` columns, with at least one of each; the name lists must match.
    pub fn new(
        rows: usize,
        cols: usize,
        initial: Vec<Vec<Rational>>,
        var_names: Vec<String>,
        basic_var_names: Vec<String>,
    ) -> (r: Result<Tableau, TableauError>)
        requires
            forall|i: int, j: int|
                0 <= i < initial@.len() && 0 <= j < initial@[i]@.len() ==> (#[trigger] initial@[i]@[j]).wf(),
        ensures
            !dims_ok(rows as int, cols as int, rows_view(initial)) ==> r == Err::<
                Tableau,
                TableauError,
            >(TableauError::DimensionMismatch),
            dims_ok(rows as int, cols as int, rows_view(initial)) && !names_ok(
                rows as int,
                cols as int,
                names_view(var_names),
                names_view(basic_var_names),
            ) ==> r == Err::<Tableau, TableauError>(TableauError::NamingMismatch),
            dims_ok(rows as int, cols as int, rows_view(initial)) && names_ok(
                rows as int,
                cols as int,
                names_view(var_names),
                names_view(basic_var_names),
            ) ==> (r matches Ok(t) && t.wf() && t.mat() == rows_view(initial) && t.vars()
                == names_view(var_names) && t.basics() == names_view(basic_var_names)
                && t.pivots_done() == 0),
    {
        if rows == 0 || cols == 0 || initial.len() != rows {
            return Err(TableauError::DimensionMismatch);
        }
        let mut i: usize = 0;
        while i < rows
            invariant
                i <= rows,
                rows >= 1,
                cols >= 1,
                initial@.len() == rows,
                forall|k: int| 0 <= k < i ==> (#[trigger] rows_view(initial)[k]).len() == cols,
            decreases rows - i,
        {
            let row: &Vec<Rational> = &initial[i];
            if row.len() != cols {
                proof {
                    assert(rows_view(initial)[i as int].len() == initial@[i as int]@.len());
                }
                return Err(TableauError::DimensionMismatch);
            }
            proof {
                assert(rows_view(initial)[i as int].len() == initial@[i as int]@.len());
            }
            i += 1;
        }
        if var_names.len() != cols - 1 || basic_var_names.len() != rows {
            return Err(TableauError::NamingMismatch);
        }
        let t = Tableau {
            matrix: initial,
            var_names,
            basic_vars: basic_var_names,
            iteration: 0,
        };
        proof {
            assert forall|a: int, b: int|
                0 <= a < t.mat().len() && 0 <= b < t.mat()[a].len() implies rat_canon(
                #[trigger] t.mat()[a][b],
            ) by {
                assert(t.mat()[a] == row_view(t.matrix@[a]));
                assert(t.mat()[a][b] == t.matrix@[a]@[b]@);
            }
        }
        Ok(t)
    }

    /// How many rows the tableau has.
    pub fn num_rows(&self) -> (r: usize)
        requires
            self.wf(),
        ensures
            r == self.mat().len(),
    {
        self.matrix.len()
    }

    /// How many columns the tableau has (right-hand side included).
    pub fn num_cols(&self) -> (r: usize)
        requires
            self.wf(),
        ensures
            r == self.mat()[0].len(),
    {
        let row0: &Vec<Rational> = &self.matrix[0];
        proof {
            assert(self.mat()[0] == row_view(self.matrix@[0]));
        }
        row0.len()
    }

    /// The cell at row `i`, column `j`.
    pub fn cell(&self, i: usize, j: usize) -> (r: Rational)
        requires
            self.wf(),
            i < self.mat().len(),
            j < self.mat()[0].len(),
        ensures
            r@ == self.mat()[i as int][j as int],
            r.wf(),
    {
        proof {
            assert(self.mat()[i as int] == row_view(self.matrix@[i as int]));
            assert(self.mat()[i as int].len() == self.mat()[0].len());
        }
        let row: &Vec<Rational> = &self.matrix[i];
        row[j]
    }

    /// How many pivots have been performed.
    pub fn iteration(&self) -> (r: usize)
        ensures
            r == self.pivots_done(),
    {
        self.iteration
    }

    /// The variable name of column `j` (not the right-hand side).
    pub fn var_name(&self, j: usize) -> (r: String)
        requires
            self.wf(),
            j < self.vars().len(),
        ensures
            r@ == self.vars()[j as int],
    {
        let s: &String = &self.var_names[j];
        s.clone()
    }

    /// The basic-variable name of row `i`.
    pub fn basic_var(&self, i: usize) -> (r: String)
        requires
            self.wf(),
            i < self.basics().len(),
        ensures
            r@ == self.basics()[i as int],
    {
        let s: &String = &self.basic_vars[i];
        s.clone()
    }

    /// An independent copy of this tableau, used for undo snapshots.
    pub fn duplicate(&self) -> (r: Tableau)
        requires
            self.wf(),
        ensures
            r.wf(),
            same_tableau(r, *self),
    {
        let mut mat2: Vec<Vec<Rational>> = Vec::new();
        let mut i: usize = 0;
        while i < self.matrix.len()
            invariant
                i <= self.matrix@.len(),
                mat2@.len() == i,
                forall|k: int| 0 <= k < i ==> #[trigger] mat2@[k]@ == self.matrix@[k]@,
            decreases self.matrix@.len() - i,
        {
            let row: &Vec<Rational> = &self.matrix[i];
            mat2.push(clone_row(row));
            i += 1;
        }
        let r = Tableau {
            matrix: mat2,
            var_names: clone_names(&self.var_names),
            basic_vars: clone_names(&self.basic_vars),
            iteration: self.iteration,
        };
        proof {
            assert forall|k: int| 0 <= k < r.mat().len() implies #[trigger] r.mat()[k]
                == self.mat()[k] by {
                assert(r.mat()[k] == row_view(r.matrix@[k]));
                assert(self.mat()[k] == row_view(self.matrix@[k]));
            }
            assert(r.mat() =~= self.mat());
        }
        r
    }

    /// One Gauss-Jordan pivot step around `(pivot_row, pivot_col)`.
    ///
    /// Fails with `OutOfBounds` when the row does not exist or the column
    /// does not exist or is the right-hand-side column; with `ZeroPivot` when
    /// the pivot element is zero; and with `Overflow` when some exact result
    /// of the step does not fit the 32-bit rational fields.  On any failure
    /// the tableau is unchanged.  On success the matrix becomes the pivoted
    /// matrix, the pivot column becomes the identity column for the pivot
    /// row, the pivot row's basic variable becomes the pivot column's
    /// variable, and the iteration counter increases by one.
    pub fn pivot(&mut self, pivot_row: usize, pivot_col: usize) -> (r: Result<(), PivotError>)
        requires
            old(self).wf(),
            old(self).pivots_done() < usize::MAX,
        ensures
            final(self).wf(),
            !(pivot_row < old(self).mat().len() && pivot_col + 1 < old(self).mat()[0].len()) ==> (r
                == Err::<(), PivotError>(PivotError::OutOfBounds) && *final(self) == *old(self)),
            (pivot_row < old(self).mat().len() && pivot_col + 1 < old(self).mat()[0].len())
                && old(self).mat()[pivot_row as int][pivot_col as int].0 == 0 ==> (r == Err::<
                (),
                PivotError,
            >(PivotError::ZeroPivot) && *final(self) == *old(self)),
            pivot_applicable(old(self).mat(), pivot_row as int, pivot_col as int) && !pivot_fits(
                old(self).mat(),
                pivot_row as int,
                pivot_col as int,
            ) ==> (r == Err::<(), PivotError>(PivotError::Overflow) && *final(self) == *old(self)),
            pivot_applicable(old(self).mat(), pivot_row as int, pivot_col as int) && pivot_fits(
                old(self).mat(),
                pivot_row as int,
                pivot_col as int,
            ) ==> {
                &&& r == Ok::<(), PivotError>(())
                &&& final(self).mat() == pivot_mat(
                    old(self).mat(),
                    pivot_row as int,
                    pivot_col as int,
                )
                &&& final(self).vars() == old(self).vars()
                &&& final(self).basics() == old(self).basics().update(
                    pivot_row as int,
                    old(self).vars()[pivot_col as int],
                )
                &&& final(self).pivots_done() == old(self).pivots_done() + 1
                &&& forall|i: int|
                    0 <= i < final(self).mat().len() ==> #[trigger] final(self).mat()[i][pivot_col as int]
                        == if i == pivot_row as int {
                        rat_one()
                    } else {
                        rat_zero()
                    }
            },
    {
        let ghost m0 = old(self).mat();
        let ghost ri = pivot_row as int;
        let ghost ci = pivot_col as int;
        let n = self.matrix.len();
        let mcols = self.num_cols();
        if !(pivot_row < n && pivot_col < mcols - 1) {
            return Err(PivotError::OutOfBounds);
        }
        let p = self.cell(pivot_row, pivot_col);
        if p.is_zero() {
            return Err(PivotError::ZeroPivot);
        }
        proof {
            assert(pivot_applicable(m0, ri, ci));
        }
        let mut scaled: Vec<Rational> = Vec::new();
        let mut j: usize = 0;
        while j < mcols
            invariant
                *self == *old(self),
                self.wf(),
                m0 == self.mat(),
                ri == pivot_row as int,
                ci == pivot_col as int,
                n == m0.len(),
                mcols == m0[0].len(),
                pivot_applicable(m0, ri, ci),
                p.wf(),
                p@ == m0[ri][ci],
                j <= mcols,
                scaled@.len() == j,
                forall|k: int|
                    0 <= k < j ==> ((#[trigger] scaled@[k]).wf() && scaled@[k]@ == pivot_cell(
                        m0,
                        ri,
                        ci,
                        ri,
                        k,
                    ) && rat_fits(pivot_cell(m0, ri, ci, ri, k))),
            decreases mcols - j,
        {
            let x = self.cell(pivot_row, j);
            proof {
                assert(m0[ri].len() == m0[0].len());
            }
            match x.checked_div(p) {
                Some(q) => {
                    scaled.push(q);
                },
                None => {
                    proof {
                        assert(!rat_fits(pivot_cell(m0, ri, ci, ri, j as int)));
                        assert(!pivot_fits(m0, ri, ci));
                    }
                    return Err(PivotError::Overflow);
                },
            }
            j += 1;
        }
        let mut newm: Vec<Vec<Rational>> = Vec::new();
        let mut i: usize = 0;
        while i < n
            invariant
                *self == *old(self),
                self.wf(),
                m0 == self.mat(),
                ri == pivot_row as int,
                ci == pivot_col as int,
                n == m0.len(),
                mcols == m0[0].len(),
                pivot_applicable(m0, ri, ci),
                p.wf(),
                p@ == m0[ri][ci],
                scaled@.len() == mcols,
                forall|k: int|
                    0 <= k < mcols ==> ((#[trigger] scaled@[k]).wf() && scaled@[k]@ == pivot_cell(
                        m0,
                        ri,
                        ci,
                        ri,
                        k,
                    ) && rat_fits(pivot_cell(m0, ri, ci, ri, k))),
                i <= n,
                newm@.len() == i,
                forall|a: int| 0 <= a < i ==> (#[trigger] newm@[a]@).len() == mcols,
                forall|a: int, b: int|
                    0 <= a < i && 0 <= b < mcols ==> ((#[trigger] newm@[a]@[b]).wf() && newm@[a]@[b]@
                        == pivot_cell(m0, ri, ci, a, b) && rat_fits(pivot_cell(m0, ri, ci, a, b))),
                forall|a: int, b: int|
                    0 <= a < i && 0 <= b < mcols && a != ri ==> rat_fits(
                        #[trigger] rat_mul(m0[a][ci], rat_div(m0[ri][b], m0[ri][ci])),
                    ),
            decreases n - i,
        {
            if i == pivot_row {
                let row = clone_row(&scaled);
                newm.push(row);
                proof {
                    assert forall|b: int| 0 <= b < mcols implies ((#[trigger] newm@[i as int]@[b]).wf()
                        && newm@[i as int]@[b]@ == pivot_cell(m0, ri, ci, i as int, b) && rat_fits(
                        pivot_cell(m0, ri, ci, i as int, b),
                    )) by {
                        assert(newm@[i as int]@[b] == scaled@[b]);
                    }
                }
            } else {
                let f = self.cell(i, pivot_col);
                proof {
                    assert(m0[i as int].len() == m0[0].len());
                }
                let mut row: Vec<Rational> = Vec::new();
                let mut j2: usize = 0;
                while j2 < mcols
                    invariant
                        *self == *old(self),
                        self.wf(),
                        m0 == self.mat(),
                        ri == pivot_row as int,
                        ci == pivot_col as int,
                        n == m0.len(),
                        mcols == m0[0].len(),
                        pivot_applicable(m0, ri, ci),
                        i < n,
                        i != pivot_row,
                        f.wf(),
                        f@ == m0[i as int][ci],
                        scaled@.len() == mcols,
                        forall|k: int|
                            0 <= k < mcols ==> ((#[trigger] scaled@[k]).wf() && scaled@[k]@
                                == pivot_cell(m0, ri, ci, ri, k) && rat_fits(
                                pivot_cell(m0, ri, ci, ri, k),
                            )),
                        j2 <= mcols,
                        row@.len() == j2,
                        forall|b: int|
                            0 <= b < j2 ==> ((#[trigger] row@[b]).wf() && row@[b]@ == pivot_cell(
                                m0,
                                ri,
                                ci,
                                i as int,
                                b,
                            ) && rat_fits(pivot_cell(m0, ri, ci, i as int, b)) && rat_fits(
                                rat_mul(m0[i as int][ci], rat_div(m0[ri][b], m0[ri][ci])),
                            )),
                    decreases mcols - j2,
                {
                    proof {
                        assert(m0[ri].len() == m0[0].len());
                        assert(m0[i as int].len() == m0[0].len());
                    }
                    let t = match f.checked_mul(scaled[j2]) {
                        Some(t) => t,
                        None => {
                            proof {
                                assert(scaled@[j2 as int]@ == pivot_cell(m0, ri, ci, ri, j2 as int));
                                assert(!rat_fits(
                                    rat_mul(m0[i as int][ci], rat_div(m0[ri][j2 as int], m0[ri][ci])),
                                ));
                                assert(!pivot_fits(m0, ri, ci)) by {
                                    if pivot_fits(m0, ri, ci) {
                                        assert(rat_fits(
                                            pivot_cell(m0, ri, ci, i as int, j2 as int),
                                        ));
                                        assert(rat_fits(
                                            rat_mul(
                                                m0[i as int][ci],
                                                rat_div(m0[ri][j2 as int], m0[ri][ci]),
                                            ),
                                        ));
                                    }
                                }
                            }
                            return Err(PivotError::Overflow);
                        },
                    };
                    let v = match self.cell(i, j2).checked_sub(t) {
                        Some(v) => v,
                        None => {
                            proof {
                                assert(scaled@[j2 as int]@ == pivot_cell(m0, ri, ci, ri, j2 as int));
                                assert(!rat_fits(pivot_cell(m0, ri, ci, i as int, j2 as int)));
                                assert(!pivot_fits(m0, ri, ci)) by {
                                    if pivot_fits(m0, ri, ci) {
                                        assert(rat_fits(
                                            pivot_cell(m0, ri, ci, i as int, j2 as int),
                                        ));
                                    }
                                }
                            }
                            return Err(PivotError::Overflow);
                        },
                    };
                    row.push(v);
                    j2 += 1;
                }
                proof {
                    assert forall|b: int| 0 <= b < mcols implies rat_fits(
                        #[trigger] rat_mul(m0[i as int][ci], rat_div(m0[ri][b], m0[ri][ci])),
                    ) by {
                        assert(row@[b]@ == pivot_cell(m0, ri, ci, i as int, b));
                    }
                }
                newm.push(row);
                proof {
                    assert forall|b: int| 0 <= b < mcols implies ((#[trigger] newm@[i as int]@[b]).wf()
                        && newm@[i as int]@[b]@ == pivot_cell(m0, ri, ci, i as int, b) && rat_fits(
                        pivot_cell(m0, ri, ci, i as int, b),
                    )) by {
                        assert(newm@[i as int]@[b] == row@[b]);
                    }
                }
            }
            i += 1;
        }
        proof {
            assert forall|a: int, b: int|
                0 <= a < m0.len() && 0 <= b < m0[a].len() implies (rat_fits(
                #[trigger] pivot_cell(m0, ri, ci, a, b),
            ) && (a != ri ==> rat_fits(rat_mul(m0[a][ci], rat_div(m0[ri][b], m0[ri][ci]))))) by {
                assert(m0[a].len() == m0[0].len());
                if a == ri {
                    assert(scaled@[b]@ == pivot_cell(m0, ri, ci, ri, b));
                } else {
                    assert(newm@[a]@[b]@ == pivot_cell(m0, ri, ci, a, b));
                }
            }
            assert(pivot_fits(m0, ri, ci));
            lemma_pivot_preserves_wf(m0, ri, ci);
            lemma_pivot_identity_column(m0, ri, ci);
        }
        self.matrix = newm;
        let name = {
            let s: &String = &self.var_names[pivot_col];
            s.clone()
        };
        self.basic_vars.set(pivot_row, name);
        self.iteration = self.iteration + 1;
        proof {
            assert forall|a: int| 0 <= a < self.mat().len() implies #[trigger] self.mat()[a]
                == pivot_mat(m0, ri, ci)[a] by {
                assert(self.mat()[a] == row_view(self.matrix@[a]));
                assert forall|b: int| 0 <= b < mcols implies self.mat()[a][b] == pivot_mat(
                    m0,
                    ri,
                    ci,
                )[a][b] by {
                    assert(self.mat()[a][b] == self.matrix@[a]@[b]@);
                }
                assert(self.mat()[a] =~= pivot_mat(m0, ri, ci)[a]);
            }
            assert(self.mat() =~= pivot_mat(m0, ri, ci));
            assert(self.basics() =~= old(self).basics().update(ri, old(self).vars()[ci]));
        }
        Ok(())
    }

    /// Append a constraint row (with the basic-variable name of the new row).
    /// Fails with `DimensionMismatch`, leaving the tableau unchanged, when
    /// the row's length is not the tableau's column count.
    pub fn add_constraint(&mut self, new_row: Vec<Rational>, basic_name: String) -> (r: Result<
        (),
        TableauError,
    >)
        requires
            old(self).wf(),
            forall|j: int| 0 <= j < new_row@.len() ==> (#[trigger] new_row@[j]).wf(),
        ensures
            final(self).wf(),
            new_row@.len() != old(self).mat()[0].len() ==> (r == Err::<(), TableauError>(
                TableauError::DimensionMismatch,
            ) && *final(self) == *old(self)),
            new_row@.len() == old(self).mat()[0].len() ==> {
                &&& r == Ok::<(), TableauError>(())
                &&& final(self).mat() == old(self).mat().push(row_view(new_row))
                &&& final(self).basics() == old(self).basics().push(basic_name@)
                &&& final(self).vars() == old(self).vars()
                &&& final(self).pivots_done() == old(self).pivots_done()
            },
    {
        let cols = self.num_cols();
        if new_row.len() != cols {
            return Err(TableauError::DimensionMismatch);
        }
        let ghost old_mat = self.mat();
        let ghost row_v = row_view(new_row);
        self.matrix.push(new_row);
        self.basic_vars.push(basic_name);
        proof {
            assert forall|a: int| 0 <= a < self.mat().len() implies #[trigger] self.mat()[a]
                == old_mat.push(row_v)[a] by {
                assert(self.mat()[a] == row_view(self.matrix@[a]));
                if a < old_mat.len() {
                    assert(old_mat[a] == row_view(self.matrix@[a]));
                }
            }
            assert(self.mat() =~= old_mat.push(row_v));
            assert(self.basics() =~= old(self).basics().push(basic_name@));
        }
        Ok(())
    }

    /// Insert a variable column immediately before the right-hand-side
    /// column (with the new variable's name).  Fails with
    /// `DimensionMismatch`, leaving the tableau unchanged, when the column's
    /// length is not the tableau's row count.
    pub fn add_variable(&mut self, column: Vec<Rational>, name: String) -> (r: Result<
        (),
        TableauError,
    >)
        requires
            old(self).wf(),
            forall|i: int| 0 <= i < column@.len() ==> (#[trigger] column@[i]).wf(),
        ensures
            final(self).wf(),
            column@.len() != old(self).mat().len() ==> (r == Err::<(), TableauError>(
                TableauError::DimensionMismatch,
            ) && *final(self) == *old(self)),
            column@.len() == old(self).mat().len() ==> {
                &&& r == Ok::<(), TableauError>(())
                &&& final(self).mat().len() == old(self).mat().len()
                &&& forall|i: int|
                    0 <= i < old(self).mat().len() ==> #[trigger] final(self).mat()[i]
                        == old(self).mat()[i].insert(old(self).mat()[0].len() - 1, column@[i]@)
                &&& final(self).vars() == old(self).vars().push(name@)
                &&& final(self).basics() == old(self).basics()
                &&& final(self).pivots_done() == old(self).pivots_done()
            },
    {
        let n = self.matrix.len();
        if column.len() != n {
            return Err(TableauError::DimensionMismatch);
        }
        let ghost m0 = self.mat();
        let cols = self.num_cols();
        let mut newm: Vec<Vec<Rational>> = Vec::new();
        let mut i: usize = 0;
        while i < n
            invariant
                *self == *old(self),
                self.wf(),
                m0 == self.mat(),
                n == m0.len(),
                cols == m0[0].len(),
                column@.len() == n,
                forall|k: int| 0 <= k < column@.len() ==> (#[trigger] column@[k]).wf(),
                i <= n,
                newm@.len() == i,
                forall|a: int|
                    0 <= a < i ==> #[trigger] row_view(newm@[a]) == m0[a].insert(
                        cols - 1,
                        column@[a]@,
                    ),
                forall|a: int, b: int|
                    0 <= a < i && 0 <= b < newm@[a]@.len() ==> (#[trigger] newm@[a]@[b]).wf(),
            decreases n - i,
        {
            proof {
                assert(m0[i as int].len() == m0[0].len());
            }
            let mut row: Vec<Rational> = Vec::new();
            let mut j: usize = 0;
            while j < cols - 1
                invariant
                    *self == *old(self),
                    self.wf(),
                    m0 == self.mat(),
                    n == m0.len(),
                    cols == m0[0].len(),
                    i < n,
                    m0[i as int].len() == cols,
                    j <= cols - 1,
                    row@.len() == j,
                    forall|b: int|
                        0 <= b < j ==> ((#[trigger] row@[b]).wf() && row@[b]@ == m0[i as int][b]),
                decreases cols - 1 - j,
            {
                row.push(self.cell(i, j));
                j += 1;
            }
            row.push(column[i]);
            row.push(self.cell(i, cols - 1));
            newm.push(row);
            proof {
                assert(row_view(newm@[i as int]) =~= m0[i as int].insert(
                    cols - 1,
                    column@[i as int]@,
                ));
            }
            i += 1;
        }
        self.matrix = newm;
        self.var_names.push(name);
        proof {
            assert forall|a: int| 0 <= a < self.mat().len() implies (#[trigger] self.mat()[a]).len()
                == self.mat()[0].len() && self.mat()[a] == m0[a].insert(
                cols - 1,
                column@[a]@,
            ) by {
                assert(self.mat()[a] == row_view(self.matrix@[a]));
                assert(self.mat()[0] == row_view(self.matrix@[0]));
                assert(m0[a].len() == m0[0].len());
            }
            assert forall|a: int, b: int|
                0 <= a < self.mat().len() && 0 <= b < self.mat()[a].len() implies rat_canon(
                #[trigger] self.mat()[a][b],
            ) by {
                assert(self.mat()[a] == row_view(self.matrix@[a]));
                assert(self.mat()[a][b] == self.matrix@[a]@[b]@);
            }
            assert(self.vars() =~= old(self).vars().push(name@));
        }
        Ok(())
    }
}

/// What `undo` yields on a given history: the most recent snapshot, or
/// `NothingToUndo` when the history is empty.
pub open spec fn undo_result(h: History) -> Result<Tableau, UndoError> {
    if h.stack().len() == 0 {
        Err(UndoError::NothingToUndo)
    } else {
        Ok(h.stack().last())
    }
}

/// Undo law: on an empty history `undo` reports `NothingToUndo`; otherwise
/// it yields exactly the most recent snapshot, so an `undo` right after a
/// pivot restores the tableau saved just before that pivot.
pub proof fn lemma_undo_behaviour(h: History)
    ensures
        h.stack().len() == 0 ==> undo_result(h) == Err::<Tableau, UndoError>(
            UndoError::NothingToUndo,
        ),
        h.stack().len() > 0 ==> undo_result(h) == Ok::<Tableau, UndoError>(h.stack().last()),
{
}

/// The undo history: a stack of tableau snapshots, most recent on top.
pub struct History {
    snapshots: Vec<Tableau>,
}

impl History {
    /// The stack of snapshots, oldest first.
    pub closed spec fn stack(self) -> Seq<Tableau> {
        self.snapshots@
    }

    /// Every snapshot on the stack is a well-formed tableau.
    pub open spec fn wf(self) -> bool {
        forall|i: int| 0 <= i < self.stack().len() ==> (#[trigger] self.stack()[i]).wf()
    }

    /// An empty history.
    pub fn new() -> (h: History)
        ensures
            h.wf(),
            h.stack() == Seq::<Tableau>::empty(),
    {
        History { snapshots: Vec::new() }
    }

    /// Push a snapshot of the given tableau; call before a mutating
    /// operation so that `undo` can restore the state before it.
    pub fn push_snapshot(&mut self, t: &Tableau)
        requires
            old(self).wf(),
            t.wf(),
        ensures
            final(self).wf(),
            final(self).stack().len() == old(self).stack().len() + 1,
            forall|i: int|
                0 <= i < old(self).stack().len() ==> #[trigger] final(self).stack()[i] == old(
                    self,
                ).stack()[i],
            same_tableau(final(self).stack().last(), *t),
    {
        let snap = t.duplicate();
        self.snapshots.push(snap);
    }

    /// Pop and return the most recent snapshot, or report `NothingToUndo`
    /// on an empty history (which is left unchanged).
    pub fn undo(&mut self) -> (r: Result<Tableau, UndoError>)
        requires
            old(self).wf(),
        ensures
            final(self).wf(),
            r == undo_result(*old(self)),
            old(self).stack().len() == 0 ==> final(self).stack() == old(self).stack(),
            old(self).stack().len() > 0 ==> final(self).stack() == old(self).stack().drop_last(),
            r matches Ok(t) ==> t.wf(),
    {
        match self.snapshots.pop() {
            Some(t) => Ok(t),
            None => Err(UndoError::NothingToUndo),
        }
    }
}

} // verus!
