//! Dense matrices over a field: construction from row-major data, products
//! with vectors and matrices, and the echelon form and the rank by
//! elimination.
//!
//! Elimination goes through the columns from the left. In each column the
//! pivot is the first row, among those that have not served as a pivot yet,
//! with an entry other than zero; a pivot row is taken out and the column is
//! cleared from the rows that remain, which keep their order. Entries are
//! compared with zero exactly.

use vstd::prelude::*;
use crate::error::TopologyError;
use crate::rings::{Field, Ring};

verus! {

/// The sum of the products of corresponding entries, over the length of `a`.
pub open spec fn dot<F: Ring>(a: Seq<F>, b: Seq<F>) -> F
    decreases a.len(),
{
    if a.len() == 0 {
        F::spec_zero()
    } else {
        dot(a.drop_last(), b).spec_add(a.last().spec_mul(b[a.len() - 1]))
    }
}

/// The entries of the rows in column `k`.
pub open spec fn column<F>(rows: Seq<Seq<F>>, k: int) -> Seq<F> {
    Seq::new(rows.len(), |j: int| rows[j][k])
}

/// Every row has `width` entries.
pub open spec fn rectangular<F>(rows: Seq<Seq<F>>, width: nat) -> bool {
    forall|i: int| 0 <= i < rows.len() ==> (#[trigger] rows[i]).len() == width
}

/// The first row from `from` on whose entry in column `c` is not zero.
pub open spec fn first_nonzero<F: Ring>(rows: Seq<Seq<F>>, c: int, from: nat) -> Option<int>
    decreases rows.len() - from,
{
    if from >= rows.len() {
        None
    } else if rows[from as int][c] != F::spec_zero() {
        Some(from as int)
    } else {
        first_nonzero(rows, c, from + 1)
    }
}

/// The row less the multiple of the pivot row that clears its column `c`.
pub open spec fn reduce_row<F: Field>(row: Seq<F>, pivot: Seq<F>, c: int) -> Seq<F> {
    let factor = row[c].spec_mul(pivot[c].spec_inv());
    Seq::new(row.len(), |k: int| row[k].spec_add(factor.spec_mul(pivot[k]).spec_neg()))
}

/// All rows reduced by the pivot row.
pub open spec fn eliminate<F: Field>(rows: Seq<Seq<F>>, pivot: Seq<F>, c: int) -> Seq<Seq<F>> {
    Seq::new(rows.len(), |i: int| reduce_row(rows[i], pivot, c))
}

/// The number of pivots that elimination finds from column `c` on.
pub open spec fn rank_from<F: Field>(rows: Seq<Seq<F>>, c: nat, width: nat) -> nat
    decreases width - c,
{
    if c >= width {
        0
    } else {
        match first_nonzero(rows, c as int, 0) {
            None => rank_from(rows, c + 1, width),
            Some(r) => 1 + rank_from(eliminate(rows.remove(r), rows[r], c as int), c + 1, width),
        }
    }
}

/// The pivot rows that elimination finds from column `c` on, each as it is
/// when it is taken out, in the order in which they are found.
pub open spec fn pivot_rows<F: Field>(rows: Seq<Seq<F>>, c: nat, width: nat) -> Seq<Seq<F>>
    decreases width - c,
{
    if c >= width {
        Seq::empty()
    } else {
        match first_nonzero(rows, c as int, 0) {
            None => pivot_rows(rows, c + 1, width),
            Some(r) => seq![rows[r]] + pivot_rows(
                eliminate(rows.remove(r), rows[r], c as int),
                c + 1,
                width,
            ),
        }
    }
}

/// The columns in which elimination finds a pivot from column `c` on, in
/// increasing order.
pub open spec fn pivot_columns<F: Field>(rows: Seq<Seq<F>>, c: nat, width: nat) -> Seq<int>
    decreases width - c,
{
    if c >= width {
        Seq::empty()
    } else {
        match first_nonzero(rows, c as int, 0) {
            None => pivot_columns(rows, c + 1, width),
            Some(r) => seq![c as int] + pivot_columns(
                eliminate(rows.remove(r), rows[r], c as int),
                c + 1,
                width,
            ),
        }
    }
}

/// The rank of the matrix with the given rows of the given width.
pub open spec fn spec_rank<F: Field>(rows: Seq<Seq<F>>, width: nat) -> nat {
    rank_from(rows, 0, width)
}

/// Where `first_nonzero` finds a row, it is in range, its entry is not zero,
/// and the entries of the rows before it, from `from` on, are zero; where it
/// finds none, all entries from `from` on are zero.
pub proof fn lemma_first_nonzero<F: Ring>(rows: Seq<Seq<F>>, c: int, from: nat)
    ensures
        match first_nonzero(rows, c, from) {
            Some(r) => from <= r < rows.len() && rows[r][c] != F::spec_zero() && forall|i: int|
                from <= i < r ==> (#[trigger] rows[i])[c] == F::spec_zero(),
            None => forall|i: int| from <= i < rows.len() ==> (#[trigger] rows[i])[c]
                == F::spec_zero(),
        },
    decreases rows.len() - from,
{
    if from < rows.len() && rows[from as int][c] == F::spec_zero() {
        lemma_first_nonzero(rows, c, from + 1);
    }
}

/// The rank is at most the number of rows and at most the number of columns
/// that are left.
pub proof fn lemma_rank_bounds<F: Field>(rows: Seq<Seq<F>>, c: nat, width: nat)
    ensures
        rank_from(rows, c, width) <= rows.len(),
        c <= width ==> rank_from(rows, c, width) <= width - c,
    decreases width - c,
{
    if c < width {
        lemma_first_nonzero(rows, c as int, 0);
        match first_nonzero(rows, c as int, 0) {
            None => {
                lemma_rank_bounds(rows, c + 1, width);
            },
            Some(r) => {
                lemma_rank_bounds(eliminate(rows.remove(r), rows[r], c as int), c + 1, width);
            },
        }
    }
}

/// There are as many pivot rows, and as many pivot columns, as elimination
/// counts pivots.
pub proof fn lemma_pivots_count<F: Field>(rows: Seq<Seq<F>>, c: nat, width: nat)
    ensures
        pivot_rows(rows, c, width).len() == rank_from(rows, c, width),
        pivot_columns(rows, c, width).len() == rank_from(rows, c, width),
    decreases width - c,
{
    if c < width {
        match first_nonzero(rows, c as int, 0) {
            None => {
                lemma_pivots_count(rows, c + 1, width);
            },
            Some(r) => {
                lemma_pivots_count(eliminate(rows.remove(r), rows[r], c as int), c + 1, width);
            },
        }
    }
}

/// A matrix with entries in a field, stored row by row.
pub struct Matrix<F: Field> {
    rows: usize,
    cols: usize,
    data: Vec<Vec<F>>,
}

impl<F: Field> View for Matrix<F> {
    type V = Seq<Seq<F>>;

    closed spec fn view(&self) -> Seq<Seq<F>> {
        Seq::new(self.data@.len(), |i: int| self.data@[i]@)
    }
}

/// The rows of a vector of vectors.
pub open spec fn rows_of<F>(data: Seq<Vec<F>>) -> Seq<Seq<F>> {
    Seq::new(data.len(), |i: int| data[i]@)
}

impl<F: Field> Matrix<F> {
    pub closed spec fn spec_rows(&self) -> nat {
        self.rows as nat
    }

    pub closed spec fn spec_cols(&self) -> nat {
        self.cols as nat
    }

    /// The matrix has as many rows as it says, each as wide as it says.
    pub open spec fn wf(&self) -> bool {
        &&& self@.len() == self.spec_rows()
        &&& rectangular(self@, self.spec_cols())
    }

    /// The matrix of the given shape whose entries are all zero.
    pub fn zeros(rows: usize, cols: usize) -> (m: Self)
        ensures
            m.wf(),
            m.spec_rows() == rows,
            m.spec_cols() == cols,
            forall|i: int, j: int| 0 <= i < rows && 0 <= j < cols ==> m@[i][j] == F::spec_zero(),
    {
        let mut data: Vec<Vec<F>> = Vec::new();
        let mut i: usize = 0;
        while i < rows
            invariant
                i <= rows,
                data@.len() == i,
                forall|a: int| 0 <= a < i ==> (#[trigger] data@[a])@.len() == cols,
                forall|a: int, b: int|
                    0 <= a < i && 0 <= b < cols ==> (#[trigger] data@[a]@[b]) == F::spec_zero(),
            decreases rows - i,
        {
            let mut row: Vec<F> = Vec::new();
            let mut j: usize = 0;
            while j < cols
                invariant
                    j <= cols,
                    row@.len() == j,
                    forall|b: int| 0 <= b < j ==> row@[b] == F::spec_zero(),
                decreases cols - j,
            {
                row.push(F::zero());
                j = j + 1;
            }
            data.push(row);
            i = i + 1;
        }
        Matrix { rows, cols, data }
    }

    /// The matrix of the given shape whose entries are those of `entries`,
    /// row after row. Fails unless there are `rows * cols` of them.
    pub fn from_row_major(rows: usize, cols: usize, entries: Vec<F>) -> (made: Result<
        Self,
        TopologyError,
    >)
        ensures
            made is Ok <==> entries@.len() == rows * cols,
            made matches Err(e) ==> e == TopologyError::DimensionMismatch,
            made matches Ok(m) ==> {
                &&& m.wf()
                &&& m.spec_rows() == rows
                &&& m.spec_cols() == cols
                &&& forall|i: int, j: int|
                    0 <= i < rows && 0 <= j < cols ==> m@[i][j] == entries@[i * cols + j]
            },
    {
        let mut data: Vec<Vec<F>> = Vec::new();
        let total = entries.len();
        let mut used: usize = 0;
        let mut i: usize = 0;
        while i < rows
            invariant
                i <= rows,
                total == entries@.len(),
                used == i * cols,
                used <= entries@.len(),
                data@.len() == i,
                forall|a: int| 0 <= a < i ==> (#[trigger] data@[a])@.len() == cols,
                forall|a: int, b: int|
                    0 <= a < i && 0 <= b < cols ==> (#[trigger] data@[a]@[b]) == entries@[a * cols
                        + b],
            decreases rows - i,
        {
            if total - used < cols {
                proof {
                    assert(entries@.len() < (i + 1) * cols) by (nonlinear_arith)
                        requires
                            used == i * cols,
                            entries@.len() - used < cols,
                    ;
                    assert((i + 1) * cols <= rows * cols) by (nonlinear_arith)
                        requires
                            i + 1 <= rows,
                    ;
                }
                return Err(TopologyError::DimensionMismatch);
            }
            let mut row: Vec<F> = Vec::new();
            let mut j: usize = 0;
            while j < cols
                invariant
                    j <= cols,
                    total == entries@.len(),
                    used + cols <= total,
                    used == i * cols,
                    row@.len() == j,
                    forall|b: int| 0 <= b < j ==> row@[b] == entries@[i * cols + b],
                decreases cols - j,
            {
                row.push(entries[used + j]);
                j = j + 1;
            }
            data.push(row);
            proof {
                assert((i + 1) * cols == i * cols + cols) by (nonlinear_arith);
            }
            used = used + cols;
            i = i + 1;
        }
        if used != total {
            return Err(TopologyError::DimensionMismatch);
        }
        Ok(Matrix { rows, cols, data })
    }

    /// The number of rows.
    pub fn rows(&self) -> (n: usize)
        ensures
            n == self.spec_rows(),
    {
        self.rows
    }

    /// The number of columns.
    pub fn cols(&self) -> (n: usize)
        ensures
            n == self.spec_cols(),
    {
        self.cols
    }

    /// The entry in row `i` and column `j`.
    pub fn get(&self, i: usize, j: usize) -> (a: F)
        requires
            self.wf(),
            i < self.spec_rows(),
            j < self.spec_cols(),
        ensures
            a == self@[i as int][j as int],
    {
        assert(self@[i as int].len() == self.spec_cols());
        self.data[i][j]
    }

    /// Puts `a` in row `i` and column `j`.
    pub fn set(&mut self, i: usize, j: usize, a: F)
        requires
            old(self).wf(),
            i < old(self).spec_rows(),
            j < old(self).spec_cols(),
        ensures
            final(self).wf(),
            final(self).spec_rows() == old(self).spec_rows(),
            final(self).spec_cols() == old(self).spec_cols(),
            final(self)@ == old(self)@.update(i as int, old(self)@[i as int].update(j as int, a)),
    {
        assert(self@[i as int].len() == self.spec_cols());
        let ghost before = self@;
        self.data[i].set(j, a);
        assert(self@ =~= before.update(i as int, before[i as int].update(j as int, a))) by {
            assert forall|k: int| 0 <= k < self@.len() implies self@[k] == before.update(
                i as int,
                before[i as int].update(j as int, a),
            )[k] by {
                if k != i {
                    assert(self@[k] == before[k]);
                }
            }
        }
    }

    /// The product of the matrix with a column vector. Fails unless the
    /// vector has as many entries as the matrix has columns.
    pub fn apply(&self, v: &Vec<F>) -> (product: Result<Vec<F>, TopologyError>)
        requires
            self.wf(),
        ensures
            product is Ok <==> v@.len() == self.spec_cols(),
            product matches Err(e) ==> e == TopologyError::DimensionMismatch,
            product matches Ok(w) ==> w@.len() == self.spec_rows() && forall|i: int|
                0 <= i < w@.len() ==> w@[i] == dot(#[trigger] self@[i], v@),
    {
        if v.len() != self.cols {
            return Err(TopologyError::DimensionMismatch);
        }
        let mut w: Vec<F> = Vec::new();
        let mut i: usize = 0;
        while i < self.rows
            invariant
                self.wf(),
                i <= self.rows,
                self.data@.len() == self.rows,
                v@.len() == self.cols,
                w@.len() == i,
                forall|a: int| 0 <= a < i ==> w@[a] == dot(#[trigger] self@[a], v@),
            decreases self.rows - i,
        {
            let row = &self.data[i];
            assert(row@ == self@[i as int]);
            let mut sum = F::zero();
            let mut j: usize = 0;
            while j < self.cols
                invariant
                    j <= self.cols,
                    row@.len() == self.cols,
                    v@.len() == self.cols,
                    sum == dot(row@.take(j as int), v@),
                decreases self.cols - j,
            {
                assert(row@.take(j + 1).drop_last() =~= row@.take(j as int));
                sum = sum.add(row[j].mul(v[j]));
                j = j + 1;
            }
            assert(row@.take(self.cols as int) =~= row@);
            w.push(sum);
            i = i + 1;
        }
        Ok(w)
    }

    /// The first of the given rows whose entry in column `c` is not zero.
    fn find_pivot(work: &Vec<Vec<F>>, c: usize) -> (at: Option<usize>)
        requires
            forall|i: int| 0 <= i < work@.len() ==> c < (#[trigger] work@[i])@.len(),
        ensures
            match at {
                Some(r) => first_nonzero(rows_of(work@), c as int, 0) == Some(r as int),
                None => first_nonzero(rows_of(work@), c as int, 0) == None::<int>,
            },
    {
        let mut r: usize = 0;
        while r < work.len()
            invariant
                r <= work@.len(),
                forall|i: int| 0 <= i < work@.len() ==> c < (#[trigger] work@[i])@.len(),
                first_nonzero(rows_of(work@), c as int, 0) == first_nonzero(
                    rows_of(work@),
                    c as int,
                    r as nat,
                ),
            decreases work.len() - r,
        {
            assert(rows_of(work@)[r as int] == work@[r as int]@);
            if !work[r][c].is_zero() {
                return Some(r);
            }
            r = r + 1;
        }
        None
    }

    /// The given rows, each reduced by the pivot row so that its entry in
    /// column `c` is cleared.
    fn clear_column(work: &Vec<Vec<F>>, pivot: &Vec<F>, c: usize, width: usize) -> (cleared: Vec<
        Vec<F>,
    >)
        requires
            c < width,
            pivot@.len() == width,
            pivot@[c as int] != F::spec_zero(),
            rectangular(rows_of(work@), width as nat),
        ensures
            rows_of(cleared@) == eliminate(rows_of(work@), pivot@, c as int),
            rectangular(rows_of(cleared@), width as nat),
    {
        let inverse = pivot[c].multiplicative_inverse();
        let mut cleared: Vec<Vec<F>> = Vec::new();
        let mut i: usize = 0;
        while i < work.len()
            invariant
                i <= work@.len(),
                c < width,
                pivot@.len() == width,
                inverse == pivot@[c as int].spec_inv(),
                rectangular(rows_of(work@), width as nat),
                cleared@.len() == i,
                forall|a: int|
                    0 <= a < i ==> (#[trigger] cleared@[a])@ == reduce_row(
                        work@[a]@,
                        pivot@,
                        c as int,
                    ),
            decreases work.len() - i,
        {
            let row = &work[i];
            assert(rows_of(work@)[i as int] == row@);
            let factor = row[c].mul(inverse);
            let mut reduced: Vec<F> = Vec::new();
            let mut k: usize = 0;
            while k < width
                invariant
                    k <= width,
                    row@.len() == width,
                    pivot@.len() == width,
                    reduced@.len() == k,
                    forall|b: int|
                        0 <= b < k ==> reduced@[b] == row@[b].spec_add(
                            factor.spec_mul(pivot@[b]).spec_neg(),
                        ),
                decreases width - k,
            {
                reduced.push(row[k].sub(factor.mul(pivot[k])));
                k = k + 1;
            }
            assert(reduced@ =~= reduce_row(row@, pivot@, c as int));
            cleared.push(reduced);
            i = i + 1;
        }
        proof {
            assert(rows_of(cleared@) =~= eliminate(rows_of(work@), pivot@, c as int)) by {
                assert forall|a: int| 0 <= a < cleared@.len() implies rows_of(cleared@)[a]
                    == eliminate(rows_of(work@), pivot@, c as int)[a] by {
                    assert(rows_of(work@)[a] == work@[a]@);
                }
            }
            assert forall|a: int| 0 <= a < rows_of(cleared@).len() implies (#[trigger] rows_of(
                cleared@,
            )[a]).len() == width by {
                assert(rows_of(work@)[a].len() == width);
            }
        }
        cleared
    }

    /// The echelon form of the matrix and its pivot columns: the pivot rows
    /// that elimination finds, from the top in the order in which it finds
    /// them, and for each the column of its pivot.
    pub fn echelon(&self) -> (form: (Matrix<F>, Vec<usize>))
        requires
            self.wf(),
        ensures
            form.0.wf(),
            form.0.spec_cols() == self.spec_cols(),
            form.0.spec_rows() == spec_rank(self@, self.spec_cols()),
            form.0@ == pivot_rows(self@, 0, self.spec_cols()),
            form.1@.len() == spec_rank(self@, self.spec_cols()),
            forall|i: int|
                0 <= i < form.1@.len() ==> form.1@[i] == pivot_columns(
                    self@,
                    0,
                    self.spec_cols(),
                )[i],
    {
        let mut work: Vec<Vec<F>> = Vec::new();
        let mut i: usize = 0;
        while i < self.data.len()
            invariant
                i <= self.data@.len(),
                work@.len() == i,
                forall|a: int| 0 <= a < i ==> (#[trigger] work@[a])@ == self.data@[a]@,
            decreases self.data.len() - i,
        {
            let source = &self.data[i];
            let mut row: Vec<F> = Vec::new();
            let mut k: usize = 0;
            while k < source.len()
                invariant
                    k <= source@.len(),
                    row@ == source@.take(k as int),
                decreases source.len() - k,
            {
                row.push(source[k]);
                assert(source@.take(k + 1) =~= source@.take(k as int).push(source@[k as int]));
                k = k + 1;
            }
            assert(source@.take(source@.len() as int) =~= source@);
            work.push(row);
            i = i + 1;
        }
        assert(rows_of(work@) =~= self@);
        let ghost width = self.cols as nat;
        proof {
            lemma_rank_bounds(self@, 0, width);
            lemma_pivots_count(self@, 0, width);
        }
        let mut stairs: Vec<Vec<F>> = Vec::new();
        let mut pivots: Vec<usize> = Vec::new();
        let mut c: usize = 0;
        while c < self.cols
            invariant
                c <= self.cols,
                width == self.cols,
                rectangular(rows_of(work@), width),
                rectangular(rows_of(stairs@), width),
                rows_of(stairs@) + pivot_rows(rows_of(work@), c as nat, width) == pivot_rows(
                    self@,
                    0,
                    width,
                ),
                pivots@.map_values(|p: usize| p as int) + pivot_columns(
                    rows_of(work@),
                    c as nat,
                    width,
                ) == pivot_columns(self@, 0, width),
            decreases self.cols - c,
        {
            assert forall|a: int| 0 <= a < work@.len() implies c < (#[trigger] work@[a])@.len() by {
                assert(rows_of(work@)[a] == work@[a]@);
            }
            match Self::find_pivot(&work, c) {
                None => {},
                Some(r) => {
                    proof {
                        lemma_first_nonzero(rows_of(work@), c as int, 0);
                    }
                    let ghost before = rows_of(work@);
                    let ghost above = rows_of(stairs@);
                    let ghost left = pivots@.map_values(|p: usize| p as int);
                    let pivot = work.remove(r);
                    proof {
                        assert(rows_of(work@) =~= before.remove(r as int));
                        assert(pivot@ == before[r as int]);
                    }
                    work = Self::clear_column(&work, &pivot, c, self.cols);
                    stairs.push(pivot);
                    pivots.push(c);
                    proof {
                        let rest = pivot_rows(rows_of(work@), (c + 1) as nat, width);
                        let right = pivot_columns(rows_of(work@), (c + 1) as nat, width);
                        assert(rows_of(stairs@) =~= above.push(before[r as int]));
                        assert(above.push(before[r as int]) + rest =~= above + (seq![
                            before[r as int],
                        ] + rest));
                        assert(pivots@.map_values(|p: usize| p as int) =~= left.push(c as int));
                        assert(left.push(c as int) + right =~= left + (seq![c as int] + right));
                    }
                },
            }
            c = c + 1;
        }
        proof {
            assert(rows_of(stairs@) =~= pivot_rows(self@, 0, width));
            assert(pivots@.map_values(|p: usize| p as int) =~= pivot_columns(self@, 0, width));
            assert forall|i: int| 0 <= i < pivots@.len() implies pivots@[i] == pivot_columns(
                self@,
                0,
                width,
            )[i] by {
                assert(pivots@.map_values(|p: usize| p as int)[i] == pivots@[i] as int);
            }
        }
        let form = Matrix { rows: stairs.len(), cols: self.cols, data: stairs };
        assert(form@ =~= rows_of(stairs@));
        (form, pivots)
    }

    /// The rank of the matrix: the number of pivots that elimination finds.
    pub fn rank(&self) -> (r: usize)
        requires
            self.wf(),
        ensures
            r == spec_rank(self@, self.spec_cols()),
            r <= self.spec_rows(),
            r <= self.spec_cols(),
    {
        proof {
            lemma_rank_bounds(self@, 0, self.spec_cols());
        }
        let (_, pivots) = self.echelon();
        pivots.len()
    }

    /// The product of the matrix with another. Fails unless the other has as
    /// many rows as this one has columns.
    pub fn multiply(&self, other: &Matrix<F>) -> (product: Result<Matrix<F>, TopologyError>)
        requires
            self.wf(),
            other.wf(),
        ensures
            product is Ok <==> self.spec_cols() == other.spec_rows(),
            product matches Err(e) ==> e == TopologyError::DimensionMismatch,
            product matches Ok(m) ==> {
                &&& m.wf()
                &&& m.spec_rows() == self.spec_rows()
                &&& m.spec_cols() == other.spec_cols()
                &&& forall|i: int, j: int|
                    0 <= i < m.spec_rows() && 0 <= j < m.spec_cols() ==> (#[trigger] m@[i][j])
                        == dot(self@[i], column(other@, j))
            },
    {
        if self.cols != other.rows {
            return Err(TopologyError::DimensionMismatch);
        }
        let mut data: Vec<Vec<F>> = Vec::new();
        let mut i: usize = 0;
        while i < self.rows
            invariant
                self.wf(),
                other.wf(),
                self.cols == other.rows,
                i <= self.rows,
                self.data@.len() == self.rows,
                other.data@.len() == other.rows,
                data@.len() == i,
                forall|a: int| 0 <= a < i ==> (#[trigger] data@[a])@.len() == other.cols,
                forall|a: int, b: int|
                    0 <= a < i && 0 <= b < other.cols ==> (#[trigger] data@[a]@[b]) == dot(
                        self@[a],
                        column(other@, b),
                    ),
            decreases self.rows - i,
        {
            let row = &self.data[i];
            assert(row@ == self@[i as int]);
            let mut out: Vec<F> = Vec::new();
            let mut j: usize = 0;
            while j < other.cols
                invariant
                    self.wf(),
                    other.wf(),
                    self.cols == other.rows,
                    other.data@.len() == other.rows,
                    i < self.rows,
                    row@ == self@[i as int],
                    row@.len() == self.cols,
                    j <= other.cols,
                    out@.len() == j,
                    forall|b: int| 0 <= b < j ==> out@[b] == dot(row@, column(other@, b)),
                decreases other.cols - j,
            {
                let mut sum = F::zero();
                let mut k: usize = 0;
                while k < self.cols
                    invariant
                        other.wf(),
                        self.cols == other.rows,
                        other.data@.len() == other.rows,
                        k <= self.cols,
                        j < other.cols,
                        row@.len() == self.cols,
                        sum == dot(row@.take(k as int), column(other@, j as int)),
                    decreases self.cols - k,
                {
                    assert(row@.take(k + 1).drop_last() =~= row@.take(k as int));
                    assert(other@[k as int].len() == other.spec_cols());
                    assert(column(other@, j as int)[k as int] == other.data@[k as int]@[j as int]);
                    sum = sum.add(row[k].mul(other.data[k][j]));
                    k = k + 1;
                }
                assert(row@.take(self.cols as int) =~= row@);
                out.push(sum);
                j = j + 1;
            }
            data.push(out);
            i = i + 1;
        }
        let m = Matrix { rows: self.rows, cols: other.cols, data };
        assert forall|a: int, b: int| 0 <= a < m.spec_rows() && 0 <= b < m.spec_cols() implies (
        #[trigger] m@[a][b]) == dot(self@[a], column(other@, b)) by {
            assert(m@[a] == data@[a]@);
        }
        Ok(m)
    }
}

} // verus!
