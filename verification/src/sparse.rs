//! Assembly of per-query match lists into a compressed sparse boolean matrix.

use crate::error::{lemma_size_product_fits, IndexError};
use crate::shape::{count_elements, element_count, flat_index, in_bounds, linear_index};
use vstd::prelude::*;
use vstd::string::*;

verus! {

/// The number of entries in all rows together.
pub open spec fn total_len<T>(rows: Seq<Vec<T>>) -> nat
    decreases rows.len(),
{
    if rows.len() == 0 {
        0
    } else {
        total_len(rows.drop_last()) + rows.last()@.len()
    }
}

/// The rows one after another, in row order.
pub open spec fn concat_rows(rows: Seq<Vec<usize>>) -> Seq<usize>
    decreases rows.len(),
{
    if rows.len() == 0 {
        Seq::empty()
    } else {
        concat_rows(rows.drop_last()) + rows.last()@
    }
}

/// The prefix sums of the row lengths: entry `k` is the number of entries in
/// the first `k` rows, so the first entry is 0 and the last is the total.
pub open spec fn row_offsets<T>(rows: Seq<Vec<T>>) -> Seq<usize> {
    Seq::new(rows.len() + 1, |k: int| total_len(rows.take(k)) as usize)
}

/// Whether every entry of every row is below `columns`.
pub open spec fn columns_in_range(rows: Seq<Vec<usize>>, columns: usize) -> bool {
    forall|k: int, j: int|
        0 <= k < rows.len() && 0 <= j < rows[k]@.len() ==> #[trigger] rows[k]@[j] < columns
}

/// The total grows with the number of rows taken.
pub proof fn lemma_total_len_monotone<T>(rows: Seq<Vec<T>>, i: int, j: int)
    requires
        0 <= i <= j <= rows.len(),
    ensures
        total_len(rows.take(i)) <= total_len(rows.take(j)),
    decreases j - i,
{
    if i < j {
        lemma_total_len_monotone(rows, i, j - 1);
        assert(rows.take(j).drop_last() =~= rows.take(j - 1));
    }
}

/// The concatenation has as many entries as the rows have together.
pub proof fn lemma_concat_len(rows: Seq<Vec<usize>>)
    ensures
        concat_rows(rows).len() == total_len(rows),
    decreases rows.len(),
{
    if rows.len() > 0 {
        lemma_concat_len(rows.drop_last());
    }
}

/// Row `k` lies in the concatenation between the offsets `k` and `k + 1`.
pub proof fn lemma_row_in_concat(rows: Seq<Vec<usize>>, k: int)
    requires
        0 <= k < rows.len(),
    ensures
        total_len(rows.take(k)) + rows[k]@.len() == total_len(rows.take(k + 1)),
        total_len(rows.take(k + 1)) <= total_len(rows),
        concat_rows(rows).len() == total_len(rows),
        concat_rows(rows).subrange(
            total_len(rows.take(k)) as int,
            total_len(rows.take(k + 1)) as int,
        ) == rows[k]@,
    decreases rows.len(),
{
    lemma_concat_len(rows);
    lemma_total_len_monotone(rows, k + 1, rows.len() as int);
    assert(rows.take(rows.len() as int) =~= rows);
    assert(rows.take(k + 1).drop_last() =~= rows.take(k));
    let front = rows.drop_last();
    lemma_concat_len(front);
    if k == rows.len() - 1 {
        assert(rows.take(k) =~= front);
        assert(rows.take(k + 1) =~= rows);
        assert(concat_rows(rows).subrange(
            total_len(front) as int,
            total_len(rows) as int,
        ) =~= rows[k]@);
    } else {
        lemma_row_in_concat(front, k);
        assert(front.take(k) =~= rows.take(k));
        assert(front.take(k + 1) =~= rows.take(k + 1));
        assert(concat_rows(rows).subrange(
            total_len(rows.take(k)) as int,
            total_len(rows.take(k + 1)) as int,
        ) =~= concat_rows(front).subrange(
            total_len(rows.take(k)) as int,
            total_len(rows.take(k + 1)) as int,
        ));
    }
}

/// The row pointer of a list of rows: the prefix sums of their lengths, led
/// by a zero.
pub fn index_pointer<T>(array: &[Vec<T>]) -> (offsets: Vec<usize>)
    requires
        total_len(array@) <= usize::MAX,
    ensures
        offsets@ == row_offsets(array@),
{
    let n = array.len();
    let mut offsets: Vec<usize> = Vec::new();
    let mut total: usize = 0;
    offsets.push(total);
    assert(array@.take(0) =~= Seq::<Vec<T>>::empty());
    let mut k: usize = 0;
    while k < n
        invariant
            n == array@.len(),
            k <= n,
            total_len(array@) <= usize::MAX,
            total == total_len(array@.take(k as int)),
            offsets@.len() == k + 1,
            forall|i: int| 0 <= i <= k ==> offsets@[i] == total_len(array@.take(i)),
        decreases n - k,
    {
        proof {
            assert(array@.take(k + 1).drop_last() =~= array@.take(k as int));
            lemma_total_len_monotone(array@, k + 1, n as int);
            assert(array@.take(n as int) =~= array@);
        }
        total = total + array[k].len();
        offsets.push(total);
        k = k + 1;
    }
    assert(offsets@ =~= row_offsets(array@));
    offsets
}

/// What a sparse matrix holds: the three arrays of its compressed form, the
/// number of its columns and the shape in which it is viewed.
pub struct SparseView {
    /// One `true` for each match.
    pub data: Seq<bool>,
    /// The matched reference identities, row after row.
    pub indices: Seq<usize>,
    /// Where each row starts in `indices`; one entry more than there are rows.
    pub row_pointer: Seq<usize>,
    /// The length of the reference axis.
    pub columns: usize,
    /// The logical shape.
    pub shape: Seq<usize>,
}

impl SparseView {
    /// The number of rows.
    pub open spec fn rows(self) -> int {
        self.row_pointer.len() - 1
    }

    /// The matches of row `k`.
    pub open spec fn row(self, k: int) -> Seq<usize> {
        self.indices.subrange(self.row_pointer[k] as int, self.row_pointer[k + 1] as int)
    }

    /// The invariant of the compressed form.
    pub open spec fn well_formed(self) -> bool {
        &&& self.row_pointer.len() >= 1
        &&& self.row_pointer[0] == 0
        &&& forall|k: int|
            0 <= k < self.rows() ==> self.row_pointer[k] <= #[trigger] self.row_pointer[k + 1]
        &&& self.row_pointer[self.rows()] == self.indices.len()
        &&& self.data.len() == self.indices.len()
        &&& forall|i: int| 0 <= i < self.data.len() ==> self.data[i]
        &&& forall|i: int| 0 <= i < self.indices.len() ==> self.indices[i] < self.columns
        &&& element_count(self.shape) == self.rows() * self.columns
    }

    /// The truth value of the element with the given row-major offset.
    pub open spec fn value(self, offset: int) -> bool {
        self.row(offset / (self.columns as int)).contains((offset % (self.columns as int)) as usize)
    }

    /// The truth value at a position of the logical shape.
    pub open spec fn at(self, position: Seq<usize>) -> bool {
        self.value(linear_index(position, self.shape) as int)
    }
}

/// A sparse boolean matrix in compressed-row form, viewed in a logical shape
/// with the same number of elements.
#[derive(Debug)]
pub struct SparseMatrix {
    data: Vec<bool>,
    indices: Vec<usize>,
    row_pointer: Vec<usize>,
    columns: usize,
    shape: Vec<usize>,
}

impl View for SparseMatrix {
    type V = SparseView;

    closed spec fn view(&self) -> SparseView {
        SparseView {
            data: self.data@,
            indices: self.indices@,
            row_pointer: self.row_pointer@,
            columns: self.columns,
            shape: self.shape@,
        }
    }
}

/// The matrix that a list of rows assembles to: one `true` per entry, the
/// rows concatenated, and the prefix sums of their lengths.
pub open spec fn assembled(rows: Seq<Vec<usize>>, columns: usize, shape: Seq<usize>) -> SparseView {
    SparseView {
        data: Seq::new(total_len(rows), |i: int| true),
        indices: concat_rows(rows),
        row_pointer: row_offsets(rows),
        columns,
        shape,
    }
}

/// The text of the error for a match that names no reference cell.
pub open spec fn out_of_range_text() -> Seq<char> {
    "a match index lies outside the reference axis"@
}

/// In a well-formed matrix the row pointer never decreases.
pub proof fn lemma_row_pointer_monotone(m: SparseView, i: int, j: int)
    requires
        m.well_formed(),
        0 <= i <= j <= m.rows(),
    ensures
        m.row_pointer[i] <= m.row_pointer[j],
    decreases j - i,
{
    if i < j {
        lemma_row_pointer_monotone(m, i, j - 1);
        assert(m.row_pointer[j - 1] <= m.row_pointer[(j - 1) + 1]);
    }
}

/// The rows of an assembled matrix are the rows it was assembled from.
pub proof fn lemma_assembled_rows(
    rows: Seq<Vec<usize>>,
    columns: usize,
    shape: Seq<usize>,
    k: int,
)
    requires
        total_len(rows) <= usize::MAX,
        0 <= k < rows.len(),
    ensures
        assembled(rows, columns, shape).rows() == rows.len(),
        assembled(rows, columns, shape).row(k) == rows[k]@,
{
    lemma_row_in_concat(rows, k);
    lemma_total_len_monotone(rows, k, k + 1);
}

/// An offset below `rows * columns` splits into a row below `rows` and a
/// column below `columns`.
pub proof fn lemma_split_offset(offset: int, rows: int, columns: int)
    requires
        0 <= offset < rows * columns,
        0 <= rows,
        0 <= columns,
    ensures
        columns > 0,
        0 <= offset / columns < rows,
        0 <= offset % columns < columns,
{
    assert(columns > 0) by (nonlinear_arith)
        requires
            0 <= offset < rows * columns,
            0 <= columns,
    ;
    assert(0 <= offset / columns < rows) by (nonlinear_arith)
        requires
            0 <= offset < rows * columns,
            columns > 0,
    ;
    assert(0 <= offset % columns < columns) by (nonlinear_arith)
        requires
            columns > 0,
    ;
}

/// Conversion of per-query match lists into a sparse matrix.
pub trait AsSparse: Sized {
    /// Assembles the rows into a matrix with `shape.0` rows and `shape.1`
    /// columns, viewed in `final_shape`.
    fn into_sparse(self, shape: (usize, usize), final_shape: Vec<usize>) -> Result<
        SparseMatrix,
        IndexError,
    >;
}

impl AsSparse for Vec<Vec<usize>> {
    /// Succeeds exactly when there are `shape.0` rows, every match is below
    /// `shape.1`, and `final_shape` holds `shape.0 * shape.1` elements. The
    /// matrix then holds the rows unchanged. A wrong row count is reported
    /// first, then a match out of range, then a final shape of another size.
    fn into_sparse(self, shape: (usize, usize), final_shape: Vec<usize>) -> (r: Result<
        SparseMatrix,
        IndexError,
    >)
        ensures
            match r {
                Ok(m) => {
                    &&& shape.0 == self@.len()
                    &&& columns_in_range(self@, shape.1)
                    &&& element_count(final_shape@) == self@.len() * shape.1
                    &&& m@ == assembled(self@, shape.1, final_shape@)
                    &&& m@.well_formed()
                    &&& forall|k: int| 0 <= k < self@.len() ==> m@.row(k) == self@[k]@
                },
                Err(IndexError::Reshape { requested, rows, columns }) => {
                    &&& rows == self@.len()
                    &&& columns == shape.1
                    &&& if shape.0 != self@.len() {
                        requested@ == seq![shape.0, shape.1]
                    } else {
                        &&& columns_in_range(self@, shape.1)
                        &&& element_count(final_shape@) != self@.len() * shape.1
                        &&& requested@ == final_shape@
                    }
                },
                Err(IndexError::InputFormat { reason }) => {
                    &&& shape.0 == self@.len()
                    &&& !columns_in_range(self@, shape.1)
                    &&& reason@ == out_of_range_text()
                },
                Err(_) => false,
            },
    {
        let rows = self.len();
        let columns = shape.1;
        if shape.0 != rows {
            let mut requested: Vec<usize> = Vec::new();
            requested.push(shape.0);
            requested.push(shape.1);
            assert(requested@ =~= seq![shape.0, shape.1]);
            return Err(IndexError::Reshape { requested, rows, columns });
        }
        let mut indices: Vec<usize> = Vec::new();
        let mut k: usize = 0;
        assert(self@.take(0) =~= Seq::<Vec<usize>>::empty());
        while k < rows
            invariant
                rows == self@.len(),
                shape.0 == rows,
                columns == shape.1,
                k <= rows,
                indices@ == concat_rows(self@.take(k as int)),
                columns_in_range(self@.take(k as int), columns),
                forall|i: int| 0 <= i < indices@.len() ==> indices@[i] < columns,
            decreases rows - k,
        {
            let row = &self[k];
            let width = row.len();
            let ghost before = indices@;
            let mut j: usize = 0;
            while j < width
                invariant
                    rows == self@.len(),
                    shape.0 == rows,
                    columns == shape.1,
                    k < rows,
                    row@ == self@[k as int]@,
                    width == row@.len(),
                    j <= width,
                    indices@ == before + row@.take(j as int),
                    forall|i: int| 0 <= i < j ==> row@[i] < columns,
                    forall|i: int| 0 <= i < indices@.len() ==> indices@[i] < columns,
                decreases width - j,
            {
                let id = row[j];
                if id >= columns {
                    assert(!(self@[k as int]@[j as int] < columns));
                    return Err(
                        IndexError::InputFormat {
                            reason: String::from_str(
                                "a match index lies outside the reference axis",
                            ),
                        },
                    );
                }
                indices.push(id);
                assert(row@.take(j + 1) =~= row@.take(j as int).push(id));
                j = j + 1;
            }
            proof {
                let longer = self@.take(k + 1);
                assert(longer.drop_last() =~= self@.take(k as int));
                assert(longer.last() == self@[k as int]);
                assert(row@.take(width as int) =~= row@);
                assert forall|a: int, b: int|
                    0 <= a < longer.len() && 0 <= b < longer[a]@.len() implies #[trigger] longer[a]@[b]
                    < columns by {
                    if a < k {
                        assert(self@.take(k as int)[a]@[b] < columns);
                    }
                }
            }
            k = k + 1;
        }
        proof {
            assert(self@.take(rows as int) =~= self@);
            lemma_concat_len(self@);
        }
        let total = indices.len();
        assert(total_len(self@) == total);
        let row_pointer = index_pointer(self.as_slice());
        let mut data: Vec<bool> = Vec::new();
        let mut i: usize = 0;
        while i < total
            invariant
                i <= total,
                data@.len() == i,
                forall|t: int| 0 <= t < i ==> data@[t],
            decreases total - i,
        {
            data.push(true);
            i = i + 1;
        }
        proof {
            lemma_size_product_fits(rows, columns);
        }
        let actual: u128 = (rows as u128) * (columns as u128);
        let requested = count_elements(final_shape.as_slice());
        if requested != Some(actual) {
            return Err(IndexError::Reshape { requested: final_shape, rows, columns });
        }
        proof {
            let view = assembled(self@, columns, final_shape@);
            assert(data@ =~= view.data);
            assert(view.row_pointer[0] == 0) by {
                assert(self@.take(0) =~= Seq::<Vec<usize>>::empty());
            }
            assert forall|t: int| 0 <= t < view.rows() implies view.row_pointer[t]
                <= #[trigger] view.row_pointer[t + 1] by {
                lemma_total_len_monotone(self@, t, t + 1);
                lemma_total_len_monotone(self@, t + 1, rows as int);
            }
            assert(view.well_formed());
            assert forall|t: int| 0 <= t < self@.len() implies view.row(t) == self@[t]@ by {
                lemma_assembled_rows(self@, columns, final_shape@, t);
            }
        }
        Ok(SparseMatrix { data, indices, row_pointer, columns, shape: final_shape })
    }
}

impl SparseMatrix {
    #[verifier::type_invariant]
    spec fn coherent(&self) -> bool {
        self@.well_formed()
    }

    /// One `true` for each match.
    pub fn data(&self) -> (data: &Vec<bool>)
        ensures
            data@ == self@.data,
            self@.well_formed(),
    {
        proof {
            use_type_invariant(self);
        }
        &self.data
    }

    /// The matched reference identities, row after row.
    pub fn indices(&self) -> (indices: &Vec<usize>)
        ensures
            indices@ == self@.indices,
            self@.well_formed(),
    {
        proof {
            use_type_invariant(self);
        }
        &self.indices
    }

    /// Where each row starts in the indices, followed by the total.
    pub fn row_pointer(&self) -> (row_pointer: &Vec<usize>)
        ensures
            row_pointer@ == self@.row_pointer,
            self@.well_formed(),
    {
        proof {
            use_type_invariant(self);
        }
        &self.row_pointer
    }

    /// The number of rows: one for each query.
    pub fn rows(&self) -> (rows: usize)
        ensures
            rows == self@.rows(),
            self@.well_formed(),
    {
        proof {
            use_type_invariant(self);
        }
        self.row_pointer.len() - 1
    }

    /// The number of columns: one for each reference cell.
    pub fn columns(&self) -> (columns: usize)
        ensures
            columns == self@.columns,
            self@.well_formed(),
    {
        proof {
            use_type_invariant(self);
        }
        self.columns
    }

    /// The logical shape in which the matrix is viewed.
    pub fn shape(&self) -> (shape: &Vec<usize>)
        ensures
            shape@ == self@.shape,
            self@.well_formed(),
    {
        proof {
            use_type_invariant(self);
        }
        &self.shape
    }

    /// The truth value at a position of the logical shape, or `None` when
    /// the position lies outside the shape.
    pub fn get(&self, position: &[usize]) -> (value: Option<bool>)
        ensures
            in_bounds(position@, self@.shape) ==> value == Some(self@.at(position@)),
            !in_bounds(position@, self@.shape) ==> value is None,
    {
        proof {
            use_type_invariant(self);
        }
        let rows = self.row_pointer.len() - 1;
        proof {
            lemma_size_product_fits(rows, self.columns);
        }
        proof {
            if in_bounds(position@, self.shape@) {
                crate::shape::lemma_linear_index_bound(position@, self.shape@);
            }
        }
        match flat_index(position, self.shape.as_slice()) {
            None => None,
            Some(offset) => {
                proof {
                    lemma_split_offset(offset as int, rows as int, self.columns as int);
                }
                let row = (offset / (self.columns as u128)) as usize;
                let column = (offset % (self.columns as u128)) as usize;
                proof {
                    lemma_row_pointer_monotone(self@, row as int, row + 1);
                    lemma_row_pointer_monotone(self@, row + 1, rows as int);
                }
                let start = self.row_pointer[row];
                let end = self.row_pointer[row + 1];
                let mut found = false;
                let mut i = start;
                while i < end && !found
                    invariant
                        start <= i <= end <= self.indices@.len(),
                        found ==> start < i && self.indices@[i - 1] == column,
                        !found ==> forall|t: int| start <= t < i ==> self.indices@[t] != column,
                    decreases end - i,
                {
                    found = self.indices[i] == column;
                    i = i + 1;
                }
                proof {
                    let matches = self.indices@.subrange(start as int, end as int);
                    if found {
                        assert(matches[i - 1 - start] == column);
                    } else {
                        assert(!matches.contains(column));
                    }
                }
                Some(found)
            },
        }
    }
}

/// The reshape law. Where a matrix is viewed in the shape `outer + inner`,
/// `outer` holding one element per row and `inner` one element per column,
/// every truth value stays with its match list: the element at an outer
/// position followed by an inner position is `true` exactly when the row
/// with the outer position's offset lists the column with the inner
/// position's offset.
pub proof fn lemma_reshape_keeps_matches(
    matrix: SparseView,
    outer: Seq<usize>,
    inner: Seq<usize>,
    outer_position: Seq<usize>,
    inner_position: Seq<usize>,
)
    requires
        matrix.well_formed(),
        matrix.shape == outer + inner,
        element_count(outer) == matrix.rows(),
        element_count(inner) == matrix.columns,
        in_bounds(outer_position, outer),
        in_bounds(inner_position, inner),
    ensures
        in_bounds(outer_position + inner_position, matrix.shape),
        linear_index(outer_position, outer) < matrix.rows(),
        linear_index(inner_position, inner) < matrix.columns,
        matrix.at(outer_position + inner_position) == matrix.row(
            linear_index(outer_position, outer) as int,
        ).contains(linear_index(inner_position, inner) as usize),
{
    crate::shape::lemma_linear_index_bound(outer_position, outer);
    crate::shape::lemma_linear_index_bound(inner_position, inner);
    crate::shape::lemma_linear_index_concat(outer_position, inner_position, outer, inner);
    let r = linear_index(outer_position, outer) as int;
    let c = linear_index(inner_position, inner) as int;
    let n = matrix.columns as int;
    let offset = r * n + c;
    assert(offset / n == r && offset % n == c) by (nonlinear_arith)
        requires
            0 <= c < n,
            0 <= r,
            offset == r * n + c,
    ;
}

} // verus!
