use vstd::prelude::*;

use crate::column::{
    copy_prefix, laid_out, lemma_normal_flatten, lemma_rows_of_single, rows_view, ChunkedColumn,
    ExplodeError, Series,
};
use crate::offsets::{lemma_rows_ended_split, parent_row, valid_offsets};
use vstd::math::min;

verus! {

/// A column whose rows are sequences of `T`.
pub struct ListChunked<T> {
    pub column: ChunkedColumn<T>,
}

impl<T: Copy> ListChunked<T> {
    pub open spec fn wf(&self) -> bool {
        &&& self.column.wf()
        &&& self.column.rows().flatten().len() <= i64::MAX
    }

    /// The rows in view.
    pub open spec fn rows(&self) -> Seq<Seq<T>> {
        self.column.rows()
    }

    /// A column named `name` with the given rows, none of them null.
    pub fn from_rows(name: String, rows: Vec<Vec<T>>) -> (out: Self)
        requires
            rows_view(rows@).flatten().len() <= i64::MAX,
        ensures
            out.wf(),
            out.column.is_normal(),
            out.column.name@ == name@,
            out.rows() == rows_view(rows@),
    {
        let mut bits: Vec<bool> = Vec::new();
        let mut i: usize = 0;
        while i < rows.len()
            invariant
                i <= rows@.len(),
                bits@.len() == i,
            decreases rows@.len() - i,
        {
            bits.push(true);
            i = i + 1;
        }
        ListChunked { column: ChunkedColumn::from_parts(name, rows, bits) }
    }

    /// The rows in view from `offset` on, at most `length` of them.
    pub fn slice(&self, offset: usize, length: usize) -> (out: Self)
        requires
            self.wf(),
        ensures
            out.wf(),
            out.column.name@ == self.column.name@,
            out.rows() == self.rows().subrange(
                min(offset as int, self.rows().len() as int),
                min(offset + length, self.rows().len() as int),
            ),
    {
        ListChunked { column: self.column.slice(offset, length) }
    }

    /// The flat values of all rows in view, in order, under the column's name.
    pub fn explode(&self) -> (res: Result<Series<T>, ExplodeError>)
        requires
            self.wf(),
        ensures
            res is Err <==> self.rows().len() == 0,
            res is Err ==> res == Err::<Series<T>, _>(ExplodeError::NoData),
            res matches Ok(s) ==> s.name@ == self.column.name@ && s.values@ == self.rows().flatten(),
    {
        match self.explode_and_offsets() {
            Ok((s, _offsets, _ca)) => Ok(s),
            Err(e) => Err(e),
        }
    }

    /// Explodes the column: the flat values of all rows in view, in order,
    /// under the column's name; the row offsets into those values; and the
    /// normalized column the offsets were read from. A column without rows
    /// cannot be exploded.
    pub fn explode_and_offsets(&self) -> (res: Result<
        (Series<T>, Vec<i64>, ListChunked<T>),
        ExplodeError,
    >)
        requires
            self.wf(),
        ensures
            res is Err <==> self.rows().len() == 0,
            res is Err ==> res == Err::<(Series<T>, Vec<i64>, ListChunked<T>), _>(
                ExplodeError::NoData,
            ),
            res matches Ok((s, offsets, ca)) ==> {
                &&& s.name@ == self.column.name@
                &&& s.values@ == self.rows().flatten()
                &&& valid_offsets(offsets@)
                &&& offsets@[0] == 0
                &&& offsets@.last() == s.values@.len()
                &&& laid_out(offsets@, s.values@) == self.rows()
                &&& ca.column.is_normal()
                &&& ca.column.name@ == self.column.name@
                &&& ca.rows() == self.rows()
                &&& offsets@ == ca.column.chunks@[0].offsets@
            },
    {
        let ca = self.column.rechunk();
        let arr = &ca.chunks[0];
        proof {
            lemma_rows_of_single(*arr);
            assert(ca.chunks@ =~= seq![*arr]);
        }
        if arr.row_len == 0 {
            return Err(ExplodeError::NoData);
        }
        let offsets = copy_prefix(&arr.offsets, arr.offsets.len());
        let vlen = arr.values.len();
        assert(arr.offsets@.last() == vlen);
        let end = arr.offsets[arr.offsets.len() - 1] as usize;
        let values = copy_prefix(&arr.values, end);
        proof {
            assert(offsets@ =~= arr.offsets@);
            assert(values@ =~= arr.values@);
            lemma_normal_flatten(*arr, arr.row_len as int);
            assert(arr.rows().subrange(0, arr.row_len as int) =~= arr.rows());
            assert(arr.values@.subrange(0, arr.offsets@[arr.row_len as int] as int) =~= arr.values@);
            assert(laid_out(offsets@, values@) =~= arr.rows());
        }
        let s = Series { name: self.column.name.clone(), values };
        Ok((s, offsets, ListChunked { column: ca }))
    }
}


proof fn lemma_singleton_offsets<T>(rows: Seq<Seq<T>>, offsets: Seq<i64>, values: Seq<T>, k: int)
    requires
        forall|r: int| 0 <= r < rows.len() ==> (#[trigger] rows[r]).len() == 1,
        valid_offsets(offsets),
        offsets[0] == 0,
        offsets.last() == values.len(),
        laid_out(offsets, values) == rows,
        0 <= k <= rows.len(),
    ensures
        offsets[k] == k,
    decreases k,
{
    assert(laid_out(offsets, values).len() == rows.len());
    if k > 0 {
        lemma_singleton_offsets(rows, offsets, values, k - 1);
        assert(offsets[k - 1] <= offsets[k]);
        assert(offsets[k] <= offsets.last());
        assert(laid_out(offsets, values)[k - 1].len() == 1);
    }
}

/// Exploding rows that each hold exactly one element gives those elements in
/// row order, and every element maps back to its own row.
pub proof fn lemma_explode_singletons<T>(rows: Seq<Seq<T>>, offsets: Seq<i64>, values: Seq<T>)
    requires
        forall|r: int| 0 <= r < rows.len() ==> (#[trigger] rows[r]).len() == 1,
        valid_offsets(offsets),
        offsets[0] == 0,
        offsets.last() == values.len(),
        values == rows.flatten(),
        laid_out(offsets, values) == rows,
    ensures
        values == Seq::new(rows.len(), |r: int| rows[r][0]),
        forall|j: int| 0 <= j < rows.len() ==> #[trigger] parent_row(offsets, j) == j,
{
    let n = rows.len() as int;
    assert(laid_out(offsets, values).len() == n);
    assert forall|k: int| 0 <= k <= n implies #[trigger] offsets[k] == k by {
        lemma_singleton_offsets(rows, offsets, values, k);
    }
    assert(values.len() == n);
    assert forall|j: int| 0 <= j < n implies #[trigger] parent_row(offsets, j) == j by {
        assert forall|k: int| 1 <= k < j + 1 implies offsets[k] <= j by {
            assert(offsets[k] == k);
        }
        assert forall|k: int| j + 1 <= k < offsets.len() implies offsets[k] > j by {
            assert(offsets[k] == k);
        }
        lemma_rows_ended_split(offsets, offsets.len() as int, j + 1, j);
    }
    assert forall|r: int| 0 <= r < n implies values[r] == #[trigger] rows[r][0] by {
        assert(offsets[r] == r);
        assert(offsets[r + 1] == r + 1);
        assert(rows[r] == values.subrange(r, r + 1));
    }
    assert(values =~= Seq::new(rows.len(), |r: int| rows[r][0]));
}

} // verus!
