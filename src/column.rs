use vstd::prelude::*;

use crate::offsets::valid_offsets;
use vstd::math::min;

verus! {

broadcast use vstd::seq_lib::group_seq_properties;

/// One contiguous block of a column: rows delimited by `offsets` over a flat
/// `values` buffer, an optional per-row validity bitmap (absent: all valid),
/// and a window `[row_start, row_start + row_len)` of the physical rows that
/// is in view.
pub struct Chunk<T> {
    pub offsets: Vec<i64>,
    pub values: Vec<T>,
    pub validity: Option<Vec<bool>>,
    pub row_start: usize,
    pub row_len: usize,
}

impl<T> Chunk<T> {
    pub open spec fn wf(&self) -> bool {
        &&& valid_offsets(self.offsets@)
        &&& self.offsets@.last() <= self.values@.len()
        &&& self.row_start + self.row_len < self.offsets@.len()
        &&& match self.validity {
            Some(v) => v@.len() == self.offsets@.len() - 1,
            None => true,
        }
    }

    /// The elements of the `r`-th row in view.
    pub open spec fn row(&self, r: int) -> Seq<T> {
        let p = self.row_start + r;
        self.values@.subrange(self.offsets@[p] as int, self.offsets@[p + 1] as int)
    }

    pub open spec fn rows(&self) -> Seq<Seq<T>> {
        Seq::new(self.row_len as nat, |r: int| self.row(r))
    }

    /// Validity of the `r`-th row in view.
    pub open spec fn bit(&self, r: int) -> bool {
        match self.validity {
            Some(v) => v@[self.row_start + r],
            None => true,
        }
    }

    pub open spec fn bits(&self) -> Seq<bool> {
        Seq::new(self.row_len as nat, |r: int| self.bit(r))
    }

    /// A chunk in normal form: every physical row is in view, offsets start at
    /// zero and end at the length of the values buffer.
    pub open spec fn is_normal(&self) -> bool {
        &&& self.wf()
        &&& self.row_start == 0
        &&& self.row_len == self.offsets@.len() - 1
        &&& self.offsets@[0] == 0
        &&& self.offsets@.last() == self.values@.len()
    }
}

pub open spec fn rows_of<T>(chunks: Seq<Chunk<T>>) -> Seq<Seq<T>>
    decreases chunks.len(),
{
    if chunks.len() == 0 {
        Seq::empty()
    } else {
        rows_of(chunks.drop_last()) + chunks.last().rows()
    }
}

pub open spec fn bits_of<T>(chunks: Seq<Chunk<T>>) -> Seq<bool>
    decreases chunks.len(),
{
    if chunks.len() == 0 {
        Seq::empty()
    } else {
        bits_of(chunks.drop_last()) + chunks.last().bits()
    }
}

/// The rows of a normal chunk laid end to end are its values buffer.
pub proof fn lemma_normal_flatten<T>(c: Chunk<T>, k: int)
    requires
        c.is_normal(),
        0 <= k <= c.row_len,
    ensures
        c.rows().subrange(0, k).flatten() == c.values@.subrange(0, c.offsets@[k] as int),
    decreases k,
{
    if k == 0 {
        assert(c.rows().subrange(0, 0) =~= Seq::<Seq<T>>::empty());
        assert(c.values@.subrange(0, 0) =~= Seq::<T>::empty());
    } else {
        lemma_normal_flatten(c, k - 1);
        assert(c.rows().subrange(0, k) =~= c.rows().subrange(0, k - 1).push(c.rows()[k - 1]));
        c.rows().subrange(0, k - 1).lemma_flatten_push(c.rows()[k - 1]);
        assert(c.offsets@[k - 1] <= c.offsets@[k]);
        assert(c.values@.subrange(0, c.offsets@[k] as int) =~= c.values@.subrange(
            0,
            c.offsets@[k - 1] as int,
        ) + c.rows()[k - 1]);
    }
}

pub proof fn lemma_rows_of_split<T>(s: Seq<Chunk<T>>, c: int)
    requires
        0 <= c <= s.len(),
    ensures
        rows_of(s) == rows_of(s.subrange(0, c as int)) + rows_of(s.subrange(c, s.len() as int)),
        bits_of(s) == bits_of(s.subrange(0, c as int)) + bits_of(s.subrange(c, s.len() as int)),
    decreases s.len(),
{
    if c == s.len() {
        assert(s.subrange(0, c) =~= s);
        assert(rows_of(s.subrange(c, c)) =~= Seq::<Seq<T>>::empty());
        assert(bits_of(s.subrange(c, c)) =~= Seq::<bool>::empty());
    } else {
        let d = s.drop_last();
        lemma_rows_of_split(d, c);
        assert(d.subrange(0, c) =~= s.subrange(0, c as int));
        let tail = s.subrange(c, s.len() as int);
        assert(tail.drop_last() =~= d.subrange(c, d.len() as int));
        assert(tail.last() == s.last());
    }
}

pub proof fn lemma_rows_of_single<T>(c: Chunk<T>)
    ensures
        rows_of(seq![c]) == c.rows(),
        bits_of(seq![c]) == c.bits(),
{
    assert(seq![c].drop_last() =~= Seq::<Chunk<T>>::empty());
    assert(seq![c].last() == c);
    assert(rows_of(Seq::<Chunk<T>>::empty()) == Seq::<Seq<T>>::empty());
    assert(bits_of(Seq::<Chunk<T>>::empty()) == Seq::<bool>::empty());
    assert(rows_of(seq![c]) =~= c.rows());
    assert(bits_of(seq![c]) =~= c.bits());
}

/// Rows `0..c` of `s` followed by the first `r` rows in view of chunk `c`.
pub open spec fn rows_upto<T>(s: Seq<Chunk<T>>, c: int, r: int) -> Seq<Seq<T>> {
    rows_of(s.subrange(0, c as int)) + s[c].rows().subrange(0, r)
}

pub open spec fn bits_upto<T>(s: Seq<Chunk<T>>, c: int, r: int) -> Seq<bool> {
    bits_of(s.subrange(0, c as int)) + s[c].bits().subrange(0, r)
}

proof fn lemma_rows_upto_prefix<T>(s: Seq<Chunk<T>>, c: int, r: int)
    requires
        0 <= c < s.len(),
        0 <= r <= s[c].row_len,
    ensures
        rows_upto(s, c, r).flatten().len() <= rows_of(s).flatten().len(),
{
    lemma_rows_of_split(s, c);
    let tail = s.subrange(c, s.len() as int);
    lemma_rows_of_split(tail, 1);
    assert(tail.subrange(0, 1) =~= seq![s[c]]);
    lemma_rows_of_single(s[c]);
    let rest = rows_of(tail.subrange(1, tail.len() as int));
    let head = rows_of(s.subrange(0, c as int));
    let mid = s[c].rows();
    assert(rows_of(s) =~= head + mid.subrange(0, r) + (mid.subrange(r, mid.len() as int) + rest));
    vstd::seq_lib::lemma_flatten_concat(
        head + mid.subrange(0, r),
        mid.subrange(r, mid.len() as int) + rest,
    );
}

proof fn lemma_rows_upto_next_chunk<T>(s: Seq<Chunk<T>>, c: int)
    requires
        0 <= c < s.len(),
    ensures
        rows_of(s.subrange(0, c + 1)) == rows_upto(s, c, s[c].row_len as int),
        bits_of(s.subrange(0, c + 1)) == bits_upto(s, c, s[c].row_len as int),
{
    let p = s.subrange(0, c + 1);
    assert(p.drop_last() =~= s.subrange(0, c as int));
    assert(s[c].rows().subrange(0, s[c].row_len as int) =~= s[c].rows());
    assert(s[c].bits().subrange(0, s[c].row_len as int) =~= s[c].bits());
}

/// Rows of a buffer laid out by `offsets`, every physical row in view.
pub open spec fn laid_out<T>(offsets: Seq<i64>, values: Seq<T>) -> Seq<Seq<T>> {
    Seq::new(
        (offsets.len() - 1) as nat,
        |k: int| values.subrange(offsets[k] as int, offsets[k + 1] as int),
    )
}

/// A column: an ordered sequence of chunks under one name.
pub struct ChunkedColumn<T> {
    pub name: String,
    pub chunks: Vec<Chunk<T>>,
}

impl<T: Copy> ChunkedColumn<T> {
    pub open spec fn wf(&self) -> bool {
        forall|c: int| 0 <= c < self.chunks@.len() ==> (#[trigger] self.chunks@[c]).wf()
    }

    /// The rows in view, chunk after chunk.
    pub open spec fn rows(&self) -> Seq<Seq<T>> {
        rows_of(self.chunks@)
    }

    /// The validity of the rows in view, chunk after chunk.
    pub open spec fn bits(&self) -> Seq<bool> {
        bits_of(self.chunks@)
    }

    /// One chunk, in normal form.
    pub open spec fn is_normal(&self) -> bool {
        &&& self.chunks@.len() == 1
        &&& self.chunks@[0].is_normal()
    }

    /// Coalesces the rows in view into a single chunk in normal form. The
    /// chunk carries a validity bitmap exactly when some row is null.
    pub fn rechunk(&self) -> (out: Self)
        requires
            self.wf(),
            self.rows().flatten().len() <= i64::MAX,
        ensures
            out.is_normal(),
            out.name@ == self.name@,
            out.rows() == self.rows(),
            out.bits() == self.bits(),
            out.chunks@[0].validity is None <==> forall|r: int|
                0 <= r < self.bits().len() ==> #[trigger] self.bits()[r],
    {
        let ghost s = self.chunks@;
        let mut offsets: Vec<i64> = Vec::new();
        offsets.push(0);
        let mut values: Vec<T> = Vec::new();
        let mut bits: Vec<bool> = Vec::new();
        let mut has_null = false;
        assert(s.subrange(0, 0) =~= Seq::<Chunk<T>>::empty());
        assert(laid_out(offsets@, values@) =~= Seq::<Seq<T>>::empty());
        let mut c: usize = 0;
        while c < self.chunks.len()
            invariant
                self.wf(),
                s == self.chunks@,
                rows_of(s).flatten().len() <= i64::MAX,
                0 <= c <= s.len(),
                valid_offsets(offsets@),
                offsets@[0] == 0,
                offsets@.last() == values@.len(),
                bits@.len() + 1 == offsets@.len(),
                laid_out(offsets@, values@) == rows_of(s.subrange(0, c as int)),
                values@ == rows_of(s.subrange(0, c as int)).flatten(),
                bits@ == bits_of(s.subrange(0, c as int)),
                has_null <==> exists|k: int| 0 <= k < bits@.len() && !bits@[k],
            decreases s.len() - c,
        {
            let chunk = &self.chunks[c];
            assert(chunk.wf());
            assert(s[c as int].rows().subrange(0, 0) =~= Seq::<Seq<T>>::empty());
            assert(s[c as int].bits().subrange(0, 0) =~= Seq::<bool>::empty());
            assert(rows_upto(s, c as int, 0) =~= rows_of(s.subrange(0, c as int)));
            assert(bits_upto(s, c as int, 0) =~= bits_of(s.subrange(0, c as int)));
            let mut r: usize = 0;
            while r < chunk.row_len
                invariant
                    self.wf(),
                    s == self.chunks@,
                    rows_of(s).flatten().len() <= i64::MAX,
                    0 <= c < s.len(),
                    *chunk == s[c as int],
                    chunk.wf(),
                    0 <= r <= chunk.row_len,
                    valid_offsets(offsets@),
                    offsets@[0] == 0,
                    offsets@.last() == values@.len(),
                    bits@.len() + 1 == offsets@.len(),
                    laid_out(offsets@, values@) == rows_upto(s, c as int, r as int),
                    values@ == rows_upto(s, c as int, r as int).flatten(),
                    bits@ == bits_upto(s, c as int, r as int),
                    has_null <==> exists|k: int| 0 <= k < bits@.len() && !bits@[k],
                decreases chunk.row_len - r,
            {
                let olen = chunk.offsets.len();
                assert(chunk.row_start + r + 1 < olen);
                let p = chunk.row_start + r;
                assert(chunk.offsets@[0] <= chunk.offsets@[p as int]);
                assert(chunk.offsets@[p as int] <= chunk.offsets@[p + 1]);
                assert(chunk.offsets@[p + 1] <= chunk.offsets@.last());
                let vlen = chunk.values.len();
                assert(chunk.offsets@[p + 1] <= vlen);
                let lo = chunk.offsets[p] as usize;
                let hi = chunk.offsets[p + 1] as usize;
                let ghost before = values@;
                let ghost row = chunk.row(r as int);
                proof {
                    lemma_rows_upto_prefix(s, c as int, r as int + 1);
                    assert(rows_upto(s, c as int, r as int + 1) =~= rows_upto(
                        s,
                        c as int,
                        r as int,
                    ).push(row));
                    rows_upto(s, c as int, r as int).lemma_flatten_push(row);
                }
                let mut j: usize = lo;
                while j < hi
                    invariant
                        chunk.wf(),
                        lo <= j <= hi,
                        hi <= chunk.values@.len(),
                        values@ == before + chunk.values@.subrange(lo as int, j as int),
                    decreases hi - j,
                {
                    values.push(chunk.values[j]);
                    j = j + 1;
                    assert(values@ =~= before + chunk.values@.subrange(lo as int, j as int));
                }
                assert(row =~= chunk.values@.subrange(lo as int, hi as int));
                let ghost old_offsets = offsets@;
                offsets.push(values.len() as i64);
                assert forall|k: int| 0 <= k < old_offsets.len() - 1 implies #[trigger] laid_out(
                    offsets@,
                    values@,
                )[k] =~= laid_out(old_offsets, before)[k] by {
                    assert(old_offsets[k] <= old_offsets[k + 1]);
                    assert(old_offsets[k + 1] <= old_offsets.last());
                }
                assert(offsets@[old_offsets.len() - 1] == before.len());
                assert(offsets@[old_offsets.len() as int] == values@.len());
                assert(values@.subrange(before.len() as int, values@.len() as int) =~= row);
                assert(laid_out(offsets@, values@) =~= laid_out(old_offsets, before).push(row));
                let b = match &chunk.validity {
                    Some(v) => v[p],
                    None => true,
                };
                let ghost old_bits = bits@;
                let ghost old_has = has_null;
                if !b {
                    has_null = true;
                }
                bits.push(b);
                assert(bits@ =~= bits_upto(s, c as int, r as int + 1));
                assert(has_null <==> exists|k: int| 0 <= k < bits@.len() && !bits@[k]) by {
                    assert(bits@ == old_bits.push(b));
                    if !b {
                        assert(!bits@[old_bits.len() as int]);
                    } else {
                        if old_has {
                            let k = choose|k: int| 0 <= k < old_bits.len() && !old_bits[k];
                            assert(!bits@[k]);
                        }
                        if exists|k: int| 0 <= k < bits@.len() && !bits@[k] {
                            let k = choose|k: int| 0 <= k < bits@.len() && !bits@[k];
                            assert(k < old_bits.len());
                            assert(!old_bits[k]);
                        }
                    }
                }
                r = r + 1;
            }
            proof {
                lemma_rows_upto_next_chunk(s, c as int);
            }
            c = c + 1;
        }
        assert(s.subrange(0, s.len() as int) =~= s);
        let n = bits.len();
        let validity = if has_null {
            Some(bits)
        } else {
            None
        };
        let chunk = Chunk { offsets, values, validity, row_start: 0, row_len: n };
        let mut chunks: Vec<Chunk<T>> = Vec::new();
        chunks.push(chunk);
        let out = ChunkedColumn { name: self.name.clone(), chunks };
        proof {
            lemma_rows_of_single(out.chunks@[0]);
            assert(out.chunks@ =~= seq![out.chunks@[0]]);
            assert(out.chunks@[0].rows() =~= laid_out(out.chunks@[0].offsets@, out.chunks@[0].values@));
            assert(out.chunks@[0].bits() =~= self.bits());
        }
        out
    }
}


proof fn lemma_subrange_flatten_len<A>(s: Seq<Seq<A>>, a: int, b: int)
    requires
        0 <= a <= b <= s.len(),
    ensures
        s.subrange(a, b).flatten().len() <= s.flatten().len(),
{
    let pre = s.subrange(0, a);
    let mid = s.subrange(a, b);
    let post = s.subrange(b, s.len() as int);
    assert(s =~= pre + (mid + post));
    vstd::seq_lib::lemma_flatten_concat(pre, mid + post);
    vstd::seq_lib::lemma_flatten_concat(mid, post);
}

impl<T: Copy> ChunkedColumn<T> {
    /// The rows in view from `offset` on, at most `length` of them, as one
    /// chunk that keeps the validity of each row.
    pub fn slice(&self, offset: usize, length: usize) -> (out: Self)
        requires
            self.wf(),
            self.rows().flatten().len() <= i64::MAX,
        ensures
            out.wf(),
            out.chunks@.len() == 1,
            out.name@ == self.name@,
            out.rows() == self.rows().subrange(
                min(offset as int, self.rows().len() as int),
                min(offset + length, self.rows().len() as int),
            ),
            out.bits() == self.bits().subrange(
                min(offset as int, self.rows().len() as int),
                min(offset + length, self.rows().len() as int),
            ),
            out.rows().flatten().len() <= self.rows().flatten().len(),
    {
        let ca = self.rechunk();
        let arr = &ca.chunks[0];
        proof {
            lemma_rows_of_single(*arr);
            assert(ca.chunks@ =~= seq![*arr]);
        }
        let n = arr.row_len;
        let start = if offset < n {
            offset
        } else {
            n
        };
        let end = if length < n - start {
            start + length
        } else {
            n
        };
        let validity = match &arr.validity {
            Some(v) => Some(copy_prefix(v, v.len())),
            None => None,
        };
        let window = Chunk {
            offsets: copy_prefix(&arr.offsets, arr.offsets.len()),
            values: copy_prefix(&arr.values, arr.values.len()),
            validity,
            row_start: start,
            row_len: end - start,
        };
        let mut chunks: Vec<Chunk<T>> = Vec::new();
        chunks.push(window);
        let out = ChunkedColumn { name: self.name.clone(), chunks };
        proof {
            let w = out.chunks@[0];
            assert(w.offsets@ =~= arr.offsets@);
            assert(w.values@ =~= arr.values@);
            match w.validity {
                Some(v) => {
                    assert(v@ =~= arr.validity->Some_0@);
                },
                None => {},
            }
            lemma_rows_of_single(w);
            assert(out.chunks@ =~= seq![w]);
            assert(w.rows() =~= arr.rows().subrange(start as int, end as int));
            assert(w.bits() =~= arr.bits().subrange(start as int, end as int));
            lemma_subrange_flatten_len(arr.rows(), start as int, end as int);
        }
        out
    }
}

/// The elements of each row.
pub open spec fn rows_view<T>(rows: Seq<Vec<T>>) -> Seq<Seq<T>> {
    rows.map_values(|v: Vec<T>| v@)
}

impl<T: Copy> ChunkedColumn<T> {
    /// A column in normal form holding `rows`, row `r` valid when `bits[r]`.
    pub fn from_parts(name: String, rows: Vec<Vec<T>>, bits: Vec<bool>) -> (out: Self)
        requires
            rows@.len() == bits@.len(),
            rows_view(rows@).flatten().len() <= i64::MAX,
        ensures
            out.is_normal(),
            out.name@ == name@,
            out.rows() == rows_view(rows@),
            out.bits() == bits@,
    {
        let ghost all = rows_view(rows@);
        let mut chunks: Vec<Chunk<T>> = Vec::new();
        let mut i: usize = 0;
        assert(all.subrange(0, 0) =~= Seq::<Seq<T>>::empty());
        assert(bits@.subrange(0, 0) =~= Seq::<bool>::empty());
        while i < rows.len()
            invariant
                all == rows_view(rows@),
                all.flatten().len() <= i64::MAX,
                rows@.len() == bits@.len(),
                i <= rows@.len(),
                forall|c: int| 0 <= c < chunks@.len() ==> (#[trigger] chunks@[c]).wf(),
                rows_of(chunks@) == all.subrange(0, i as int),
                bits_of(chunks@) == bits@.subrange(0, i as int),
            decreases rows@.len() - i,
        {
            let row = copy_prefix(&rows[i], rows[i].len());
            let len = row.len();
            proof {
                lemma_subrange_flatten_len(all, i as int, i as int + 1);
                all.subrange(i as int, i as int + 1).lemma_flatten_one_element();
                assert(row@ =~= all[i as int]);
            }
            let mut offsets: Vec<i64> = Vec::new();
            offsets.push(0);
            offsets.push(len as i64);
            let mut valid: Vec<bool> = Vec::new();
            valid.push(bits[i]);
            let chunk = Chunk { offsets, values: row, validity: Some(valid), row_start: 0, row_len: 1 };
            let ghost prev = chunks@;
            chunks.push(chunk);
            proof {
                assert(chunks@.drop_last() =~= prev);
                assert(chunk.rows() =~= seq![all[i as int]]);
                assert(chunk.bits() =~= seq![bits@[i as int]]);
                assert(all.subrange(0, i as int + 1) =~= all.subrange(0, i as int) + seq![all[i as int]]);
                assert(bits@.subrange(0, i as int + 1) =~= bits@.subrange(0, i as int) + seq![bits@[i as int]]);
            }
            i = i + 1;
        }
        assert(all.subrange(0, i as int) =~= all);
        assert(bits@.subrange(0, i as int) =~= bits@);
        let col = ChunkedColumn { name, chunks };
        col.rechunk()
    }
}

/// Why a column could not be exploded.
#[derive(Debug, Clone, Copy, PartialEq, Eq, Structural)]
pub enum ExplodeError {
    /// The column has no rows in view.
    NoData,
}

/// A flat column: a name and one value per row.
pub struct Series<T> {
    pub name: String,
    pub values: Vec<T>,
}

/// The first `n` items of `v`.
pub fn copy_prefix<T: Copy>(v: &Vec<T>, n: usize) -> (out: Vec<T>)
    requires
        n <= v@.len(),
    ensures
        out@ == v@.subrange(0, n as int),
{
    let mut out: Vec<T> = Vec::with_capacity(n);
    let mut i: usize = 0;
    while i < n
        invariant
            i <= n <= v@.len(),
            out@ == v@.subrange(0, i as int),
        decreases n - i,
    {
        out.push(v[i]);
        i = i + 1;
        assert(out@ =~= v@.subrange(0, i as int));
    }
    out
}

} // verus!
