use vstd::prelude::*;

use crate::column::{
    copy_prefix, laid_out, lemma_normal_flatten, lemma_rows_of_single, rows_view, Chunk,
    ChunkedColumn, ExplodeError,
};
use crate::offsets::{parent_row, valid_offsets};
use crate::validity::{explode_validity, row_bit};
use vstd::math::min;
use vstd::string::StringSliceAdditionalSpecFns;
use vstd::utf8::{
    decode_utf8, encode_utf8_valid_utf8, is_continuation_byte, length_of_first_scalar,
    pop_first_scalar, take_first_scalar, valid_utf8, valid_utf8_concat,
};

verus! {

/// A byte that begins a UTF-8 encoded character: anything but a
/// continuation byte `0b10xx_xxxx`.
pub open spec fn is_char_start(b: u8) -> bool {
    !is_continuation_byte(b)
}

/// Positions of the character starts among the first `k` bytes, ascending.
pub open spec fn char_starts(bytes: Seq<u8>, k: int) -> Seq<i64>
    decreases k,
{
    if k <= 0 {
        Seq::empty()
    } else if is_char_start(bytes[k - 1]) {
        char_starts(bytes, k - 1).push((k - 1) as i64)
    } else {
        char_starts(bytes, k - 1)
    }
}

/// Offsets of one row per character: every character start, then the end.
pub open spec fn char_offsets(bytes: Seq<u8>) -> Seq<i64> {
    char_starts(bytes, bytes.len() as int).push(bytes.len() as i64)
}

/// Row boundaries counted in characters instead of bytes.
pub open spec fn char_row_offsets(offsets: Seq<i64>, bytes: Seq<u8>) -> Seq<i64> {
    Seq::new(offsets.len(), |r: int| char_starts(bytes, offsets[r] as int).len() as i64)
}

pub proof fn lemma_char_starts_sorted(bytes: Seq<u8>, k: int)
    requires
        0 <= k <= bytes.len() <= i64::MAX,
    ensures
        char_starts(bytes, k).len() <= k,
        forall|i: int| 0 <= i < char_starts(bytes, k).len() ==> 0 <= #[trigger] char_starts(bytes, k)[i] < k,
        forall|i: int, j: int|
            0 <= i < j < char_starts(bytes, k).len() ==> char_starts(bytes, k)[i] < char_starts(bytes, k)[j],
    decreases k,
{
    if k > 0 {
        lemma_char_starts_sorted(bytes, k - 1);
        let prev = char_starts(bytes, k - 1);
        if is_char_start(bytes[k - 1]) {
            assert(char_starts(bytes, k) == prev.push((k - 1) as i64));
            assert(((k - 1) as i64) == k - 1);
        } else {
            assert(char_starts(bytes, k) == prev);
        }
    }
}

pub proof fn lemma_char_starts_mono(bytes: Seq<u8>, a: int, b: int)
    requires
        0 <= a <= b,
    ensures
        char_starts(bytes, a).len() <= char_starts(bytes, b).len(),
    decreases b,
{
    if a < b {
        lemma_char_starts_mono(bytes, a, b - 1);
    }
}

proof fn lemma_char_starts_prefix(a: Seq<u8>, b: Seq<u8>, k: int)
    requires
        0 <= k <= a.len(),
    ensures
        char_starts(a + b, k).len() == char_starts(a, k).len(),
    decreases k,
{
    if k > 0 {
        lemma_char_starts_prefix(a, b, k - 1);
        assert((a + b)[k - 1] == a[k - 1]);
    }
}

proof fn lemma_char_starts_concat(a: Seq<u8>, b: Seq<u8>, k: int)
    requires
        0 <= k <= b.len(),
    ensures
        char_starts(a + b, a.len() + k).len() == char_starts(a, a.len() as int).len() + char_starts(
            b,
            k,
        ).len(),
    decreases k,
{
    if k == 0 {
        lemma_char_starts_prefix(a, b, a.len() as int);
    } else {
        lemma_char_starts_concat(a, b, k - 1);
        assert((a + b)[a.len() + k - 1] == b[k - 1]);
    }
}

proof fn lemma_char_starts_one_char(t: Seq<u8>, k: int)
    requires
        1 <= k <= t.len(),
        is_char_start(t[0]),
        forall|i: int| 1 <= i < t.len() ==> !is_char_start(#[trigger] t[i]),
    ensures
        char_starts(t, k).len() == 1,
    decreases k,
{
    if k > 1 {
        lemma_char_starts_one_char(t, k - 1);
    } else {
        assert(char_starts(t, 0).len() == 0);
    }
}

/// In well-formed UTF-8, the character starts are exactly one per
/// character, so exploding text gives one row per character.
pub proof fn lemma_one_row_per_char(bytes: Seq<u8>)
    requires
        valid_utf8(bytes),
    ensures
        char_offsets(bytes).len() - 1 == decode_utf8(bytes).len(),
    decreases bytes.len(),
{
    if bytes.len() == 0 {
        assert(char_starts(bytes, 0).len() == 0);
    } else {
        let l = length_of_first_scalar(bytes);
        let head = take_first_scalar(bytes);
        let rest = pop_first_scalar(bytes);
        assert(1 <= l <= 4);
        assert(bytes =~= head + rest);
        lemma_one_row_per_char(rest);
        lemma_char_starts_concat(head, rest, rest.len() as int);
        assert forall|i: int| 1 <= i < head.len() implies !is_char_start(#[trigger] head[i]) by {
            assert(is_continuation_byte(head[i]));
        }
        lemma_char_starts_one_char(head, l);
    }
}

/// Rows of well-formed UTF-8 laid end to end are well-formed UTF-8.
proof fn lemma_flatten_valid_utf8(rows: Seq<Seq<u8>>)
    requires
        forall|r: int| 0 <= r < rows.len() ==> valid_utf8(#[trigger] rows[r]),
    ensures
        valid_utf8(rows.flatten()),
    decreases rows.len(),
{
    if rows.len() > 0 {
        lemma_flatten_valid_utf8(rows.drop_first());
        valid_utf8_concat(rows.first(), rows.drop_first().flatten());
    }
}

/// Byte offsets of one row per character of `bytes`, closed by the length.
pub fn split_chars(bytes: &Vec<u8>) -> (out: Vec<i64>)
    requires
        bytes@.len() <= i64::MAX,
    ensures
        out@ == char_offsets(bytes@),
{
    let mut out: Vec<i64> = Vec::new();
    let mut k: usize = 0;
    while k < bytes.len()
        invariant
            k <= bytes@.len() <= i64::MAX,
            out@ == char_starts(bytes@, k as int),
        decreases bytes@.len() - k,
    {
        let b = bytes[k];
        if !(0x80 <= b && b <= 0xBF) {
            out.push(k as i64);
        }
        k = k + 1;
    }
    out.push(bytes.len() as i64);
    out
}

/// For every row boundary, the number of characters before it.
pub fn count_chars_at(offsets: &Vec<i64>, bytes: &Vec<u8>) -> (out: Vec<i64>)
    requires
        valid_offsets(offsets@),
        offsets@.last() <= bytes@.len() <= i64::MAX,
    ensures
        out@ == char_row_offsets(offsets@, bytes@),
{
    let mut out: Vec<i64> = Vec::new();
    let mut pos: usize = 0;
    let mut count: i64 = 0;
    let mut r: usize = 0;
    while r < offsets.len()
        invariant
            valid_offsets(offsets@),
            offsets@.last() <= bytes@.len() <= i64::MAX,
            r <= offsets@.len(),
            r == 0 ==> pos == 0,
            r > 0 ==> pos == offsets@[r - 1],
            count == char_starts(bytes@, pos as int).len(),
            out@ == char_row_offsets(offsets@, bytes@).subrange(0, r as int),
        decreases offsets@.len() - r,
    {
        assert(offsets@[r as int] <= offsets@.last());
        assert(r > 0 ==> offsets@[r - 1] <= offsets@[r as int]);
        let blen = bytes.len();
        let end = offsets[r] as usize;
        while pos < end
            invariant
                end <= blen == bytes@.len() <= i64::MAX,
                pos <= end,
                count == char_starts(bytes@, pos as int).len(),
            decreases end - pos,
        {
            proof {
                lemma_char_starts_sorted(bytes@, pos as int);
            }
            let b = bytes[pos];
            if !(0x80 <= b && b <= 0xBF) {
                count = count + 1;
            }
            pos = pos + 1;
        }
        out.push(count);
        r = r + 1;
        assert(out@ =~= char_row_offsets(offsets@, bytes@).subrange(0, r as int));
    }
    assert(out@ =~= char_row_offsets(offsets@, bytes@));
    out
}


/// The UTF-8 bytes of each text row; a null row holds none.
pub open spec fn text_rows<'a>(rows: Seq<Option<&'a str>>) -> Seq<Seq<u8>> {
    rows.map_values(
        |o: Option<&'a str>|
            match o {
                Some(t) => t.spec_bytes(),
                None => Seq::empty(),
            },
    )
}

/// Which text rows are not null.
pub open spec fn text_bits<'a>(rows: Seq<Option<&'a str>>) -> Seq<bool> {
    rows.map_values(|o: Option<&'a str>| o is Some)
}

/// The bytes of `b`, copied.
fn copy_bytes(b: &[u8]) -> (out: Vec<u8>)
    ensures
        out@ == b@,
{
    let mut out: Vec<u8> = Vec::new();
    let mut i: usize = 0;
    while i < b.len()
        invariant
            i <= b@.len(),
            out@ == b@.subrange(0, i as int),
        decreases b@.len() - i,
    {
        out.push(b[i]);
        i = i + 1;
        assert(out@ =~= b@.subrange(0, i as int));
    }
    assert(out@ =~= b@);
    out
}

/// A column of text rows, stored as UTF-8 bytes.
pub struct Utf8Chunked {
    pub column: ChunkedColumn<u8>,
}

impl Utf8Chunked {
    pub open spec fn wf(&self) -> bool {
        &&& self.column.wf()
        &&& self.column.rows().flatten().len() <= i64::MAX
    }

    /// The bytes of each row in view.
    pub open spec fn rows(&self) -> Seq<Seq<u8>> {
        self.column.rows()
    }

    /// The validity of each row in view.
    pub open spec fn bits(&self) -> Seq<bool> {
        self.column.bits()
    }

    /// Every row in view is well-formed UTF-8.
    pub open spec fn is_text(&self) -> bool {
        forall|r: int| 0 <= r < self.rows().len() ==> valid_utf8(#[trigger] self.rows()[r])
    }

    /// A column named `name` with the given rows; `None` is a null row.
    pub fn from_strs(name: String, rows: &Vec<Option<&str>>) -> (out: Self)
        requires
            text_rows(rows@).flatten().len() <= i64::MAX,
        ensures
            out.wf(),
            out.column.is_normal(),
            out.column.name@ == name@,
            out.rows() == text_rows(rows@),
            out.bits() == text_bits(rows@),
            out.is_text(),
    {
        let mut byte_rows: Vec<Vec<u8>> = Vec::new();
        let mut bits: Vec<bool> = Vec::new();
        let mut i: usize = 0;
        while i < rows.len()
            invariant
                i <= rows@.len(),
                byte_rows@.len() == i,
                bits@.len() == i,
                forall|k: int| 0 <= k < i ==> (#[trigger] byte_rows@[k])@ == text_rows(rows@)[k],
                forall|k: int| 0 <= k < i ==> #[trigger] bits@[k] == text_bits(rows@)[k],
            decreases rows@.len() - i,
        {
            match rows[i] {
                Some(t) => {
                    byte_rows.push(copy_bytes(t.as_bytes()));
                    bits.push(true);
                },
                None => {
                    byte_rows.push(Vec::new());
                    bits.push(false);
                },
            }
            i = i + 1;
        }
        assert(rows_view(byte_rows@) =~= text_rows(rows@));
        assert(bits@ =~= text_bits(rows@));
        let out = Utf8Chunked { column: ChunkedColumn::from_parts(name, byte_rows, bits) };
        assert forall|r: int| 0 <= r < out.rows().len() implies valid_utf8(#[trigger] out.rows()[r]) by {
            match rows@[r] {
                Some(t) => encode_utf8_valid_utf8(t@),
                None => {},
            }
        }
        out
    }

    /// The rows in view from `offset` on, at most `length` of them.
    pub fn slice(&self, offset: usize, length: usize) -> (out: Self)
        requires
            self.wf(),
        ensures
            out.wf(),
            out.column.name@ == self.column.name@,
            out.rows() == self.rows().subrange(
                min(offset as int, self.rows().len() as int),
                min(offset + length, self.rows().len() as int),
            ),
            out.bits() == self.bits().subrange(
                min(offset as int, self.rows().len() as int),
                min(offset + length, self.rows().len() as int),
            ),
            self.is_text() ==> out.is_text(),
    {
        Utf8Chunked { column: self.column.slice(offset, length) }
    }

    /// Explodes the column into one row per character. The exploded column
    /// keeps the byte buffer of all rows in view and splits it at every
    /// character start; where some row is null, each character carries the
    /// validity of the row it came from, and otherwise there is no bitmap.
    /// Also returned: the byte offsets of the original rows and the
    /// normalized column they were read from. A column without rows cannot be
    /// exploded.
    pub fn explode_and_offsets(&self) -> (res: Result<
        (Utf8Chunked, Vec<i64>, Utf8Chunked),
        ExplodeError,
    >)
        requires
            self.wf(),
        ensures
            res is Err <==> self.rows().len() == 0,
            res is Err ==> res == Err::<(Utf8Chunked, Vec<i64>, Utf8Chunked), _>(
                ExplodeError::NoData,
            ),
            res matches Ok((s, offsets, ca)) ==> {
                let bytes = self.rows().flatten();
                let out = s.column.chunks@[0];
                &&& ca.column.is_normal()
                &&& ca.column.name@ == self.column.name@
                &&& ca.rows() == self.rows()
                &&& ca.bits() == self.bits()
                &&& offsets@ == ca.column.chunks@[0].offsets@
                &&& laid_out(offsets@, bytes) == self.rows()
                &&& s.column.wf()
                &&& s.column.name@ == self.column.name@
                &&& s.column.chunks@.len() == 1
                &&& out.values@ == bytes
                &&& out.offsets@ == char_offsets(bytes)
                &&& out.row_start == 0
                &&& out.row_len == out.offsets@.len() - 1
                &&& (self.is_text() ==> valid_utf8(out.values@) && out.row_len == decode_utf8(
                    out.values@,
                ).len())
                &&& (out.validity is None <==> forall|r: int|
                    0 <= r < self.bits().len() ==> #[trigger] self.bits()[r])
                &&& (out.validity matches Some(v) ==> forall|k: int|
                    0 <= k < out.row_len ==> #[trigger] v@[k] == row_bit(
                        self.bits(),
                        parent_row(char_row_offsets(offsets@, bytes), k) as int,
                    ))
            },
    {
        let ca = self.column.rechunk();
        let arr = &ca.chunks[0];
        proof {
            lemma_rows_of_single(*arr);
            assert(ca.chunks@ =~= seq![*arr]);
        }
        if arr.row_len == 0 {
            return Err(ExplodeError::NoData);
        }
        let offsets = copy_prefix(&arr.offsets, arr.offsets.len());
        let bytes = copy_prefix(&arr.values, arr.values.len());
        proof {
            assert(offsets@ =~= arr.offsets@);
            assert(bytes@ =~= arr.values@);
            lemma_normal_flatten(*arr, arr.row_len as int);
            assert(arr.rows().subrange(0, arr.row_len as int) =~= arr.rows());
            assert(arr.values@.subrange(0, arr.offsets@[arr.row_len as int] as int) =~= arr.values@);
            assert(laid_out(offsets@, bytes@) =~= arr.rows());
            lemma_char_starts_sorted(bytes@, bytes@.len() as int);
        }
        proof {
            if self.is_text() {
                lemma_flatten_valid_utf8(self.rows());
                lemma_one_row_per_char(bytes@);
            }
        }
        let new_offsets = split_chars(&bytes);
        let n = new_offsets.len() - 1;
        let validity = match &arr.validity {
            Some(v) => {
                let counts = count_chars_at(&offsets, &bytes);
                proof {
                    assert forall|a: int, b: int| 0 <= a <= b < counts@.len() implies counts@[a]
                        <= counts@[b] by {
                        assert(offsets@[a] <= offsets@[b]);
                        lemma_char_starts_mono(bytes@, offsets@[a] as int, offsets@[b] as int);
                        lemma_char_starts_sorted(bytes@, offsets@[b] as int);
                    }
                    assert(counts@[0] == 0);
                    assert(v@ =~= self.bits());
                }
                let bits = explode_validity(counts.as_slice(), v.as_slice(), n);
                Some(bits)
            },
            None => None,
        };
        let out_chunk = Chunk { offsets: new_offsets, values: bytes, validity, row_start: 0, row_len: n };
        let mut chunks: Vec<Chunk<u8>> = Vec::new();
        chunks.push(out_chunk);
        let s = Utf8Chunked { column: ChunkedColumn { name: self.column.name.clone(), chunks } };
        proof {
            let no = s.column.chunks@[0].offsets@;
            assert forall|a: int, b: int| 0 <= a <= b < no.len() implies no[a] <= no[b] by {}
            assert forall|c: int| 0 <= c < s.column.chunks@.len() implies (
            #[trigger] s.column.chunks@[c]).wf() by {}
        }
        Ok((s, offsets, Utf8Chunked { column: ca }))
    }
}

} // verus!
