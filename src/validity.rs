use vstd::prelude::*;

use crate::offsets::{lemma_rows_ended_split, parent_row, valid_offsets};
use arrow::array::BooleanBufferBuilder;

verus! {

#[verifier::external_type_specification]
#[verifier::external_body]
pub struct ExBooleanBufferBuilder(BooleanBufferBuilder);

/// The bits appended to a bitmap builder so far, in order.
pub uninterp spec fn builder_bits(b: BooleanBufferBuilder) -> Seq<bool>;

/// Relies on arrow's `BooleanBufferBuilder::new`: a builder that holds no bits.
#[verifier::external_body]
fn new_bitmap(capacity: usize) -> (b: BooleanBufferBuilder)
    ensures
        builder_bits(b) == Seq::<bool>::empty(),
{
    BooleanBufferBuilder::new(capacity)
}

/// Relies on arrow's `BooleanBufferBuilder::append`: adds one bit at the end.
#[verifier::external_body]
fn append_bit(b: &mut BooleanBufferBuilder, v: bool)
    ensures
        builder_bits(*final(b)) == builder_bits(*old(b)).push(v),
{
    b.append(v)
}

/// Relies on arrow's `BooleanBufferBuilder::finish`: hands out the bits
/// appended so far, in order, and leaves the builder empty.
#[verifier::external_body]
fn finish_bitmap(b: &mut BooleanBufferBuilder) -> (r: Vec<bool>)
    ensures
        r@ == builder_bits(*old(b)),
        builder_bits(*final(b)) == Seq::<bool>::empty(),
{
    b.finish().iter().collect()
}

/// The validity bit that row `r` hands to its elements. Positions past the
/// last row repeat the bit of the last row.
pub open spec fn row_bit(validity: Seq<bool>, r: int) -> bool {
    if r < validity.len() {
        validity[r]
    } else {
        validity.last()
    }
}

/// Rebuilds a per-row validity bitmap at the exploded cardinality: every
/// element carries the bit of the row it came from. A row without elements
/// leaves no bit behind.
pub fn explode_validity(offsets: &[i64], validity: &[bool], capacity: usize) -> (out: Vec<bool>)
    requires
        valid_offsets(offsets@),
        offsets@.last() <= capacity,
        validity@.len() == offsets@.len() - 1,
        validity@.len() == 0 ==> capacity == 0,
    ensures
        out@.len() == capacity,
        forall|j: int|
            0 <= j < capacity ==> #[trigger] out@[j] == row_bit(validity@, parent_row(offsets@, j) as int),
{
    let mut builder = new_bitmap(capacity);
    let mut count: i64 = 0;
    let mut last_idx: usize = 0;
    let mut last_valid: bool = if validity.len() > 0 { validity[0] } else { true };
    let mut i: usize = 1;
    while i < offsets.len()
        invariant
            valid_offsets(offsets@),
            offsets@.last() <= capacity,
            validity@.len() == offsets@.len() - 1,
            1 <= i <= offsets.len(),
            last_idx == i - 1,
            last_idx < validity@.len() ==> last_valid == validity@[last_idx as int],
            last_idx >= validity@.len() && validity@.len() > 0 ==> last_valid == validity@.last(),
            count == (if i == 1 { 0 } else { offsets@[i - 1] }),
            builder_bits(builder).len() == count,
            forall|j: int|
                0 <= j < builder_bits(builder).len() ==> #[trigger] builder_bits(builder)[j]
                    == row_bit(validity@, parent_row(offsets@, j) as int),
        decreases offsets.len() - i,
    {
        let offset = offsets[i];
        while count < offset
            invariant
                valid_offsets(offsets@),
                validity@.len() == offsets@.len() - 1,
                1 <= i < offsets.len(),
                last_idx == i - 1,
                last_valid == validity@[last_idx as int],
                0 <= count,
                count <= offset || count == (if i == 1 { 0 } else { offsets@[i - 1] }),
                offset == offsets@[i as int],
                offsets@.last() <= capacity,
                builder_bits(builder).len() == count,
                forall|k: int| 1 <= k < i ==> offsets@[k] <= count,
                forall|j: int|
                    0 <= j < builder_bits(builder).len() ==> #[trigger] builder_bits(builder)[j]
                    == row_bit(validity@, parent_row(offsets@, j) as int),
            decreases offset - count,
        {
            proof {
                assert forall|k: int| i <= k < offsets@.len() implies offsets@[k] > count as int by {}
                lemma_rows_ended_split(offsets@, offsets@.len() as int, i as int, count as int);
            }
            count = count + 1;
            append_bit(&mut builder, last_valid);
        }
        last_idx = last_idx + 1;
        if last_idx < validity.len() {
            last_valid = validity[last_idx];
        }
        i = i + 1;
    }
    let ghost n = offsets@.len() as int;
    assert forall|k: int| 1 <= k < n implies offsets@[k] <= builder_bits(builder).len() by {}
    let mut filled: usize = count as usize;
    while filled < capacity
        invariant
            filled == builder_bits(builder).len(),
            valid_offsets(offsets@),
            n == offsets@.len(),
            validity@.len() == n - 1,
            validity@.len() == 0 ==> capacity == 0,
            validity@.len() > 0 ==> last_valid == validity@.last(),
            forall|k: int| 1 <= k < n ==> offsets@[k] <= builder_bits(builder).len(),
            builder_bits(builder).len() <= capacity,
            forall|j: int|
                0 <= j < builder_bits(builder).len() ==> #[trigger] builder_bits(builder)[j]
                    == row_bit(validity@, parent_row(offsets@, j) as int),
        decreases capacity - filled,
    {
        proof {
            lemma_rows_ended_split(offsets@, n, n, builder_bits(builder).len() as int);
        }
        append_bit(&mut builder, last_valid);
        filled = filled + 1;
    }
    finish_bitmap(&mut builder)
}

} // verus!
