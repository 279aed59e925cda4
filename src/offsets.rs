use vstd::prelude::*;

verus! {

/// Offsets are well formed: at least one boundary, the first one is not
/// negative, and boundaries never decrease.
pub open spec fn valid_offsets(offsets: Seq<i64>) -> bool {
    &&& offsets.len() >= 1
    &&& offsets[0] >= 0
    &&& forall|a: int, b: int| 0 <= a <= b < offsets.len() ==> offsets[a] <= offsets[b]
}

/// Number of rows among the first `hi - 1` (boundaries `1..hi`) whose end
/// boundary lies at or before flat position `j`.
pub open spec fn rows_ended_before(offsets: Seq<i64>, hi: int, j: int) -> nat
    decreases hi,
{
    if hi <= 1 {
        0
    } else {
        rows_ended_before(offsets, hi - 1, j) + (if offsets[hi - 1] <= j { 1nat } else { 0nat })
    }
}

/// The parent row of flat element `j`: the number of rows that end at or
/// before `j`.
pub open spec fn parent_row(offsets: Seq<i64>, j: int) -> nat {
    rows_ended_before(offsets, offsets.len() as int, j)
}

/// Number of elements that row `r` owns.
pub open spec fn row_len(offsets: Seq<i64>, r: int) -> int {
    offsets[r + 1] - offsets[r]
}

pub(crate) proof fn lemma_rows_ended_split(offsets: Seq<i64>, hi: int, i: int, j: int)
    requires
        valid_offsets(offsets),
        1 <= i <= hi <= offsets.len(),
        forall|k: int| 1 <= k < i ==> offsets[k] <= j,
        forall|k: int| i <= k < hi ==> offsets[k] > j,
    ensures
        rows_ended_before(offsets, hi, j) == i - 1,
    decreases hi,
{
    if hi > i {
        lemma_rows_ended_split(offsets, hi - 1, i, j);
    } else if hi > 1 {
        lemma_rows_ended_split(offsets, hi - 1, i - 1, j);
    }
}

/// `idx` maps each of `capacity` flat elements to its parent row.
pub open spec fn is_index_mapping(offsets: Seq<i64>, capacity: int, idx: Seq<u32>) -> bool {
    &&& idx.len() == capacity
    &&& forall|j: int| 0 <= j < capacity ==> #[trigger] idx[j] as nat == parent_row(offsets, j)
}

/// Sum of the element counts of the first `k` rows.
pub open spec fn total_row_len(offsets: Seq<i64>, k: int) -> int
    decreases k,
{
    if k <= 0 {
        0
    } else {
        total_row_len(offsets, k - 1) + row_len(offsets, k - 1)
    }
}

proof fn lemma_total_row_len(offsets: Seq<i64>, k: int)
    requires
        valid_offsets(offsets),
        0 <= k < offsets.len(),
    ensures
        total_row_len(offsets, k) == offsets[k] - offsets[0],
    decreases k,
{
    if k > 0 {
        lemma_total_row_len(offsets, k - 1);
    }
}

/// For offsets that start at zero and a capacity equal to the last boundary,
/// the element counts of all rows add up to the capacity, and so does the
/// length of the index mapping.
pub proof fn lemma_mapping_covers_all_rows(offsets: Seq<i64>, capacity: int, idx: Seq<u32>)
    requires
        valid_offsets(offsets),
        offsets[0] == 0,
        capacity == offsets.last(),
        is_index_mapping(offsets, capacity, idx),
    ensures
        total_row_len(offsets, offsets.len() - 1) == capacity,
        idx.len() == capacity,
{
    lemma_total_row_len(offsets, offsets.len() - 1);
}

/// Maps every flat element to the row it came from. Element `j` is given the
/// number of rows that end at or before `j`: rows without elements are skipped,
/// and positions past the last boundary (up to `capacity`) get the row count.
pub fn offsets_to_indexes(offsets: &[i64], capacity: usize) -> (idx: Vec<u32>)
    requires
        valid_offsets(offsets@),
        offsets@.last() <= capacity,
        offsets@.len() - 1 <= u32::MAX,
    ensures
        is_index_mapping(offsets@, capacity as int, idx@),
{
    let mut idx: Vec<u32> = Vec::with_capacity(capacity);
    let mut count: i64 = 0;
    let mut last_idx: u32 = 0;
    let mut i: usize = 1;
    while i < offsets.len()
        invariant
            valid_offsets(offsets@),
            offsets@.last() <= capacity,
            offsets@.len() - 1 <= u32::MAX,
            1 <= i <= offsets.len(),
            last_idx == i - 1,
            count == (if i == 1 { 0 } else { offsets@[i - 1] }),
            idx@.len() == count,
            forall|j: int| 0 <= j < idx@.len() ==> #[trigger] idx@[j] as nat == parent_row(offsets@, j),
        decreases offsets.len() - i,
    {
        let offset = offsets[i];
        while count < offset
            invariant
                valid_offsets(offsets@),
                1 <= i < offsets.len(),
                last_idx == i - 1,
                0 <= count,
                count <= offset || count == (if i == 1 { 0 } else { offsets@[i - 1] }),
                offset == offsets@[i as int],
                offsets@.last() <= capacity,
                idx@.len() == count,
                forall|k: int| 1 <= k < i ==> offsets@[k] <= count,
                forall|j: int| 0 <= j < idx@.len() ==> #[trigger] idx@[j] as nat == parent_row(offsets@, j),
            decreases offset - count,
        {
            proof {
                assert forall|k: int| i <= k < offsets@.len() implies offsets@[k] > count as int by {}
                lemma_rows_ended_split(offsets@, offsets@.len() as int, i as int, count as int);
            }
            count = count + 1;
            idx.push(last_idx);
        }
        last_idx = last_idx + 1;
        i = i + 1;
    }
    let ghost n = offsets@.len() as int;
    assert forall|k: int| 1 <= k < n implies offsets@[k] <= idx@.len() by {}
    while (idx.len() < capacity)
        invariant
            valid_offsets(offsets@),
            n == offsets@.len(),
            last_idx == n - 1,
            forall|k: int| 1 <= k < n ==> offsets@[k] <= idx@.len(),
            idx@.len() <= capacity,
            forall|j: int| 0 <= j < idx@.len() ==> #[trigger] idx@[j] as nat == parent_row(offsets@, j),
        decreases capacity - idx@.len(),
    {
        proof {
            lemma_rows_ended_split(offsets@, n, n, idx@.len() as int);
        }
        idx.push(last_idx);
    }
    idx
}

} // verus!
