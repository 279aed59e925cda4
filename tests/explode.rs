use explode::column::{Chunk, ChunkedColumn, ExplodeError};
use explode::list::ListChunked;
use explode::offsets::offsets_to_indexes;
use explode::utf8::Utf8Chunked;
use explode::validity::explode_validity;

fn nested() -> ListChunked<i32> {
    ListChunked::from_rows("a".to_string(), vec![vec![1, 2, 3, 3], vec![1], vec![2]])
}

#[test]
fn test_explode_list() {
    let ca = nested();

    // normal explode
    let exploded = ca.explode().unwrap();
    assert_eq!(exploded.values, &[1, 2, 3, 3, 1, 2]);

    // sliced explode
    let exploded = ca.slice(0, 1).explode().unwrap();
    assert_eq!(exploded.values, &[1, 2, 3, 3]);
}

#[test]
fn indexes_of_three_rows() {
    let idx = offsets_to_indexes(&[0, 4, 5, 6], 6);
    assert_eq!(idx, vec![0, 0, 0, 0, 1, 2]);
}

#[test]
fn indexes_with_trailing_empty_row() {
    let idx = offsets_to_indexes(&[0, 2, 2], 2);
    assert_eq!(idx, vec![0, 0]);
}

#[test]
fn indexes_skip_empty_middle_row() {
    let idx = offsets_to_indexes(&[0, 1, 1, 3], 3);
    assert_eq!(idx, vec![0, 2, 2]);
}

#[test]
fn indexes_pad_up_to_capacity() {
    let idx = offsets_to_indexes(&[0, 1, 1], 3);
    assert_eq!(idx, vec![0, 2, 2]);
}

#[test]
fn indexes_of_no_rows() {
    let idx = offsets_to_indexes(&[0], 0);
    assert!(idx.is_empty());
}

#[test]
fn row_lengths_add_up_to_capacity() {
    let offsets = [0i64, 3, 3, 7, 8];
    let total: i64 = offsets.windows(2).map(|w| w[1] - w[0]).sum();
    let idx = offsets_to_indexes(&offsets, 8);
    assert_eq!(total, 8);
    assert_eq!(idx.len(), 8);
}

#[test]
fn list_explode_values_and_mapping() {
    let ca = nested();
    let (s, offsets, parent) = ca.explode_and_offsets().unwrap();
    assert_eq!(s.name, "a");
    assert_eq!(s.values, vec![1, 2, 3, 3, 1, 2]);
    assert_eq!(offsets, vec![0, 4, 5, 6]);
    assert_eq!(parent.column.chunks.len(), 1);
    let idx = offsets_to_indexes(&offsets, s.values.len());
    assert_eq!(idx, vec![0, 0, 0, 0, 1, 2]);
}

#[test]
fn list_explode_honours_window() {
    let ca = nested().slice(1, 2);
    let (s, offsets, _parent) = ca.explode_and_offsets().unwrap();
    assert_eq!(s.values, vec![1, 2]);
    assert_eq!(offsets, vec![0, 1, 2]);
}

#[test]
fn list_explode_over_several_chunks() {
    let first = Chunk {
        offsets: vec![0, 2, 3, 5],
        values: vec![10, 11, 12, 13, 14],
        validity: None,
        row_start: 1,
        row_len: 2,
    };
    let second = Chunk { offsets: vec![0, 0, 1], values: vec![20], validity: None, row_start: 0, row_len: 2 };
    let ca = ListChunked { column: ChunkedColumn { name: "b".to_string(), chunks: vec![first, second] } };
    let (s, offsets, _parent) = ca.explode_and_offsets().unwrap();
    assert_eq!(s.values, vec![12, 13, 14, 20]);
    assert_eq!(offsets, vec![0, 1, 3, 3, 4]);
    let idx = offsets_to_indexes(&offsets, s.values.len());
    assert_eq!(idx, vec![0, 1, 1, 3]);
}

#[test]
fn explode_of_single_element_rows_is_identity() {
    let ca = ListChunked::from_rows("c".to_string(), vec![vec![7], vec![8], vec![9]]);
    let (s, offsets, _parent) = ca.explode_and_offsets().unwrap();
    assert_eq!(s.values, vec![7, 8, 9]);
    let idx = offsets_to_indexes(&offsets, s.values.len());
    assert_eq!(idx, vec![0, 1, 2]);
}

#[test]
fn list_without_chunks_has_no_data() {
    let ca: ListChunked<i32> = ListChunked { column: ChunkedColumn { name: "e".to_string(), chunks: vec![] } };
    assert!(matches!(ca.explode(), Err(ExplodeError::NoData)));
}

#[test]
fn list_without_rows_has_no_data() {
    let ca: ListChunked<i32> = ListChunked::from_rows("e".to_string(), vec![]);
    assert_eq!(ca.explode().err(), Some(ExplodeError::NoData));
    let empty_window = nested().slice(3, 5);
    assert_eq!(empty_window.explode().err(), Some(ExplodeError::NoData));
}

#[test]
fn string_explode_one_row_per_char() {
    let ca = Utf8Chunked::from_strs("s".to_string(), &vec![Some("ab"), Some("c")]);
    let (s, offsets, _parent) = ca.explode_and_offsets().unwrap();
    let out = &s.column.chunks[0];
    assert_eq!(s.column.name, "s");
    assert_eq!(out.values, b"abc".to_vec());
    assert_eq!(out.offsets, vec![0, 1, 2, 3]);
    assert_eq!(out.row_len, 3);
    assert!(out.validity.is_none());
    assert_eq!(offsets, vec![0, 2, 3]);
}

#[test]
fn string_explode_with_null_row() {
    let ca = Utf8Chunked::from_strs("s".to_string(), &vec![Some("ab"), None]);
    let (s, offsets, _parent) = ca.explode_and_offsets().unwrap();
    let out = &s.column.chunks[0];
    assert_eq!(out.row_len, 2);
    assert_eq!(out.validity, Some(vec![true, true]));
    assert_eq!(offsets, vec![0, 2, 2]);
}

#[test]
fn string_explode_null_row_keeps_its_bit() {
    let ca = Utf8Chunked::from_strs("s".to_string(), &vec![Some("a"), None, Some("bc")]);
    let (s, _offsets, _parent) = ca.explode_and_offsets().unwrap();
    let out = &s.column.chunks[0];
    assert_eq!(out.row_len, 3);
    assert_eq!(out.validity, Some(vec![true, true, true]));
}

#[test]
fn string_explode_splits_multibyte_chars() {
    let ca = Utf8Chunked::from_strs("s".to_string(), &vec![Some("h\u{e9}"), None, Some("\u{1f600}x")]);
    let (s, offsets, _parent) = ca.explode_and_offsets().unwrap();
    let out = &s.column.chunks[0];
    assert_eq!(out.offsets, vec![0, 1, 3, 7, 8]);
    assert_eq!(out.row_len, 4);
    assert_eq!(out.validity, Some(vec![true, true, true, true]));
    assert_eq!(offsets, vec![0, 3, 3, 8]);
}

#[test]
fn string_explode_of_window() {
    let ca = Utf8Chunked::from_strs("s".to_string(), &vec![Some("ab"), Some("cd"), Some("e")]).slice(1, 1);
    let (s, offsets, _parent) = ca.explode_and_offsets().unwrap();
    let out = &s.column.chunks[0];
    assert_eq!(out.values, b"cd".to_vec());
    assert_eq!(out.offsets, vec![0, 1, 2]);
    assert_eq!(offsets, vec![0, 2]);
}

#[test]
fn string_without_rows_has_no_data() {
    let ca = Utf8Chunked::from_strs("s".to_string(), &vec![]);
    assert!(matches!(ca.explode_and_offsets(), Err(ExplodeError::NoData)));
}

#[test]
fn validity_follows_rows() {
    let bits = explode_validity(&[0, 1, 3], &[true, false], 3);
    assert_eq!(bits, vec![true, false, false]);
}

#[test]
fn validity_of_empty_null_row_is_dropped() {
    let bits = explode_validity(&[0, 2, 2, 3], &[true, false, true], 3);
    assert_eq!(bits, vec![true, true, true]);
}

#[test]
fn validity_pads_with_last_bit() {
    let bits = explode_validity(&[0, 1], &[false], 3);
    assert_eq!(bits, vec![false, false, false]);
}
