use blaise::shared::utils::{Slice, StrSliceMap};

#[test]
fn first_string_starts_at_zero() {
    let mut m = StrSliceMap::new();
    let s = m.get_slice("stop_a".to_string());
    assert_eq!(s, Slice { start_idx: 0, count: 6 });
}

#[test]
fn strings_are_appended_in_order() {
    let mut m = StrSliceMap::new();
    let a = m.get_slice("ab".to_string());
    let b = m.get_slice("cde".to_string());
    assert_eq!(a, Slice { start_idx: 0, count: 2 });
    assert_eq!(b, Slice { start_idx: 2, count: 3 });
    assert_eq!(m.take(), "abcde".to_string());
}

#[test]
fn same_string_gets_same_slice_and_is_stored_once() {
    let mut m = StrSliceMap::new();
    let a = m.get_slice("hub".to_string());
    let b = m.get_slice("x".to_string());
    let a2 = m.get_slice("hub".to_string());
    assert_eq!(a, a2);
    assert_eq!(b, Slice { start_idx: 3, count: 1 });
    assert_eq!(m.take(), "hubx".to_string());
}

#[test]
fn slices_read_back_their_strings() {
    let mut m = StrSliceMap::new();
    let keys = ["Centralen", "Odenplan", "Slussen", "Odenplan", "T-Centralen"];
    let slices: Vec<Slice> = keys.iter().map(|k| m.get_slice(k.to_string())).collect();
    let buffer = m.take();
    for (k, s) in keys.iter().zip(slices.iter()) {
        let start = s.start_idx as usize;
        let end = start + s.count as usize;
        assert_eq!(&buffer[start..end], *k);
    }
}

#[test]
fn lengths_are_counted_in_bytes() {
    let mut m = StrSliceMap::new();
    let a = m.get_slice("Söder".to_string());
    let b = m.get_slice("x".to_string());
    assert_eq!(a, Slice { start_idx: 0, count: 6 });
    assert_eq!(b, Slice { start_idx: 6, count: 1 });
}

#[test]
fn take_leaves_no_buffer_and_a_new_one_starts_empty() {
    let mut m = StrSliceMap::new();
    m.get_slice("abc".to_string());
    assert_eq!(m.take(), "abc".to_string());
    assert_eq!(m.take(), String::new());
    // A string seen before keeps its slice.
    assert_eq!(m.get_slice("abc".to_string()), Slice { start_idx: 0, count: 3 });
    // A new string starts a fresh buffer.
    assert_eq!(m.get_slice("de".to_string()), Slice { start_idx: 0, count: 2 });
    assert_eq!(m.take(), "de".to_string());
}

#[test]
fn empty_string_is_interned() {
    let mut m = StrSliceMap::new();
    m.get_slice("ab".to_string());
    assert_eq!(m.get_slice(String::new()), Slice { start_idx: 2, count: 0 });
}

#[test]
fn cells_group_positions_in_cell_order() {
    let (cells, buffer) = blaise::spatial::bucket_by_cell(&vec![2, 0, 2, 1, 0], 4);
    assert_eq!(buffer, vec![1, 4, 3, 0, 2]);
    assert_eq!(
        cells,
        vec![
            Some(blaise::spatial::CellSlice::new(0, 2)),
            Some(blaise::spatial::CellSlice::new(2, 1)),
            Some(blaise::spatial::CellSlice::new(3, 2)),
            None
        ]
    );
}

#[test]
fn taken_buffer_is_the_distinct_strings_in_first_request_order() {
    let mut m = StrSliceMap::new();
    let keys = ["ab", "", "c", "ab", "é", "c"];
    let slices: Vec<Slice> = keys.iter().map(|k| m.get_slice(k.to_string())).collect();
    let buffer = m.take();
    assert_eq!(buffer, "abcé");
    for (k, s) in keys.iter().zip(slices.iter()) {
        let start = s.start_idx as usize;
        assert_eq!(&buffer.as_bytes()[start..start + s.count as usize], k.as_bytes());
    }
    for i in 0..keys.len() {
        for j in 0..keys.len() {
            assert_eq!(slices[i] == slices[j], keys[i] == keys[j]);
        }
    }
}
