use ennx::column_store::RowLayout;
use ennx::disk_observation::ENNError;

#[test]
#[allow(non_snake_case)]
fn mmap_store_MmapColumnStore() {
    let store = RowLayout::open(2, 0, None).unwrap();
    assert_eq!(store.ncols, 2);
}

#[test]
fn mmap_store_row_bytes() {
    let store = RowLayout::open(2, 0, None).unwrap();
    assert_eq!(store.row_bytes(), 16);
}

#[test]
fn mmap_store_bytes_for_rows() {
    let store = RowLayout::open(2, 0, None).unwrap();
    assert_eq!(store.bytes_for_rows(4), 64);
    assert_eq!(store.bytes_for_rows(usize::MAX), usize::MAX);
}

#[test]
fn mmap_store_ensure_capacity() {
    let store = RowLayout::open(2, 0, None).unwrap();
    // Three rows do not fit in an empty mapping: grow to exactly three rows.
    assert_eq!(store.grown_len(3, 0), Some(3 * 16));
    // Appending two rows then leaves two written.
    assert_eq!(store.appended(2, 2), Ok(2));
}

#[test]
fn growth_to_the_rows_needed() {
    let store = RowLayout { ncols: 2, nrows: 0 };
    // Once the file is long enough, no growth is needed.
    assert_eq!(store.grown_len(3, 3 * 16), None);
    assert_eq!(store.grown_len(3, 64 * 16), None);
    let full = RowLayout { ncols: 2, nrows: 10 };
    assert_eq!(full.grown_len(400, 160), Some(400 * 16));
    assert_eq!(full.grown_len(11, 160), Some(11 * 16));
    assert_eq!(full.grown_len(usize::MAX, 160), Some(usize::MAX));
    assert_eq!(full.appended(2, 2), Ok(12));
}

#[test]
fn open_existing_files() {
    assert_eq!(RowLayout::open(2, 70, None), Ok(RowLayout { ncols: 2, nrows: 4 }));
    assert_eq!(RowLayout::open(0, 70, None), Ok(RowLayout { ncols: 0, nrows: 0 }));
    assert_eq!(RowLayout::open(2, 64, Some(4)), Ok(RowLayout { ncols: 2, nrows: 4 }));
    assert_eq!(
        RowLayout::open(2, 63, Some(4)).unwrap_err().to_string(),
        "known_nrows 4 exceeds train file bytes 63"
    );
}

#[test]
fn row_bounds() {
    let store = RowLayout { ncols: 3, nrows: 2 };
    assert_eq!(store.row_span(1), Ok((24, 48)));
    assert_eq!(store.row_span(2).unwrap_err().to_string(), "row 2 out of range [0, 2)");
    assert_eq!(store.check_range(0, 2), Ok(()));
    assert_eq!(store.check_range(1, 1), Ok(()));
    assert_eq!(
        store.check_range(2, 1).unwrap_err().to_string(),
        "mmap_row_range: start 2 > end 1"
    );
    assert_eq!(
        store.check_range(0, 3).unwrap_err().to_string(),
        "mmap_row_range end 3 out of range [0, 2)"
    );
}

#[test]
fn appends_check_the_width() {
    let store = RowLayout { ncols: 3, nrows: 2 };
    assert_eq!(store.appended(0, 7), Ok(2));
    let error = store.appended(1, 2).unwrap_err();
    assert_eq!(error, ENNError::InvalidShape { expected: vec![2, 3], got: vec![1, 2] });
    assert_eq!(error.to_string(), "Invalid shape: expected [2, 3], got [1, 2]");
    assert_eq!(
        ENNError::InvalidShape { expected: vec![], got: vec![5] }.to_string(),
        "Invalid shape: expected [], got [5]"
    );
}
