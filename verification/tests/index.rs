use ennx::index::{
    finish_distances, finish_indices, kept_row, pad_row,
    check_dims, faiss_spec, index_error, is_disk_index_driver, kept_columns, search_plan, to_u32,
    IndexDriver, IndexError,
};

#[test]
fn faiss_spec_is_flat() {
    assert_eq!(faiss_spec(IndexDriver::Exact), "Flat");
}

#[test]
fn only_bpann_is_a_disk_driver() {
    for d in [
        IndexDriver::Exact,
        IndexDriver::Auto,
        IndexDriver::Agx,
        IndexDriver::USearch,
        IndexDriver::Metal,
        IndexDriver::OpenCl,
        IndexDriver::Cuda,
    ] {
        assert!(!is_disk_index_driver(d));
    }
    assert!(is_disk_index_driver(IndexDriver::BpAnnDisk));
    assert_eq!(IndexDriver::default(), IndexDriver::Exact);
}

#[test]
fn u32_narrowing() {
    assert_eq!(to_u32(7, "rows"), Ok(7));
    assert_eq!(to_u32(u32::MAX as usize, "rows"), Ok(u32::MAX));
    assert_eq!(
        to_u32(u32::MAX as usize + 1, "tile rows").unwrap_err(),
        IndexError::InvalidParameter("tile rows exceeds u32 range".to_string())
    );
}

#[test]
fn index_error_messages() {
    assert_eq!(
        IndexError::InvalidShape { expected: 3, got: 2 }.to_string(),
        "Invalid shape: expected 3 dims, got 2"
    );
    assert_eq!(
        index_error("boom".to_string()).to_string(),
        "Invalid search parameter: boom"
    );
}

#[test]
fn search_requests() {
    assert_eq!(search_plan(3, 2, 2, 10), Ok((3, 3)));
    assert_eq!(search_plan(5, 2, 2, 4), Ok((5, 4)));
    assert_eq!(search_plan(5, 2, 2, 0), Ok((5, 0)));
    assert_eq!(
        search_plan(0, 2, 2, 4).unwrap_err().to_string(),
        "Invalid search parameter: search_k must be > 0, got 0"
    );
    assert_eq!(
        search_plan(-7, 2, 2, 4).unwrap_err().to_string(),
        "Invalid search parameter: search_k must be > 0, got -7"
    );
    assert_eq!(
        search_plan(i32::MIN, 2, 2, 4).unwrap_err().to_string(),
        "Invalid search parameter: search_k must be > 0, got -2147483648"
    );
    assert_eq!(search_plan(1, 3, 2, 4), Err(IndexError::InvalidShape { expected: 2, got: 3 }));
    assert_eq!(check_dims(2, 2), Ok(()));
    assert_eq!(check_dims(2, 5), Err(IndexError::InvalidShape { expected: 2, got: 5 }));
    assert_eq!(kept_columns(4, false), (0, 4));
    assert_eq!(kept_columns(4, true), (1, 3));
    assert_eq!(kept_columns(1, true), (0, 0));
    assert_eq!(kept_columns(0, true), (0, 0));
}

#[test]
fn test_invalid_search_k() {
    // One stored row of two dimensions, searched with a zero neighbour count.
    let result = search_plan(0, 2, 2, 1);
    assert!(matches!(result, Err(IndexError::InvalidParameter(_))));
}

#[test]
fn test_invalid_dimensions() {
    // One stored row of two dimensions, searched with a three-dimensional query.
    let result = search_plan(1, 3, 2, 1);
    assert!(matches!(result, Err(IndexError::InvalidShape { expected: 2, got: 3 })));
}

#[test]
fn search_rows_are_padded_then_trimmed() {
    assert_eq!(pad_row(&vec![4i64, 9], 4, 9), vec![4, 9, 9, 9]);
    assert_eq!(pad_row(&vec![4i64, 9, 1], 2, 0), vec![4, 9, 1]);
    assert_eq!(kept_row(&vec![4i64, 9, 1], true), vec![9, 1]);
    assert_eq!(kept_row(&vec![4i64], true), Vec::<i64>::new());
    assert_eq!(kept_row(&vec![4i64, 9], false), vec![4, 9]);
    let found_rows = vec![vec![2i64, 0], vec![], vec![1, 2]];
    assert_eq!(
        finish_indices(&found_rows, 3, false),
        vec![vec![2, 0, 0], vec![0, 0, 0], vec![1, 2, 2]]
    );
    let found_dist = vec![vec![0.5f64, 1.5], vec![], vec![0.25, 2.0]];
    let inf = f64::INFINITY;
    assert_eq!(
        finish_distances(&found_dist, 3, inf, false),
        vec![vec![0.5, 1.5, inf], vec![inf, inf, inf], vec![0.25, 2.0, inf]]
    );
}

#[test]
fn excluding_the_nearest_drops_the_first_column() {
    let found_rows = vec![vec![3i64, 1, 4], vec![0], vec![]];
    let found_dist = vec![vec![0.0f64, 1.0, 4.0], vec![2.0], vec![]];
    for k in 1..=4usize {
        let plain_i = finish_indices(&found_rows, k.max(3), false);
        let excl_i = finish_indices(&found_rows, k.max(3), true);
        let plain_d = finish_distances(&found_dist, k.max(3), f64::INFINITY, false);
        let excl_d = finish_distances(&found_dist, k.max(3), f64::INFINITY, true);
        for q in 0..3 {
            assert_eq!(plain_i[q].len(), k.max(3));
            assert_eq!(excl_i[q], plain_i[q][1..].to_vec());
            assert_eq!(excl_d[q], plain_d[q][1..].to_vec());
        }
    }
    // One neighbour asked for: nothing is left once the nearest is excluded.
    assert_eq!(finish_indices(&vec![vec![5i64]], 1, true), vec![Vec::<i64>::new()]);
}
