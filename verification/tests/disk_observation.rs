use ennx::index::IndexDriver;
use ennx::disk_observation::{
    check_backend, check_dims, check_disk_driver, check_indices, check_rows, check_thresholds, metadata_json, parse_number, parse_string, thresholds_for, ENNError, MAX_DIM, MAX_STRIDE,
};

#[test]
fn dim_above() {
    check_dims(MAX_DIM, 100).unwrap();
    let err = check_dims(MAX_DIM + 1, 100).unwrap_err();
    assert!(err.to_string().contains(&MAX_DIM.to_string()));
}

#[test]
fn dim_dim() {
    let err = check_dims(MAX_DIM + 1, 100).unwrap_err();
    assert!(err.to_string().contains("num_dim"));
    let err2 = check_dims(8, MAX_STRIDE + 1).unwrap_err();
    assert!(err2.to_string().contains("record_stride"));
}

#[test]
fn parse_branches() {
    let text = "{\"indexed_rows\":42,\"index_backend\":\"bpann_disk\"}";
    assert_eq!(parse_number(text, "indexed_rows"), Some(42));
    assert_eq!(parse_number(text, "missing"), None);
    assert_eq!(
        parse_string(text, "index_backend").as_deref(),
        Some("bpann_disk")
    );
    assert_eq!(parse_string(text, "missing"), None);
    assert_eq!(parse_string("{\"index_backend\":", "index_backend"), None);
}

#[test]
fn dims_messages_are_exact() {
    assert_eq!(
        check_dims(100_001, 1).unwrap_err(),
        ENNError::InvalidParameter("num_dim 100001 exceeds maximum 100000".to_string())
    );
    assert_eq!(
        check_dims(1, 8_388_609).unwrap_err().to_string(),
        "record_stride 8388609 exceeds maximum 8388608"
    );
    check_dims(0, MAX_STRIDE).unwrap();
}

#[test]
fn row_limit() {
    let err = check_rows(u32::MAX as usize).unwrap_err();
    assert!(err.to_string().contains("u32::MAX"));
    check_rows(0).unwrap();
    check_rows(u32::MAX as usize - 1).unwrap();
}

#[test]
fn numbers_skip_white_space_and_stop_at_non_digits() {
    assert_eq!(parse_number("{\"n\":  \t 17,", "n"), Some(17));
    assert_eq!(parse_number("{\"n\":007}", "n"), Some(7));
    assert_eq!(parse_number("{\"n\":not_a_number}", "n"), None);
    assert_eq!(parse_number("{\"n\":", "n"), None);
    assert_eq!(parse_number("{\"n\":-3}", "n"), None);
    assert_eq!(parse_number("{\"n\":99999999999999999999999}", "n"), None);
    assert_eq!(parse_number("{\"m\":1,\"n\":2,\"n\":3}", "n"), Some(2));
    assert_eq!(
        parse_number("{\"n\":18446744073709551615}", "n"),
        Some(18_446_744_073_709_551_615)
    );
    assert_eq!(parse_number("{\"n\":\u{3000}5}", "n"), Some(5));
}

#[test]
fn strings_end_at_the_next_quote() {
    assert_eq!(parse_string("{\"b\":\"\"}", "b").as_deref(), Some(""));
    assert_eq!(parse_string("{\"b\":\"é\u{1F600}x\"}", "b").as_deref(), Some("é\u{1F600}x"));
    assert_eq!(parse_string("{\"b\":\"abc", "b"), None);
    assert_eq!(parse_string("{\"b\": \"abc\"}", "b"), None);
}

#[test]
fn backend_must_match_metadata() {
    let text = "{\"format_version\":1,\"index_backend\":\"bpann_disk\",\"indexed_rows\":0}";
    check_backend(Some(text), "bpann_disk").unwrap();
    let err = check_backend(Some(text), "flat").unwrap_err();
    assert!(err.to_string().contains("index_backend"));
    assert_eq!(
        err.to_string(),
        "work_dir index_backend is bpann_disk, expected flat"
    );
    check_backend(None, "flat").unwrap();
    check_backend(Some("{\"indexed_rows\":5}"), "flat").unwrap();
}

#[test]
fn row_indices_are_checked() {
    assert_eq!(check_indices(3, &[0, 2, 1]), Ok(()));
    assert_eq!(check_indices(0, &[]), Ok(()));
    assert_eq!(
        check_indices(3, &[0, 5, 9]).unwrap_err().to_string(),
        "train_rows index 5 out of range [0, 3)"
    );
}

#[test]
fn metadata_text_round_trips() {
    let text = metadata_json(12, 3, 1, true, 10, "bpann");
    assert_eq!(
        text,
        "{\"format_version\":1,\"num_obs\":12,\"num_dim\":3,\"num_metrics\":1,\"scale_x\":true,\"index_backend\":\"bpann\",\"indexed_rows\":10}"
    );
    assert_eq!(parse_number(&text, "num_obs"), Some(12));
    assert_eq!(parse_number(&text, "indexed_rows"), Some(10));
    assert_eq!(parse_string(&text, "index_backend"), Some("bpann".to_string()));
    assert!(metadata_json(0, 0, 0, false, 0, "").contains("\"scale_x\":false"));
}

#[test]
fn disk_backend_rules() {
    assert_eq!(check_disk_driver(IndexDriver::BpAnnDisk), Ok(()));
    assert_eq!(
        check_disk_driver(IndexDriver::Exact).unwrap_err().to_string(),
        "DiskBpannEnnBackend requires IndexDriver::BpAnnDisk"
    );
    assert_eq!(check_thresholds(1, 1), Ok(()));
    assert_eq!(check_thresholds(0, 5).unwrap_err().to_string(), "soft_threshold must be >= 1");
    assert_eq!(check_thresholds(2, 0).unwrap_err().to_string(), "hard_threshold must be >= 1");
    assert_eq!(
        check_thresholds(4, 3).unwrap_err().to_string(),
        "hard_threshold must be >= soft_threshold"
    );
    assert_eq!(thresholds_for(10, 3000), (10, 3000));
    assert_eq!(thresholds_for(5000, 3000), (5000, 5000));
}

#[test]
fn bpann_disk() {
    let text = metadata_json(7, 3, 2, true, 5, "bpann_disk");
    assert_eq!(parse_number(&text, "indexed_rows"), Some(5));
    assert_eq!(parse_number(&text, "num_obs"), Some(7));
    assert_eq!(parse_string(&text, "index_backend").as_deref(), Some("bpann_disk"));
}

#[test]
fn load_cases() {
    let text = "{\"indexed_rows\":not_a_number,\"index_backend\":\"bpann_disk\"}";
    assert_eq!(parse_number(text, "indexed_rows"), None);
    assert_eq!(parse_string(text, "index_backend"), Some("bpann_disk".to_string()));
    assert_eq!(parse_string("{\"indexed_rows\":5}", "index_backend"), None);
    assert_eq!(parse_number("{\"format_version\":1}", "indexed_rows"), None);
}

#[test]
fn backend_names_with_quotes_do_not_read_back() {
    let text = metadata_json(1, 1, 1, false, 4, "a\"b");
    assert_eq!(parse_string(&text, "index_backend").as_deref(), Some("a"));
    assert_eq!(parse_number(&text, "indexed_rows"), Some(4));
    let tricky = metadata_json(9, 1, 1, false, 4, "indexed_rows");
    assert_eq!(parse_number(&tricky, "indexed_rows"), Some(4));
    assert_eq!(parse_string(&tricky, "index_backend").as_deref(), Some("indexed_rows"));
}
