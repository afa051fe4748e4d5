use ennx::file_config::{BpannConfig, ConfigFile, PENDING_HARD};

#[test]
fn bpann_config2() {
    assert!(BpannConfig::default().validate().is_ok());
}

#[test]
fn defaults() {
    let c = ConfigFile::default().bpann;
    assert_eq!(c.index_fragment, 10_000);
    assert_eq!(c.soft_threshold, 250);
    assert_eq!(c.resolved_threshold(), 3000);
    assert_eq!(c.structured_limit, 1024);
    assert_eq!(c.search_width, 1);
    assert_eq!(c.exhaustive_limit, 2500);
    assert_eq!(c.skip_limit, 150_000);
    assert_eq!(c.search_limit, 1);
    assert_eq!(c.index_max, 32);
    assert_eq!(c.search_fragment, 80_000);
    assert_eq!(c.fragment_rows, 15_000);
    assert_eq!(c.build_seed, None);
}

#[test]
fn absent_hard_threshold_resolves() {
    let mut c = BpannConfig::default();
    c.hard_threshold = None;
    c.soft_threshold = 2000;
    assert_eq!(c.resolved_threshold(), PENDING_HARD);
    c.soft_threshold = 5000;
    assert_eq!(c.resolved_threshold(), 5000);
    assert!(c.validate().is_ok());
}

#[test]
fn invalid_fields_are_named() {
    let mut c = BpannConfig::default();
    c.soft_threshold = 2000;
    c.hard_threshold = Some(1000);
    assert!(c.validate().unwrap_err().contains("hard_threshold"));
    let mut c = BpannConfig::default();
    c.search_width = 0;
    assert!(c.validate().unwrap_err().contains("search_width"));
    let mut c = BpannConfig::default();
    c.exhaustive_limit = 0;
    assert!(c.validate().unwrap_err().contains("exhaustive_limit"));
    let mut c = BpannConfig::default();
    c.exhaustive_limit = 100;
    c.skip_limit = 50;
    assert!(c.validate().unwrap_err().contains("skip_limit"));
    let mut c = BpannConfig::default();
    c.index_fragment = 0;
    assert!(c.validate().unwrap_err().contains("index_fragment"));
}
