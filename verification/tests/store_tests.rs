use diff_coverage::store::{sort_and_dedup, CoverageLookupError, CoverageStore, FileCoverage};

#[test]
fn reports_ambiguous_path_matches() {
    let mut store = CoverageStore::default();
    store.on_line("src/foo.rs", 12, 0);
    store.on_line("src/foo.rs", 10, 2);
    store.on_line("lib/foo.rs", 14, 1);
    store.on_line("lib/foo.rs", 12, 1);

    let err = store.file_coverage("foo.rs").expect_err("ambiguous coverage");
    assert_eq!(
        err,
        CoverageLookupError {
            path: "foo.rs".to_string(),
            matches: vec!["lib/foo.rs".to_string(), "src/foo.rs".to_string()],
        }
    );
}

#[test]
fn prefers_exact_match_before_suffix_merge() {
    let mut store = CoverageStore::default();
    store.on_line("src/foo.rs", 12, 0);
    store.on_line("src/foo.rs", 10, 1);
    store.on_line("lib/foo.rs", 12, 1);

    let exact = store
        .file_coverage("src/foo.rs")
        .expect("lookup")
        .expect("exact coverage");
    assert_eq!(exact.measured_lines, vec![10, 12]);
    assert_eq!(exact.covered_lines, vec![10]);
}

#[test]
fn normalize_sorts_and_dedups_lines() {
    let mut coverage = FileCoverage::default();
    coverage.record_line(4, 1);
    coverage.record_line(2, 1);
    coverage.record_line(4, 1);
    coverage.record_line(3, 0);

    let normalized = coverage.normalized();
    assert_eq!(normalized.measured_lines, vec![2, 3, 4]);
    assert_eq!(normalized.covered_lines, vec![2, 4]);
}

#[test]
fn queries_agree_before_and_after_normalization() {
    let mut coverage = FileCoverage::default();
    coverage.record_line(7, 0);
    coverage.record_line(3, 2);
    coverage.record_line(7, 1);

    // dirty state: linear scans
    assert!(coverage.is_measured(3));
    assert!(coverage.is_measured(7));
    assert!(!coverage.is_measured(5));
    assert!(coverage.is_covered(3));
    assert!(coverage.is_covered(7));
    assert!(!coverage.is_covered(5));

    let normalized = coverage.normalized();
    // normalized state: binary searches, same answers
    assert!(normalized.is_measured(3));
    assert!(normalized.is_measured(7));
    assert!(!normalized.is_measured(5));
    assert!(normalized.is_covered(3));
    assert!(normalized.is_covered(7));
    assert!(!normalized.is_covered(5));
}

#[test]
fn normalizing_twice_changes_nothing() {
    let mut coverage = FileCoverage::default();
    coverage.record_line(9, 1);
    coverage.record_line(1, 0);
    coverage.record_line(9, 1);

    let once = coverage.normalized();
    let measured_once = once.measured_lines.clone();
    let covered_once = once.covered_lines.clone();
    let twice = once.normalized();
    assert_eq!(twice.measured_lines, measured_once);
    assert_eq!(twice.covered_lines, covered_once);
}

#[test]
fn sort_and_dedup_orders_and_removes_duplicates() {
    let mut values = vec![5, 1, 5, 3, 1];
    sort_and_dedup(&mut values);
    assert_eq!(values, vec![1, 3, 5]);

    let mut empty: Vec<u32> = Vec::new();
    sort_and_dedup(&mut empty);
    assert!(empty.is_empty());
}

#[test]
fn prepare_lookup_normalizes_every_entry() {
    let mut store = CoverageStore::default();
    store.on_line("a.rs", 4, 1);
    store.on_line("a.rs", 2, 0);
    store.on_line("a.rs", 4, 1);
    store.on_file("b.rs");
    store.prepare_lookup();

    let a = store.file_coverage("a.rs").expect("lookup").expect("entry");
    assert_eq!(a.measured_lines, vec![2, 4]);
    assert_eq!(a.covered_lines, vec![4]);
    let b = store.file_coverage("b.rs").expect("lookup").expect("entry");
    assert!(b.measured_lines.is_empty());
}

#[test]
fn missing_file_resolves_to_nothing() {
    let mut store = CoverageStore::default();
    store.on_line("src/foo.rs", 1, 1);
    let looked_up = store.file_coverage("bar.rs").expect("lookup");
    assert!(looked_up.is_none());
}

#[test]
fn single_suffix_match_resolves() {
    let mut store = CoverageStore::default();
    store.on_line("/project/src/foo.rs", 3, 1);
    let cov = store
        .file_coverage("src/foo.rs")
        .expect("lookup")
        .expect("suffix coverage");
    assert_eq!(cov.measured_lines, vec![3]);
    assert_eq!(cov.covered_lines, vec![3]);
}
