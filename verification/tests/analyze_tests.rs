use diff_coverage::analyze::analyze_changed_coverage;
use diff_coverage::diff::{parse_unified_diff, ChangedFile};
use diff_coverage::store::CoverageStore;

fn split_lines(text: &str) -> Vec<String> {
    text.lines().map(|line| line.to_string()).collect()
}

#[test]
fn counts_unique_changed_lines_and_tracks_uncovered() {
    let changed_files = vec![ChangedFile {
        path: "src\\foo.rs".to_string(),
        changed_lines: vec![1, 1, 2, 3],
    }];

    let mut store = CoverageStore::default();
    store.on_line("src/foo.rs", 1, 2);
    store.on_line("src/foo.rs", 2, 0);

    let report = analyze_changed_coverage(&changed_files, &store, true).expect("report");

    assert_eq!(report.total_changed, 2);
    assert_eq!(report.total_covered, 1);
    assert_eq!(report.uncovered_files.len(), 1);
    let uncovered = &report.uncovered_files[0];
    assert_eq!(uncovered.path, "src/foo.rs");
    assert_eq!(uncovered.uncovered_lines, vec![2]);
}

#[test]
fn treats_missing_files_as_uncovered() {
    let changed_files = vec![ChangedFile {
        path: "src/foo.rs".to_string(),
        changed_lines: vec![1, 2, 2],
    }];

    let store = CoverageStore::default();
    let report = analyze_changed_coverage(&changed_files, &store, true).expect("report");

    assert_eq!(report.total_changed, 2);
    assert_eq!(report.total_covered, 0);
    assert_eq!(report.uncovered_files.len(), 1);
    let uncovered = &report.uncovered_files[0];
    assert_eq!(uncovered.path, "src/foo.rs");
    assert_eq!(uncovered.uncovered_lines, vec![1, 2]);
}

#[test]
fn ignores_missing_files_when_disabled() {
    let changed_files = vec![ChangedFile {
        path: "src/foo.rs".to_string(),
        changed_lines: vec![1, 2, 2],
    }];

    let store = CoverageStore::default();
    let report = analyze_changed_coverage(&changed_files, &store, false).expect("report");

    assert_eq!(report.total_changed, 0);
    assert_eq!(report.total_covered, 0);
    assert!(report.uncovered_files.is_empty());
}

#[test]
fn end_to_end_report_from_diff_and_store() {
    // diff adds line 1 and lines 12-13 to src/lib.rs
    let diff = "\
diff --git a/src/lib.rs b/src/lib.rs
index 1111111..2222222 100644
--- a/src/lib.rs
+++ b/src/lib.rs
@@ -1,0 +1,1 @@
+pub fn c() {}
@@ -10,0 +12,2 @@
+pub fn d() {}
+pub fn e() {}
";
    let changed = parse_unified_diff(&split_lines(diff)).expect("parse diff");

    // line 1 hit once, line 12 hit zero times, line 13 unmeasured
    let mut store = CoverageStore::default();
    store.on_line("src/lib.rs", 1, 1);
    store.on_line("src/lib.rs", 12, 0);
    store.prepare_lookup();

    let report = analyze_changed_coverage(&changed, &store, true).expect("report");
    assert_eq!(report.total_changed, 2);
    assert_eq!(report.total_covered, 1);
    assert_eq!(report.uncovered_files.len(), 1);
    let uncovered = &report.uncovered_files[0];
    assert_eq!(uncovered.path, "src/lib.rs");
    assert_eq!(uncovered.uncovered_lines, vec![12]);
    assert_eq!(uncovered.covered_lines, 1);
    assert_eq!(uncovered.changed_lines, 2);
}

#[test]
fn ambiguous_path_aborts_analysis() {
    let changed_files = vec![ChangedFile {
        path: "foo.rs".to_string(),
        changed_lines: vec![1],
    }];

    let mut store = CoverageStore::default();
    store.on_line("src/foo.rs", 1, 1);
    store.on_line("lib/foo.rs", 1, 1);

    let err = analyze_changed_coverage(&changed_files, &store, false).expect_err("ambiguous");
    assert_eq!(err.path, "foo.rs");
    assert_eq!(err.matches, vec!["lib/foo.rs".to_string(), "src/foo.rs".to_string()]);
}

#[test]
fn fully_covered_file_is_omitted_from_uncovered_list() {
    let changed_files = vec![ChangedFile {
        path: "src/ok.rs".to_string(),
        changed_lines: vec![3, 4],
    }];

    let mut store = CoverageStore::default();
    store.on_line("src/ok.rs", 3, 1);
    store.on_line("src/ok.rs", 4, 5);

    let report = analyze_changed_coverage(&changed_files, &store, true).expect("report");
    assert_eq!(report.total_changed, 2);
    assert_eq!(report.total_covered, 2);
    assert!(report.uncovered_files.is_empty());
}

#[test]
fn file_with_no_changed_lines_contributes_nothing() {
    let changed_files = vec![ChangedFile {
        path: "foo.rs".to_string(),
        changed_lines: Vec::new(),
    }];

    // even an ambiguous path is ignored when the diff has no lines for it
    let mut store = CoverageStore::default();
    store.on_line("src/foo.rs", 1, 1);
    store.on_line("lib/foo.rs", 1, 1);

    let report = analyze_changed_coverage(&changed_files, &store, true).expect("report");
    assert_eq!(report.total_changed, 0);
    assert!(report.uncovered_files.is_empty());
}
