use diff_coverage::diff::{parse_hunk_header, parse_range, parse_unified_diff, DiffParseError};

fn diff_lines(text: &str) -> Vec<String> {
    text.lines().map(|line| line.to_string()).collect()
}

#[test]
fn parses_added_lines_from_diff() {
    let diff = "\
diff --git a/src/lib.rs b/src/lib.rs
index 1111111..2222222 100644
--- a/src/lib.rs
+++ b/src/lib.rs
@@ -1,0 +1,1 @@
+pub fn c() {}
@@ -10,0 +12,2 @@
+pub fn d() {}
+pub fn e() {}
";
    let results = parse_unified_diff(&diff_lines(diff)).expect("parse diff");
    assert_eq!(results.len(), 1);
    assert_eq!(results[0].path, "src/lib.rs");
    assert_eq!(results[0].changed_lines, vec![1, 12, 13]);
}

#[test]
fn skips_deleted_files() {
    let diff = "\
diff --git a/src/old.rs b/src/old.rs
deleted file mode 100644
--- a/src/old.rs
+++ /dev/null
@@ -1,2 +0,0 @@
-fn gone() {}
-fn gone2() {}
";
    let results = parse_unified_diff(&diff_lines(diff)).expect("parse diff");
    assert!(results.is_empty());
}

#[test]
fn changed_line() {
    let diff = r#"
diff --git a/hello.py b/hello.py
index 6f38b4d..1b9ca9c 100644
--- a/hello.py
+++ b/hello.py
@@ -1,2 +1,2 @@
  print "hello"
- print unknown_var
+ print unknown_var + test
        "#;
    let results = parse_unified_diff(&diff_lines(diff)).expect("parse diff");
    assert_eq!(results.len(), 1);
    assert_eq!(results[0].path, "hello.py");
    assert_eq!(results[0].changed_lines, vec![2]);
}

#[test]
fn removed_and_changed_line() {
    let diff = r#"
diff --git a/hello.py b/hello.py
index 6f38b4d..bac0d52 100644
--- a/hello.py
+++ b/hello.py
@@ -1,2 +1 @@
- print "hello"
- print unknown_var
+ print unknown_var + test
        "#;
    let results = parse_unified_diff(&diff_lines(diff)).expect("parse diff");
    assert_eq!(results.len(), 1);
    assert_eq!(results[0].path, "hello.py");
    assert_eq!(results[0].changed_lines, vec![1]);
}

#[test]
fn multiple_files() {
    let diff = r#"
diff --git a/hello.py b/hello.py
index b732142..b2ba069 100644
--- a/hello.py
+++ b/hello.py
@@ -1 +1,2 @@
 print "hello"
+print unknown_var
diff --git a/test.php b/test.php
index b3d9bbc..a766f11 100644
--- a/test.php
+++ b/test.php
@@ -1 +1,2 @@
 <?php
+declare(strict_types=1);
"#;
    let results = parse_unified_diff(&diff_lines(diff)).expect("parse diff");
    assert_eq!(results.len(), 2);
    assert_eq!(results[0].path, "hello.py");
    assert_eq!(results[0].changed_lines, vec![2]);
    assert_eq!(results[1].path, "test.php");
    assert_eq!(results[1].changed_lines, vec![2]);
}

#[test]
fn rejects_malformed_hunk_header() {
    let diff = "\
--- a/x.rs
+++ b/x.rs
@@ bogus header @@
+line
";
    let err = parse_unified_diff(&diff_lines(diff)).expect_err("must reject");
    let DiffParseError::InvalidHunkHeader(line) = err;
    assert_eq!(line, "@@ bogus header @@");
}

#[test]
fn rejects_zero_start_with_nonzero_count() {
    let diff = "\
+++ b/x.rs
@@ -0,2 +1,2 @@
+line
";
    let err = parse_unified_diff(&diff_lines(diff)).expect_err("must reject");
    let DiffParseError::InvalidHunkHeader(line) = err;
    assert_eq!(line, "@@ -0,2 +1,2 @@");
}

#[test]
fn hunk_header_forms() {
    assert_eq!(parse_hunk_header("@@ -1,2 +3,4 @@"), Some((1, 2, 3, 4)));
    assert_eq!(parse_hunk_header("@@ -1 +3 @@ fn main()"), Some((1, 1, 3, 1)));
    assert_eq!(parse_hunk_header("@@ -0,0 +1,5 @@"), Some((0, 0, 1, 5)));
    assert_eq!(parse_hunk_header("@@ -1,2 +3,4"), Some((1, 2, 3, 4)));
    assert_eq!(parse_hunk_header("@@-1,2 +3,4 @@"), None);
    assert_eq!(parse_hunk_header("@@ nonsense @@"), None);
}

#[test]
fn range_token_forms() {
    assert_eq!(parse_range("-10,3", '-'), Some((10, 3)));
    assert_eq!(parse_range("+7", '+'), Some((7, 1)));
    assert_eq!(parse_range("+0,0", '+'), Some((0, 0)));
    assert_eq!(parse_range("+0", '+'), None);
    assert_eq!(parse_range("-0,4", '-'), None);
    assert_eq!(parse_range("+x", '+'), None);
    assert_eq!(parse_range("10", '-'), None);
}

#[test]
fn hunk_lines_ignore_marker_lookalikes() {
    let diff = "\
+++ b/a.txt
@@ -1,3 +1,3 @@
 keep
+++not a marker
---not a marker
";
    let results = parse_unified_diff(&diff_lines(diff)).expect("parse diff");
    assert_eq!(results.len(), 1);
    assert_eq!(results[0].path, "a.txt");
    // lines starting with three pluses or minuses are never counted
    assert!(results[0].changed_lines.is_empty());
}

#[test]
fn line_counter_saturates_at_the_limit() {
    let diff = "\
+++ b/x.rs
@@ -1,0 +4294967295,2 @@
+first
+second
";
    let results = parse_unified_diff(&diff_lines(diff)).expect("parse diff");
    assert_eq!(results.len(), 1);
    // the new-side counter stops at the largest line number instead of wrapping
    assert_eq!(results[0].changed_lines, vec![u32::MAX, u32::MAX]);
}
