use diff_coverage::diff::parse_unified_diff;
use diff_coverage::analyze::analyze_changed_coverage;
use diff_coverage::parsers::{
    ingest_coverage, parse_u32_lossy, CloverParser, CoberturaParser, CoverageIngestError,
    CoverageParser,
};
use diff_coverage::store::CoverageStore;

const CLOVER_XML: &str = r#"<?xml version="1.0" encoding="UTF-8"?>
<coverage generated="1690000000" clover="4.4.1">
  <project timestamp="1690000000" name="calculator">
    <metrics statements="3" coveredstatements="1"/>
    <file name="src/Calculator.php">
      <line num="9" type="method" name="add" count="3"/>
      <line num="11" type="stmt" count="3"/>
      <line num="16" type="stmt" count="0"/>
    </file>
  </project>
</coverage>
"#;

const COBERTURA_XML: &str = r#"<?xml version="1.0"?>
<!DOCTYPE coverage SYSTEM "http://cobertura.sourceforge.net/xml/coverage-04.dtd">
<coverage line-rate="0" branch-rate="0" version="1.9" timestamp="1690000000">
  <packages>
    <package name="app" line-rate="0" branch-rate="0" complexity="0">
      <classes>
        <class name="Calculator" filename="Calculator.php" line-rate="0" branch-rate="0" complexity="0">
          <methods/>
          <lines>
            <line number="11" hits="0" branch="false"/>
            <line number="16" hits="0" branch="false"/>
          </lines>
        </class>
      </classes>
    </package>
  </packages>
</coverage>
"#;

const GIT_DIFF: &str = "\
diff --git a/src/Calculator.php b/src/Calculator.php
index 1111111..2222222 100644
--- a/src/Calculator.php
+++ b/src/Calculator.php
@@ -10,3 +10,4 @@
 line10
+line11
 line12
 line13
@@ -15,2 +16,1 @@
+line16
";

fn as_lines(text: &str) -> Vec<String> {
    text.lines().map(|line| line.to_string()).collect()
}

#[test]
fn parses_statement_counts() {
    let mut store = CoverageStore::default();
    CloverParser
        .parse(CLOVER_XML.as_bytes(), "", &mut store)
        .expect("parse clover");

    let coverage = store
        .file_coverage("src/Calculator.php")
        .expect("lookup")
        .expect("file coverage");
    assert!(coverage.is_covered(11));
    assert!(!coverage.is_covered(16));
}

#[test]
fn matches_changed_lines_from_diff() {
    let changed = parse_unified_diff(&as_lines(GIT_DIFF)).expect("parse diff");

    let mut store = CoverageStore::default();
    CloverParser
        .parse(CLOVER_XML.as_bytes(), "", &mut store)
        .expect("parse clover");

    let report = analyze_changed_coverage(&changed, &store, true);
    let report = report.expect("report");
    let calc = report
        .uncovered_files
        .iter()
        .find(|file| file.path.ends_with("src/Calculator.php"))
        .expect("calculator coverage");
    assert!(!calc.uncovered_lines.contains(&11));
}

#[test]
fn ignores_method_lines() {
    let mut store = CoverageStore::default();
    CloverParser
        .parse(CLOVER_XML.as_bytes(), "", &mut store)
        .expect("parse clover");

    let coverage = store
        .file_coverage("src/Calculator.php")
        .expect("lookup")
        .expect("file coverage");
    assert!(!coverage.is_covered(9));
    assert!(coverage.is_covered(11));
}

#[test]
fn can_parse_clover_fixture() {
    assert!(CloverParser.can_parse(CLOVER_XML.as_bytes()));
}

#[test]
fn does_not_parse_cobertura_fixture() {
    assert!(!CloverParser.can_parse(COBERTURA_XML.as_bytes()));
}

#[test]
fn can_parse_cobertura_fixture() {
    assert!(CoberturaParser.can_parse(COBERTURA_XML.as_bytes()));
}

#[test]
fn does_not_parse_clover_fixture() {
    assert!(!CoberturaParser.can_parse(CLOVER_XML.as_bytes()));
}

#[test]
fn parses_line_hits_from_fixture() {
    let mut store = CoverageStore::default();
    CoberturaParser
        .parse(COBERTURA_XML.as_bytes(), "", &mut store)
        .expect("parse cobertura");

    let coverage = store
        .file_coverage("Calculator.php")
        .expect("lookup")
        .expect("file coverage");
    assert_eq!(coverage.measured_lines, vec![11, 16]);
    assert!(coverage.covered_lines.is_empty());
}

#[test]
fn method_lines_are_not_measured() {
    let mut store = CoverageStore::default();
    CloverParser
        .parse(CLOVER_XML.as_bytes(), "", &mut store)
        .expect("parse clover");

    let coverage = store
        .file_coverage("src/Calculator.php")
        .expect("lookup")
        .expect("file coverage");
    assert!(!coverage.is_measured(9));
    assert_eq!(coverage.measured_lines, vec![11, 16]);
}

#[test]
fn lossy_count_coercion() {
    assert_eq!(parse_u32_lossy("12"), Some(12));
    assert_eq!(parse_u32_lossy("+7"), Some(7));
    assert_eq!(parse_u32_lossy("12.7"), Some(12));
    assert_eq!(parse_u32_lossy("12."), Some(12));
    assert_eq!(parse_u32_lossy(".5"), Some(0));
    assert_eq!(parse_u32_lossy("-3"), Some(0));
    assert_eq!(parse_u32_lossy("-3.5"), Some(0));
    assert_eq!(parse_u32_lossy("4294967296"), Some(u32::MAX));
    assert_eq!(parse_u32_lossy("abc"), None);
    assert_eq!(parse_u32_lossy(""), None);
    assert_eq!(parse_u32_lossy("."), None);
}

#[test]
fn lossy_count_coercion_exponents() {
    assert_eq!(parse_u32_lossy("1e3"), Some(1000));
    assert_eq!(parse_u32_lossy("1E2"), Some(100));
    assert_eq!(parse_u32_lossy("2.5e+2"), Some(250));
    assert_eq!(parse_u32_lossy("1.5e1"), Some(15));
    assert_eq!(parse_u32_lossy("5e-1"), Some(0));
    assert_eq!(parse_u32_lossy("12e-1"), Some(1));
    assert_eq!(parse_u32_lossy("-2e3"), Some(0));
    assert_eq!(parse_u32_lossy("1e20"), Some(u32::MAX));
    assert_eq!(parse_u32_lossy("4294967295e0"), Some(u32::MAX));
    assert_eq!(parse_u32_lossy("0e99999999999999999999"), Some(0));
    // the word forms a float parser would accept are deliberately rejected
    assert_eq!(parse_u32_lossy("inf"), None);
    assert_eq!(parse_u32_lossy("NaN"), None);
    assert_eq!(parse_u32_lossy("1e"), None);
    assert_eq!(parse_u32_lossy("e3"), None);
}

#[test]
fn ingest_selects_a_parser() {
    let mut store = CoverageStore::default();
    ingest_coverage(COBERTURA_XML.as_bytes(), "", &mut store).expect("ingest cobertura");
    ingest_coverage(CLOVER_XML.as_bytes(), "", &mut store).expect("ingest clover");
    store.prepare_lookup();

    assert!(store.file_coverage("Calculator.php").expect("lookup").is_some());
    assert!(store
        .file_coverage("src/Calculator.php")
        .expect("lookup")
        .is_some());
}

#[test]
fn ingest_rejects_unrecognised_text() {
    let mut store = CoverageStore::default();
    let outcome = ingest_coverage(b"just some text", "", &mut store);
    assert!(matches!(outcome, Err(CoverageIngestError::NoParserMatched)));
}

#[test]
fn ingest_rejects_malformed_claimed_document() {
    // sniffs as Cobertura, but the document breaks off inside a tag
    let mut store = CoverageStore::default();
    let outcome = ingest_coverage(b"cobertura <class filename=", "", &mut store);
    assert!(matches!(outcome, Err(CoverageIngestError::Malformed)));
}

#[test]
fn ingest_rejects_binary_input() {
    let mut store = CoverageStore::default();
    let outcome = ingest_coverage(&[0xff, 0xfe, 0x00], "", &mut store);
    assert!(matches!(outcome, Err(CoverageIngestError::NotText)));
}

#[test]
fn absolute_coverage_paths_rewrite_against_base() {
    let clover = r#"<coverage clover="4"><project>
<file name="/project/src/App.php">
<line num="5" count="1"/>
</file>
</project></coverage>
"#;
    let mut store = CoverageStore::default();
    CloverParser
        .parse(clover.as_bytes(), "/project", &mut store)
        .expect("parse clover");
    let coverage = store
        .file_coverage("src/App.php")
        .expect("lookup")
        .expect("file coverage");
    assert_eq!(coverage.measured_lines, vec![5]);
}

#[test]
fn clover_path_attribute_priority() {
    // `name` wins over `path` and `filename`, wherever the attributes stand
    let clover = r#"<coverage clover="4"><project>
<file path="other/Alt.php" name="src/Main.php" filename="third/Else.php">
<line num="2" count="1"/>
</file>
</project></coverage>
"#;
    let mut store = CoverageStore::default();
    CloverParser
        .parse(clover.as_bytes(), "", &mut store)
        .expect("parse clover");
    let coverage = store
        .file_coverage("src/Main.php")
        .expect("lookup")
        .expect("file coverage");
    assert_eq!(coverage.measured_lines, vec![2]);
    assert!(store.file_coverage("other/Alt.php").expect("lookup").is_none());
}
