use diff_coverage::cli::{parse_output_target, OutputFormat, OutputTarget};
use diff_coverage::paths::{normalize_coverage_path, normalize_path};
use diff_coverage::plan::{build_output_plan, validate_output_requirements};
use diff_coverage::ranges::format_line_ranges;

#[test]
fn formats_line_ranges() {
    assert_eq!(format_line_ranges(&vec![1, 3, 5]), "1, 3, 5");
    assert_eq!(format_line_ranges(&vec![1, 2, 5]), "1-2, 5");
    assert_eq!(format_line_ranges(&vec![1, 2, 3, 5]), "1-3, 5");
    assert_eq!(format_line_ranges(&vec![1, 3, 5, 6, 7, 8, 9]), "1, 3, 5-9");
}

#[test]
fn formats_empty_line_list() {
    let empty: Vec<u32> = Vec::new();
    assert_eq!(format_line_ranges(&empty), "");
}

#[test]
fn output_format_labels_and_paths() {
    assert_eq!(OutputFormat::Cli.label(), "cli");
    assert_eq!(OutputFormat::Summary.label(), "summary");
    assert_eq!(OutputFormat::Gitlab.label(), "gitlab");
    assert_eq!(OutputFormat::Json.label(), "json");
    assert!(!OutputFormat::Cli.requires_path());
    assert!(!OutputFormat::Summary.requires_path());
    assert!(OutputFormat::Gitlab.requires_path());
    assert!(OutputFormat::Json.requires_path());
}

#[test]
fn output_format_parse_is_trimmed_and_case_insensitive() {
    assert_eq!(OutputFormat::parse("cli"), Some(OutputFormat::Cli));
    assert_eq!(OutputFormat::parse("  GitLab "), Some(OutputFormat::Gitlab));
    assert_eq!(OutputFormat::parse("SUMMARY"), Some(OutputFormat::Summary));
    assert_eq!(OutputFormat::parse("Json"), Some(OutputFormat::Json));
    assert_eq!(OutputFormat::parse("yaml"), None);
    assert_eq!(OutputFormat::parse(""), None);
}

#[test]
fn parses_output_targets() {
    let t = parse_output_target("gitlab=code-quality.json").expect("target");
    assert_eq!(t.format, OutputFormat::Gitlab);
    assert_eq!(t.path.as_deref(), Some("code-quality.json"));

    let t = parse_output_target("cli").expect("target");
    assert_eq!(t.format, OutputFormat::Cli);
    assert!(t.path.is_none());

    let t = parse_output_target("json=report.json").expect("target");
    assert_eq!(t.format, OutputFormat::Json);
    assert_eq!(t.path.as_deref(), Some("report.json"));
}

#[test]
fn rejects_bad_output_targets() {
    assert_eq!(
        parse_output_target("bogus").expect_err("format"),
        "output target format must be one of: cli, summary, gitlab, json"
    );
    assert_eq!(
        parse_output_target("cli=somewhere").expect_err("no path"),
        "cli output does not take a path"
    );
    assert_eq!(
        parse_output_target("gitlab").expect_err("needs path"),
        "output target must be FORMAT=PATH for formats that require a path: gitlab, json"
    );
    assert_eq!(
        parse_output_target("json=").expect_err("empty path"),
        "output target path cannot be empty"
    );
}

#[test]
fn builds_output_plans() {
    let plan = build_output_plan(Vec::new()).expect("default plan");
    assert_eq!(plan.order(), &vec![OutputFormat::Cli]);
    assert!(!plan.wants_non_cli());

    let plan = build_output_plan(vec![
        OutputTarget { format: OutputFormat::Summary, path: None },
        OutputTarget { format: OutputFormat::Json, path: Some("out.json".to_string()) },
    ])
    .expect("plan");
    assert_eq!(plan.order(), &vec![OutputFormat::Summary, OutputFormat::Json]);
    assert!(plan.wants_non_cli());
    assert_eq!(
        plan.path_for(&OutputFormat::Json).map(|p| p.as_str()),
        Some("out.json")
    );
    assert!(plan.path_for(&OutputFormat::Summary).is_none());
}

#[test]
fn rejects_bad_output_plans() {
    let err = build_output_plan(vec![
        OutputTarget { format: OutputFormat::Cli, path: None },
        OutputTarget { format: OutputFormat::Cli, path: None },
    ])
    .expect_err("duplicate");
    assert_eq!(err.message, "--output cli can only be provided once");
    assert_eq!(err.exit_code, 2);

    let err = build_output_plan(vec![OutputTarget {
        format: OutputFormat::Summary,
        path: Some("x".to_string()),
    }])
    .expect_err("no path accepted");
    assert_eq!(err.message, "--output summary does not accept a path");

    let err = build_output_plan(vec![OutputTarget { format: OutputFormat::Gitlab, path: None }])
        .expect_err("path required");
    assert_eq!(err.message, "--output gitlab requires a path");
}

#[test]
fn validates_output_requirements() {
    let file_plan = build_output_plan(vec![OutputTarget {
        format: OutputFormat::Json,
        path: Some("out.json".to_string()),
    }])
    .expect("plan");
    assert!(validate_output_requirements(&file_plan, true, true).is_ok());
    let err = validate_output_requirements(&file_plan, false, true).expect_err("needs diff");
    assert_eq!(
        err.message,
        "--output requires both --diff-file and at least one coverage path"
    );
    assert!(validate_output_requirements(&file_plan, true, false).is_err());

    let cli_plan = build_output_plan(Vec::new()).expect("plan");
    assert!(validate_output_requirements(&cli_plan, false, false).is_ok());
}

#[test]
fn normalizes_paths() {
    assert_eq!(normalize_path("src\\foo.rs"), "src/foo.rs");
    assert_eq!(normalize_path("./a/b.c"), "a/b.c");
    assert_eq!(normalize_path("././x"), "x");
    assert_eq!(normalize_path("plain/path.rs"), "plain/path.rs");
}

#[test]
fn normalizes_coverage_paths_against_base() {
    assert_eq!(normalize_coverage_path("/project/src/a.c", "/project"), "src/a.c");
    assert_eq!(normalize_coverage_path("/elsewhere/a.c", "/project"), "/elsewhere/a.c");
    assert_eq!(normalize_coverage_path("rel/a.c", "/project"), "rel/a.c");
    assert_eq!(normalize_coverage_path("rel\\a.c", ""), "rel/a.c");
}
