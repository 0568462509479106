use std::time::Instant;
use qtcloud_devops_cli::testing::{cobertura_line_rate, lcov_line_counts};

/// The line coverage in percent, from the verified counts.
fn parse_lcov_coverage(content: &str) -> Option<f64> {
    let (total, hit) = lcov_line_counts(content);
    if total == 0 {
        None
    } else {
        Some((hit as f64 / total as f64) * 100.0)
    }
}

/// The line coverage in percent, from the verified attribute text.
fn parse_cobertura_coverage(content: &str) -> Option<f64> {
    let text = cobertura_line_rate(content)?;
    let rate: f64 = text.parse().ok()?;
    Some(rate * 100.0)
}

#[test]
fn test_test_parse_lcov_empty() {
    assert!(parse_lcov_coverage("").is_none());
}

#[test]
fn test_test_parse_lcov_simple() {
    let content = "SF:src/lib.rs\nDA:1,1\nDA:2,0\nDA:3,1\nend_of_record\n";
    let pct = parse_lcov_coverage(content).unwrap();
    assert!((pct - 66.666).abs() < 0.01);
}

#[test]
fn test_test_parse_lcov_large_input() {
    let mut lines = vec!["SF:src/lib.rs".to_string()];
    for i in 0..5000 {
        lines.push(format!("DA:{},1", i + 1));
        lines.push(format!("DA:{},0", i + 5001));
    }
    lines.push("end_of_record".to_string());
    let content = lines.join("\n");
    let pct = parse_lcov_coverage(&content).unwrap();
    assert!((pct - 50.0).abs() < 0.01, "10000 行应正确解析为 50%");
}

#[test]
fn test_test_parse_lcov_no_match() {
    let mut lines = vec!["TN:".to_string()];
    for i in 0..5000 {
        lines.push(format!("SF:src/file_{i}.rs"));
        lines.push("end_of_record".to_string());
    }
    let content = lines.join("\n");
    assert!(parse_lcov_coverage(&content).is_none());
}

#[test]
fn test_test_parse_cobertura_simple() {
    let content = r#"<coverage line-rate="0.85"></coverage>"#;
    let pct = parse_cobertura_coverage(content).unwrap();
    assert!((pct - 85.0).abs() < 0.01);
}

#[test]
fn test_test_parse_lcov_da_with_non_numeric_count() {
    let content = "DA:1,abc\nDA:2,1\nend_of_record\n";
    let pct = parse_lcov_coverage(content).unwrap();
    assert!((pct - 50.0).abs() < 0.01);
}

#[test]
fn test_test_parse_lcov_multiple_records() {
    let content = "DA:1,1\nend_of_record\nSF:other.rs\nDA:2,0\nend_of_record\n";
    let pct = parse_lcov_coverage(content).unwrap();
    assert!((pct - 50.0).abs() < 0.01);
}

#[test]
fn test_test_parse_cobertura_no_match() {
    assert!(parse_cobertura_coverage("<html></html>").is_none());
}

#[test]
fn test_test_parse_cobertura_no_line_rate() {
    assert!(parse_cobertura_coverage(r#"<coverage branch-rate="0.5"></coverage>"#).is_none());
}

#[test]
fn test_test_parse_cobertura_bad_line_rate() {
    assert!(parse_cobertura_coverage(r#"<coverage line-rate="abc"></coverage>"#).is_none());
}

#[test]
fn test_test_parse_cobertura_large_xml() {
    let mut lines = vec![r#"<coverage line-rate="0.85">"#.to_string()];
    for i in 0..5000 {
        lines.push(format!(r#"<package name="pkg-{i}" line-rate="0.9"><class name="Cls{i}" filename="src/file{i}.rs" line-rate="0.9"/></package>"#));
    }
    lines.push("</coverage>".to_string());
    let content = lines.join("\n");
    let start = Instant::now();
    let pct = parse_cobertura_coverage(&content);
    let elapsed = start.elapsed();
    assert!((pct.unwrap() - 85.0).abs() < 0.01);
    assert!(
        elapsed.as_micros() < 5000,
        "5000 行 Cobertura 应在 5ms 内解析，实际: {}μs",
        elapsed.as_micros()
    );
}

#[test]
fn lcov_counts_exact() {
    assert_eq!(lcov_line_counts("SF:a\nDA:1,1\nDA:2,0\nDA:3,7\nDA:4\nend_of_record\n"), (3, 2));
    assert_eq!(lcov_line_counts("DA:1, 3 \r\nDA:2,+0\n"), (2, 1));
    assert_eq!(lcov_line_counts("xDA:1,1\n"), (0, 0));
}

#[test]
fn cobertura_rate_text_exact() {
    assert_eq!(cobertura_line_rate("<?xml?>\n  <coverage line-rate=\"0.5\" x=\"1\">"), Some("0.5".to_string()));
    assert_eq!(cobertura_line_rate("<coverage line-rate=\"\">"), Some(String::new()));
    assert_eq!(cobertura_line_rate("<cov line-rate=\"0.5\">"), None);
    assert_eq!(cobertura_line_rate("<coverage>\n<coverage line-rate=\"0.7\">"), Some("0.7".to_string()));
}
