use lockguard::audit::{AuditResult, Finding, Severity, Source, Summary};
use lockguard::report::{exit_status, render_text};

fn make_result(findings: Vec<Finding>, total: usize) -> AuditResult {
    let vulnerable_packages = findings
        .iter()
        .map(|f| f.package.clone())
        .collect::<std::collections::HashSet<_>>()
        .len();

    let mut summary = Summary {
        critical: 0,
        high: 0,
        medium: 0,
        low: 0,
        unknown: 0,
    };
    for f in &findings {
        match f.severity {
            Severity::Critical => summary.critical += 1,
            Severity::High => summary.high += 1,
            Severity::Medium => summary.medium += 1,
            Severity::Low => summary.low += 1,
            Severity::Unknown => summary.unknown += 1,
        }
    }

    AuditResult {
        total_packages: total,
        vulnerable_packages,
        findings,
        summary,
        coverage_unknown: vec![],
    }
}

fn make_finding(
    package: &str,
    version: &str,
    severity: Severity,
    cve: Option<&str>,
    link: Option<&str>,
    sources: Vec<Source>,
) -> Finding {
    Finding {
        package: package.to_string(),
        version: version.to_string(),
        advisory_id: "PKSA-test".to_string(),
        severity,
        cve: cve.map(|s| s.to_string()),
        title: "Test vulnerability".to_string(),
        affected_versions: ">=1.0.0,<2.0.0".to_string(),
        link: link.map(|s| s.to_string()),
        sources,
    }
}

#[test]
fn text_empty_report() {
    let result = make_result(vec![], 42);
    let text = render_text(&result);
    assert!(text.contains("No known vulnerabilities found."));
    assert!(text.contains("Total packages: 42"));
    assert!(text.contains("Vulnerable packages: 0"));
}

#[test]
fn text_populated_report() {
    let result = make_result(
        vec![make_finding(
            "monolog/monolog",
            "2.3.0",
            Severity::High,
            Some("CVE-2023-1234"),
            Some("https://example.com"),
            vec![],
        )],
        42,
    );
    let text = render_text(&result);
    assert!(text.contains("Found 1 packages with known vulnerabilities."));
    assert!(text.contains("[HIGH] monolog/monolog 2.3.0"));
    assert!(text.contains("CVE: CVE-2023-1234"));
    assert!(text.contains("Link: https://example.com"));
    assert!(text.contains("High: 1"));
}

#[test]
fn text_finding_without_optional_fields() {
    let result = make_result(
        vec![make_finding(
            "vendor/pkg",
            "1.0.0",
            Severity::Unknown,
            None,
            None,
            vec![],
        )],
        1,
    );
    let text = render_text(&result);
    assert!(text.contains("[UNKNOWN] vendor/pkg 1.0.0"));
    assert!(!text.contains("CVE:"));
    assert!(!text.contains("Link:"));
    assert!(!text.contains("Sources:"));
}

#[test]
fn text_finding_with_sources() {
    let result = make_result(
        vec![make_finding(
            "vendor/pkg",
            "1.0.0",
            Severity::Medium,
            None,
            None,
            vec![
                Source {
                    name: "GitHub".to_string(),
                    remote_id: "GHSA-abc".to_string(),
                },
                Source {
                    name: "FriendsOfPHP".to_string(),
                    remote_id: "vendor/pkg/2024.yaml".to_string(),
                },
            ],
        )],
        1,
    );
    let text = render_text(&result);
    assert!(text.contains("Sources: GitHub:GHSA-abc, FriendsOfPHP:vendor/pkg/2024.yaml"));
}

// --- Further cases ---

#[test]
fn text_report_exact_layout() {
    let result = make_result(
        vec![make_finding(
            "monolog/monolog",
            "1.10.0",
            Severity::Critical,
            Some("CVE-2024-1234"),
            Some("https://github.com/x"),
            vec![Source {
                name: "GitHub".to_string(),
                remote_id: "GHSA-f57v".to_string(),
            }],
        )],
        1234,
    );
    let expected = [
        "Found 1 packages with known vulnerabilities.\n",
        "\n",
        "[CRITICAL] monolog/monolog 1.10.0\n",
        "  - Advisory: PKSA-test\n",
        "  - CVE: CVE-2024-1234\n",
        "  - Test vulnerability\n",
        "  - Affected: >=1.0.0,<2.0.0\n",
        "  - Link: https://github.com/x\n",
        "  - Sources: GitHub:GHSA-f57v\n",
        "\n",
        "Summary:\n",
        "  - Total packages: 1234\n",
        "  - Vulnerable packages: 1\n",
        "  - Critical: 1\n",
        "  - High: 0\n",
        "  - Medium: 0\n",
        "  - Low: 0\n",
        "  - Unknown: 0\n",
    ]
    .concat();
    assert_eq!(render_text(&result), expected);
}

#[test]
fn text_summary_counts_and_labels() {
    let result = make_result(
        vec![
            make_finding("vendor/a", "1.0.0", Severity::High, None, None, vec![]),
            make_finding("vendor/b", "2.0.0", Severity::Medium, None, None, vec![]),
            make_finding("vendor/c", "3.0.0", Severity::Low, None, None, vec![]),
        ],
        10,
    );
    let text = render_text(&result);
    assert!(text.contains("Vulnerable packages: 3"));
    assert!(text.contains("[MEDIUM] vendor/b 2.0.0"));
    assert!(text.contains("[LOW] vendor/c 3.0.0"));
    assert!(text.contains("  - High: 1\n"));
    assert!(text.contains("  - Medium: 1\n"));
    assert!(text.contains("  - Low: 1\n"));
    assert!(text.contains("  - Total packages: 10\n"));
    assert_eq!(render_text(&result), text);
}

#[test]
fn exit_status_follows_findings() {
    assert_eq!(exit_status(&make_result(vec![], 3)), 0);
    let one = make_result(
        vec![make_finding("vendor/a", "1.0.0", Severity::Low, None, None, vec![])],
        3,
    );
    assert_eq!(exit_status(&one), 1);
}

#[test]
fn text_clean_report_exact_layout() {
    let result = make_result(vec![], 42);
    let expected = [
        "No known vulnerabilities found.\n",
        "\n",
        "Summary:\n",
        "  - Total packages: 42\n",
        "  - Vulnerable packages: 0\n",
        "  - Critical: 0\n",
        "  - High: 0\n",
        "  - Medium: 0\n",
        "  - Low: 0\n",
        "  - Unknown: 0\n",
    ]
    .concat();
    assert_eq!(render_text(&result), expected);
}
