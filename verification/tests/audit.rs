use lockguard::audit::{
    audit, lock_ranges_within_limits, meets_threshold, normalize_severity, parse_warnings, Severity,
};
use lockguard::cli::SeverityArg;
use lockguard::lock::LockedPackage;
use lockguard::packagist::{AdvisoryResponse, WireAdvisory, WireSource};
use std::collections::HashMap;

fn pkg(name: &str, version: &str) -> LockedPackage {
    LockedPackage {
        name: name.to_string(),
        version: version.to_string(),
    }
}

fn wire_advisory(id: &str, affected: &str, severity: Option<&str>) -> WireAdvisory {
    WireAdvisory {
        advisory_id: id.to_string(),
        package_name: "test/package".to_string(),
        title: "Test advisory".to_string(),
        link: None,
        cve: None,
        affected_versions: affected.to_string(),
        sources: None,
        severity: severity.map(|s| s.to_string()),
    }
}

fn response_with(advisories: HashMap<String, Vec<WireAdvisory>>) -> AdvisoryResponse {
    let mut response = AdvisoryResponse::new();
    for (name, list) in advisories {
        response.insert(name, list);
    }
    response
}

// --- Severity normalization ---

#[test]
fn severity_low() {
    assert_eq!(normalize_severity(Some("low")), Severity::Low);
}

#[test]
fn severity_medium() {
    assert_eq!(normalize_severity(Some("medium")), Severity::Medium);
}

#[test]
fn severity_high() {
    assert_eq!(normalize_severity(Some("high")), Severity::High);
}

#[test]
fn severity_critical() {
    assert_eq!(normalize_severity(Some("critical")), Severity::Critical);
}

#[test]
fn severity_case_insensitive() {
    assert_eq!(normalize_severity(Some("HIGH")), Severity::High);
    assert_eq!(normalize_severity(Some("Critical")), Severity::Critical);
}

#[test]
fn severity_unknown_string() {
    assert_eq!(normalize_severity(Some("bogus")), Severity::Unknown);
}

#[test]
fn severity_none() {
    assert_eq!(normalize_severity(None), Severity::Unknown);
}

// --- Threshold matrix ---

#[test]
fn threshold_low_includes_all() {
    assert!(meets_threshold(&Severity::Critical, SeverityArg::Low));
    assert!(meets_threshold(&Severity::High, SeverityArg::Low));
    assert!(meets_threshold(&Severity::Medium, SeverityArg::Low));
    assert!(meets_threshold(&Severity::Low, SeverityArg::Low));
    assert!(meets_threshold(&Severity::Unknown, SeverityArg::Low));
}

#[test]
fn threshold_medium_excludes_low_and_unknown() {
    assert!(meets_threshold(&Severity::Critical, SeverityArg::Medium));
    assert!(meets_threshold(&Severity::High, SeverityArg::Medium));
    assert!(meets_threshold(&Severity::Medium, SeverityArg::Medium));
    assert!(!meets_threshold(&Severity::Low, SeverityArg::Medium));
    assert!(!meets_threshold(&Severity::Unknown, SeverityArg::Medium));
}

#[test]
fn threshold_high_excludes_low_medium_unknown() {
    assert!(meets_threshold(&Severity::Critical, SeverityArg::High));
    assert!(meets_threshold(&Severity::High, SeverityArg::High));
    assert!(!meets_threshold(&Severity::Medium, SeverityArg::High));
    assert!(!meets_threshold(&Severity::Low, SeverityArg::High));
    assert!(!meets_threshold(&Severity::Unknown, SeverityArg::High));
}

#[test]
fn threshold_critical_only_critical() {
    assert!(meets_threshold(&Severity::Critical, SeverityArg::Critical));
    assert!(!meets_threshold(&Severity::High, SeverityArg::Critical));
    assert!(!meets_threshold(&Severity::Medium, SeverityArg::Critical));
    assert!(!meets_threshold(&Severity::Low, SeverityArg::Critical));
    assert!(!meets_threshold(&Severity::Unknown, SeverityArg::Critical));
}

// --- Version matching ---

#[test]
fn match_version_inside_range() {
    let mut advisories = HashMap::new();
    advisories.insert(
        "vendor/pkg".to_string(),
        vec![wire_advisory("PKSA-1", ">=2.0.0,<2.4.0", Some("high"))],
    );
    let response = response_with(advisories);
    let packages = vec![pkg("vendor/pkg", "2.3.0")];

    let result = audit(&packages, &response, SeverityArg::Low);

    assert_eq!(result.findings.len(), 1);
    assert_eq!(result.findings[0].package, "vendor/pkg");
    assert_eq!(result.findings[0].version, "2.3.0");
}

#[test]
fn match_version_outside_range() {
    let mut advisories = HashMap::new();
    advisories.insert(
        "vendor/pkg".to_string(),
        vec![wire_advisory("PKSA-1", ">=2.0.0,<2.4.0", Some("high"))],
    );
    let response = response_with(advisories);
    let packages = vec![pkg("vendor/pkg", "2.5.0")];

    let result = audit(&packages, &response, SeverityArg::Low);

    assert!(result.findings.is_empty());
    assert_eq!(result.vulnerable_packages, 0);
}

#[test]
fn match_caret_constraint() {
    let mut advisories = HashMap::new();
    advisories.insert(
        "vendor/pkg".to_string(),
        vec![wire_advisory("PKSA-1", "^1.2", Some("medium"))],
    );
    let response = response_with(advisories);

    let matching = audit(&[pkg("vendor/pkg", "1.3.0")], &response, SeverityArg::Low);
    assert_eq!(matching.findings.len(), 1);

    let non_matching = audit(&[pkg("vendor/pkg", "2.0.0")], &response, SeverityArg::Low);
    assert!(non_matching.findings.is_empty());
}

#[test]
fn match_tilde_constraint() {
    let mut advisories = HashMap::new();
    advisories.insert(
        "vendor/pkg".to_string(),
        vec![wire_advisory("PKSA-1", "~1.2", Some("low"))],
    );
    let response = response_with(advisories);

    // ~1.2 means >=1.2.0,<2.0.0 in Composer semantics
    let matching = audit(&[pkg("vendor/pkg", "1.2.9")], &response, SeverityArg::Low);
    assert_eq!(matching.findings.len(), 1);

    let matching_next_minor = audit(&[pkg("vendor/pkg", "1.3.0")], &response, SeverityArg::Low);
    assert_eq!(matching_next_minor.findings.len(), 1);

    let non_matching = audit(&[pkg("vendor/pkg", "2.0.0")], &response, SeverityArg::Low);
    assert!(non_matching.findings.is_empty());
}

#[test]
fn match_wildcard_constraint() {
    let mut advisories = HashMap::new();
    advisories.insert(
        "vendor/pkg".to_string(),
        vec![wire_advisory("PKSA-1", "*", Some("high"))],
    );
    let response = response_with(advisories);

    let result = audit(
        &[pkg("vendor/pkg", "99.99.99")],
        &response,
        SeverityArg::Low,
    );
    assert_eq!(result.findings.len(), 1);
}

#[test]
fn match_or_constraint() {
    let mut advisories = HashMap::new();
    advisories.insert(
        "vendor/pkg".to_string(),
        vec![wire_advisory(
            "PKSA-1",
            ">=1.0.0,<2.0.0||>=3.0.0,<4.0.0",
            Some("high"),
        )],
    );
    let response = response_with(advisories);

    let v1 = audit(&[pkg("vendor/pkg", "1.5.0")], &response, SeverityArg::Low);
    assert_eq!(v1.findings.len(), 1);

    let v2 = audit(&[pkg("vendor/pkg", "2.5.0")], &response, SeverityArg::Low);
    assert!(v2.findings.is_empty());

    let v3 = audit(&[pkg("vendor/pkg", "3.5.0")], &response, SeverityArg::Low);
    assert_eq!(v3.findings.len(), 1);
}

#[test]
fn match_v_prefix_version() {
    let mut advisories = HashMap::new();
    advisories.insert(
        "vendor/pkg".to_string(),
        vec![wire_advisory("PKSA-1", ">=1.0.0,<2.0.0", Some("high"))],
    );
    let response = response_with(advisories);

    let result = audit(&[pkg("vendor/pkg", "v1.5.0")], &response, SeverityArg::Low);
    assert_eq!(result.findings.len(), 1);
}

#[test]
fn match_boundary_at_lower_bound() {
    let mut advisories = HashMap::new();
    advisories.insert(
        "vendor/pkg".to_string(),
        vec![wire_advisory("PKSA-1", ">=2.0.0,<2.4.0", Some("high"))],
    );
    let response = response_with(advisories);

    let at_bound = audit(&[pkg("vendor/pkg", "2.0.0")], &response, SeverityArg::Low);
    assert_eq!(at_bound.findings.len(), 1);
}

#[test]
fn match_boundary_at_upper_bound() {
    let mut advisories = HashMap::new();
    advisories.insert(
        "vendor/pkg".to_string(),
        vec![wire_advisory("PKSA-1", ">=2.0.0,<2.4.0", Some("high"))],
    );
    let response = response_with(advisories);

    let at_bound = audit(&[pkg("vendor/pkg", "2.4.0")], &response, SeverityArg::Low);
    assert!(at_bound.findings.is_empty());
}

#[test]
fn match_multiple_advisories_one_package() {
    let mut advisories = HashMap::new();
    advisories.insert(
        "vendor/pkg".to_string(),
        vec![
            wire_advisory("PKSA-1", ">=1.0.0,<2.0.0", Some("high")),
            wire_advisory("PKSA-2", ">=1.5.0,<3.0.0", Some("medium")),
        ],
    );
    let response = response_with(advisories);

    let result = audit(&[pkg("vendor/pkg", "1.6.0")], &response, SeverityArg::Low);
    assert_eq!(result.findings.len(), 2);
    assert_eq!(result.vulnerable_packages, 1);
}

// --- Filtering ---

#[test]
fn filter_excludes_below_threshold() {
    let mut advisories = HashMap::new();
    advisories.insert(
        "vendor/pkg".to_string(),
        vec![wire_advisory("PKSA-1", "*", Some("low"))],
    );
    let response = response_with(advisories);
    let packages = vec![pkg("vendor/pkg", "1.0.0")];

    let result = audit(&packages, &response, SeverityArg::High);
    assert!(result.findings.is_empty());
}

#[test]
fn filter_includes_unknown_at_low_threshold() {
    let mut advisories = HashMap::new();
    advisories.insert(
        "vendor/pkg".to_string(),
        vec![wire_advisory("PKSA-1", "*", None)],
    );
    let response = response_with(advisories);
    let packages = vec![pkg("vendor/pkg", "1.0.0")];

    let result = audit(&packages, &response, SeverityArg::Low);
    assert_eq!(result.findings.len(), 1);
    assert_eq!(result.findings[0].severity, Severity::Unknown);
}

#[test]
fn filter_excludes_unknown_at_high_threshold() {
    let mut advisories = HashMap::new();
    advisories.insert(
        "vendor/pkg".to_string(),
        vec![wire_advisory("PKSA-1", "*", None)],
    );
    let response = response_with(advisories);
    let packages = vec![pkg("vendor/pkg", "1.0.0")];

    let result = audit(&packages, &response, SeverityArg::High);
    assert!(result.findings.is_empty());
}

// --- Coverage ---

#[test]
fn coverage_unknown_recorded() {
    let response = response_with(HashMap::new());
    let packages = vec![pkg("vendor/unknown", "1.0.0")];

    let result = audit(&packages, &response, SeverityArg::Low);
    assert_eq!(result.coverage_unknown, vec!["vendor/unknown"]);
}

#[test]
fn coverage_known_clean_not_recorded() {
    let mut advisories = HashMap::new();
    advisories.insert("vendor/clean".to_string(), vec![]);
    let response = response_with(advisories);
    let packages = vec![pkg("vendor/clean", "1.0.0")];

    let result = audit(&packages, &response, SeverityArg::Low);
    assert!(result.coverage_unknown.is_empty());
    assert!(result.findings.is_empty());
}

// --- Sorting ---

#[test]
fn sort_by_severity_descending() {
    let mut advisories = HashMap::new();
    advisories.insert(
        "vendor/low".to_string(),
        vec![wire_advisory("PKSA-low", "*", Some("low"))],
    );
    advisories.insert(
        "vendor/high".to_string(),
        vec![wire_advisory("PKSA-high", "*", Some("high"))],
    );
    advisories.insert(
        "vendor/crit".to_string(),
        vec![wire_advisory("PKSA-crit", "*", Some("critical"))],
    );
    let response = response_with(advisories);
    let packages = vec![
        pkg("vendor/low", "1.0.0"),
        pkg("vendor/high", "1.0.0"),
        pkg("vendor/crit", "1.0.0"),
    ];

    let result = audit(&packages, &response, SeverityArg::Low);
    assert_eq!(result.findings[0].severity, Severity::Critical);
    assert_eq!(result.findings[1].severity, Severity::High);
    assert_eq!(result.findings[2].severity, Severity::Low);
}

#[test]
fn sort_same_severity_by_package_name() {
    let mut advisories = HashMap::new();
    advisories.insert(
        "vendor/zzz".to_string(),
        vec![wire_advisory("PKSA-z", "*", Some("high"))],
    );
    advisories.insert(
        "vendor/aaa".to_string(),
        vec![wire_advisory("PKSA-a", "*", Some("high"))],
    );
    let response = response_with(advisories);
    let packages = vec![pkg("vendor/zzz", "1.0.0"), pkg("vendor/aaa", "1.0.0")];

    let result = audit(&packages, &response, SeverityArg::Low);
    assert_eq!(result.findings[0].package, "vendor/aaa");
    assert_eq!(result.findings[1].package, "vendor/zzz");
}

// --- Summary ---

#[test]
fn summary_counts_correct() {
    let mut advisories = HashMap::new();
    advisories.insert(
        "vendor/a".to_string(),
        vec![wire_advisory("PKSA-1", "*", Some("critical"))],
    );
    advisories.insert(
        "vendor/b".to_string(),
        vec![wire_advisory("PKSA-2", "*", Some("high"))],
    );
    advisories.insert(
        "vendor/c".to_string(),
        vec![
            wire_advisory("PKSA-3", "*", Some("medium")),
            wire_advisory("PKSA-4", "*", Some("low")),
        ],
    );
    advisories.insert(
        "vendor/d".to_string(),
        vec![wire_advisory("PKSA-5", "*", None)],
    );
    let response = response_with(advisories);
    let packages = vec![
        pkg("vendor/a", "1.0.0"),
        pkg("vendor/b", "1.0.0"),
        pkg("vendor/c", "1.0.0"),
        pkg("vendor/d", "1.0.0"),
    ];

    let result = audit(&packages, &response, SeverityArg::Low);
    assert_eq!(result.summary.critical, 1);
    assert_eq!(result.summary.high, 1);
    assert_eq!(result.summary.medium, 1);
    assert_eq!(result.summary.low, 1);
    assert_eq!(result.summary.unknown, 1);
    assert_eq!(result.vulnerable_packages, 4);
    assert_eq!(result.total_packages, 4);
}

#[test]
fn empty_audit_result() {
    let response = response_with(HashMap::new());
    let packages: Vec<LockedPackage> = vec![];

    let result = audit(&packages, &response, SeverityArg::Low);
    assert_eq!(result.total_packages, 0);
    assert_eq!(result.vulnerable_packages, 0);
    assert!(result.findings.is_empty());
    assert!(result.coverage_unknown.is_empty());
}

// --- Further cases ---

#[test]
fn severity_unrecognized_labels_are_unknown() {
    assert_eq!(normalize_severity(Some("moderate")), Severity::Unknown);
    assert_eq!(normalize_severity(Some("info")), Severity::Unknown);
    assert_eq!(normalize_severity(Some("")), Severity::Unknown);
    assert_eq!(normalize_severity(Some(" high")), Severity::Unknown);
    assert_eq!(normalize_severity(Some("MeDiUm")), Severity::Medium);
    assert_eq!(normalize_severity(Some("LOW")), Severity::Low);
}

#[test]
fn sort_ties_broken_by_version_then_advisory_id() {
    let mut response = AdvisoryResponse::new();
    response.insert(
        "vendor/pkg".to_string(),
        vec![
            wire_advisory("PKSA-b", "*", Some("high")),
            wire_advisory("PKSA-a", "*", Some("high")),
            wire_advisory("PKSA-c", "*", Some("critical")),
        ],
    );
    let result = audit(&[pkg("vendor/pkg", "1.0.0")], &response, SeverityArg::Low);
    let ids: Vec<&str> = result.findings.iter().map(|f| f.advisory_id.as_str()).collect();
    assert_eq!(ids, vec!["PKSA-c", "PKSA-a", "PKSA-b"]);
    assert_eq!(result.vulnerable_packages, 1);
    assert_eq!(result.summary.critical, 1);
    assert_eq!(result.summary.high, 2);
}

#[test]
fn unknown_severity_sorts_last() {
    let mut response = AdvisoryResponse::new();
    response.insert("vendor/a".to_string(), vec![wire_advisory("PKSA-u", "*", None)]);
    response.insert("vendor/b".to_string(), vec![wire_advisory("PKSA-l", "*", Some("low"))]);
    let result = audit(
        &[pkg("vendor/a", "1.0.0"), pkg("vendor/b", "1.0.0")],
        &response,
        SeverityArg::Low,
    );
    assert_eq!(result.findings[0].severity, Severity::Low);
    assert_eq!(result.findings[1].severity, Severity::Unknown);
}

#[test]
fn unparsable_version_or_constraint_gives_no_finding() {
    let mut response = AdvisoryResponse::new();
    response.insert(
        "vendor/pkg".to_string(),
        vec![wire_advisory("PKSA-1", "not a constraint !!", Some("high"))],
    );
    response.insert(
        "vendor/other".to_string(),
        vec![wire_advisory("PKSA-2", "*", Some("high"))],
    );
    let result = audit(
        &[pkg("vendor/pkg", "1.0.0"), pkg("vendor/other", "not-a-version")],
        &response,
        SeverityArg::Low,
    );
    assert!(result.findings.is_empty());
    assert_eq!(result.total_packages, 2);
}

#[test]
fn finding_copies_advisory_fields() {
    let mut response = AdvisoryResponse::new();
    let mut adv = wire_advisory("PKSA-x", ">=1.0,<2.0", Some("Medium"));
    adv.cve = Some("CVE-2024-1".to_string());
    adv.link = Some("https://example.com/x".to_string());
    adv.sources = Some(vec![WireSource {
        name: "GitHub".to_string(),
        remote_id: "GHSA-1".to_string(),
    }]);
    response.insert("vendor/pkg".to_string(), vec![adv]);
    let result = audit(&[pkg("vendor/pkg", "1.2.0")], &response, SeverityArg::Medium);
    assert_eq!(result.findings.len(), 1);
    let f = &result.findings[0];
    assert_eq!(f.severity, Severity::Medium);
    assert_eq!(f.cve.as_deref(), Some("CVE-2024-1"));
    assert_eq!(f.link.as_deref(), Some("https://example.com/x"));
    assert_eq!(f.title, "Test advisory");
    assert_eq!(f.affected_versions, ">=1.0,<2.0");
    assert_eq!(f.sources.len(), 1);
    assert_eq!(f.sources[0].name, "GitHub");
    assert_eq!(f.sources[0].remote_id, "GHSA-1");
}

#[test]
fn raising_threshold_keeps_a_subset() {
    let mut response = AdvisoryResponse::new();
    response.insert(
        "vendor/pkg".to_string(),
        vec![
            wire_advisory("PKSA-1", "*", Some("low")),
            wire_advisory("PKSA-2", "*", Some("high")),
            wire_advisory("PKSA-3", "*", None),
        ],
    );
    let packages = [pkg("vendor/pkg", "1.0.0")];
    let low = audit(&packages, &response, SeverityArg::Low);
    let high = audit(&packages, &response, SeverityArg::High);
    assert_eq!(low.findings.len(), 3);
    assert_eq!(high.findings.len(), 1);
    assert!(low
        .findings
        .iter()
        .any(|f| f.advisory_id == high.findings[0].advisory_id));
    assert_eq!(
        low.summary.critical + low.summary.high + low.summary.medium + low.summary.low + low.summary.unknown,
        low.findings.len()
    );
}

#[test]
fn warnings_for_unparsable_version_and_range() {
    let packages = vec![pkg("vendor/bad-version", "not a version!"), pkg("vendor/good", "1.0.0")];
    let mut advisories = HashMap::new();
    advisories.insert(
        "vendor/bad-version".to_string(),
        vec![wire_advisory("PKSA-1", ">=1.0", Some("high"))],
    );
    advisories.insert(
        "vendor/good".to_string(),
        vec![
            wire_advisory("PKSA-2", "??garbage??", Some("high")),
            wire_advisory("PKSA-3", ">=1.0", Some("high")),
        ],
    );
    let response = response_with(advisories);
    let warnings = parse_warnings(&packages, &response);
    let lines: Vec<String> = warnings.iter().map(|w| w.message()).collect();
    assert_eq!(
        lines,
        vec![
            "warning: cannot parse version 'not a version!' for vendor/bad-version \u{2014} skipping advisory PKSA-1".to_string(),
            "warning: cannot parse constraint '??garbage??' for vendor/good \u{2014} skipping advisory PKSA-2".to_string(),
        ]
    );
    let result = audit(&packages, &response, SeverityArg::Low);
    assert_eq!(result.findings.len(), 1);
    assert_eq!(result.findings[0].advisory_id, "PKSA-3");
}

#[test]
fn large_numbers_outside_bumped_positions_are_audited() {
    let packages = vec![pkg("vendor/pkg", "1.0.0")];
    let mut advisories = HashMap::new();
    advisories.insert(
        "vendor/pkg".to_string(),
        vec![
            wire_advisory("PKSA-below", "<4294967295", Some("low")),
            wire_advisory("PKSA-above", ">=4294967295", Some("low")),
            wire_advisory("PKSA-caret", "^1.4294967295", Some("low")),
        ],
    );
    let response = response_with(advisories);
    assert!(lock_ranges_within_limits(&packages, &response));
    let result = audit(&packages, &response, SeverityArg::Low);
    let ids: Vec<&str> = result.findings.iter().map(|f| f.advisory_id.as_str()).collect();
    assert_eq!(ids, vec!["PKSA-below"]);
}

#[test]
fn higher_threshold_filters_lower_findings_in_order() {
    let packages = vec![pkg("vendor/a", "1.0.0"), pkg("vendor/b", "2.0.0")];
    let mut advisories = HashMap::new();
    advisories.insert(
        "vendor/a".to_string(),
        vec![
            wire_advisory("A-low", ">=1.0", Some("low")),
            wire_advisory("A-high", ">=1.0", Some("high")),
            wire_advisory("A-crit", ">=1.0", Some("critical")),
        ],
    );
    advisories.insert(
        "vendor/b".to_string(),
        vec![
            wire_advisory("B-high", ">=1.0", Some("HIGH")),
            wire_advisory("B-unknown", ">=1.0", None),
        ],
    );
    let response = response_with(advisories);
    let low = audit(&packages, &response, SeverityArg::Low);
    let high = audit(&packages, &response, SeverityArg::High);
    let low_ids: Vec<&str> = low
        .findings
        .iter()
        .filter(|f| meets_threshold(&f.severity, SeverityArg::High))
        .map(|f| f.advisory_id.as_str())
        .collect();
    let high_ids: Vec<&str> = high.findings.iter().map(|f| f.advisory_id.as_str()).collect();
    assert_eq!(high_ids, low_ids);
    assert_eq!(high_ids, vec!["A-crit", "A-high", "B-high"]);
    assert_eq!(high.summary.low, 0);
    assert_eq!(high.summary.unknown, 0);
    assert_eq!(high.summary.high, low.summary.high);
    assert_eq!(high.total_packages, low.total_packages);
}

#[test]
fn ranges_only_of_locked_packages_are_required() {
    let packages = vec![pkg("vendor/pkg", "1.0.0")];
    let mut advisories = HashMap::new();
    advisories.insert("vendor/pkg".to_string(), vec![wire_advisory("A", ">=1.0", Some("low"))]);
    advisories.insert("vendor/other".to_string(), vec![wire_advisory("B", "^4294967295", Some("low"))]);
    let response = response_with(advisories);
    assert!(lock_ranges_within_limits(&packages, &response));
    assert!(!lock_ranges_within_limits(&[pkg("vendor/other", "1.0.0")], &response));
    assert_eq!(audit(&packages, &response, SeverityArg::Low).findings.len(), 1);
}
