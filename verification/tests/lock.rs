use lockguard::error::Error;
use lockguard::lock::{normalize, ComposerLock, LockPackage};

fn pkg(name: &str, version: &str) -> LockPackage {
    LockPackage {
        name: name.to_string(),
        version: version.to_string(),
    }
}

fn lock(packages: Vec<LockPackage>, dev: Vec<LockPackage>) -> ComposerLock {
    ComposerLock {
        packages,
        packages_dev: dev,
    }
}

#[test]
fn normalize_basic() {
    let l = lock(vec![pkg("monolog/monolog", "2.3.0")], vec![]);
    let result = normalize(&l, "test.lock").unwrap();
    assert_eq!(result.len(), 1);
    assert_eq!(result[0].name, "monolog/monolog");
    assert_eq!(result[0].version, "2.3.0");
}

#[test]
fn normalize_merges_scopes() {
    let l = lock(
        vec![pkg("vendor/prod", "1.0.0")],
        vec![pkg("vendor/dev", "2.0.0")],
    );
    let result = normalize(&l, "test.lock").unwrap();
    assert_eq!(result.len(), 2);
    assert_eq!(result[0].name, "vendor/dev");
    assert_eq!(result[1].name, "vendor/prod");
}

#[test]
fn normalize_dedup_same_version() {
    let l = lock(
        vec![pkg("vendor/pkg", "1.0.0")],
        vec![pkg("vendor/pkg", "1.0.0")],
    );
    let result = normalize(&l, "test.lock").unwrap();
    assert_eq!(result.len(), 1);
}

#[test]
fn normalize_conflict_different_versions() {
    let l = lock(
        vec![pkg("vendor/pkg", "1.0.0")],
        vec![pkg("vendor/pkg", "2.0.0")],
    );
    let err = normalize(&l, "test.lock").unwrap_err();
    assert!(matches!(err, Error::LockConflict { .. }));
}

#[test]
fn normalize_lowercases_names() {
    let l = lock(vec![pkg("Vendor/Package", "1.0.0")], vec![]);
    let result = normalize(&l, "test.lock").unwrap();
    assert_eq!(result[0].name, "vendor/package");
}

#[test]
fn normalize_dedup_case_insensitive() {
    let l = lock(
        vec![pkg("Vendor/Pkg", "1.0.0")],
        vec![pkg("vendor/pkg", "1.0.0")],
    );
    let result = normalize(&l, "test.lock").unwrap();
    assert_eq!(result.len(), 1);
}

#[test]
fn normalize_empty_name_rejected() {
    let l = lock(vec![pkg("  ", "1.0.0")], vec![]);
    let err = normalize(&l, "test.lock").unwrap_err();
    assert!(matches!(err, Error::LockEmptyIdentity { .. }));
}

#[test]
fn normalize_empty_version_rejected() {
    let l = lock(vec![pkg("vendor/pkg", "")], vec![]);
    let err = normalize(&l, "test.lock").unwrap_err();
    assert!(matches!(err, Error::LockEmptyIdentity { .. }));
}

#[test]
fn normalize_sorted_alphabetically() {
    let l = lock(
        vec![pkg("zzz/last", "1.0.0"), pkg("aaa/first", "1.0.0")],
        vec![],
    );
    let result = normalize(&l, "test.lock").unwrap();
    assert_eq!(result[0].name, "aaa/first");
    assert_eq!(result[1].name, "zzz/last");
}

#[test]
fn normalize_empty_lock() {
    let l = lock(vec![], vec![]);
    let result = normalize(&l, "test.lock").unwrap();
    assert!(result.is_empty());
}

#[test]
fn normalize_trims_whitespace() {
    let l = lock(vec![pkg("  vendor/pkg  ", "  1.0.0  ")], vec![]);
    let result = normalize(&l, "test.lock").unwrap();
    assert_eq!(result[0].name, "vendor/pkg");
    assert_eq!(result[0].version, "1.0.0");
}

// --- Further cases ---

#[test]
fn normalize_conflict_reports_both_versions() {
    let l = lock(
        vec![pkg("Vendor/Pkg", " 1.0.0"), pkg("other/x", "3.0")],
        vec![pkg("vendor/pkg ", "2.0.0\t")],
    );
    match normalize(&l, "dir/composer.lock") {
        Err(Error::LockConflict { path, package, first, second }) => {
            assert_eq!(path, "dir/composer.lock");
            assert_eq!(package, "vendor/pkg");
            assert_eq!(first, "1.0.0");
            assert_eq!(second, "2.0.0");
        }
        other => panic!("unexpected: {:?}", other),
    }
}

#[test]
fn normalize_first_rejected_entry_decides_error() {
    let l = lock(
        vec![pkg("vendor/a", "1.0"), pkg("vendor/a", "2.0")],
        vec![pkg("", "1.0")],
    );
    assert!(matches!(normalize(&l, "x.lock"), Err(Error::LockConflict { .. })));
    let l = lock(
        vec![pkg("vendor/a", " "), pkg("vendor/a", "2.0")],
        vec![],
    );
    match normalize(&l, "x.lock") {
        Err(Error::LockEmptyIdentity { path }) => assert_eq!(path, "x.lock"),
        other => panic!("unexpected: {:?}", other),
    }
}

#[test]
fn normalize_unicode_names() {
    let l = lock(vec![pkg("\u{00A0}ÄBC/Ü\u{3000}", "1.0")], vec![]);
    let result = normalize(&l, "x.lock").unwrap();
    assert_eq!(result[0].name, "äbc/ü");
}

#[test]
fn normalize_independent_of_entry_order() {
    let a = lock(
        vec![pkg("zzz/last", "1.0.0"), pkg("Vendor/Mid", "2.0.0")],
        vec![pkg("aaa/first", "3.0.0")],
    );
    let b = lock(
        vec![pkg("aaa/first", "3.0.0")],
        vec![pkg("Vendor/Mid", "2.0.0"), pkg("zzz/last", "1.0.0"), pkg("aaa/first", "3.0.0")],
    );
    let ra = normalize(&a, "a.lock").unwrap();
    let rb = normalize(&b, "b.lock").unwrap();
    assert_eq!(ra, rb);
    assert_eq!(ra[1].name, "vendor/mid");
}
