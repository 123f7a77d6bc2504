use lockguard::packagist::{
    next_fetch_step, plan_batches, AdvisoryResponse, FetchOutcome, FetchStep, WireAdvisory,
    BATCH_SIZE,
};

fn advisory(id: &str) -> WireAdvisory {
    WireAdvisory {
        advisory_id: id.to_string(),
        package_name: "vendor/pkg".to_string(),
        title: "T".to_string(),
        link: None,
        cve: None,
        affected_versions: "*".to_string(),
        sources: None,
        severity: None,
    }
}

#[test]
fn batches_sort_dedup_and_cut() {
    let names: Vec<String> = (0..40).rev().map(|i| format!("vendor/pkg{:02}", i % 35)).collect();
    let batches = plan_batches(&names);
    assert_eq!(BATCH_SIZE, 15);
    assert_eq!(batches.len(), 3);
    assert_eq!(batches[0].len(), 15);
    assert_eq!(batches[1].len(), 15);
    assert_eq!(batches[2].len(), 5);
    let flat: Vec<String> = batches.concat();
    let mut expected: Vec<String> = (0..35).map(|i| format!("vendor/pkg{:02}", i)).collect();
    expected.sort();
    assert_eq!(flat, expected);
}

#[test]
fn batches_of_no_names_and_duplicates() {
    assert!(plan_batches(&[]).is_empty());
    let names = vec!["zzz/last".to_string(), "aaa/first".to_string(), "zzz/last".to_string()];
    let batches = plan_batches(&names);
    assert_eq!(batches, vec![vec!["aaa/first".to_string(), "zzz/last".to_string()]]);
}

#[test]
fn batches_independent_of_order() {
    let a = vec!["b/x".to_string(), "a/y".to_string(), "c/z".to_string()];
    let b = vec!["c/z".to_string(), "b/x".to_string(), "a/y".to_string(), "a/y".to_string()];
    assert_eq!(plan_batches(&a), plan_batches(&b));
}

#[test]
fn retry_policy() {
    assert_eq!(next_fetch_step(FetchOutcome::Status(200), 1), FetchStep::Accept);
    assert_eq!(next_fetch_step(FetchOutcome::Status(204), 3), FetchStep::Accept);
    assert_eq!(next_fetch_step(FetchOutcome::Status(429), 1), FetchStep::Retry { delay_secs: 2 });
    assert_eq!(next_fetch_step(FetchOutcome::Status(502), 2), FetchStep::Retry { delay_secs: 4 });
    assert_eq!(next_fetch_step(FetchOutcome::Status(503), 3), FetchStep::Fail);
    assert_eq!(next_fetch_step(FetchOutcome::Status(504), 1), FetchStep::Retry { delay_secs: 2 });
    assert_eq!(next_fetch_step(FetchOutcome::Status(500), 1), FetchStep::Fail);
    assert_eq!(next_fetch_step(FetchOutcome::Status(404), 1), FetchStep::Fail);
    assert_eq!(next_fetch_step(FetchOutcome::TransportFailure, 2), FetchStep::Retry { delay_secs: 4 });
    assert_eq!(next_fetch_step(FetchOutcome::TransportFailure, 3), FetchStep::Fail);
}

#[test]
fn response_insert_get_and_replace() {
    let mut r = AdvisoryResponse::new();
    assert!(r.get("vendor/pkg").is_none());
    r.insert("vendor/pkg".to_string(), vec![advisory("A")]);
    r.insert("vendor/clean".to_string(), vec![]);
    assert_eq!(r.get("vendor/pkg").unwrap().len(), 1);
    assert!(r.get("vendor/clean").unwrap().is_empty());
    r.insert("vendor/pkg".to_string(), vec![advisory("B"), advisory("C")]);
    let got = r.get("vendor/pkg").unwrap();
    assert_eq!(got.len(), 2);
    assert_eq!(got[0].advisory_id, "B");
    assert!(r.get("vendor/other").is_none());
}

#[test]
fn response_merge_appends() {
    let mut a = AdvisoryResponse::new();
    a.insert("vendor/x".to_string(), vec![advisory("X1")]);
    a.insert("vendor/y".to_string(), vec![]);
    let mut b = AdvisoryResponse::new();
    b.insert("vendor/x".to_string(), vec![advisory("X2")]);
    b.insert("vendor/z".to_string(), vec![advisory("Z1")]);
    a.merge(b);
    let x: Vec<&str> = a.get("vendor/x").unwrap().iter().map(|w| w.advisory_id.as_str()).collect();
    assert_eq!(x, vec!["X1", "X2"]);
    assert!(a.get("vendor/y").unwrap().is_empty());
    assert_eq!(a.get("vendor/z").unwrap()[0].advisory_id, "Z1");
}
