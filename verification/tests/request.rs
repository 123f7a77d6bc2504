use lockguard::error::Error;
use lockguard::request::{batch_url, trim_slashes_end};

fn names(list: &[&str]) -> Vec<String> {
    list.iter().map(|s| s.to_string()).collect()
}

#[test]
fn batch_url_for_packagist() {
    let url = batch_url("https://packagist.org", &names(&["monolog/monolog", "symfony/http-kernel"])).unwrap();
    assert_eq!(
        url,
        "https://packagist.org/api/security-advisories?packages%5B%5D=monolog%2Fmonolog&packages%5B%5D=symfony%2Fhttp-kernel"
    );
}

#[test]
fn batch_url_trims_trailing_slashes() {
    let a = batch_url("http://127.0.0.1:8080///", &names(&["vendor/pkg"])).unwrap();
    let b = batch_url("http://127.0.0.1:8080", &names(&["vendor/pkg"])).unwrap();
    assert_eq!(a, b);
    assert_eq!(a, "http://127.0.0.1:8080/api/security-advisories?packages%5B%5D=vendor%2Fpkg");
}

#[test]
fn batch_url_without_names() {
    let url = batch_url("https://packagist.org/", &[]).unwrap();
    assert!(url.starts_with("https://packagist.org/api/security-advisories"));
}

#[test]
fn batch_url_errors() {
    assert!(matches!(batch_url("not a url", &names(&["a/b"])), Err(Error::ClientBuild(_))));
    match batch_url("mailto:someone@example.com", &names(&["a/b"])) {
        Err(Error::ClientBuild(m)) => assert_eq!(m, "invalid base URL path"),
        other => panic!("unexpected {other:?}"),
    }
}

#[test]
fn trailing_slashes() {
    assert_eq!(trim_slashes_end("https://x.org//"), "https://x.org");
    assert_eq!(trim_slashes_end("abc"), "abc");
    assert_eq!(trim_slashes_end("///"), "");
    assert_eq!(trim_slashes_end(""), "");
}
