use lockguard::overflow::range_supported;

const SUPPORTED: [&str; 14] = [
    ">=4294967295",
    "<4294967295",
    ">= 1.0, <4294967295",
    "^1.4294967295",
    "^1.0.4294967295",
    "1.4294967295.0",
    "~1.4294967295",
    "4294967295.x-dev",
    "dev-4294967295",
    "^42949672950",
    "*",
    ">=1.0,<2.0 || ^3.1",
    "1.2.*",
    "",
];

const OVERFLOWING: [&str; 10] = [
    "^4294967295",
    "^04294967295",
    "^0.4294967295",
    "^0.0.4294967295",
    "~4294967295",
    "~1.4294967295.0",
    "1.4294967295.*",
    "4294967295",
    "1.4294967295",
    ">=1.0 <2.0 || ^4294967295",
];

#[test]
fn ranges_without_overflow_are_supported() {
    for text in SUPPORTED {
        assert!(range_supported(text), "{text}");
    }
}

#[test]
fn ranges_that_overflow_are_not_supported() {
    for text in OVERFLOWING {
        assert!(!range_supported(text), "{text}");
    }
}

#[test]
fn supported_ranges_parse_without_panic() {
    for text in SUPPORTED {
        let _ = composer_semver::Constraint::parse(text);
    }
}
