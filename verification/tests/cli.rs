use lockguard::cli::{Cli, CliError, Format, SeverityArg};
use std::path::PathBuf;

#[test]
fn defaults() {
    let cli = Cli::parse_from(&["lockguard"]);
    assert_eq!(PathBuf::from(&cli.lock), PathBuf::from("composer.lock"));
    assert_eq!(cli.format, Format::Text);
    assert_eq!(cli.min_severity, SeverityArg::Low);
}

#[test]
fn custom_lock_path() {
    let cli = Cli::parse_from(&["lockguard", "--lock", "path/to/composer.lock"]);
    assert_eq!(PathBuf::from(&cli.lock), PathBuf::from("path/to/composer.lock"));
}

#[test]
fn json_format() {
    let cli = Cli::parse_from(&["lockguard", "--format", "json"]);
    assert_eq!(cli.format, Format::Json);
}

#[test]
fn text_format_explicit() {
    let cli = Cli::parse_from(&["lockguard", "--format", "text"]);
    assert_eq!(cli.format, Format::Text);
}

#[test]
fn min_severity_medium() {
    let cli = Cli::parse_from(&["lockguard", "--min-severity", "medium"]);
    assert_eq!(cli.min_severity, SeverityArg::Medium);
}

#[test]
fn min_severity_high() {
    let cli = Cli::parse_from(&["lockguard", "--min-severity", "high"]);
    assert_eq!(cli.min_severity, SeverityArg::High);
}

#[test]
fn min_severity_critical() {
    let cli = Cli::parse_from(&["lockguard", "--min-severity", "critical"]);
    assert_eq!(cli.min_severity, SeverityArg::Critical);
}

#[test]
fn all_options() {
    let cli = Cli::parse_from(&[
        "lockguard",
        "--lock",
        "my.lock",
        "--format",
        "json",
        "--min-severity",
        "high",
    ]);
    assert_eq!(PathBuf::from(&cli.lock), PathBuf::from("my.lock"));
    assert_eq!(cli.format, Format::Json);
    assert_eq!(cli.min_severity, SeverityArg::High);
}

#[test]
fn invalid_format_rejected() {
    assert!(Cli::try_parse_from(&["lockguard", "--format", "xml"]).is_err());
}

#[test]
fn invalid_severity_rejected() {
    assert!(Cli::try_parse_from(&["lockguard", "--min-severity", "extreme"]).is_err());
}

#[test]
fn severity_ordering() {
    assert!(SeverityArg::Low < SeverityArg::Medium);
    assert!(SeverityArg::Medium < SeverityArg::High);
    assert!(SeverityArg::High < SeverityArg::Critical);
}

// --- Further cases ---

#[test]
fn attached_values_accepted() {
    let cli = Cli::parse_from(&["lockguard", "--lock=a.lock", "--format=json", "--min-severity=critical"]);
    assert_eq!(cli.lock, "a.lock");
    assert_eq!(cli.format, Format::Json);
    assert_eq!(cli.min_severity, SeverityArg::Critical);
}

#[test]
fn option_errors_are_told_apart() {
    match Cli::try_parse_from(&["lockguard", "--lock"]) {
        Err(CliError::MissingValue(o)) => assert_eq!(o, "--lock"),
        other => panic!("unexpected: {:?}", other),
    }
    match Cli::try_parse_from(&["lockguard", "--lock", "--format", "json"]) {
        Err(CliError::MissingValue(o)) => assert_eq!(o, "--lock"),
        other => panic!("unexpected: {:?}", other),
    }
    match Cli::try_parse_from(&["lockguard", "--lock="]) {
        Err(CliError::MissingValue(o)) => assert_eq!(o, "--lock"),
        other => panic!("unexpected: {:?}", other),
    }
    match Cli::try_parse_from(&["lockguard", "--format", "json", "--format", "text"]) {
        Err(CliError::DuplicateOption(o)) => assert_eq!(o, "--format"),
        other => panic!("unexpected: {:?}", other),
    }
    match Cli::try_parse_from(&["lockguard", "--bogus"]) {
        Err(CliError::UnknownArgument(t)) => assert_eq!(t, "--bogus"),
        other => panic!("unexpected: {:?}", other),
    }
    match Cli::try_parse_from(&["lockguard", "stray"]) {
        Err(CliError::UnknownArgument(t)) => assert_eq!(t, "stray"),
        other => panic!("unexpected: {:?}", other),
    }
    match Cli::try_parse_from(&["lockguard", "--min-severity", "HIGH"]) {
        Err(CliError::InvalidValue { option, value }) => {
            assert_eq!(option, "--min-severity");
            assert_eq!(value, "HIGH");
        }
        other => panic!("unexpected: {:?}", other),
    }
}

#[test]
fn help_and_version_requested() {
    assert!(matches!(Cli::try_parse_from(&["lockguard", "--help"]), Err(CliError::HelpRequested)));
    assert!(matches!(Cli::try_parse_from(&["lockguard", "-h"]), Err(CliError::HelpRequested)));
    assert!(matches!(Cli::try_parse_from(&["lockguard", "--version"]), Err(CliError::VersionRequested)));
    assert!(matches!(Cli::try_parse_from(&["lockguard", "-V"]), Err(CliError::VersionRequested)));
}

#[test]
fn double_dash_ends_options() {
    let cli = Cli::parse_from(&["lockguard", "--format", "json", "--"]);
    assert_eq!(cli.format, Format::Json);
    match Cli::try_parse_from(&["lockguard", "--", "x"]) {
        Err(CliError::UnknownArgument(t)) => assert_eq!(t, "x"),
        other => panic!("unexpected: {:?}", other),
    }
    let cli = Cli::parse_from(&["lockguard", "--lock", "-"]);
    assert_eq!(cli.lock, "-");
}
