//! Composer version and constraint matching, through the `composer-semver` crate.
use crate::overflow::range_text_supported;
use vstd::prelude::*;

verus! {

/// `composer_semver::Version`, a parsed Composer version, carried through
/// opaque.
#[verifier::external_type_specification]
#[verifier::external_body]
pub struct ExComposerVersion(composer_semver::Version);

/// `composer_semver::Constraint`, a parsed Composer constraint, carried
/// through opaque.
#[verifier::external_type_specification]
#[verifier::external_body]
pub struct ExComposerConstraint(composer_semver::Constraint);

/// Whether `composer_semver::Version::parse` accepts the text.
pub uninterp spec fn composer_version_valid(text: Seq<char>) -> bool;

/// Whether `composer_semver::Constraint::parse` accepts the text.
pub uninterp spec fn composer_constraint_valid(text: Seq<char>) -> bool;

/// Whether the constraint parsed from `constraint` admits the version parsed
/// from `version`, as `composer_semver::Constraint::matches` decides it.
pub uninterp spec fn composer_constraint_admits(constraint: Seq<char>, version: Seq<char>) -> bool;

/// Calls `composer_semver::Version::parse`, which normalizes a Composer
/// version string and fails on text that is no version. Which texts parse is
/// named [`composer_version_valid`] and not stated here.
#[verifier::external_body]
fn composer_parse_version(text: &str) -> (r: Option<composer_semver::Version>)
    ensures
        r is Some <==> composer_version_valid(text@),
{
    composer_semver::Version::parse(text).ok()
}

/// Calls `composer_semver::Constraint::parse`, which reads a Composer
/// constraint (`^1.2`, `>=1.0,<2.0 || >=3.0`, `*`, ...). Which texts parse is
/// named [`composer_constraint_valid`] and not stated here.
#[verifier::external_body]
fn composer_parse_constraint(text: &str) -> (r: Option<composer_semver::Constraint>)
    requires
        range_text_supported(text@),
    ensures
        r is Some <==> composer_constraint_valid(text@),
{
    composer_semver::Constraint::parse(text).ok()
}

/// An installed version, parsed by Composer's rules, with the text it was
/// parsed from. Only [`InstalledVersion::parse`] builds one.
pub struct InstalledVersion {
    parsed: composer_semver::Version,
    source: Ghost<Seq<char>>,
}

impl View for InstalledVersion {
    type V = Seq<char>;

    /// The text the version was parsed from.
    closed spec fn view(&self) -> Seq<char> {
        self.source@
    }
}

impl InstalledVersion {
    /// Parses `text` as a Composer version; `None` when it is no version.
    pub fn parse(text: &str) -> (r: Option<InstalledVersion>)
        ensures
            r is Some <==> composer_version_valid(text@),
            r matches Some(v) ==> v@ == text@,
    {
        match composer_parse_version(text) {
            Some(parsed) => Some(InstalledVersion { parsed, source: Ghost(text@) }),
            None => None,
        }
    }
}

/// A range of affected versions, parsed as a Composer constraint, with the
/// text it was parsed from. Only [`AffectedRange::parse`] builds one.
pub struct AffectedRange {
    parsed: composer_semver::Constraint,
    source: Ghost<Seq<char>>,
}

impl View for AffectedRange {
    type V = Seq<char>;

    /// The text the constraint was parsed from.
    closed spec fn view(&self) -> Seq<char> {
        self.source@
    }
}

impl AffectedRange {
    /// Parses `text` as a Composer constraint; `None` when it is none.
    pub fn parse(text: &str) -> (r: Option<AffectedRange>)
        requires
            range_text_supported(text@),
        ensures
            r is Some <==> composer_constraint_valid(text@),
            r matches Some(c) ==> c@ == text@,
    {
        match composer_parse_constraint(text) {
            Some(parsed) => Some(AffectedRange { parsed, source: Ghost(text@) }),
            None => None,
        }
    }

    /// Calls `composer_semver::Constraint::matches` on the parsed constraint
    /// and version. Both were built by the `parse` functions of this module
    /// from the texts that their views hold, so the result is named by those
    /// texts: [`composer_constraint_admits`]. What it is on given texts is not
    /// stated.
    #[verifier::external_body]
    pub(crate) fn admits(&self, version: &InstalledVersion) -> (r: bool)
        ensures
            r == composer_constraint_admits(self@, version@),
    {
        self.parsed.matches(&version.parsed)
    }
}

} // verus!
