//! Semantic versions and version requirements, as the `semver` crate parses
//! and compares them. Each value keeps the text it was parsed from, which is
//! its view; the parsed form is only ever produced by the parsers below, so it
//! always is what `semver` makes of that text.
use vstd::prelude::*;

verus! {

/// `semver::Version`, carried opaquely inside [`SemanticVersion`].
#[verifier::external_type_specification]
#[verifier::external_body]
pub struct ExSemverVersion(semver::Version);

/// `semver::VersionReq`, carried opaquely inside [`Requirement`].
#[verifier::external_type_specification]
#[verifier::external_body]
pub struct ExSemverVersionReq(semver::VersionReq);

/// Whether `semver` accepts `text` as a version.
pub uninterp spec fn is_semver_version(text: Seq<char>) -> bool;

/// Whether `semver` accepts `text` as a version requirement.
pub uninterp spec fn is_semver_requirement(text: Seq<char>) -> bool;

/// Whether the requirement written `req` admits the version written `version`.
pub uninterp spec fn semver_matches(req: Seq<char>, version: Seq<char>) -> bool;

/// A semantic version (major.minor.patch with optional pre-release and build).
pub struct SemanticVersion {
    text: String,
    parsed: semver::Version,
}

/// A semantic version requirement such as `^1.0.0` or `>=1.2, <2`.
pub struct Requirement {
    text: String,
    parsed: semver::VersionReq,
}

impl View for SemanticVersion {
    type V = Seq<char>;

    closed spec fn view(&self) -> Seq<char> {
        self.text@
    }
}

impl View for Requirement {
    type V = Seq<char>;

    closed spec fn view(&self) -> Seq<char> {
        self.text@
    }
}

/// Relies on `semver::Version::parse`: it accepts exactly the texts that
/// `is_semver_version` names.
#[verifier::external_body]
fn parse_semver_version(text: &str) -> (r: Option<SemanticVersion>)
    ensures
        r.is_some() == is_semver_version(text@),
        r matches Some(v) ==> v@ == text@,
{
    match semver::Version::parse(text) {
        Ok(parsed) => Some(SemanticVersion { text: text.to_string(), parsed }),
        Err(_) => None,
    }
}

/// Relies on `semver::VersionReq::parse`: it accepts exactly the texts that
/// `is_semver_requirement` names.
#[verifier::external_body]
fn parse_semver_requirement(text: &str) -> (r: Option<Requirement>)
    ensures
        r.is_some() == is_semver_requirement(text@),
        r matches Some(q) ==> q@ == text@,
{
    match semver::VersionReq::parse(text) {
        Ok(parsed) => Some(Requirement { text: text.to_string(), parsed }),
        Err(_) => None,
    }
}

/// Relies on `semver::VersionReq::matches`: its answer depends on the two
/// parsed values alone, so on the two texts.
#[verifier::external_body]
fn semver_req_matches(req: &Requirement, version: &SemanticVersion) -> (r: bool)
    ensures
        r == semver_matches(req@, version@),
{
    req.parsed.matches(&version.parsed)
}

impl SemanticVersion {
    /// Parses a semantic version; `None` when the text is not one.
    pub fn parse(text: &str) -> (r: Option<SemanticVersion>)
        ensures
            r.is_some() == is_semver_version(text@),
            r matches Some(v) ==> v@ == text@,
    {
        parse_semver_version(text)
    }

    /// The text this version was written as.
    pub fn as_str(&self) -> (r: &str)
        ensures
            r@ == self@,
    {
        self.text.as_str()
    }
}

impl Requirement {
    /// Parses a version requirement; `None` when the text is not one.
    pub fn parse(text: &str) -> (r: Option<Requirement>)
        ensures
            r.is_some() == is_semver_requirement(text@),
            r matches Some(q) ==> q@ == text@,
    {
        parse_semver_requirement(text)
    }

    /// Whether `version` satisfies this requirement.
    pub fn matches(&self, version: &SemanticVersion) -> (r: bool)
        ensures
            r == semver_matches(self@, version@),
    {
        semver_req_matches(self, version)
    }

    /// The text this requirement was written as.
    pub fn as_str(&self) -> (r: &str)
        ensures
            r@ == self@,
    {
        self.text.as_str()
    }
}

} // verus!
