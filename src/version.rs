//! Semantic versions, as the semver crate parses and orders them.

use std::cmp::Ordering;
use vstd::prelude::*;

verus! {

/// A semantic version `major.minor.patch[-pre][+build]`, taken apart.
pub struct SemVer {
    pub major: u64,
    pub minor: u64,
    pub patch: u64,
    pub pre: String,
    pub build: String,
}

/// What semver's `Version::parse` makes of a text: `None` where it refuses it,
/// else the major, minor and patch numbers, the prerelease and the build text.
pub uninterp spec fn semver_parse(text: Seq<char>) -> Option<(u64, u64, u64, Seq<char>, Seq<char>)>;

/// The order that semver's `Ord` for `Version` puts between two versions.
pub uninterp spec fn semver_order(
    a: (u64, u64, u64, Seq<char>, Seq<char>),
    b: (u64, u64, u64, Seq<char>, Seq<char>),
) -> Ordering;

impl SemVer {
    pub open spec fn parts(&self) -> (u64, u64, u64, Seq<char>, Seq<char>) {
        (self.major, self.minor, self.patch, self.pre@, self.build@)
    }

    /// A release version has no prerelease marker.
    pub open spec fn is_release(&self) -> bool {
        self.pre@.len() == 0
    }

    /// Parses `text` as a semantic version.
    pub fn parse(text: &str) -> (r: Option<SemVer>)
        ensures
            r is None <==> semver_parse(text@) is None,
            r matches Some(v) ==> semver_parse(text@) == Some(v.parts()),
    {
        parse_semver(text)
    }

    /// Whether this version is a release (its prerelease marker is empty).
    pub fn is_release_version(&self) -> (r: bool)
        ensures
            r == self.is_release(),
    {
        self.pre.as_str().unicode_len() == 0
    }

    /// Whether the two versions are equal in every component.
    pub fn same_as(&self, other: &SemVer) -> (r: bool)
        ensures
            r == (self.parts() == other.parts()),
    {
        self.major == other.major && self.minor == other.minor && self.patch == other.patch
            && self.pre == other.pre && self.build == other.build
    }

    /// The order of semantic-version precedence between `self` and `other`.
    pub fn compare(&self, other: &SemVer) -> (r: Ordering)
        ensures
            r == semver_order(self.parts(), other.parts()),
    {
        compare_semver(self, other)
    }
}

/// Relies on semver's `Version::parse`; the parsed version is taken apart into
/// its numbers and the text of its prerelease and build identifiers.
#[verifier::external_body]
fn parse_semver(text: &str) -> (r: Option<SemVer>)
    ensures
        r is None <==> semver_parse(text@) is None,
        r matches Some(v) ==> semver_parse(text@) == Some(v.parts()),
{
    semver::Version::parse(text).ok().map(|v| SemVer {
        major: v.major,
        minor: v.minor,
        patch: v.patch,
        pre: v.pre.as_str().to_string(),
        build: v.build.as_str().to_string(),
    })
}

/// Relies on the `Ord` of semver's `Version`. Each side is rebuilt from its
/// components; identifiers that semver refuses stand as empty.
#[verifier::external_body]
fn compare_semver(a: &SemVer, b: &SemVer) -> (r: Ordering)
    ensures
        r == semver_order(a.parts(), b.parts()),
{
    let rebuild = |v: &SemVer| semver::Version {
        major: v.major,
        minor: v.minor,
        patch: v.patch,
        pre: semver::Prerelease::new(&v.pre).unwrap_or_default(),
        build: semver::BuildMetadata::new(&v.build).unwrap_or_default(),
    };
    rebuild(a).cmp(&rebuild(b))
}

} // verus!
