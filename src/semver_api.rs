//! What this library relies on from `semver` and `lenient_semver`.
use vstd::prelude::*;
use semver::{Version, VersionReq};

verus! {

#[verifier::external_type_specification]
#[verifier::external_body]
pub struct ExVersion(Version);

#[verifier::external_type_specification]
#[verifier::external_body]
pub struct ExVersionReq(VersionReq);

#[verifier::external_type_specification]
#[verifier::external_body]
pub struct ExSemverError(semver::Error);

/// The text `*`.
pub open spec fn star_text() -> Seq<char> {
    seq!['*']
}

/// What `VersionReq::parse` gives for a text.
pub uninterp spec fn range_parse(s: Seq<char>) -> Result<VersionReq, semver::Error>;

/// What `lenient_semver::parse` gives for a text, when it succeeds.
pub uninterp spec fn lenient_version(s: Seq<char>) -> Option<Version>;

/// The release `Version::new(v.major, v.minor, v.patch)` built from `v`.
pub uninterp spec fn release_core(v: Version) -> Version;

/// Whether `VersionReq::matches` accepts `v` for `r`.
pub uninterp spec fn req_matches(r: VersionReq, v: Version) -> bool;

/// Whether `a > b` in the order of `Version`.
pub uninterp spec fn newer(a: Version, b: Version) -> bool;

/// `VersionReq::parse` accepts `s` and gives `r`.
pub open spec fn parses_to(s: Seq<char>, r: VersionReq) -> bool {
    range_parse(s) == Ok::<VersionReq, semver::Error>(r)
}

/// The range that `*` reads as.
pub open spec fn star_req() -> VersionReq {
    range_parse(star_text())->Ok_0
}

/// Relies on `VersionReq::parse`: the outcome depends on the text alone.
#[verifier::external_body]
pub(crate) fn parse_range(s: &str) -> (r: Result<VersionReq, semver::Error>)
    ensures
        r == range_parse(s@),
{
    VersionReq::parse(s)
}

/// Relies on `VersionReq::STAR`, documented as equal to what
/// `VersionReq::parse("*")` returns.
#[verifier::external_body]
pub(crate) fn any_version() -> (r: VersionReq)
    ensures
        parses_to(star_text(), r),
{
    VersionReq::STAR
}

/// Relies on `lenient_semver::parse`, its error dropped: the outcome depends
/// on the text alone.
#[verifier::external_body]
pub(crate) fn parse_lenient(s: &str) -> (r: Option<Version>)
    ensures
        r == lenient_version(s@),
{
    lenient_semver::parse(s).ok()
}

/// Relies on `Version::new`, applied to the numbers of `v`: `v` without its
/// pre-release and build parts.
#[verifier::external_body]
pub(crate) fn release_of(v: &Version) -> (r: Version)
    ensures
        r == release_core(*v),
{
    Version::new(v.major, v.minor, v.patch)
}

/// Relies on `VersionReq::matches`.
#[verifier::external_body]
pub(crate) fn satisfies(r: &VersionReq, v: &Version) -> (b: bool)
    ensures
        b == req_matches(*r, *v),
{
    r.matches(v)
}

/// Relies on the order of `Version` (major, minor, patch, pre-release, build).
#[verifier::external_body]
pub(crate) fn is_newer(a: &Version, b: &Version) -> (r: bool)
    ensures
        r == newer(*a, *b),
{
    a > b
}

} // verus!
