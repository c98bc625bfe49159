//! Version requirements.

use vstd::prelude::*;

verus! {

/// Whether a version, given as text, satisfies a version requirement, given as text: what the
/// `semver` crate answers.
pub uninterp spec fn semver_matches(version_req: Seq<char>, version: Seq<char>) -> bool;

/// Calls `semver::VersionReq::matches` on the two values that `VersionReq::parse` and
/// `Version::parse` read from the texts; a text that they reject matches nothing and is matched by
/// nothing. The answer depends on the two texts alone; which versions a requirement admits is not
/// stated.
#[verifier::external_body]
pub(crate) fn version_req_matches(version_req: &str, version: &str) -> (matches: bool)
    ensures
        matches == semver_matches(version_req@, version@),
{
    match (semver::VersionReq::parse(version_req), semver::Version::parse(version)) {
        (Ok(version_req), Ok(version)) => version_req.matches(&version),
        _ => false,
    }
}

} // verus!
