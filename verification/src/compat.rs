//! Version and requirement texts of the registry's early days that do not
//! parse, and what they are taken for.

use crate::text::same_text;
use crate::version::{parsed_requirement, parsed_version, ComparatorView, Version, VersionReq, VersionView};
use vstd::prelude::*;

verus! {

/// What a version text of the registry's early days is taken for, where it
/// is one of those that are known not to parse.
pub open spec fn known_version(text: Seq<char>) -> Option<Seq<char>> {
    if text == "0.0.1-001"@ {
        Some("0.0.1-1"@)
    } else if text == "0.3.0-alpha.01"@ {
        Some("0.3.0-alpha.1"@)
    } else if text == "0.4.0-alpha.00"@ {
        Some("0.4.0-alpha.0"@)
    } else if text == "0.4.0-alpha.01"@ {
        Some("0.4.0-alpha.1"@)
    } else {
        None
    }
}

/// What a requirement text of the registry's early days is taken for.
pub open spec fn known_requirement(text: Seq<char>) -> Option<Seq<char>> {
    if text == "^0-.11.0"@ {
        Some("^0.11.0"@)
    } else if text == "^0.1-alpha.0"@ {
        Some("^0.1.0-alpha.0"@)
    } else if text == "^0.51-oldsyn"@ {
        Some("^0.51.0-oldsyn"@)
    } else if text == "~2.0-2.2"@ {
        Some(">=2.0, <=2.2"@)
    } else {
        None
    }
}

/// The version that a text stands for: what it parses as or, where it does
/// not parse and is one of the known texts, what its correction parses as.
pub open spec fn spec_version(text: Seq<char>) -> Option<VersionView> {
    match parsed_version(text) {
        Some(version) => Some(version),
        None => match known_version(text) {
            Some(corrected) => parsed_version(corrected),
            None => None,
        },
    }
}

/// The requirement that a text stands for, in the same way.
pub open spec fn spec_version_req(text: Seq<char>) -> Option<Seq<ComparatorView>> {
    match parsed_requirement(text) {
        Some(req) => Some(req),
        None => match known_requirement(text) {
            Some(corrected) => parsed_requirement(corrected),
            None => None,
        },
    }
}

/// Reads a version, with the corrections for the known texts of old.
pub fn version(string: &str) -> (r: Result<Version, semver::Error>)
    ensures
        r is Ok <==> spec_version(string@) is Some,
        r is Ok ==> Some(r.unwrap()@) == spec_version(string@),
{
    match Version::parse(string) {
        Ok(version) => Ok(version),
        Err(err) => {
            let corrected = if same_text(string, "0.0.1-001") {
                "0.0.1-1"
            } else if same_text(string, "0.3.0-alpha.01") {
                "0.3.0-alpha.1"
            } else if same_text(string, "0.4.0-alpha.00") {
                "0.4.0-alpha.0"
            } else if same_text(string, "0.4.0-alpha.01") {
                "0.4.0-alpha.1"
            } else {
                return Err(err);
            };
            Version::parse(corrected)
        },
    }
}

/// Reads a requirement, with the corrections for the known texts of old.
pub fn version_req(string: &str) -> (r: Result<VersionReq, semver::Error>)
    ensures
        r is Ok <==> spec_version_req(string@) is Some,
        r is Ok ==> Some(r.unwrap()@) == spec_version_req(string@),
{
    match VersionReq::from_str(string) {
        Ok(req) => Ok(req),
        Err(err) => {
            let corrected = if same_text(string, "^0-.11.0") {
                "^0.11.0"
            } else if same_text(string, "^0.1-alpha.0") {
                "^0.1.0-alpha.0"
            } else if same_text(string, "^0.51-oldsyn") {
                "^0.51.0-oldsyn"
            } else if same_text(string, "~2.0-2.2") {
                ">=2.0, <=2.2"
            } else {
                return Err(err);
            };
            VersionReq::from_str(corrected)
        },
    }
}

} // verus!
