//! The platform that bottles are chosen for.

use vstd::prelude::*;
use vstd::string::StringExecFns;
use crate::cache::Cache;
use crate::error::{Error, Failure};
use crate::text::{same_str, str_starts_with, text_starts_with};

verus! {

/// A platform: a machine architecture and an operating system, which for
/// macOS is the name of the release.
#[derive(Debug)]
pub struct Target {
    arch: String,
    os: String,
}

/// What lower-casing makes of a text.
pub uninterp spec fn lowercased(text: Seq<char>) -> Seq<char>;

/// The lower-case form of a text, by `str::to_lowercase`.
///
/// The result is named, not described: it is whatever the standard library
/// makes of the text, which depends on the text alone.
#[verifier::external_body]
fn lowercase(text: &str) -> (lower: String)
    ensures
        lower@ == lowercased(text@),
{
    text.to_lowercase()
}

/// The major part of `version` is `major`: the version is `major` itself,
/// or goes on with a dot after it.
pub open spec fn has_major(version: Seq<char>, major: Seq<char>) -> bool {
    version == major || text_starts_with(version, major + seq!['.'])
}

/// The name of the macOS release with the given product version.
pub open spec fn release_name(version: Seq<char>) -> Option<Seq<char>> {
    if has_major(version, "13"@) {
        Some("ventura"@)
    } else if has_major(version, "14"@) {
        Some("sonoma"@)
    } else if has_major(version, "15"@) {
        Some("sequoia"@)
    } else if has_major(version, "16"@) {
        Some("cheer"@)
    } else {
        None
    }
}

/// The tag of a platform: architecture and system, joined by an
/// underscore.
pub open spec fn tag_of(arch: Seq<char>, os: Seq<char>) -> Seq<char> {
    arch + seq!['_'] + os
}

fn major_is(version: &str, major: &str, dotted: &str) -> (found: bool)
    requires
        dotted@ == major@ + seq!['.'],
    ensures
        found == has_major(version@, major@),
{
    same_str(version, major) || str_starts_with(version, dotted)
}

impl Target {
    /// The machine architecture.
    pub closed spec fn spec_arch(&self) -> Seq<char> {
        self.arch@
    }

    /// The operating system; on macOS, the name of the release.
    pub closed spec fn spec_os(&self) -> Seq<char> {
        self.os@
    }

    /// The tag under which bottles for this platform are listed.
    pub open spec fn spec_tag(&self) -> Seq<char> {
        tag_of(self.spec_arch(), self.spec_os())
    }

    /// The platform with the given architecture and system, where the
    /// system's name is in lower case already.
    ///
    /// On `darwin` the system is the name of the release that
    /// `product_version` belongs to; a version of no known release is
    /// refused, and the error holds the version. On any other system the
    /// version is not looked at.
    pub fn from_parts(arch: String, system: String, product_version: &str) -> (target: Result<
        Target,
        Error,
    >)
        ensures
            match target {
                Ok(found) => found.spec_arch() == arch@ && (if system@ == "darwin"@ {
                    release_name(product_version@) == Some(found.spec_os())
                } else {
                    found.spec_os() == system@
                }),
                Err(e) => system@ == "darwin"@ && release_name(product_version@) is None && e@
                    == Failure::UnsupportedSystem(product_version@),
            },
    {
        if !same_str(system.as_str(), "darwin") {
            return Ok(Target { arch, os: system });
        }
        proof {
            reveal_strlit("13");
            reveal_strlit("13.");
            reveal_strlit("14");
            reveal_strlit("14.");
            reveal_strlit("15");
            reveal_strlit("15.");
            reveal_strlit("16");
            reveal_strlit("16.");
            assert("13."@ =~= "13"@ + seq!['.']);
            assert("14."@ =~= "14"@ + seq!['.']);
            assert("15."@ =~= "15"@ + seq!['.']);
            assert("16."@ =~= "16"@ + seq!['.']);
        }
        let os = if major_is(product_version, "13", "13.") {
            "ventura"
        } else if major_is(product_version, "14", "14.") {
            "sonoma"
        } else if major_is(product_version, "15", "15.") {
            "sequoia"
        } else if major_is(product_version, "16", "16.") {
            "cheer"
        } else {
            return Err(Error::UnsupportedSystem(product_version.to_owned()));
        };
        Ok(Target { arch, os: os.to_owned() })
    }

    /// Whether the system of the given name is macOS, whatever the case of
    /// its letters.
    pub fn is_darwin(system: &str) -> (darwin: bool)
        ensures
            darwin == (lowercased(system@) == "darwin"@),
    {
        same_str(lowercase(system).as_str(), "darwin")
    }

    /// The platform with the given machine architecture and system name,
    /// as the system reports them, and on macOS the given product version.
    pub fn current(machine: &str, system: &str, product_version: &str) -> (target: Result<
        Target,
        Error,
    >)
        ensures
            match target {
                Ok(found) => found.spec_arch() == machine@ && (if lowercased(system@)
                    == "darwin"@ {
                    release_name(product_version@) == Some(found.spec_os())
                } else {
                    found.spec_os() == lowercased(system@)
                }),
                Err(e) => lowercased(system@) == "darwin"@ && release_name(product_version@)
                    is None && e@ == Failure::UnsupportedSystem(product_version@),
            },
    {
        Target::from_parts(machine.to_owned(), lowercase(system), product_version)
    }

    /// The tag under which bottles for this platform are listed.
    pub fn tag(&self) -> (tag: String)
        ensures
            tag@ == self.spec_tag(),
    {
        proof {
            reveal_strlit("_");
            assert("_"@ =~= seq!['_']);
        }
        let mut tag = self.arch.clone();
        tag.append("_");
        tag.append(self.os.as_str());
        tag
    }

    /// The tag of the platform with the given machine architecture and
    /// system name, and on macOS the given product version.
    pub fn current_tag(machine: &str, system: &str, product_version: &str) -> (tag: Result<
        String,
        Error,
    >)
        ensures
            tag_outcome(machine@, system@, product_version@, tag),
    {
        match Target::current(machine, system, product_version) {
            Ok(target) => Ok(target.tag()),
            Err(e) => Err(e),
        }
    }

    /// The tag of the current platform, worked out once and kept in
    /// `cache` from then on.
    pub fn current_str<'a>(
        cache: &'a mut Cache<String>,
        machine: &str,
        system: &str,
        product_version: &str,
    ) -> (tag: Result<&'a String, Error>)
        ensures
            match old(cache).value() {
                Some(kept) => final(cache).value() == Some(kept) && tag == Ok::<&String, Error>(
                    &kept,
                ),
                None => match tag {
                    Ok(found) => final(cache).value() == Some(*found) && tag_outcome(
                        machine@,
                        system@,
                        product_version@,
                        Ok(*found),
                    ),
                    Err(e) => final(cache).value() is None && tag_outcome(
                        machine@,
                        system@,
                        product_version@,
                        Err(e),
                    ),
                },
            },
    {
        let compute = || -> (made: Result<String, Error>)
            ensures
                tag_outcome(machine@, system@, product_version@, made),
            { Target::current_tag(machine, system, product_version) };
        cache.get_or_init(compute)
    }
}

/// `made` is what working out the tag of a platform comes to: the tag, or
/// on macOS the refusal of a version of no known release.
pub open spec fn tag_outcome(
    machine: Seq<char>,
    system: Seq<char>,
    product_version: Seq<char>,
    made: Result<String, Error>,
) -> bool {
    match made {
        Ok(tag) => if lowercased(system) == "darwin"@ {
            release_name(product_version) matches Some(os) && tag@ == tag_of(machine, os)
        } else {
            tag@ == tag_of(machine, lowercased(system))
        },
        Err(e) => lowercased(system) == "darwin"@ && release_name(product_version) is None && e@
            == Failure::UnsupportedSystem(product_version),
    }
}

} // verus!
