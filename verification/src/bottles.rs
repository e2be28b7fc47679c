//! Bottle metadata of a formula: which archive serves which target.

use vstd::prelude::*;
use crate::error::{Error, Failure};

use vstd::utf8::encode_utf8;
use crate::text::{same_str, starts_with, is_prefix};

verus! {

/// The bottles of a formula, by release channel.
#[derive(Clone, Debug)]
pub struct Bottles {
    pub stable: Bottle,
}

/// The archives of one release, keyed by target tag.
#[derive(Clone, Debug)]
pub struct Bottle {
    pub files: Vec<(String, FileMetadata)>,
}

/// Where an archive is served and what it must hash to.
#[derive(Clone, Debug)]
pub struct FileMetadata {
    pub url: String,
    pub sha256: String,
}

/// The position of the first entry of `files` that is keyed by `tag`.
pub open spec fn position_of_tag(files: Seq<(String, FileMetadata)>, tag: Seq<char>) -> Option<
    int,
>
    decreases files.len(),
{
    if files.len() == 0 {
        None
    } else {
        match position_of_tag(files.drop_last(), tag) {
            Some(i) => Some(i),
            None => if files.last().0@ == tag {
                Some(files.len() - 1)
            } else {
                None
            },
        }
    }
}

/// The position of the archive to use on `target`: the one keyed by the
/// target's tag, else the one keyed `all`.
pub open spec fn position_for_target(files: Seq<(String, FileMetadata)>, target: Seq<char>) -> Option<
    int,
> {
    match position_of_tag(files, target) {
        Some(i) => Some(i),
        None => position_of_tag(files, "all"@),
    }
}

/// What `position_of_tag` finds is the first entry with the tag, and it
/// finds one if there is one.
pub proof fn lemma_position_of_tag(files: Seq<(String, FileMetadata)>, tag: Seq<char>)
    ensures
        match position_of_tag(files, tag) {
            Some(i) => 0 <= i < files.len() && files[i].0@ == tag && forall|j: int|
                0 <= j < i ==> files[j].0@ != tag,
            None => forall|j: int| 0 <= j < files.len() ==> files[j].0@ != tag,
        },
    decreases files.len(),
{
    if files.len() > 0 {
        let front = files.drop_last();
        lemma_position_of_tag(front, tag);
        assert(forall|j: int| 0 <= j < front.len() ==> front[j] == files[j]);
    }
}

fn find_tag(files: &Vec<(String, FileMetadata)>, tag: &str) -> (found: Option<usize>)
    ensures
        match found {
            Some(i) => i < files@.len() && position_of_tag(files@, tag@) == Some(i as int),
            None => position_of_tag(files@, tag@) is None,
        },
{
    let mut i: usize = 0;
    while i < files.len()
        invariant
            i <= files@.len(),
            forall|j: int| 0 <= j < i ==> files@[j].0@ != tag@,
        decreases files@.len() - i,
    {
        if same_str(files[i].0.as_str(), tag) {
            proof {
                lemma_position_of_tag(files@, tag@);
            }
            return Some(i);
        }
        i += 1;
    }
    proof {
        lemma_position_of_tag(files@, tag@);
    }
    None
}

/// The value of a lower-case hexadecimal digit.
pub open spec fn hex_value(digit: u8) -> Option<int> {
    if 0x30 <= digit <= 0x39 {
        Some(digit - 0x30)
    } else if 0x61 <= digit <= 0x66 {
        Some(digit - 0x61 + 10)
    } else {
        None
    }
}

/// The text is hexadecimal: an even number of lower-case hexadecimal
/// digits.
pub open spec fn is_hex(text: Seq<u8>) -> bool {
    text.len() % 2 == 0 && forall|i: int| 0 <= i < text.len() ==> hex_value(#[trigger] text[i]) is Some
}

/// The bytes that a hexadecimal text stands for: one for each two digits,
/// the first digit counting sixteenfold.
pub open spec fn from_hex(text: Seq<u8>) -> Seq<u8> {
    Seq::new(
        text.len() / 2,
        |i: int| (16 * hex_value(text[2 * i]).unwrap() + hex_value(text[2 * i + 1]).unwrap()) as u8,
    )
}

/// Decodes lower-case hexadecimal, by `data_encoding::HEXLOWER.decode`.
///
/// The text is decoded when it is an even number of the digits `0` to `9`
/// and `a` to `f`, and is refused otherwise.
#[verifier::external_body]
fn decode_hex(text: &[u8]) -> (bytes: Option<Vec<u8>>)
    ensures
        match bytes {
            Some(decoded) => is_hex(text@) && decoded@ == from_hex(text@),
            None => !is_hex(text@),
        },
{
    data_encoding::HEXLOWER.decode(text).ok()
}

impl FileMetadata {
    /// The digest that the archive must hash to, as bytes.
    ///
    /// A digest that is not written in hexadecimal can match no archive,
    /// and is refused as `ChecksumMismatch`.
    pub fn digest(&self) -> (digest: Result<Vec<u8>, Error>)
        ensures
            match digest {
                Ok(bytes) => is_hex(encode_utf8(self.sha256@)) && bytes@ == from_hex(
                    encode_utf8(self.sha256@),
                ),
                Err(e) => !is_hex(encode_utf8(self.sha256@)) && e@ == Failure::ChecksumMismatch,
            },
    {
        match decode_hex(self.sha256.as_str().as_bytes()) {
            Some(bytes) => Ok(bytes),
            None => Err(Error::ChecksumMismatch),
        }
    }
}

/// `file_name` names the directory of a revision of `version`: the version,
/// an underscore, and whatever follows.
pub open spec fn is_revision_of(file_name: Seq<char>, version: Seq<char>) -> bool {
    is_prefix(encode_utf8(version) + seq![0x5fu8], encode_utf8(file_name))
}

/// The position of the first of the leading `n` names that names a
/// revision of `version`.
pub open spec fn find_revision(names: Seq<String>, version: Seq<char>, n: nat) -> Option<int>
    decreases n,
{
    if n == 0 {
        None
    } else {
        match find_revision(names, version, (n - 1) as nat) {
            Some(i) => Some(i),
            None => if is_revision_of(names[n - 1]@, version) {
                Some(n - 1)
            } else {
                None
            },
        }
    }
}

/// The position of the first of the leading `n` names that is `version`.
pub open spec fn find_version(names: Seq<String>, version: Seq<char>, n: nat) -> Option<int>
    decreases n,
{
    if n == 0 {
        None
    } else {
        match find_version(names, version, (n - 1) as nat) {
            Some(i) => Some(i),
            None => if names[n - 1]@ == version {
                Some(n - 1)
            } else {
                None
            },
        }
    }
}

/// Which of the directories of a formula holds the bottle of `version`:
/// the one named by the version, else the first that names a revision of
/// it.
pub open spec fn bottle_dir(names: Seq<String>, version: Seq<char>) -> Option<int> {
    match find_version(names, version, names.len()) {
        Some(i) => Some(i),
        None => find_revision(names, version, names.len()),
    }
}

/// Picks, among the directories that were found for a formula, the one
/// that holds the bottle of `version`: the one named by the version itself,
/// else the first whose name is the version followed by an underscore and
/// a revision.
pub fn bottle_path(names: &[String], version: &str) -> (found: Option<usize>)
    ensures
        found matches Some(i) ==> i < names@.len(),
        bottle_dir(names@, version@) == match found {
            Some(i) => Some(i as int),
            None => None,
        },
{
    let mut i: usize = 0;
    while i < names.len()
        invariant
            i <= names@.len(),
            find_version(names@, version@, i as nat) is None,
        decreases names@.len() - i,
    {
        if same_str(names[i].as_str(), version) {
            proof {
                lemma_find_version_stays(names@, version@, (i + 1) as nat, names@.len());
            }
            return Some(i);
        }
        i += 1;
    }
    let mut wanted = vstd::slice::slice_to_vec(version.as_bytes());
    wanted.push(0x5fu8);
    assert(wanted@ =~= encode_utf8(version@) + seq![0x5fu8]);
    let mut k: usize = 0;
    while k < names.len()
        invariant
            k <= names@.len(),
            wanted@ == encode_utf8(version@) + seq![0x5fu8],
            find_version(names@, version@, names@.len()) is None,
            find_revision(names@, version@, k as nat) is None,
        decreases names@.len() - k,
    {
        if starts_with(names[k].as_str().as_bytes(), wanted.as_slice()) {
            proof {
                lemma_find_revision_stays(names@, version@, (k + 1) as nat, names@.len());
            }
            return Some(k);
        }
        k += 1;
    }
    None
}

proof fn lemma_find_version_stays(names: Seq<String>, version: Seq<char>, n: nat, m: nat)
    requires
        n <= m,
        find_version(names, version, n) is Some,
    ensures
        find_version(names, version, m) == find_version(names, version, n),
    decreases m,
{
    if n < m {
        lemma_find_version_stays(names, version, n, (m - 1) as nat);
    }
}

proof fn lemma_find_revision_stays(names: Seq<String>, version: Seq<char>, n: nat, m: nat)
    requires
        n <= m,
        find_revision(names, version, n) is Some,
    ensures
        find_revision(names, version, m) == find_revision(names, version, n),
    decreases m,
{
    if n < m {
        lemma_find_revision_stays(names, version, n, (m - 1) as nat);
    }
}

impl Bottle {
    /// The archive to download on `target`.
    ///
    /// An archive keyed by the target's own tag is preferred to one keyed
    /// `all`. Without either the bottle cannot be had on this target, and
    /// the error names the target.
    pub fn current_target(&self, target: &str) -> (file: Result<&FileMetadata, Error>)
        ensures
            match position_for_target(self.files@, target@) {
                Some(i) => file == Ok::<&FileMetadata, Error>(&self.files@[i].1),
                None => file matches Err(e) && e@ == Failure::NoBottle(target@),
            },
    {
        if let Some(i) = find_tag(&self.files, target) {
            return Ok(&self.files[i].1);
        }
        if let Some(i) = find_tag(&self.files, "all") {
            return Ok(&self.files[i].1);
        }
        Err(Error::NoBottle(target.to_owned()))
    }
}

} // verus!
