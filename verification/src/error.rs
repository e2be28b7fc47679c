//! The ways in which planning, checking and patching can fail.

use vstd::prelude::*;

verus! {

/// A failure reported by this library.
///
/// Where a variant carries a text, it is the name of the formula or bottle
/// that the failure is about.
#[derive(Clone, Debug, PartialEq, Eq)]
pub enum Error {
    /// No home directory is known and no override was given.
    HomeUnset,
    /// The package index holds no formula of that name or alias.
    UnknownFormula(String),
    /// The formula is known, but no bottle of it is installed.
    NotInstalled(String),
    /// The version to install is no longer the formula's stable version.
    UnavailableVersion(String),
    /// The formula has no prebuilt bottle, or none for the target.
    NoBottle(String),
    /// Nothing is to be added and nothing to be removed.
    NoWorkToDo,
    /// The bytes received do not hash to the expected digest.
    ChecksumMismatch,
    /// An archive entry lies outside the directory of its bottle.
    InvalidArchive,
    /// An archive entry's path climbs out of, or names, the extraction root.
    PathTraversal,
    /// An archive entry is neither a file, a directory nor a symlink.
    UnsupportedEntryType,
    /// A binary could not be rewritten.
    PatchFailure,
    /// The catalog's records contradict each other.
    CatalogFailure,
    /// No bottles are made for the system; the text is its version.
    UnsupportedSystem(String),
}

/// What an `Error` stands for in specifications.
pub enum Failure {
    HomeUnset,
    UnknownFormula(Seq<char>),
    NotInstalled(Seq<char>),
    UnavailableVersion(Seq<char>),
    NoBottle(Seq<char>),
    NoWorkToDo,
    ChecksumMismatch,
    InvalidArchive,
    PathTraversal,
    UnsupportedEntryType,
    PatchFailure,
    CatalogFailure,
    UnsupportedSystem(Seq<char>),
}

impl View for Error {
    type V = Failure;

    open spec fn view(&self) -> Failure {
        match self {
            Error::HomeUnset => Failure::HomeUnset,
            Error::UnknownFormula(name) => Failure::UnknownFormula(name@),
            Error::NotInstalled(name) => Failure::NotInstalled(name@),
            Error::UnavailableVersion(name) => Failure::UnavailableVersion(name@),
            Error::NoBottle(name) => Failure::NoBottle(name@),
            Error::NoWorkToDo => Failure::NoWorkToDo,
            Error::ChecksumMismatch => Failure::ChecksumMismatch,
            Error::InvalidArchive => Failure::InvalidArchive,
            Error::PathTraversal => Failure::PathTraversal,
            Error::UnsupportedEntryType => Failure::UnsupportedEntryType,
            Error::PatchFailure => Failure::PatchFailure,
            Error::CatalogFailure => Failure::CatalogFailure,
            Error::UnsupportedSystem(version) => Failure::UnsupportedSystem(version@),
        }
    }
}

} // verus!
