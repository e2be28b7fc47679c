//! Where things are kept: the directories of the program, worked out from
//! what the environment says.
//!
//! Paths are byte strings. A variable that is not set is `None`.

use vstd::prelude::*;
use vstd::string::StringSliceAdditionalSpecFns;
use crate::error::{Error, Failure};
use crate::paths::{join, join_name};

verus! {

/// The directory of a user's own files under `home`, or the directory that
/// takes its place.
pub open spec fn base_dir(chosen: Option<&[u8]>, home: Option<&[u8]>, fallback: Seq<u8>) -> Option<
    Seq<u8>,
> {
    match chosen {
        Some(dir) => Some(dir@),
        None => match home {
            Some(home) => Some(join_name(home@, fallback)),
            None => None,
        },
    }
}

fn resolve(chosen: Option<&[u8]>, home: Option<&[u8]>, fallback: &str) -> (dir: Result<
    Vec<u8>,
    Error,
>)
    ensures
        match base_dir(chosen, home, fallback.spec_bytes()) {
            Some(path) => dir matches Ok(found) && found@ == path,
            None => dir matches Err(e) && e@ == Failure::HomeUnset,
        },
{
    match chosen {
        Some(dir) => Ok(vstd::slice::slice_to_vec(dir)),
        None => match home {
            Some(home) => {
                let mut path = vstd::slice::slice_to_vec(home);
                join(&mut path, fallback.as_bytes());
                Ok(path)
            },
            None => Err(Error::HomeUnset),
        },
    }
}

fn within(dir: Result<Vec<u8>, Error>, name: &str) -> (path: Result<Vec<u8>, Error>)
    ensures
        match dir {
            Ok(parent) => path matches Ok(found) && found@ == join_name(parent@, name.spec_bytes()),
            Err(e) => path matches Err(same) && same@ == e@,
        },
{
    match dir {
        Ok(parent) => {
            let mut path = parent;
            join(&mut path, name.as_bytes());
            Ok(path)
        },
        Err(e) => Err(e),
    }
}

/// The directory that executables are linked into: `XDG_BIN_HOME` if that
/// is set, else `.local/bin` under `HOME`.
///
/// Fails with `HomeUnset` when neither is set.
pub fn bin_dir(xdg_bin_home: Option<&[u8]>, home: Option<&[u8]>) -> (dir: Result<Vec<u8>, Error>)
    ensures
        match base_dir(xdg_bin_home, home, ".local/bin".spec_bytes()) {
            Some(path) => dir matches Ok(found) && found@ == path,
            None => dir matches Err(e) && e@ == Failure::HomeUnset,
        },
{
    resolve(xdg_bin_home, home, ".local/bin")
}

/// The program's cache directory: `chug` under `XDG_CACHE_HOME` if that
/// is set, else under `.cache` under `HOME`.
///
/// Fails with `HomeUnset` when neither is set.
pub fn cache_dir(xdg_cache_home: Option<&[u8]>, home: Option<&[u8]>) -> (dir: Result<
    Vec<u8>,
    Error,
>)
    ensures
        match base_dir(xdg_cache_home, home, ".cache".spec_bytes()) {
            Some(path) => dir matches Ok(found) && found@ == join_name(path, "chug".spec_bytes()),
            None => dir matches Err(e) && e@ == Failure::HomeUnset,
        },
{
    within(resolve(xdg_cache_home, home, ".cache"), "chug")
}

/// The program's data directory: `chug` under `XDG_DATA_HOME` if that is
/// set, else under `.local/share` under `HOME`.
///
/// Fails with `HomeUnset` when neither is set.
pub fn data_dir(xdg_data_home: Option<&[u8]>, home: Option<&[u8]>) -> (dir: Result<Vec<u8>, Error>)
    ensures
        match base_dir(xdg_data_home, home, ".local/share".spec_bytes()) {
            Some(path) => dir matches Ok(found) && found@ == join_name(path, "chug".spec_bytes()),
            None => dir matches Err(e) && e@ == Failure::HomeUnset,
        },
{
    within(resolve(xdg_data_home, home, ".local/share"), "chug")
}

/// The directory that bottles are unpacked into: `bottles` in the data
/// directory.
pub fn bottles_dir(data_dir: &[u8]) -> (dir: Vec<u8>)
    ensures
        dir@ == join_name(data_dir@, "bottles".spec_bytes()),
{
    let mut path = vstd::slice::slice_to_vec(data_dir);
    join(&mut path, "bottles".as_bytes());
    path
}

/// The directory that holds a link to each installed bottle: `opt` in the
/// data directory.
pub fn opt_dir(data_dir: &[u8]) -> (dir: Vec<u8>)
    ensures
        dir@ == join_name(data_dir@, "opt".spec_bytes()),
{
    let mut path = vstd::slice::slice_to_vec(data_dir);
    join(&mut path, "opt".as_bytes());
    path
}

/// The directory that installed bottles find their settings in: `etc` in
/// the data directory.
pub fn etc_dir(data_dir: &[u8]) -> (dir: Vec<u8>)
    ensures
        dir@ == join_name(data_dir@, "etc".spec_bytes()),
{
    let mut path = vstd::slice::slice_to_vec(data_dir);
    join(&mut path, "etc".as_bytes());
    path
}

} // verus!
