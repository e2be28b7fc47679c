//! Values that are computed once and then kept.

use vstd::prelude::*;
use crate::error::Error;

verus! {

/// A value that is computed when it is first asked for, and kept from then
/// on.
pub struct Cache<T> {
    contents: Option<T>,
}

/// A cache whose value is also kept in a file, under the given name in the
/// cache directory.
pub struct DiskCache<'a, T> {
    filename: &'a str,
    inner: &'a mut Cache<T>,
}

impl<T> Cache<T> {
    /// What the cache holds, if it holds anything yet.
    pub closed spec fn value(&self) -> Option<T> {
        self.contents
    }

    /// A cache that holds nothing yet.
    pub fn new() -> (cache: Self)
        ensures
            cache.value() is None,
    {
        Cache { contents: None }
    }

    /// Whether the cache holds a value.
    pub fn holds(&self) -> (held: bool)
        ensures
            held == self.value() is Some,
    {
        self.contents.is_some()
    }

    /// The value of the cache, computed by `f` if the cache holds none yet.
    ///
    /// A value that the cache holds is handed out as it is, and `f` is not
    /// called. A value that `f` computes is kept; a failure of `f` is
    /// handed on and leaves the cache empty.
    pub fn get_or_init<F: FnOnce() -> Result<T, Error>>(&mut self, f: F) -> (found: Result<
        &T,
        Error,
    >)
        requires
            f.requires(()),
        ensures
            match old(self).value() {
                Some(kept) => final(self).value() == Some(kept) && found == Ok::<&T, Error>(&kept),
                None => match found {
                    Ok(computed) => f.ensures((), Ok(*computed)) && final(self).value() == Some(
                        *computed,
                    ),
                    Err(e) => f.ensures((), Err(e)) && final(self).value() is None,
                },
            },
    {
        if self.contents.is_none() {
            match f() {
                Ok(value) => {
                    self.contents = Some(value);
                },
                Err(e) => {
                    return Err(e);
                },
            }
        }
        Ok(self.contents.as_ref().unwrap())
    }

    /// The same cache, backed by the file `filename`.
    pub fn with_file<'a>(&'a mut self, filename: &'a str) -> (backed: DiskCache<'a, T>)
        ensures
            backed.spec_filename() == filename@,
            backed.value() == old(self).value(),
    {
        DiskCache { filename, inner: self }
    }
}

/// A point in time: whole seconds since the epoch, and the nanoseconds
/// beyond them.
#[derive(Clone, Copy, Debug, PartialEq, Eq, Structural)]
pub struct Timestamp {
    pub secs: u64,
    pub nanos: u32,
}

/// How long a file of the disk cache stays valid, in seconds: a day.
pub const DISK_CACHE_TIMEOUT: u64 = 86_400;

/// The point in time as a count of nanoseconds.
pub open spec fn instant(t: Timestamp) -> int {
    t.secs as int * 1_000_000_000 + t.nanos as int
}

/// A file last written at `modified` is still valid at `now`: it is not
/// from the future, and younger than a day.
pub open spec fn fresh_at(now: Timestamp, modified: Timestamp) -> bool {
    instant(modified) <= instant(now) && instant(now) - instant(modified) < DISK_CACHE_TIMEOUT
        * 1_000_000_000
}

/// Whether a file of the disk cache that was last written at `modified` is
/// still valid at `now`.
pub fn is_fresh(now: Timestamp, modified: Timestamp) -> (fresh: bool)
    requires
        now.nanos < 1_000_000_000,
        modified.nanos < 1_000_000_000,
    ensures
        fresh == fresh_at(now, modified),
{
    if modified.secs > now.secs || (modified.secs == now.secs && modified.nanos > now.nanos) {
        return false;
    }
    let whole: u64 = now.secs - modified.secs;
    if now.nanos >= modified.nanos {
        whole < DISK_CACHE_TIMEOUT
    } else {
        whole - 1 < DISK_CACHE_TIMEOUT
    }
}

impl<'a, T> DiskCache<'a, T> {
    /// The name of the file that backs the cache.
    pub closed spec fn spec_filename(&self) -> Seq<char> {
        self.filename@
    }

    /// The file name as it is handed to `load` and `store`.
    pub closed spec fn file(&self) -> &str {
        self.filename
    }

    /// What the cache holds in memory, if it holds anything yet.
    pub closed spec fn value(&self) -> Option<T> {
        self.inner.value()
    }

    /// The name of the file that backs the cache.
    pub fn filename(&self) -> (name: &str)
        ensures
            name@ == self.spec_filename(),
    {
        self.filename
    }

    /// The value of the cache: the one held in memory, else the one that
    /// `load` reads from the file, else the one that `parse` makes of the
    /// text that `fetch` brings, which `store` then writes to the file.
    ///
    /// `load` is handed the file's name and answers with `None` when the
    /// file is missing, out of date or unreadable. Nothing is written
    /// unless the text that was fetched could be parsed, and a value is kept
    /// only once the file is written.
    pub fn get_or_init_json<L, F, P, S>(&mut self, load: L, fetch: F, parse: P, store: S) -> (found:
        Result<&T, Error>)
        where
            L: FnOnce(&str) -> Option<T>,
            F: FnOnce() -> Result<String, Error>,
            P: FnOnce(&String) -> Result<T, Error>,
            S: FnOnce(&str, &String) -> Result<(), Error>,

        requires
            forall|name: &str| load.requires((name,)),
            fetch.requires(()),
            forall|text: &String| parse.requires((text,)),
            forall|name: &str, text: &String| store.requires((name, text)),
        ensures
            final(self).spec_filename() == old(self).spec_filename(),
            match old(self).value() {
                Some(kept) => final(self).value() == Some(kept) && found == Ok::<&T, Error>(&kept),
                None => match found {
                    Ok(value) => final(self).value() == Some(*value) && (load.ensures(
                        (old(self).file(),),
                        Some(*value),
                    ) || (load.ensures((old(self).file(),), None) && exists|
                        text: String,
                        stored: Result<(), Error>,
                    |
                        {
                            &&& fetch.ensures((), Ok(text))
                            &&& parse.ensures((&text,), Ok(*value))
                            &&& stored is Ok
                            &&& store.ensures((old(self).file(), &text), stored)
                        })),
                    Err(e) => final(self).value() is None && load.ensures(
                        (old(self).file(),),
                        None,
                    ) && (fetch.ensures((), Err(e)) || exists|text: String|
                        {
                            &&& fetch.ensures((), Ok(text))
                            &&& (parse.ensures((&text,), Err(e)) || exists|value: T|
                                {
                                    &&& parse.ensures((&text,), Ok(value))
                                    &&& store.ensures((old(self).file(), &text), Err(e))
                                })
                        }),
                },
            },
    {
        if self.inner.contents.is_none() {
            let loaded = load(self.filename);
            let value = match loaded {
                Some(value) => value,
                None => {
                    let text = match fetch() {
                        Ok(text) => text,
                        Err(e) => {
                            return Err(e);
                        },
                    };
                    let value = match parse(&text) {
                        Ok(value) => value,
                        Err(e) => {
                            assert(fetch.ensures((), Ok(text)) && parse.ensures((&text,), Err(e)));
                            return Err(e);
                        },
                    };
                    let stored = store(self.filename, &text);
                    if let Err(e) = stored {
                        assert(parse.ensures((&text,), Ok(value)) && store.ensures(
                            (old(self).file(), &text),
                            Err(e),
                        ));
                        return Err(e);
                    }
                    assert(fetch.ensures((), Ok(text)) && parse.ensures((&text,), Ok(value))
                        && stored is Ok && store.ensures((old(self).file(), &text), stored));
                    value
                },
            };
            self.inner.contents = Some(value);
        }
        Ok(self.inner.contents.as_ref().unwrap())
    }
}

} // verus!
