//! Unpacking a bottle: which archive entries are accepted, and what is made
//! of each.
//!
//! The entries of a bottle all lie in one directory, named after the
//! formula and its version. Each entry's path is made safe before anything
//! is written under the bottles directory. Files and symlinks are made as
//! they come; directories are made last, deepest first, so that what is
//! set on a directory is not disturbed by what is later put into it.

use vstd::prelude::*;
use vstd::seq_lib::to_multiset_insert;
use vstd::string::{StringSliceAdditionalSpecFns, StrSliceExecFns};
use vstd::utf8::encode_utf8;
use crate::error::{Error, Failure};
use crate::formulae::Formula;
use crate::paths::{components, join, join_name, parts, parts_of, Component, Part};
use crate::text::{compare_bytes, is_prefix, lex_order, same_bytes, starts_with, Order};

verus! {

/// The names of the components that are plain names, in order.
pub open spec fn normal_names(parts: Seq<Part>) -> Seq<Seq<u8>>
    decreases parts.len(),
{
    if parts.len() == 0 {
        Seq::empty()
    } else {
        match parts.last() {
            Part::Normal(name) => normal_names(parts.drop_last()).push(name),
            _ => normal_names(parts.drop_last()),
        }
    }
}

/// Some component is `..`.
pub open spec fn climbs(parts: Seq<Part>) -> bool {
    exists|i: int| 0 <= i < parts.len() && #[trigger] parts[i] == Part::ParentDir
}

/// The path that `names` lead to from the directory `dir`.
pub open spec fn join_names(dir: Seq<u8>, names: Seq<Seq<u8>>) -> Seq<u8>
    decreases names.len(),
{
    if names.len() == 0 {
        dir
    } else {
        join_name(join_names(dir, names.drop_last()), names.last())
    }
}

/// Where an entry with the given path goes under `base`, if its path is
/// safe: the path does not climb with `..`, and names something below
/// `base`.
pub open spec fn sanitised(base: Seq<u8>, path: Seq<u8>) -> Option<Seq<u8>> {
    if climbs(parts(path)) || normal_names(parts(path)).len() == 0 {
        None
    } else {
        Some(join_names(base, normal_names(parts(path))))
    }
}

/// Makes the path of an archive entry safe, and places it under
/// `base_dir`.
///
/// The root, and `.`, count for nothing; `..` is refused, and so is a path
/// that names nothing below `base_dir`.
pub fn sanitise_path(base_dir: &[u8], path: &[u8]) -> (safe: Option<Vec<u8>>)
    ensures
        match sanitised(base_dir@, path@) {
            Some(target) => safe matches Some(found) && found@ == target,
            None => safe is None,
        },
{
    let found = components(path);
    let mut target = vstd::slice::slice_to_vec(base_dir);
    let mut named = false;
    let mut i: usize = 0;
    let ghost all = parts(path@);
    proof {
        assert(all.take(0) =~= Seq::<Part>::empty());
    }
    while i < found.len()
        invariant
            i <= found@.len(),
            all == parts(path@),
            parts_of(found@) == all,
            target@ == join_names(base_dir@, normal_names(all.take(i as int))),
            named == (normal_names(all.take(i as int)).len() > 0),
            forall|k: int| 0 <= k < i ==> #[trigger] all[k] != Part::ParentDir,
        decreases found@.len() - i,
    {
        proof {
            assert(all.take(i + 1).drop_last() =~= all.take(i as int));
            assert(all.take(i + 1).last() == all[i as int]);
            assert(all[i as int] == found@[i as int]@);
            let names = normal_names(all.take(i as int));
            if let Part::Normal(name) = all[i as int] {
                assert(normal_names(all.take(i + 1)) == names.push(name));
                assert(names.push(name).drop_last() =~= names);
                assert(names.push(name).last() == name);
            } else {
                assert(normal_names(all.take(i + 1)) == names);
            }
        }
        match &found[i] {
            Component::ParentDir => {
                return None;
            },
            Component::Normal(name) => {
                join(&mut target, name.as_slice());
                named = true;
            },
            _ => {},
        }
        i += 1;
    }
    proof {
        assert(all.take(found@.len() as int) =~= all);
    }
    if named {
        Some(target)
    } else {
        None
    }
}

/// What kind of thing an archive entry is.
#[derive(Clone, Copy, Debug, PartialEq, Eq, Structural)]
pub enum EntryKind {
    Regular,
    Directory,
    Symlink,
    /// A hard link, a device, a fifo, or anything else.
    Other,
}

/// The header of an archive entry.
#[derive(Debug)]
pub struct Entry {
    pub path: Vec<u8>,
    pub kind: EntryKind,
    pub mode: u32,
    pub link_name: Option<Vec<u8>>,
}

/// What is to be made of an archive entry.
#[derive(Debug, PartialEq, Eq)]
pub enum Action {
    /// Patch the entry's contents and write them to `path`, with `mode`.
    WriteFile { path: Vec<u8>, mode: u32 },
    /// Make the directory `path`, and all above it, and set `mode` on it.
    MakeDirectory { path: Vec<u8>, mode: u32 },
    /// Make `path` a symlink to `target`.
    MakeSymlink { path: Vec<u8>, target: Vec<u8> },
}

/// What an `Action` stands for in specifications.
pub enum Deed {
    WriteFile { path: Seq<u8>, mode: u32 },
    MakeDirectory { path: Seq<u8>, mode: u32 },
    MakeSymlink { path: Seq<u8>, target: Seq<u8> },
}

impl View for Action {
    type V = Deed;

    open spec fn view(&self) -> Deed {
        match self {
            Action::WriteFile { path, mode } => Deed::WriteFile { path: path@, mode: *mode },
            Action::MakeDirectory { path, mode } => Deed::MakeDirectory {
                path: path@,
                mode: *mode,
            },
            Action::MakeSymlink { path, target } => Deed::MakeSymlink {
                path: path@,
                target: target@,
            },
        }
    }
}

/// A directory that waits to be made: the path of its entry, where it
/// goes, and its mode.
#[derive(Debug)]
pub struct Directory {
    pub entry_path: Vec<u8>,
    pub path: Vec<u8>,
    pub mode: u32,
}

/// What a `Directory` stands for in specifications.
pub struct Waiting {
    pub entry_path: Seq<u8>,
    pub path: Seq<u8>,
    pub mode: u32,
}

impl View for Directory {
    type V = Waiting;

    open spec fn view(&self) -> Waiting {
        Waiting { entry_path: self.entry_path@, path: self.path@, mode: self.mode }
    }
}

/// The views of a list of directories.
pub open spec fn waiting(directories: Seq<Directory>) -> Seq<Waiting> {
    Seq::new(directories.len(), |i: int| directories[i]@)
}

/// The entry paths fall from each directory to the next, or stay.
pub open spec fn descending(directories: Seq<Waiting>) -> bool {
    forall|i: int, j: int|
        0 <= i < j < directories.len() ==> lex_order(
            #[trigger] directories[i].entry_path,
            #[trigger] directories[j].entry_path,
        ) != Order::Less
}

/// The first position in `directories` whose entry path sorts before
/// `entry_path`, or their number if there is none.
pub open spec fn place_of(directories: Seq<Waiting>, entry_path: Seq<u8>) -> int
    decreases directories.len(),
{
    if directories.len() == 0 {
        0
    } else if lex_order(directories[0].entry_path, entry_path) == Order::Less {
        0
    } else {
        1 + place_of(directories.drop_first(), entry_path)
    }
}

proof fn lemma_place_of(directories: Seq<Waiting>, entry_path: Seq<u8>)
    ensures
        0 <= place_of(directories, entry_path) <= directories.len(),
        forall|i: int|
            0 <= i < place_of(directories, entry_path) ==> lex_order(
                (#[trigger] directories[i]).entry_path,
                entry_path,
            ) != Order::Less,
        place_of(directories, entry_path) < directories.len() ==> lex_order(
            directories[place_of(directories, entry_path)].entry_path,
            entry_path,
        ) == Order::Less,
    decreases directories.len(),
{
    if directories.len() > 0 && lex_order(directories[0].entry_path, entry_path) != Order::Less {
        let rest = directories.drop_first();
        lemma_place_of(rest, entry_path);
        assert forall|i: int| 0 <= i < place_of(directories, entry_path) implies lex_order(
            (#[trigger] directories[i]).entry_path,
            entry_path,
        ) != Order::Less by {
            if i > 0 {
                assert(directories[i] == rest[i - 1]);
            }
        }
        if place_of(directories, entry_path) < directories.len() {
            assert(directories[place_of(directories, entry_path)] == rest[place_of(
                rest,
                entry_path,
            )]);
        }
    }
}

/// A position that no earlier directory sorts before, and that the
/// directory at it does, is the place.
proof fn lemma_place_of_is(directories: Seq<Waiting>, entry_path: Seq<u8>, at: int)
    requires
        0 <= at <= directories.len(),
        forall|i: int|
            0 <= i < at ==> lex_order((#[trigger] directories[i]).entry_path, entry_path)
                != Order::Less,
        at < directories.len() ==> lex_order(directories[at].entry_path, entry_path)
            == Order::Less,
    ensures
        place_of(directories, entry_path) == at,
    decreases at,
{
    if at > 0 {
        let rest = directories.drop_first();
        assert(lex_order(directories[0].entry_path, entry_path) != Order::Less);
        assert forall|i: int| 0 <= i < at - 1 implies lex_order(
            (#[trigger] rest[i]).entry_path,
            entry_path,
        ) != Order::Less by {
            assert(rest[i] == directories[i + 1]);
        }
        if at < directories.len() {
            assert(rest[at - 1] == directories[at]);
        }
        lemma_place_of_is(rest, entry_path, at - 1);
    }
}

/// The directories with one more among them, put where it keeps the entry
/// paths falling: behind every directory that does not sort before it.
pub open spec fn with_directory(directories: Seq<Waiting>, one: Waiting) -> Seq<Waiting> {
    directories.insert(place_of(directories, one.entry_path), one)
}

/// Putting a directory in its place keeps the order, and adds just that
/// directory.
pub proof fn lemma_with_directory(directories: Seq<Waiting>, one: Waiting)
    requires
        descending(directories),
    ensures
        descending(with_directory(directories, one)),
        with_directory(directories, one).to_multiset() == directories.to_multiset().insert(one),
{
    let at = place_of(directories, one.entry_path);
    lemma_place_of(directories, one.entry_path);
    let more = with_directory(directories, one);
    to_multiset_insert(directories, at, one);
    assert forall|i: int, j: int| 0 <= i < j < more.len() implies lex_order(
        #[trigger] more[i].entry_path,
        #[trigger] more[j].entry_path,
    ) != Order::Less by {
        if j < at {
            assert(more[i] == directories[i] && more[j] == directories[j]);
        } else if j == at {
            assert(more[i] == directories[i]);
            crate::text::lemma_lex_order_flip(directories[i].entry_path, one.entry_path);
            crate::text::lemma_lex_order_flip(one.entry_path, directories[i].entry_path);
        } else if i < at {
            assert(more[i] == directories[i] && more[j] == directories[j - 1]);
        } else if i == at {
            assert(more[j] == directories[j - 1]);
            if at < j - 1 {
                assert(lex_order(directories[at].entry_path, directories[j - 1].entry_path)
                    != Order::Less);
            }
            crate::text::lemma_lex_order_flip(one.entry_path, directories[j - 1].entry_path);
            crate::text::lemma_lex_order_flip(directories[j - 1].entry_path, one.entry_path);
            crate::text::lemma_lex_order_flip(directories[at].entry_path, one.entry_path);
            crate::text::lemma_lex_order_flip(
                directories[at].entry_path,
                directories[j - 1].entry_path,
            );
            crate::text::lemma_lex_order_flip(
                directories[j - 1].entry_path,
                directories[at].entry_path,
            );
            if lex_order(one.entry_path, directories[j - 1].entry_path) == Order::Less {
                if at < j - 1 {
                    if lex_order(directories[j - 1].entry_path, directories[at].entry_path)
                        == Order::Less {
                        crate::text::lemma_lex_order_trans(
                            one.entry_path,
                            directories[j - 1].entry_path,
                            directories[at].entry_path,
                        );
                    } else {
                        crate::text::lemma_lex_order_equal(
                            directories[j - 1].entry_path,
                            directories[at].entry_path,
                        );
                    }
                }
            }
        } else {
            assert(more[i] == directories[i - 1] && more[j] == directories[j - 1]);
        }
    }
}


/// The directory of a bottle: the names of the two components that all its
/// entries start with.
pub struct Top {
    pub name: Seq<u8>,
    pub release: Seq<u8>,
}

/// How far the unpacking of an archive has come: the bottle's directory,
/// once the first entry has settled it, and the directories that wait to be
/// made.
pub struct Progress {
    pub top: Option<Top>,
    pub directories: Seq<Waiting>,
}

/// A path with these components may open a bottle of the given formula: it
/// starts with the formula's name, then a name that begins with its
/// version.
pub open spec fn opens_bottle(parts: Seq<Part>, name: Seq<u8>, version: Seq<u8>) -> bool {
    &&& parts.len() >= 2
    &&& parts[0] == Part::Normal(name)
    &&& parts[1] matches Part::Normal(release) && is_prefix(version, release)
}

/// A path with these components lies in the bottle's directory.
pub open spec fn lies_in(parts: Seq<Part>, top: Top) -> bool {
    &&& parts.len() >= 2
    &&& parts[0] == Part::Normal(top.name)
    &&& parts[1] == Part::Normal(top.release)
}

/// The bottle's directory as the first entry settles it.
pub open spec fn top_of(parts: Seq<Part>) -> Top {
    Top {
        name: match parts[0] {
            Part::Normal(name) => name,
            _ => Seq::empty(),
        },
        release: match parts[1] {
            Part::Normal(release) => release,
            _ => Seq::empty(),
        },
    }
}

/// What taking one more entry comes to: how far the unpacking has come
/// then, and what is to be made of the entry right away, if anything.
pub open spec fn taken(
    name: Seq<u8>,
    version: Seq<u8>,
    base: Seq<u8>,
    progress: Progress,
    entry: Entry,
) -> Result<(Progress, Option<Deed>), Failure> {
    let found = parts(entry.path@);
    let accepted = match progress.top {
        Some(top) => lies_in(found, top),
        None => opens_bottle(found, name, version),
    };
    let top = match progress.top {
        Some(top) => top,
        None => top_of(found),
    };
    if !accepted {
        Err(Failure::InvalidArchive)
    } else {
        match sanitised(base, entry.path@) {
            None => Err(Failure::PathTraversal),
            Some(path) => match entry.kind {
                EntryKind::Regular => Ok(
                    (
                        Progress { top: Some(top), directories: progress.directories },
                        Some(Deed::WriteFile { path, mode: entry.mode }),
                    ),
                ),
                EntryKind::Directory => Ok(
                    (
                        Progress {
                            top: Some(top),
                            directories: with_directory(
                                progress.directories,
                                Waiting { entry_path: entry.path@, path, mode: entry.mode },
                            ),
                        },
                        None,
                    ),
                ),
                EntryKind::Symlink => match entry.link_name {
                    Some(target) => Ok(
                        (
                            Progress { top: Some(top), directories: progress.directories },
                            Some(Deed::MakeSymlink { path, target: target@ }),
                        ),
                    ),
                    None => Err(Failure::InvalidArchive),
                },
                EntryKind::Other => Err(Failure::UnsupportedEntryType),
            },
        }
    }
}

/// The deeds that make the waiting directories, in their order.
pub open spec fn directory_deeds(directories: Seq<Waiting>) -> Seq<Deed> {
    Seq::new(
        directories.len(),
        |i: int| Deed::MakeDirectory { path: directories[i].path, mode: directories[i].mode },
    )
}

/// Where the bottle was unpacked: its directory under `base`.
pub open spec fn bottle_root(base: Seq<u8>, top: Top) -> Seq<u8> {
    join_name(join_name(base, top.name), top.release)
}

/// The views of a list of actions.
pub open spec fn deeds(actions: Seq<Action>) -> Seq<Deed> {
    Seq::new(actions.len(), |i: int| actions[i]@)
}

/// The unpacking of one archive, entry by entry.
#[derive(Debug)]
pub struct Extraction {
    name: Vec<u8>,
    version: Vec<u8>,
    top: Option<(Vec<u8>, Vec<u8>)>,
    directories: Vec<Directory>,
}

impl View for Extraction {
    type V = Progress;

    closed spec fn view(&self) -> Progress {
        Progress {
            top: match self.top {
                Some((name, release)) => Some(Top { name: name@, release: release@ }),
                None => None,
            },
            directories: waiting(self.directories@),
        }
    }
}

impl Extraction {
    /// The formula's name, as bytes.
    pub closed spec fn spec_name(&self) -> Seq<u8> {
        self.name@
    }

    /// The formula's version, as bytes.
    pub closed spec fn spec_version(&self) -> Seq<u8> {
        self.version@
    }

    /// The waiting directories are in order.
    pub open spec fn wf(&self) -> bool {
        descending(self@.directories)
    }

    /// Starts on the archive of the bottle of the given formula and
    /// version.
    pub fn new(name: &str, version: &str) -> (extraction: Extraction)
        ensures
            extraction.wf(),
            extraction.spec_name() == name.spec_bytes(),
            extraction.spec_version() == version.spec_bytes(),
            extraction@ == (Progress { top: None, directories: Seq::empty() }),
    {
        let extraction = Extraction {
            name: name.as_bytes_vec(),
            version: version.as_bytes_vec(),
            top: None,
            directories: Vec::new(),
        };
        proof {
            assert(waiting(extraction.directories@) =~= Seq::<Waiting>::empty());
        }
        extraction
    }

    /// Takes the next entry of the archive, and says what is to be made of
    /// it right away: nothing, for a directory, which waits until the
    /// archive is through.
    ///
    /// The entry is refused as `InvalidArchive` when it lies outside the
    /// bottle's directory, which the first entry settles, or is a symlink
    /// to nowhere; as `PathTraversal` when its path is unsafe; as
    /// `UnsupportedEntryType` when it is no file, directory or symlink. An
    /// entry that is refused changes nothing.
    pub fn accept(&mut self, base_dir: &[u8], entry: &Entry) -> (outcome: Result<
        Option<Action>,
        Error,
    >)
        requires
            old(self).wf(),
        ensures
            final(self).wf(),
            final(self).spec_name() == old(self).spec_name(),
            final(self).spec_version() == old(self).spec_version(),
            match taken(
                old(self).spec_name(),
                old(self).spec_version(),
                base_dir@,
                old(self)@,
                *entry,
            ) {
                Ok((progress, deed)) => outcome matches Ok(action) && final(self)@ == progress && (
                match deed {
                    Some(wanted) => action matches Some(made) && made@ == wanted,
                    None => action is None,
                }),
                Err(failure) => outcome matches Err(e) && e@ == failure && final(self)@ == old(
                    self,
                )@,
            },
    {
        let found = components(entry.path.as_slice());
        let ghost all = parts(entry.path@);
        assert(found@.len() == all.len());
        assert(forall|k: int| 0 <= k < found@.len() ==> #[trigger] found@[k]@ == all[k]);
        if found.len() < 2 {
            return Err(Error::InvalidArchive);
        }
        let (first, second) = match (&found[0], &found[1]) {
            (Component::Normal(first), Component::Normal(second)) => (first, second),
            _ => {
                return Err(Error::InvalidArchive);
            },
        };
        let accepted = match &self.top {
            Some((name, release)) => same_bytes(first.as_slice(), name.as_slice()) && same_bytes(
                second.as_slice(),
                release.as_slice(),
            ),
            None => same_bytes(first.as_slice(), self.name.as_slice()) && starts_with(
                second.as_slice(),
                self.version.as_slice(),
            ),
        };
        if !accepted {
            return Err(Error::InvalidArchive);
        }
        let path = match sanitise_path(base_dir, entry.path.as_slice()) {
            Some(path) => path,
            None => {
                return Err(Error::PathTraversal);
            },
        };
        let action = match entry.kind {
            EntryKind::Regular => Some(Action::WriteFile { path, mode: entry.mode }),
            EntryKind::Directory => {
                self.defer(
                    Directory { entry_path: entry.path.clone(), path, mode: entry.mode },
                );
                None
            },
            EntryKind::Symlink => match &entry.link_name {
                Some(target) => Some(Action::MakeSymlink { path, target: target.clone() }),
                None => {
                    return Err(Error::InvalidArchive);
                },
            },
            EntryKind::Other => {
                return Err(Error::UnsupportedEntryType);
            },
        };
        if self.top.is_none() {
            self.top = Some((first.clone(), second.clone()));
        }
        Ok(action)
    }

    fn defer(&mut self, directory: Directory)
        requires
            old(self).wf(),
        ensures
            final(self).wf(),
            final(self).name == old(self).name,
            final(self).version == old(self).version,
            final(self).top == old(self).top,
            final(self)@.directories == with_directory(old(self)@.directories, directory@),
    {
        let ghost before = waiting(self.directories@);
        let mut at: usize = 0;
        while at < self.directories.len() && compare_bytes(
            self.directories[at].entry_path.as_slice(),
            directory.entry_path.as_slice(),
        ) != Order::Less
            invariant
                at <= self.directories@.len(),
                *self == *old(self),
                before == waiting(self.directories@),
                forall|i: int|
                    0 <= i < at ==> lex_order((#[trigger] before[i]).entry_path, directory@.entry_path)
                        != Order::Less,
            decreases self.directories@.len() - at,
        {
            at += 1;
        }
        proof {
            if at < before.len() {
                assert(before[at as int] == self.directories@[at as int]@);
            }
            lemma_place_of_is(before, directory@.entry_path, at as int);
            lemma_with_directory(before, directory@);
        }
        self.directories.insert(at, directory);
        proof {
            assert(waiting(self.directories@) =~= before.insert(at as int, directory@));
        }
    }

    /// Ends the archive: says which directories are to be made now, in
    /// order, and where the bottle was unpacked.
    ///
    /// An archive without entries is refused as `InvalidArchive`.
    pub fn finish(self, base_dir: &[u8]) -> (outcome: Result<(Vec<Action>, Vec<u8>), Error>)
        ensures
            match self@.top {
                Some(top) => outcome matches Ok((actions, root)) && deeds(actions@)
                    == directory_deeds(self@.directories) && root@ == bottle_root(base_dir@, top),
                None => outcome matches Err(e) && e@ == Failure::InvalidArchive,
            },
    {
        let (name, release) = match &self.top {
            Some((name, release)) => (name, release),
            None => {
                return Err(Error::InvalidArchive);
            },
        };
        let mut root = vstd::slice::slice_to_vec(base_dir);
        join(&mut root, name.as_slice());
        join(&mut root, release.as_slice());
        let mut actions: Vec<Action> = Vec::new();
        let mut i: usize = 0;
        while i < self.directories.len()
            invariant
                i <= self.directories@.len(),
                actions@.len() == i,
                forall|k: int|
                    0 <= k < i ==> (#[trigger] actions@[k])@ == (Deed::MakeDirectory {
                        path: self.directories@[k].path@,
                        mode: self.directories@[k].mode,
                    }),
            decreases self.directories@.len() - i,
        {
            let directory = &self.directories[i];
            actions.push(Action::MakeDirectory { path: directory.path.clone(), mode: directory.mode });
            i += 1;
        }
        proof {
            assert(deeds(actions@) =~= directory_deeds(self@.directories));
        }
        Ok((actions, root))
    }
}


/// What taking the leading `n` entries of an archive comes to: how far the
/// unpacking has come, and what was to be made on the way.
pub open spec fn unpacked(
    name: Seq<u8>,
    version: Seq<u8>,
    base: Seq<u8>,
    entries: Seq<Entry>,
    n: nat,
) -> Result<(Progress, Seq<Deed>), Failure>
    decreases n,
{
    if n == 0 {
        Ok((Progress { top: None, directories: Seq::empty() }, Seq::empty()))
    } else {
        match unpacked(name, version, base, entries, (n - 1) as nat) {
            Err(failure) => Err(failure),
            Ok((progress, done)) => match taken(name, version, base, progress, entries[n - 1]) {
                Err(failure) => Err(failure),
                Ok((next, deed)) => Ok(
                    (
                        next,
                        match deed {
                            Some(deed) => done.push(deed),
                            None => done,
                        },
                    ),
                ),
            },
        }
    }
}

/// What unpacking an archive comes to: what is to be made, in order, and
/// where the bottle is unpacked.
pub open spec fn extraction(name: Seq<u8>, version: Seq<u8>, base: Seq<u8>, entries: Seq<Entry>) -> Result<
    (Seq<Deed>, Seq<u8>),
    Failure,
> {
    match unpacked(name, version, base, entries, entries.len()) {
        Err(failure) => Err(failure),
        Ok((progress, done)) => match progress.top {
            None => Err(Failure::InvalidArchive),
            Some(top) => Ok(
                (done + directory_deeds(progress.directories), bottle_root(base, top)),
            ),
        },
    }
}

/// A failure among the leading entries is the failure of the archive.
proof fn lemma_unpacked_failure_stays(
    name: Seq<u8>,
    version: Seq<u8>,
    base: Seq<u8>,
    entries: Seq<Entry>,
    n: nat,
    m: nat,
)
    requires
        n <= m,
        unpacked(name, version, base, entries, n) is Err,
    ensures
        unpacked(name, version, base, entries, m) == unpacked(name, version, base, entries, n),
    decreases m,
{
    if n < m {
        lemma_unpacked_failure_stays(name, version, base, entries, n, (m - 1) as nat);
    }
}

/// Works out what unpacking the archive of a formula's bottle under
/// `bottles_dir` takes: what is to be made of the entries, in order, and
/// where the bottle ends up.
///
/// Files and symlinks are made in the order of their entries; the
/// directories follow, those with the greater entry paths first. The first
/// entry that is refused decides the error, and an archive without entries
/// is refused as `InvalidArchive`.
pub fn extract(entries: &[Entry], formula: &Formula, bottles_dir: &[u8]) -> (outcome: Result<
    (Vec<Action>, Vec<u8>),
    Error,
>)
    ensures
        match extraction(
            encode_utf8(formula.name@),
            encode_utf8(formula.versions.stable@),
            bottles_dir@,
            entries@,
        ) {
            Ok((wanted, root)) => outcome matches Ok((actions, found)) && deeds(actions@) == wanted
                && found@ == root,
            Err(failure) => outcome matches Err(e) && e@ == failure,
        },
{
    let mut state = Extraction::new(formula.name.as_str(), formula.versions.stable.as_str());
    let mut actions: Vec<Action> = Vec::new();
    let ghost name = state.spec_name();
    let ghost version = state.spec_version();
    let mut i: usize = 0;
    proof {
        assert(deeds(actions@) =~= Seq::<Deed>::empty());
    }
    while i < entries.len()
        invariant
            i <= entries@.len(),
            state.wf(),
            state.spec_name() == name,
            state.spec_version() == version,
            name == encode_utf8(formula.name@),
            version == encode_utf8(formula.versions.stable@),
            unpacked(name, version, bottles_dir@, entries@, i as nat) == Ok::<
                (Progress, Seq<Deed>),
                Failure,
            >((state@, deeds(actions@))),
        decreases entries@.len() - i,
    {
        let ghost done = deeds(actions@);
        let ghost before = state@;
        assert(unpacked(name, version, bottles_dir@, entries@, (i + 1) as nat) == match taken(
            name,
            version,
            bottles_dir@,
            before,
            entries@[i as int],
        ) {
            Err(failure) => Err::<(Progress, Seq<Deed>), Failure>(failure),
            Ok((next, deed)) => Ok(
                (
                    next,
                    match deed {
                        Some(deed) => done.push(deed),
                        None => done,
                    },
                ),
            ),
        });
        match state.accept(bottles_dir, &entries[i]) {
            Ok(Some(action)) => {
                actions.push(action);
                proof {
                    assert(deeds(actions@) =~= done.push(action@));
                }
            },
            Ok(None) => {},
            Err(e) => {
                proof {
                    lemma_unpacked_failure_stays(
                        name,
                        version,
                        bottles_dir@,
                        entries@,
                        (i + 1) as nat,
                        entries@.len(),
                    );
                }
                return Err(e);
            },
        }
        i += 1;
    }
    let ghost done = deeds(actions@);
    let ghost last = state@;
    match state.finish(bottles_dir) {
        Ok((mut directories, root)) => {
            let ghost made = deeds(directories@);
            actions.append(&mut directories);
            proof {
                assert(deeds(actions@) =~= done + made);
            }
            Ok((actions, root))
        },
        Err(e) => Err(e),
    }
}

} // verus!
