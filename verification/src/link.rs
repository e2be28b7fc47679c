//! Publishing a bottle's executables as symlinks, and taking them back.
//!
//! Nothing is touched here. Each function is handed what was found on
//! disk, and says what is to be done about it, step by step.

use vstd::prelude::*;
use vstd::string::{StringSliceAdditionalSpecFns, StrSliceExecFns};
use vstd::utf8::encode_utf8;
use crate::db::models::DownloadedBottle;
use crate::paths::{join, join_name, path_within, paths_equal, same_path, starts_with_path};
use crate::text::same_str;

verus! {

/// A step to take on disk or in the catalog.
#[derive(Debug, PartialEq, Eq)]
pub enum Step {
    /// Remove the file or symlink at the path.
    RemoveFile(Vec<u8>),
    /// Make `link` a symlink to `target`.
    Symlink { target: Vec<u8>, link: Vec<u8> },
    /// Record in the catalog that the symlink at the path belongs to the
    /// bottle.
    Record(Vec<u8>),
    /// Drop the catalog's record of the linked file with this id.
    Forget(i32),
    /// Make the directory at the path, and all above it.
    CreateDirAll(Vec<u8>),
    /// Copy the file `from` to `to`.
    Copy { from: Vec<u8>, to: Vec<u8> },
    /// Remove the directory at the path with all that is in it, then the
    /// directory above it if that is left empty. Failing to is no error.
    RemoveTree(Vec<u8>),
    /// Drop the catalog's record of the bottle with this id.
    DeleteBottle(i32),
}

/// What a `Step` stands for in specifications.
pub enum Move {
    RemoveFile(Seq<u8>),
    Symlink { target: Seq<u8>, link: Seq<u8> },
    Record(Seq<u8>),
    Forget(i32),
    CreateDirAll(Seq<u8>),
    Copy { from: Seq<u8>, to: Seq<u8> },
    RemoveTree(Seq<u8>),
    DeleteBottle(i32),
}

impl View for Step {
    type V = Move;

    open spec fn view(&self) -> Move {
        match self {
            Step::RemoveFile(path) => Move::RemoveFile(path@),
            Step::Symlink { target, link } => Move::Symlink { target: target@, link: link@ },
            Step::Record(path) => Move::Record(path@),
            Step::Forget(id) => Move::Forget(*id),
            Step::CreateDirAll(path) => Move::CreateDirAll(path@),
            Step::Copy { from, to } => Move::Copy { from: from@, to: to@ },
            Step::RemoveTree(path) => Move::RemoveTree(path@),
            Step::DeleteBottle(id) => Move::DeleteBottle(*id),
        }
    }
}

/// The views of a list of steps.
pub open spec fn moves(steps: Seq<Step>) -> Seq<Move> {
    Seq::new(steps.len(), |i: int| steps[i]@)
}

/// What was found where a link is to stand.
#[derive(Debug)]
pub struct Found {
    /// Whether anything is there, as far as following symlinks tells.
    pub exists: bool,
    /// Where it points, if it is a symlink.
    pub link_target: Option<Vec<u8>>,
}

/// A file in a bottle's `bin` directory, and what was found where its link
/// is to stand.
#[derive(Debug)]
pub struct BinEntry {
    pub file_name: Vec<u8>,
    pub destination: Found,
}

/// A link that the catalog records, and where it points now, if it is
/// still a symlink.
#[derive(Debug)]
pub struct Published {
    pub id: i32,
    pub path: Vec<u8>,
    pub link_target: Option<Vec<u8>>,
}

/// What is to become of the place where a link is to stand.
#[derive(Clone, Copy, Debug, PartialEq, Eq, Structural)]
pub enum LinkDecision {
    /// Nothing is there: make the link.
    Create,
    /// A link into the bottles directory is there: put the new one in its
    /// place.
    Replace,
    /// Something else is there: leave it alone.
    Skip,
}

/// What is to become of a place where `found` was found.
///
/// A symlink counts by where it points, whether or not anything is there:
/// one into the bottles directory gives way, any other stays. Where no
/// symlink stands, a link is made only if nothing stands there at all.
pub open spec fn decision(found: Found, bottles_dir: Seq<u8>) -> LinkDecision {
    match found.link_target {
        Some(target) => if path_within(target@, bottles_dir) {
            LinkDecision::Replace
        } else {
            LinkDecision::Skip
        },
        None => if found.exists {
            LinkDecision::Skip
        } else {
            LinkDecision::Create
        },
    }
}

/// Decides what is to become of the place where a link is to stand: a link
/// is made where nothing is, and put in the place of a link into the
/// bottles directory, dangling or not; anything else is left alone.
pub fn decide_link(found: &Found, bottles_dir: &[u8]) -> (decided: LinkDecision)
    ensures
        decided == decision(*found, bottles_dir@),
{
    match &found.link_target {
        Some(target) => if starts_with_path(target.as_slice(), bottles_dir) {
            LinkDecision::Replace
        } else {
            LinkDecision::Skip
        },
        None => if found.exists {
            LinkDecision::Skip
        } else {
            LinkDecision::Create
        },
    }
}

/// The steps that publish one file of a bottle's `bin` directory under
/// `bin_dir`.
pub open spec fn entry_moves(
    bottle_bin: Seq<u8>,
    bin_dir: Seq<u8>,
    bottles_dir: Seq<u8>,
    entry: BinEntry,
) -> Seq<Move> {
    let link = join_name(bin_dir, entry.file_name@);
    let made = seq![
        Move::Record(link),
        Move::Symlink { target: join_name(bottle_bin, entry.file_name@), link },
    ];
    match decision(entry.destination, bottles_dir) {
        LinkDecision::Create => made,
        LinkDecision::Replace => seq![Move::RemoveFile(link)] + made,
        LinkDecision::Skip => Seq::empty(),
    }
}

/// The steps that publish the leading `n` files of a bottle's `bin`
/// directory.
pub open spec fn entries_moves(
    bottle_bin: Seq<u8>,
    bin_dir: Seq<u8>,
    bottles_dir: Seq<u8>,
    entries: Seq<BinEntry>,
    n: nat,
) -> Seq<Move>
    decreases n,
{
    if n == 0 {
        Seq::empty()
    } else {
        entries_moves(bottle_bin, bin_dir, bottles_dir, entries, (n - 1) as nat) + entry_moves(
            bottle_bin,
            bin_dir,
            bottles_dir,
            entries[n - 1],
        )
    }
}

/// The steps that link a bottle under `opt_dir`.
pub open spec fn opt_moves(opt_dir: Seq<u8>, name: Seq<u8>, path: Seq<u8>, exists: bool) -> Seq<
    Move,
> {
    let link = join_name(opt_dir, name);
    let made = seq![Move::Symlink { target: path, link }];
    if exists {
        seq![Move::RemoveFile(link)] + made
    } else {
        made
    }
}

/// The steps that a bottle asks for once it is linked. Only
/// `ca-certificates` asks for any: its certificates are copied to
/// `ca-certificates/cert.pem` under `etc_dir`.
pub open spec fn hook_moves(name: Seq<char>, path: Seq<u8>, etc_dir: Seq<u8>) -> Seq<Move> {
    if name == "ca-certificates"@ {
        let dir = join_name(etc_dir, "ca-certificates".spec_bytes());
        seq![
            Move::CreateDirAll(dir),
            Move::Copy {
                from: join_name(path, "share/ca-certificates/cacert.pem".spec_bytes()),
                to: join_name(dir, "cert.pem".spec_bytes()),
            },
        ]
    } else {
        Seq::empty()
    }
}

/// The steps that take back one link that the catalog records for the
/// bottle at `path`.
pub open spec fn retract_moves(path: Seq<u8>, published: Published) -> Seq<Move> {
    let forgotten = seq![Move::Forget(published.id)];
    match published.link_target {
        Some(target) => if path_within(target@, path) {
            seq![Move::RemoveFile(published.path@)] + forgotten
        } else {
            forgotten
        },
        None => forgotten,
    }
}

/// The steps that take back the leading `n` links that the catalog records
/// for the bottle at `path`.
pub open spec fn retraction_moves(path: Seq<u8>, published: Seq<Published>, n: nat) -> Seq<Move>
    decreases n,
{
    if n == 0 {
        Seq::empty()
    } else {
        retraction_moves(path, published, (n - 1) as nat) + retract_moves(path, published[n - 1])
    }
}

/// The steps that take back the link to the bottle under `opt_dir`, which
/// points to `opt_target` now.
pub open spec fn opt_retract_moves(
    opt_dir: Seq<u8>,
    name: Seq<u8>,
    path: Seq<u8>,
    opt_target: Seq<u8>,
) -> Seq<Move> {
    if same_path(opt_target, path) {
        seq![Move::RemoveFile(join_name(opt_dir, name))]
    } else {
        Seq::empty()
    }
}

/// Where a file, a directory, or a symlink that does not point into the
/// bottles directory stands in the way of a link, no step is taken: what
/// stands there stays as it is, and nothing is recorded for it.
pub proof fn lemma_other_places_are_left_alone(
    bottle_bin: Seq<u8>,
    bin_dir: Seq<u8>,
    bottles_dir: Seq<u8>,
    entry: BinEntry,
)
    requires
        match entry.destination.link_target {
            Some(target) => !path_within(target@, bottles_dir),
            None => entry.destination.exists,
        },
    ensures
        entry_moves(bottle_bin, bin_dir, bottles_dir, entry) == Seq::<Move>::empty(),
{
}

/// Where a symlink into the bottles directory stands in the way of a link,
/// it is removed, and the link is recorded and made in its place.
pub proof fn lemma_links_into_the_bottles_give_way(
    bottle_bin: Seq<u8>,
    bin_dir: Seq<u8>,
    bottles_dir: Seq<u8>,
    entry: BinEntry,
)
    requires
        entry.destination.link_target matches Some(target) && path_within(target@, bottles_dir),
    ensures
        entry_moves(bottle_bin, bin_dir, bottles_dir, entry) == seq![
            Move::RemoveFile(join_name(bin_dir, entry.file_name@)),
            Move::Record(join_name(bin_dir, entry.file_name@)),
            Move::Symlink {
                target: join_name(bottle_bin, entry.file_name@),
                link: join_name(bin_dir, entry.file_name@),
            },
        ],
{
    let link = join_name(bin_dir, entry.file_name@);
    let made = seq![
        Move::Record(link),
        Move::Symlink { target: join_name(bottle_bin, entry.file_name@), link },
    ];
    assert(seq![Move::RemoveFile(link)] + made =~= seq![
        Move::RemoveFile(link),
        Move::Record(link),
        Move::Symlink { target: join_name(bottle_bin, entry.file_name@), link },
    ]);
}

/// Each record of a link is followed at once by the making of that link,
/// to a file in the directory `bin`.
pub open spec fn records_come_with_links(steps: Seq<Move>, bin: Seq<u8>) -> bool {
    forall|i: int|
        0 <= i < steps.len() && (#[trigger] steps[i]) is Record ==> i + 1 < steps.len() && (exists|
            name: Seq<u8>,
        |
            steps[i + 1] == (Move::Symlink {
                target: #[trigger] join_name(bin, name),
                link: steps[i]->Record_0,
            }))
}

/// Where each record comes with its link in two lists of steps, it does in
/// the two put together.
proof fn lemma_records_come_with_links_joined(first: Seq<Move>, second: Seq<Move>, bin: Seq<u8>)
    requires
        records_come_with_links(first, bin),
        records_come_with_links(second, bin),
    ensures
        records_come_with_links(first + second, bin),
{
    let both = first + second;
    assert forall|i: int| 0 <= i < both.len() && (#[trigger] both[i]) is Record implies i + 1
        < both.len() && (exists|name: Seq<u8>|
        both[i + 1] == (Move::Symlink {
            target: #[trigger] join_name(bin, name),
            link: both[i]->Record_0,
        })) by {
        if i < first.len() {
            assert(both[i] == first[i]);
            assert(first[i] is Record);
            assert(both[i + 1] == first[i + 1]);
            let name = choose|name: Seq<u8>|
                first[i + 1] == (Move::Symlink {
                    target: #[trigger] join_name(bin, name),
                    link: first[i]->Record_0,
                });
            assert(both[i + 1] == (Move::Symlink {
                target: join_name(bin, name),
                link: both[i]->Record_0,
            }));
        } else {
            let j = i - first.len();
            assert(both[i] == second[j]);
            assert(second[j] is Record);
            assert(both[i + 1] == second[j + 1]);
            let name = choose|name: Seq<u8>|
                second[j + 1] == (Move::Symlink {
                    target: #[trigger] join_name(bin, name),
                    link: second[j]->Record_0,
                });
            assert(both[i + 1] == (Move::Symlink {
                target: join_name(bin, name),
                link: both[i]->Record_0,
            }));
        }
    }
}

proof fn lemma_entries_record_with_links(
    bottle_bin: Seq<u8>,
    bin_dir: Seq<u8>,
    bottles_dir: Seq<u8>,
    entries: Seq<BinEntry>,
    n: nat,
)
    ensures
        records_come_with_links(
            entries_moves(bottle_bin, bin_dir, bottles_dir, entries, n),
            bottle_bin,
        ),
    decreases n,
{
    if n > 0 {
        lemma_entries_record_with_links(bottle_bin, bin_dir, bottles_dir, entries, (n - 1) as nat);
        let entry = entries[n - 1];
        let one = entry_moves(bottle_bin, bin_dir, bottles_dir, entry);
        let link = join_name(bin_dir, entry.file_name@);
        assert forall|i: int| 0 <= i < one.len() && (#[trigger] one[i]) is Record implies i + 1
            < one.len() && (exists|name: Seq<u8>|
            one[i + 1] == (Move::Symlink {
                target: #[trigger] join_name(bottle_bin, name),
                link: one[i]->Record_0,
            })) by {
            assert(one[i + 1] == (Move::Symlink {
                target: join_name(bottle_bin, entry.file_name@),
                link: one[i]->Record_0,
            }));
        }
        lemma_records_come_with_links_joined(
            entries_moves(bottle_bin, bin_dir, bottles_dir, entries, (n - 1) as nat),
            one,
            bottle_bin,
        );
    }
}

/// Whenever the steps that link a bottle record a link, the very next step
/// makes that link, and makes it point to a file in the `bin` directory of
/// the bottle.
pub proof fn lemma_links_are_recorded_with_their_targets(
    path: Seq<u8>,
    name: Seq<char>,
    dirs: LinkDirs,
    opt_exists: bool,
    entries: Seq<BinEntry>,
)
    ensures
        records_come_with_links(
            opt_moves(dirs.opt_dir@, encode_utf8(name), path, opt_exists) + entries_moves(
                join_name(path, "bin".spec_bytes()),
                dirs.bin_dir@,
                dirs.bottles_dir@,
                entries,
                entries.len(),
            ) + hook_moves(name, path, dirs.etc_dir@),
            join_name(path, "bin".spec_bytes()),
        ),
{
    let bin = join_name(path, "bin".spec_bytes());
    let first = opt_moves(dirs.opt_dir@, encode_utf8(name), path, opt_exists);
    let second = entries_moves(bin, dirs.bin_dir@, dirs.bottles_dir@, entries, entries.len());
    let third = hook_moves(name, path, dirs.etc_dir@);
    lemma_entries_record_with_links(bin, dirs.bin_dir@, dirs.bottles_dir@, entries, entries.len());
    assert(records_come_with_links(first, bin));
    assert(records_come_with_links(third, bin));
    lemma_records_come_with_links_joined(first, second, bin);
    lemma_records_come_with_links_joined(first + second, third, bin);
}

/// The directories that links are made in and point into.
#[derive(Debug)]
pub struct LinkDirs {
    pub bin_dir: Vec<u8>,
    pub opt_dir: Vec<u8>,
    pub etc_dir: Vec<u8>,
    pub bottles_dir: Vec<u8>,
}

impl DownloadedBottle {
    /// The steps that link the bottle: it is linked under the `opt`
    /// directory, each file of its `bin` directory is published in the bin
    /// directory, and what the bottle asks for once it is linked is done.
    ///
    /// `opt_exists` says whether something stands where the bottle is to be
    /// linked under `opt`; it gives way. `entries` are the files of the
    /// bottle's `bin` directory, none if it has no such directory. A file
    /// is not published where anything but a link into the bottles
    /// directory stands in its way: a file, a directory, or a link to
    /// elsewhere, dangling or not, is left as it is, and nothing is
    /// recorded for it.
    pub fn link(&self, dirs: &LinkDirs, opt_exists: bool, entries: &[BinEntry]) -> (steps: Vec<
        Step,
    >)
        ensures
            moves(steps@) == opt_moves(
                dirs.opt_dir@,
                encode_utf8(self.spec_name()),
                encode_utf8(self.spec_path()),
                opt_exists,
            ) + entries_moves(
                join_name(encode_utf8(self.spec_path()), "bin".spec_bytes()),
                dirs.bin_dir@,
                dirs.bottles_dir@,
                entries@,
                entries@.len(),
            ) + hook_moves(self.spec_name(), encode_utf8(self.spec_path()), dirs.etc_dir@),
    {
        let path = self.path().as_bytes();
        let mut steps: Vec<Step> = Vec::new();
        let mut opt_link = dirs.opt_dir.clone();
        join(&mut opt_link, self.name().as_bytes());
        if opt_exists {
            steps.push(Step::RemoveFile(opt_link.clone()));
        }
        steps.push(Step::Symlink { target: vstd::slice::slice_to_vec(path), link: opt_link });
        let ghost first = moves(steps@);
        assert(first =~= opt_moves(
            dirs.opt_dir@,
            encode_utf8(self.spec_name()),
            encode_utf8(self.spec_path()),
            opt_exists,
        ));
        let mut bottle_bin = vstd::slice::slice_to_vec(path);
        join(&mut bottle_bin, "bin".as_bytes());
        let mut i: usize = 0;
        while i < entries.len()
            invariant
                i <= entries@.len(),
                bottle_bin@ == join_name(encode_utf8(self.spec_path()), "bin".spec_bytes()),
                moves(steps@) == first + entries_moves(
                    bottle_bin@,
                    dirs.bin_dir@,
                    dirs.bottles_dir@,
                    entries@,
                    i as nat,
                ),
            decreases entries@.len() - i,
        {
            let entry = &entries[i];
            let ghost before = moves(steps@);
            let decided = decide_link(&entry.destination, dirs.bottles_dir.as_slice());
            if decided != LinkDecision::Skip {
                let mut link = dirs.bin_dir.clone();
                join(&mut link, entry.file_name.as_slice());
                let mut target = bottle_bin.clone();
                join(&mut target, entry.file_name.as_slice());
                if decided == LinkDecision::Replace {
                    steps.push(Step::RemoveFile(link.clone()));
                }
                steps.push(Step::Record(link.clone()));
                steps.push(Step::Symlink { target, link });
            }
            proof {
                assert(moves(steps@) =~= before + entry_moves(
                    bottle_bin@,
                    dirs.bin_dir@,
                    dirs.bottles_dir@,
                    entries@[i as int],
                ));
            }
            i += 1;
        }
        let ghost before = moves(steps@);
        if same_str(self.name(), "ca-certificates") {
            let mut dir = dirs.etc_dir.clone();
            join(&mut dir, "ca-certificates".as_bytes());
            let mut from = vstd::slice::slice_to_vec(path);
            join(&mut from, "share/ca-certificates/cacert.pem".as_bytes());
            let mut to = dir.clone();
            join(&mut to, "cert.pem".as_bytes());
            steps.push(Step::CreateDirAll(dir));
            steps.push(Step::Copy { from, to });
        }
        proof {
            assert(moves(steps@) =~= before + hook_moves(
                self.spec_name(),
                encode_utf8(self.spec_path()),
                dirs.etc_dir@,
            ));
        }
        steps
    }

    /// The steps that unlink the bottle: its link under the `opt`
    /// directory is removed if it still points to the bottle, and each of
    /// its published links is removed if it still points into the bottle;
    /// the catalog's record of each link is dropped in any case.
    ///
    /// `opt_target` is where the link under `opt` points now.
    pub fn unlink(&self, opt_dir: &[u8], opt_target: &[u8], published: &[Published]) -> (steps:
        Vec<Step>)
        ensures
            moves(steps@) == opt_retract_moves(
                opt_dir@,
                encode_utf8(self.spec_name()),
                encode_utf8(self.spec_path()),
                opt_target@,
            ) + retraction_moves(encode_utf8(self.spec_path()), published@, published@.len()),
    {
        let path = self.path().as_bytes();
        let mut steps: Vec<Step> = Vec::new();
        if paths_equal(opt_target, path) {
            let mut opt_link = vstd::slice::slice_to_vec(opt_dir);
            join(&mut opt_link, self.name().as_bytes());
            steps.push(Step::RemoveFile(opt_link));
        }
        let ghost first = moves(steps@);
        assert(first =~= opt_retract_moves(
            opt_dir@,
            encode_utf8(self.spec_name()),
            encode_utf8(self.spec_path()),
            opt_target@,
        ));
        let mut i: usize = 0;
        while i < published.len()
            invariant
                i <= published@.len(),
                path@ == encode_utf8(self.spec_path()),
                moves(steps@) == first + retraction_moves(path@, published@, i as nat),
            decreases published@.len() - i,
        {
            let link = &published[i];
            let ghost before = moves(steps@);
            let points_in = match &link.link_target {
                Some(target) => starts_with_path(target.as_slice(), path),
                None => false,
            };
            if points_in {
                steps.push(Step::RemoveFile(link.path.clone()));
            }
            steps.push(Step::Forget(link.id));
            proof {
                assert(moves(steps@) =~= before + retract_moves(path@, published@[i as int]));
            }
            i += 1;
        }
        steps
    }

    /// The steps that remove the bottle: its directory goes, with the
    /// directory above it if that is left empty, and then the catalog's
    /// record of the bottle.
    pub fn remove(&self) -> (steps: Vec<Step>)
        ensures
            moves(steps@) == seq![
                Move::RemoveTree(encode_utf8(self.spec_path())),
                Move::DeleteBottle(self.spec_id()),
            ],
    {
        let mut steps: Vec<Step> = Vec::new();
        steps.push(Step::RemoveTree(self.path().as_bytes_vec()));
        steps.push(Step::DeleteBottle(self.id()));
        proof {
            assert(moves(steps@) =~= seq![
                Move::RemoveTree(encode_utf8(self.spec_path())),
                Move::DeleteBottle(self.spec_id()),
            ]);
        }
        steps
    }
}

} // verus!
