//! Carrying a plan out: in which order things are done, and what a failure
//! leaves behind.
//!
//! The work itself is done elsewhere. Here it is decided what comes next:
//! the bottles to add are downloaded, then linked; then the dependency
//! edges are written to the catalog, once; and only then are the bottles
//! to remove unlinked and removed.

use vstd::prelude::*;
use crate::action_builder::row_id;
use crate::bottle_set::{BottleId, BottleRef};
use crate::db::models::{Dependency, DownloadedBottle};
use crate::error::{Error, Failure};
use crate::forest::Edge;
use crate::text::same_str;

verus! {

/// How far the installation of a bottle has come.
#[derive(Clone, Copy, Debug, PartialEq, Eq, Structural)]
pub enum InstallState {
    Planned,
    Fetching,
    Extracted,
    Patched,
    Recorded,
    Linked,
}

/// How far the removal of a bottle has come.
#[derive(Clone, Copy, Debug, PartialEq, Eq, Structural)]
pub enum RemovalState {
    Planned,
    Unlinked,
    Removed,
}

/// How far along its way an installation is, counted in steps.
pub open spec fn install_rank(state: InstallState) -> int {
    match state {
        InstallState::Planned => 0,
        InstallState::Fetching => 1,
        InstallState::Extracted => 2,
        InstallState::Patched => 3,
        InstallState::Recorded => 4,
        InstallState::Linked => 5,
    }
}

impl InstallState {
    /// The state that follows, once the step that leads there has
    /// succeeded. A linked bottle stays linked.
    pub fn advance(self) -> (next: InstallState)
        ensures
            install_rank(next) == if self == InstallState::Linked {
                5
            } else {
                install_rank(self) + 1
            },
    {
        match self {
            InstallState::Planned => InstallState::Fetching,
            InstallState::Fetching => InstallState::Extracted,
            InstallState::Extracted => InstallState::Patched,
            InstallState::Patched => InstallState::Recorded,
            InstallState::Recorded => InstallState::Linked,
            InstallState::Linked => InstallState::Linked,
        }
    }

    /// Whether the catalog holds a row for the bottle in this state.
    pub fn is_recorded(self) -> (recorded: bool)
        ensures
            recorded == (install_rank(self) >= 4),
    {
        match self {
            InstallState::Recorded | InstallState::Linked => true,
            _ => false,
        }
    }

    /// Whether a failure of the step that was to lead on from this state
    /// has the directory of the bottle cleaned away: it has, as long as
    /// the catalog holds no row for the bottle.
    pub fn cleans_up_on_failure(self) -> (cleans: bool)
        ensures
            cleans == (install_rank(self) < 4),
    {
        !self.is_recorded()
    }
}

impl RemovalState {
    /// The state that follows, once the step that leads there has
    /// succeeded: links go before the bottle itself.
    pub fn advance(self) -> (next: RemovalState)
        ensures
            next == match self {
                RemovalState::Planned => RemovalState::Unlinked,
                _ => RemovalState::Removed,
            },
    {
        match self {
            RemovalState::Planned => RemovalState::Unlinked,
            _ => RemovalState::Removed,
        }
    }
}

/// What is being done, or how it ended.
#[derive(Clone, Copy, Debug, PartialEq, Eq, Structural)]
pub enum Phase {
    /// Nothing was done yet.
    Ready,
    /// The bottles to add are being downloaded and recorded.
    Downloading,
    /// The new bottles are being linked.
    Linking,
    /// The dependency edges are being written to the catalog.
    WritingEdges,
    /// The bottles to remove are being unlinked and removed.
    Removing,
    /// All was done.
    Finished,
    /// Something failed, and nothing more is done.
    Failed,
}

/// How the work of a phase went.
#[derive(Clone, Copy, Debug, PartialEq, Eq, Structural)]
pub enum Report {
    Succeeded,
    Failed,
}

/// What is to be done next.
#[derive(Clone, Copy, Debug, PartialEq, Eq, Structural)]
pub enum Command {
    /// Download, unpack and record each bottle to add.
    Download,
    /// Link each bottle that was downloaded.
    Link,
    /// Replace the dependency edges of the catalog by those of the plan.
    WriteEdges,
    /// Unlink and remove each bottle to remove.
    Remove,
    /// Stop: all is done.
    Finish,
    /// Stop: something failed.
    Abort,
}

/// The phase that follows `phase` when its work went as `report` says.
pub open spec fn following(phase: Phase, report: Report) -> Phase {
    if report == Report::Failed {
        match phase {
            Phase::Finished => Phase::Finished,
            _ => Phase::Failed,
        }
    } else {
        match phase {
            Phase::Ready => Phase::Downloading,
            Phase::Downloading => Phase::Linking,
            Phase::Linking => Phase::WritingEdges,
            Phase::WritingEdges => Phase::Removing,
            Phase::Removing => Phase::Finished,
            Phase::Finished => Phase::Finished,
            Phase::Failed => Phase::Failed,
        }
    }
}

/// What is to be done in a phase.
pub open spec fn command_of(phase: Phase) -> Command {
    match phase {
        Phase::Ready => Command::Download,
        Phase::Downloading => Command::Download,
        Phase::Linking => Command::Link,
        Phase::WritingEdges => Command::WriteEdges,
        Phase::Removing => Command::Remove,
        Phase::Finished => Command::Finish,
        Phase::Failed => Command::Abort,
    }
}

/// How far a phase is along the way, counted in steps.
pub open spec fn phase_rank(phase: Phase) -> int {
    match phase {
        Phase::Ready => 0,
        Phase::Downloading => 1,
        Phase::Linking => 2,
        Phase::WritingEdges => 3,
        Phase::Removing => 4,
        Phase::Finished => 5,
        Phase::Failed => 6,
    }
}

/// Decides what comes next: the phase that follows `phase` when its work
/// went as `report` says, and what is to be done in it.
///
/// To begin, report success of `Ready`. A failure ends everything: nothing
/// that was to follow is done.
pub fn next(phase: Phase, report: Report) -> (decided: (Phase, Command))
    ensures
        decided.0 == following(phase, report),
        decided.1 == command_of(following(phase, report)),
{
    let after = match report {
        Report::Failed => match phase {
            Phase::Finished => Phase::Finished,
            _ => Phase::Failed,
        },
        Report::Succeeded => match phase {
            Phase::Ready => Phase::Downloading,
            Phase::Downloading => Phase::Linking,
            Phase::Linking => Phase::WritingEdges,
            Phase::WritingEdges => Phase::Removing,
            Phase::Removing => Phase::Finished,
            Phase::Finished => Phase::Finished,
            Phase::Failed => Phase::Failed,
        },
    };
    let command = match after {
        Phase::Ready => Command::Download,
        Phase::Downloading => Command::Download,
        Phase::Linking => Command::Link,
        Phase::WritingEdges => Command::WriteEdges,
        Phase::Removing => Command::Remove,
        Phase::Finished => Command::Finish,
        Phase::Failed => Command::Abort,
    };
    (after, command)
}

/// The phase that is reached from `Ready` when the work went as the
/// leading `n` of `reports` say.
pub open spec fn reached(reports: Seq<Report>, n: nat) -> Phase
    decreases n,
{
    if n == 0 {
        Phase::Ready
    } else {
        following(reached(reports, (n - 1) as nat), reports[n - 1])
    }
}

/// Whatever is reported, the phases are gone through in their order, none
/// twice: a phase with work to do is reached by exactly as many reports as
/// it stands steps along the way, and all of them reports of success.
pub proof fn lemma_phases_in_order(reports: Seq<Report>, n: nat)
    requires
        n <= reports.len(),
    ensures
        1 <= phase_rank(reached(reports, n)) <= 4 ==> phase_rank(reached(reports, n)) == n
            && forall|k: int| 0 <= k < n ==> reports[k] == Report::Succeeded,
        n == 0 ==> reached(reports, n) == Phase::Ready,
        n > 0 ==> reached(reports, n) != Phase::Ready,
    decreases n,
{
    if n > 0 {
        lemma_phases_in_order(reports, (n - 1) as nat);
    }
}

/// The dependency edges are written only once all downloads and all links
/// have succeeded, and bottles are removed only once the edges are
/// written.
pub proof fn lemma_edges_between_downloads_and_removals(reports: Seq<Report>, n: nat)
    requires
        0 < n <= reports.len(),
    ensures
        command_of(reached(reports, n)) == Command::WriteEdges ==> n == 3 && reports[0]
            == Report::Succeeded && reports[1] == Report::Succeeded && reports[2]
            == Report::Succeeded,
        command_of(reached(reports, n)) == Command::Remove ==> n == 4 && command_of(
            reached(reports, 3),
        ) == Command::WriteEdges && reports[3] == Report::Succeeded,
        command_of(reached(reports, n)) == Command::Link ==> n == 2 && command_of(
            reached(reports, 1),
        ) == Command::Download && reports[1] == Report::Succeeded,
{
    lemma_phases_in_order(reports, n);
    lemma_phases_in_order(reports, (n - 1) as nat);
    if n >= 2 {
        lemma_phases_in_order(reports, (n - 2) as nat);
    }
    if n >= 3 {
        lemma_phases_in_order(reports, (n - 3) as nat);
    }
    if n >= 4 {
        lemma_phases_in_order(reports, (n - 4) as nat);
    }
    assert(reached(reports, n) == following(reached(reports, (n - 1) as nat), reports[n - 1]));
}

/// Once something has failed, nothing more is done: whatever is reported
/// afterwards, no download, no link, no writing of dependency edges and no
/// removal is asked for again. So where a download fails, be it of one
/// bottle among many, no bottle is linked, the dependency edges stay as
/// they were, and no bottle is unlinked or removed.
pub proof fn lemma_nothing_follows_a_failure(reports: Seq<Report>, failed: nat, n: nat)
    requires
        failed < n <= reports.len(),
        reports[failed as int] == Report::Failed,
    ensures
        reached(reports, n) == Phase::Failed || reached(reports, n) == Phase::Finished,
        command_of(reached(reports, n)) == Command::Abort || command_of(reached(reports, n))
            == Command::Finish,
        reached(reports, n) == Phase::Finished ==> reached(reports, failed) == Phase::Finished,
    decreases n,
{
    if n > failed + 1 {
        lemma_nothing_follows_a_failure(reports, failed, (n - 1) as nat);
    }
}

/// How a phase went whose work is made of pieces, one for each bottle: it
/// failed where any of its pieces failed.
pub open spec fn joined(pieces: Seq<Report>) -> Report {
    if exists|i: int| 0 <= i < pieces.len() && pieces[i] == Report::Failed {
        Report::Failed
    } else {
        Report::Succeeded
    }
}

/// Sums up how the pieces of a phase's work went: the phase failed where
/// any piece failed, whatever came of the others. A phase with no piece
/// succeeded.
pub fn join(pieces: &[Report]) -> (report: Report)
    ensures
        report == joined(pieces@),
{
    let mut i: usize = 0;
    while i < pieces.len()
        invariant
            i <= pieces@.len(),
            forall|j: int| 0 <= j < i ==> pieces@[j] != Report::Failed,
        decreases pieces@.len() - i,
    {
        if pieces[i] == Report::Failed {
            return Report::Failed;
        }
        i += 1;
    }
    Report::Succeeded
}

/// Where the download of one bottle fails, whatever comes of the others,
/// the run is aborted: it never finishes, no bottle is linked, not even one
/// whose download succeeded, the dependency edges are not written, and no
/// bottle is unlinked or removed.
///
/// `reports[0]` is the report that starts the run, `reports[1]` that of the
/// downloads, and whatever is reported afterwards changes nothing.
pub proof fn lemma_one_failed_download_aborts_the_run(
    downloads: Seq<Report>,
    failed: int,
    reports: Seq<Report>,
    n: nat,
)
    requires
        0 <= failed < downloads.len(),
        downloads[failed] == Report::Failed,
        2 <= reports.len(),
        reports[1] == joined(downloads),
        1 <= n <= reports.len(),
    ensures
        command_of(reached(reports, n)) == Command::Download || command_of(reached(reports, n))
            == Command::Abort,
        n >= 2 ==> reached(reports, n) == Phase::Failed,
{
    lemma_phases_in_order(reports, 1);
    assert(reached(reports, 1) == following(reached(reports, 0), reports[0]));
    if n >= 2 {
        lemma_nothing_follows_a_failure(reports, 1, n);
        lemma_failure_lasts(reports, 2, n);
    }
}

/// A run that has failed stays failed.
pub proof fn lemma_failure_lasts(reports: Seq<Report>, m: nat, n: nat)
    requires
        1 <= m <= n <= reports.len(),
        reports[m - 1] == Report::Failed,
        reached(reports, (m - 1) as nat) != Phase::Finished,
    ensures
        reached(reports, n) == Phase::Failed,
    decreases n,
{
    if n > m {
        lemma_failure_lasts(reports, m, (n - 1) as nat);
    }
}

/// The position of the first of the leading `n` rows that records the
/// bottle `id`.
pub open spec fn find_row_of(rows: Seq<DownloadedBottle>, id: BottleId, n: nat) -> Option<int>
    decreases n,
{
    if n == 0 {
        None
    } else {
        match find_row_of(rows, id, (n - 1) as nat) {
            Some(i) => Some(i),
            None => if row_id(rows[n - 1]) == id {
                Some(n - 1)
            } else {
                None
            },
        }
    }
}

/// The position of the row that records the bottle `id`.
pub open spec fn row_of(rows: Seq<DownloadedBottle>, id: BottleId) -> Option<int> {
    find_row_of(rows, id, rows.len())
}

/// What `find_row_of` finds is the first row of the bottle, and it finds
/// one if there is one.
pub proof fn lemma_find_row_of(rows: Seq<DownloadedBottle>, id: BottleId, n: nat)
    requires
        n <= rows.len(),
    ensures
        match find_row_of(rows, id, n) {
            Some(i) => 0 <= i < n && row_id(rows[i]) == id && forall|j: int|
                0 <= j < i ==> row_id(rows[j]) != id,
            None => forall|j: int| 0 <= j < n ==> row_id(rows[j]) != id,
        },
    decreases n,
{
    if n > 0 {
        lemma_find_row_of(rows, id, (n - 1) as nat);
    }
}

fn row_for(rows: &Vec<DownloadedBottle>, bottle: &BottleRef) -> (found: Option<usize>)
    ensures
        found matches Some(i) ==> i < rows@.len(),
        row_of(rows@, bottle@) == match found {
            Some(i) => Some(i as int),
            None => None,
        },
{
    let mut i: usize = 0;
    while i < rows.len()
        invariant
            i <= rows@.len(),
            forall|j: int| 0 <= j < i ==> row_id(rows@[j]) != bottle@,
        decreases rows@.len() - i,
    {
        if same_str(rows[i].name(), bottle.name.as_str()) && same_str(
            rows[i].version(),
            bottle.version.as_str(),
        ) {
            proof {
                lemma_find_row_of(rows@, bottle@, rows@.len());
            }
            return Some(i);
        }
        i += 1;
    }
    proof {
        lemma_find_row_of(rows@, bottle@, rows@.len());
    }
    None
}

/// Both ends of the edge have a row.
pub open spec fn has_rows(rows: Seq<DownloadedBottle>, edge: Edge) -> bool {
    &&& row_of(rows, edge@.dependency) is Some
    &&& edge@.dependent matches Some(parent) ==> row_of(rows, parent) is Some
}

/// What the catalog is to record for an edge: the ids of the rows of its
/// ends.
pub open spec fn dependency_for(rows: Seq<DownloadedBottle>, edge: Edge) -> (Option<i32>, i32) {
    (
        match edge@.dependent {
            Some(parent) => Some(rows[row_of(rows, parent).unwrap()].spec_id()),
            None => None,
        },
        rows[row_of(rows, edge@.dependency).unwrap()].spec_id(),
    )
}

/// Translates the edges of a plan into rows for the catalog: each bottle
/// is put down by the id of its row among `rows`, which are the rows that
/// the catalog held, and those of the bottles just downloaded.
///
/// Fails with `CatalogFailure` when a bottle of some edge has no row.
pub fn translate_edges(edges: &Vec<Edge>, rows: &Vec<DownloadedBottle>) -> (translated: Result<
    Vec<Dependency>,
    Error,
>)
    ensures
        match translated {
            Ok(dependencies) => {
                &&& dependencies@.len() == edges@.len()
                &&& forall|k: int|
                    0 <= k < edges@.len() ==> has_rows(rows@, #[trigger] edges@[k]) && (
                    dependencies@[k].spec_dependent_id(),
                    dependencies@[k].spec_dependency_id(),
                    ) == dependency_for(rows@, edges@[k])
            },
            Err(e) => e@ == Failure::CatalogFailure && exists|k: int|
                0 <= k < edges@.len() && !has_rows(rows@, #[trigger] edges@[k]),
        },
{
    let mut dependencies: Vec<Dependency> = Vec::new();
    let mut k: usize = 0;
    while k < edges.len()
        invariant
            k <= edges@.len(),
            dependencies@.len() == k,
            forall|j: int|
                0 <= j < k ==> has_rows(rows@, #[trigger] edges@[j]) && (
                dependencies@[j].spec_dependent_id(),
                dependencies@[j].spec_dependency_id(),
                ) == dependency_for(rows@, edges@[j]),
        decreases edges@.len() - k,
    {
        let edge = &edges[k];
        let child = match row_for(rows, &edge.dependency) {
            Some(at) => rows[at].id(),
            None => {
                assert(!has_rows(rows@, edges@[k as int]));
                return Err(Error::CatalogFailure);
            },
        };
        let parent = match &edge.dependent {
            Some(parent) => match row_for(rows, parent) {
                Some(at) => Some(rows[at].id()),
                None => {
                    assert(!has_rows(rows@, edges@[k as int]));
                    return Err(Error::CatalogFailure);
                },
            },
            None => None,
        };
        dependencies.push(Dependency::new(parent, child));
        k += 1;
    }
    Ok(dependencies)
}

} // verus!
