use chug::bottle_set::{compare_refs, BottleRef};
use chug::db::models::{Dependency, DownloadedBottle};
use chug::error::Error;
use chug::executor::{join, next, translate_edges, Command, InstallState, Phase, RemovalState, Report};
use chug::forest::Edge;
use chug::text::{compare_bytes, compare_str, same_bytes, same_str, starts_with, str_starts_with, Order};

fn bottle(name: &str, version: &str) -> BottleRef {
    BottleRef { name: name.to_string(), version: version.to_string() }
}

fn row(id: i32, name: &str, version: &str) -> DownloadedBottle {
    DownloadedBottle::new(id, name.to_string(), version.to_string(), String::new())
}

#[test]
fn phases_follow_each_other() {
    let mut phase = Phase::Ready;
    let mut commands = Vec::new();
    for _ in 0..6 {
        let (after, command) = next(phase, Report::Succeeded);
        phase = after;
        commands.push(command);
    }
    assert_eq!(
        commands,
        vec![
            Command::Download,
            Command::Link,
            Command::WriteEdges,
            Command::Remove,
            Command::Finish,
            Command::Finish,
        ]
    );
    assert_eq!(phase, Phase::Finished);
}

#[test]
fn a_failure_ends_everything() {
    for phase in [Phase::Ready, Phase::Downloading, Phase::Linking, Phase::WritingEdges, Phase::Removing, Phase::Failed] {
        assert_eq!(next(phase, Report::Failed), (Phase::Failed, Command::Abort));
    }
    assert_eq!(next(Phase::Failed, Report::Succeeded), (Phase::Failed, Command::Abort));
    assert_eq!(next(Phase::Finished, Report::Failed), (Phase::Finished, Command::Finish));
}

#[test]
fn nothing_is_linked_when_a_download_fails() {
    let (phase, command) = next(Phase::Ready, Report::Succeeded);
    assert_eq!((phase, command), (Phase::Downloading, Command::Download));
    assert_eq!(next(phase, Report::Failed), (Phase::Failed, Command::Abort));
}

#[test]
fn an_installation_goes_forward() {
    let mut state = InstallState::Planned;
    let mut seen = vec![state];
    for _ in 0..6 {
        state = state.advance();
        seen.push(state);
    }
    assert_eq!(
        seen,
        vec![
            InstallState::Planned,
            InstallState::Fetching,
            InstallState::Extracted,
            InstallState::Patched,
            InstallState::Recorded,
            InstallState::Linked,
            InstallState::Linked,
        ]
    );
}

#[test]
fn a_failure_before_the_record_cleans_up() {
    for state in [InstallState::Planned, InstallState::Fetching, InstallState::Extracted, InstallState::Patched] {
        assert!(state.cleans_up_on_failure());
        assert!(!state.is_recorded());
    }
    for state in [InstallState::Recorded, InstallState::Linked] {
        assert!(!state.cleans_up_on_failure());
        assert!(state.is_recorded());
    }
}

#[test]
fn a_removal_unlinks_first() {
    assert_eq!(RemovalState::Planned.advance(), RemovalState::Unlinked);
    assert_eq!(RemovalState::Unlinked.advance(), RemovalState::Removed);
    assert_eq!(RemovalState::Removed.advance(), RemovalState::Removed);
}

#[test]
fn edges_are_put_down_by_the_ids_of_their_rows() {
    let rows = vec![row(10, "python@3.12", "3.12.1"), row(11, "sqlite", "3.44.2"), row(12, "sqlite", "3.40.0")];
    let edges = vec![
        Edge { dependent: None, dependency: bottle("python@3.12", "3.12.1") },
        Edge { dependent: Some(bottle("python@3.12", "3.12.1")), dependency: bottle("sqlite", "3.40.0") },
    ];
    let translated = translate_edges(&edges, &rows).unwrap();
    let ids: Vec<(Option<i32>, i32)> =
        translated.iter().map(|d| (d.dependent_id(), d.dependency_id())).collect();
    assert_eq!(ids, vec![(None, 10), (Some(10), 12)]);
}

#[test]
fn edges_of_bottles_without_a_row_are_refused() {
    let rows = vec![row(10, "python@3.12", "3.12.1")];
    let missing_child = vec![Edge { dependent: None, dependency: bottle("sqlite", "3.44.2") }];
    assert_eq!(translate_edges(&missing_child, &rows).unwrap_err(), Error::CatalogFailure);
    let missing_parent =
        vec![Edge { dependent: Some(bottle("gh", "1")), dependency: bottle("python@3.12", "3.12.1") }];
    assert_eq!(translate_edges(&missing_parent, &rows).unwrap_err(), Error::CatalogFailure);
    assert!(translate_edges(&Vec::new(), &Vec::new()).unwrap().is_empty());
    let dependency = Dependency::new(Some(1), 2);
    assert_eq!((dependency.dependent_id(), dependency.dependency_id()), (Some(1), 2));
}

#[test]
fn bytes_compare_like_slices() {
    let samples: [&[u8]; 8] = [b"", b"a", b"ab", b"abc", b"b", b"B", b"a\x00", b"\xff"];
    for a in samples {
        for b in samples {
            let wanted = if a < b {
                Order::Less
            } else if a > b {
                Order::Greater
            } else {
                Order::Equal
            };
            assert_eq!(compare_bytes(a, b), wanted);
            assert_eq!(same_bytes(a, b), a == b);
            assert_eq!(starts_with(a, b), a.starts_with(b));
        }
    }
}

#[test]
fn texts_compare_like_strings() {
    let samples = ["", "gh", "gh@2", "git", "Git", "python@3.12", "python@3.9", "é", "z", "日本"];
    for a in samples {
        for b in samples {
            let wanted = if a < b {
                Order::Less
            } else if a > b {
                Order::Greater
            } else {
                Order::Equal
            };
            assert_eq!(compare_str(a, b), wanted);
            assert_eq!(same_str(a, b), a == b);
            assert_eq!(str_starts_with(a, b), a.starts_with(b));
        }
    }
}

#[test]
fn bottles_compare_by_name_then_version() {
    assert_eq!(compare_refs(&bottle("gh", "2.40.0"), &bottle("gh", "2.40.0")), Order::Equal);
    assert_eq!(compare_refs(&bottle("gh", "2.40.0"), &bottle("gh", "2.5.0")), Order::Less);
    assert_eq!(compare_refs(&bottle("gh", "9"), &bottle("git", "1")), Order::Less);
    assert_eq!(compare_refs(&bottle("sqlite", "1"), &bottle("gh", "9")), Order::Greater);
    assert!(bottle("gh", "2.40.0") < bottle("gh", "2.5.0"));
    assert_eq!(bottle("gh", "1").clone(), bottle("gh", "1"));
}

#[test]
fn join_fails_where_any_piece_failed() {
    assert_eq!(join(&[]), Report::Succeeded);
    assert_eq!(join(&[Report::Succeeded]), Report::Succeeded);
    assert_eq!(join(&[Report::Succeeded, Report::Succeeded, Report::Succeeded]), Report::Succeeded);
    assert_eq!(join(&[Report::Failed]), Report::Failed);
    assert_eq!(join(&[Report::Succeeded, Report::Failed, Report::Succeeded]), Report::Failed);
    assert_eq!(join(&[Report::Succeeded, Report::Succeeded, Report::Failed]), Report::Failed);
}

#[test]
fn one_failed_download_among_many_aborts_the_run() {
    let (phase, command) = next(Phase::Ready, Report::Succeeded);
    assert_eq!(command, Command::Download);
    let downloads = [Report::Succeeded, Report::Failed, Report::Succeeded, Report::Succeeded];
    let (mut phase, mut command) = next(phase, join(&downloads));
    assert_eq!((phase, command), (Phase::Failed, Command::Abort));
    for report in [Report::Succeeded, Report::Failed, Report::Succeeded] {
        (phase, command) = next(phase, report);
        assert_eq!((phase, command), (Phase::Failed, Command::Abort));
    }
}
