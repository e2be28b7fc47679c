use chug::bottles::{Bottle, Bottles};
use chug::error::Error;
use chug::extract::{extract, sanitise_path, Action, Entry, EntryKind, Extraction};
use chug::formulae::{Formula, Versions};
use chug::paths::{components, paths_equal, starts_with_path, Component};

fn gh() -> Formula {
    Formula {
        name: "gh".to_string(),
        aliases: Vec::new(),
        dependencies: Vec::new(),
        versions: Versions { stable: "2.40.0".to_string(), bottle: true },
        bottle: Bottles { stable: Bottle { files: Vec::new() } },
    }
}

fn file(path: &str, mode: u32) -> Entry {
    Entry { path: path.as_bytes().to_vec(), kind: EntryKind::Regular, mode, link_name: None }
}

fn dir(path: &str, mode: u32) -> Entry {
    Entry { path: path.as_bytes().to_vec(), kind: EntryKind::Directory, mode, link_name: None }
}

fn symlink(path: &str, target: &str) -> Entry {
    Entry {
        path: path.as_bytes().to_vec(),
        kind: EntryKind::Symlink,
        mode: 0o777,
        link_name: Some(target.as_bytes().to_vec()),
    }
}

fn normal(name: &str) -> Component {
    Component::Normal(name.as_bytes().to_vec())
}

fn write(path: &str, mode: u32) -> Action {
    Action::WriteFile { path: path.as_bytes().to_vec(), mode }
}

fn mkdir(path: &str, mode: u32) -> Action {
    Action::MakeDirectory { path: path.as_bytes().to_vec(), mode }
}

const BASE: &[u8] = b"/data/chug/bottles";

#[test]
fn components_of_a_plain_path() {
    assert_eq!(components(b"gh/2.40.0/bin/gh"), vec![normal("gh"), normal("2.40.0"), normal("bin"), normal("gh")]);
}

#[test]
fn components_skip_empty_names_and_inner_dots() {
    assert_eq!(components(b"a//b/./c/"), vec![normal("a"), normal("b"), normal("c")]);
    assert_eq!(components(b""), Vec::<Component>::new());
}

#[test]
fn components_keep_the_root_and_a_leading_dot() {
    assert_eq!(components(b"/a"), vec![Component::RootDir, normal("a")]);
    assert_eq!(components(b"///"), vec![Component::RootDir]);
    assert_eq!(components(b"./a/."), vec![Component::CurDir, normal("a")]);
    assert_eq!(components(b"."), vec![Component::CurDir]);
    assert_eq!(components(b"/./a"), vec![Component::RootDir, normal("a")]);
}

#[test]
fn components_tell_dots_from_names_with_dots() {
    assert_eq!(
        components(b"../a/..b/c../.../.d"),
        vec![Component::ParentDir, normal("a"), normal("..b"), normal("c.."), normal("..."), normal(".d")]
    );
}

#[test]
fn paths_compare_by_their_components() {
    assert!(starts_with_path(b"/data/chug/bottles/gh/2.40.0", b"/data/chug/bottles"));
    assert!(starts_with_path(b"/data/chug//bottles/", b"/data/chug/bottles"));
    assert!(!starts_with_path(b"/data/chug/bottles-old/gh", b"/data/chug/bottles"));
    assert!(!starts_with_path(b"/data/chug", b"/data/chug/bottles"));
    assert!(!starts_with_path(b"data/chug/bottles/gh", b"/data/chug/bottles"));
    assert!(starts_with_path(b"anything", b""));
    assert!(paths_equal(b"/a/b/", b"/a//b"));
    assert!(!paths_equal(b"/a/b", b"a/b"));
    assert!(!paths_equal(b"/a/b", b"/a/b/c"));
}

#[test]
fn sanitise_path_places_the_entry_under_the_base() {
    assert_eq!(
        sanitise_path(BASE, b"gh/2.40.0/bin/gh"),
        Some(b"/data/chug/bottles/gh/2.40.0/bin/gh".to_vec())
    );
    assert_eq!(sanitise_path(b"/base/", b"a"), Some(b"/base/a".to_vec()));
    assert_eq!(sanitise_path(b"", b"a/b"), Some(b"a/b".to_vec()));
}

#[test]
fn sanitise_path_drops_the_root_and_dots() {
    assert_eq!(sanitise_path(BASE, b"/etc/passwd"), Some(b"/data/chug/bottles/etc/passwd".to_vec()));
    assert_eq!(sanitise_path(BASE, b"./gh//./bin/"), Some(b"/data/chug/bottles/gh/bin".to_vec()));
}

#[test]
fn sanitise_path_refuses_to_climb() {
    assert_eq!(sanitise_path(BASE, b"gh/../../etc/passwd"), None);
    assert_eq!(sanitise_path(BASE, b".."), None);
    assert_eq!(sanitise_path(BASE, b"gh/2.40.0/.."), None);
}

#[test]
fn sanitise_path_refuses_what_names_nothing_below_the_base() {
    assert_eq!(sanitise_path(BASE, b""), None);
    assert_eq!(sanitise_path(BASE, b"/"), None);
    assert_eq!(sanitise_path(BASE, b"."), None);
    assert_eq!(sanitise_path(BASE, b"././/"), None);
}

#[test]
fn extraction_takes_a_bottle() {
    let entries = vec![
        dir("gh/2.40.0/", 0o755),
        dir("gh/2.40.0/bin/", 0o755),
        file("gh/2.40.0/bin/gh", 0o555),
        file("gh/2.40.0/README.md", 0o644),
        symlink("gh/2.40.0/bin/github", "gh"),
        dir("gh/2.40.0/share/", 0o700),
    ];
    let (actions, root) = extract(&entries, &gh(), BASE).unwrap();
    assert_eq!(root, b"/data/chug/bottles/gh/2.40.0".to_vec());
    assert_eq!(
        actions,
        vec![
            write("/data/chug/bottles/gh/2.40.0/bin/gh", 0o555),
            write("/data/chug/bottles/gh/2.40.0/README.md", 0o644),
            Action::MakeSymlink {
                path: b"/data/chug/bottles/gh/2.40.0/bin/github".to_vec(),
                target: b"gh".to_vec(),
            },
            mkdir("/data/chug/bottles/gh/2.40.0/share", 0o700),
            mkdir("/data/chug/bottles/gh/2.40.0/bin", 0o755),
            mkdir("/data/chug/bottles/gh/2.40.0", 0o755),
        ]
    );
}

#[test]
fn extraction_takes_a_revision_of_the_version() {
    let entries = vec![file("gh/2.40.0_1/bin/gh", 0o555)];
    let (actions, root) = extract(&entries, &gh(), BASE).unwrap();
    assert_eq!(root, b"/data/chug/bottles/gh/2.40.0_1".to_vec());
    assert_eq!(actions, vec![write("/data/chug/bottles/gh/2.40.0_1/bin/gh", 0o555)]);
}

#[test]
fn extraction_refuses_a_first_entry_of_another_formula() {
    assert_eq!(extract(&[file("hub/2.40.0/bin/hub", 0o555)], &gh(), BASE).unwrap_err(), Error::InvalidArchive);
}

#[test]
fn extraction_refuses_a_first_entry_of_another_version() {
    assert_eq!(extract(&[file("gh/2.39.0/bin/gh", 0o555)], &gh(), BASE).unwrap_err(), Error::InvalidArchive);
    assert_eq!(extract(&[file("gh/2.4", 0o555)], &gh(), BASE).unwrap_err(), Error::InvalidArchive);
}

#[test]
fn extraction_refuses_a_first_entry_that_is_too_short() {
    assert_eq!(extract(&[dir("gh/", 0o755)], &gh(), BASE).unwrap_err(), Error::InvalidArchive);
    assert_eq!(extract(&[file("./gh/2.40.0/x", 0o644)], &gh(), BASE).unwrap_err(), Error::InvalidArchive);
    assert_eq!(extract(&[file("/gh/2.40.0/x", 0o644)], &gh(), BASE).unwrap_err(), Error::InvalidArchive);
}

#[test]
fn extraction_refuses_a_later_entry_outside_the_bottle() {
    let entries = vec![file("gh/2.40.0_1/bin/gh", 0o555), file("gh/2.40.0/bin/gh", 0o555)];
    assert_eq!(extract(&entries, &gh(), BASE).unwrap_err(), Error::InvalidArchive);
    let entries = vec![file("gh/2.40.0/bin/gh", 0o555), file("etc/passwd", 0o644)];
    assert_eq!(extract(&entries, &gh(), BASE).unwrap_err(), Error::InvalidArchive);
}

#[test]
fn extraction_refuses_an_entry_that_climbs() {
    let entries = vec![file("gh/2.40.0/bin/gh", 0o555), file("gh/2.40.0/../../../etc/passwd", 0o644)];
    assert_eq!(extract(&entries, &gh(), BASE).unwrap_err(), Error::PathTraversal);
    assert_eq!(extract(&[dir("gh/2.40.0/..", 0o755)], &gh(), BASE).unwrap_err(), Error::PathTraversal);
}

#[test]
fn extraction_refuses_an_entry_of_an_unsupported_type() {
    let fifo = Entry { path: b"gh/2.40.0/pipe".to_vec(), kind: EntryKind::Other, mode: 0o644, link_name: None };
    assert_eq!(extract(&[fifo], &gh(), BASE).unwrap_err(), Error::UnsupportedEntryType);
}

#[test]
fn extraction_refuses_a_symlink_to_nowhere() {
    let link = Entry { path: b"gh/2.40.0/link".to_vec(), kind: EntryKind::Symlink, mode: 0o777, link_name: None };
    assert_eq!(extract(&[link], &gh(), BASE).unwrap_err(), Error::InvalidArchive);
}

#[test]
fn extraction_refuses_an_empty_archive() {
    assert_eq!(extract(&[], &gh(), BASE).unwrap_err(), Error::InvalidArchive);
}

#[test]
fn extraction_step_by_step() {
    let mut state = Extraction::new("gh", "2.40.0");
    assert_eq!(state.accept(BASE, &dir("gh/2.40.0/a/", 0o755)), Ok(None));
    assert_eq!(
        state.accept(BASE, &file("gh/2.40.0/a/x", 0o600)),
        Ok(Some(write("/data/chug/bottles/gh/2.40.0/a/x", 0o600)))
    );
    // A refused entry changes nothing.
    assert_eq!(state.accept(BASE, &file("other/1/x", 0o600)), Err(Error::InvalidArchive));
    assert_eq!(state.accept(BASE, &dir("gh/2.40.0/b/", 0o700)), Ok(None));
    assert_eq!(state.accept(BASE, &dir("gh/2.40.0/a/", 0o711)), Ok(None));
    let (directories, root) = state.finish(BASE).unwrap();
    assert_eq!(root, b"/data/chug/bottles/gh/2.40.0".to_vec());
    // Greater entry paths come first; equal ones stay in the order of arrival.
    assert_eq!(
        directories,
        vec![
            mkdir("/data/chug/bottles/gh/2.40.0/b", 0o700),
            mkdir("/data/chug/bottles/gh/2.40.0/a", 0o755),
            mkdir("/data/chug/bottles/gh/2.40.0/a", 0o711),
        ]
    );
}

#[test]
fn extraction_that_was_refused_from_the_start_stays_open() {
    let mut state = Extraction::new("gh", "2.40.0");
    assert_eq!(state.accept(BASE, &file("hub/1/x", 0o600)), Err(Error::InvalidArchive));
    assert_eq!(state.finish(BASE).unwrap_err(), Error::InvalidArchive);
}
