use chug::db::models::{DownloadedBottle, LinkedFile};
use chug::link::{decide_link, BinEntry, Found, LinkDecision, LinkDirs, Published, Step};

fn dirs() -> LinkDirs {
    LinkDirs {
        bin_dir: b"/home/me/.local/bin".to_vec(),
        opt_dir: b"/data/chug/opt".to_vec(),
        etc_dir: b"/data/chug/etc".to_vec(),
        bottles_dir: b"/data/chug/bottles".to_vec(),
    }
}

fn gh() -> DownloadedBottle {
    DownloadedBottle::new(7, "gh".to_string(), "2.40.0".to_string(), "/data/chug/bottles/gh/2.40.0".to_string())
}

fn absent() -> Found {
    Found { exists: false, link_target: None }
}

fn link_to(target: &str) -> Found {
    Found { exists: true, link_target: Some(target.as_bytes().to_vec()) }
}

fn entry(name: &str, destination: Found) -> BinEntry {
    BinEntry { file_name: name.as_bytes().to_vec(), destination }
}

fn remove(path: &str) -> Step {
    Step::RemoveFile(path.as_bytes().to_vec())
}

fn record(path: &str) -> Step {
    Step::Record(path.as_bytes().to_vec())
}

fn symlink(target: &str, link: &str) -> Step {
    Step::Symlink { target: target.as_bytes().to_vec(), link: link.as_bytes().to_vec() }
}

#[test]
fn decide_link_makes_a_link_where_nothing_is() {
    assert_eq!(decide_link(&absent(), b"/data/chug/bottles"), LinkDecision::Create);
}

#[test]
fn decide_link_leaves_a_dangling_link_to_elsewhere_alone() {
    let dangling = Found { exists: false, link_target: Some(b"/gone".to_vec()) };
    assert_eq!(decide_link(&dangling, b"/data/chug/bottles"), LinkDecision::Skip);
}

#[test]
fn decide_link_replaces_a_dangling_link_into_the_bottles() {
    let stale = Found { exists: false, link_target: Some(b"/data/chug/bottles/gh/2.39.0/bin/gh".to_vec()) };
    assert_eq!(decide_link(&stale, b"/data/chug/bottles"), LinkDecision::Replace);
}

#[test]
fn link_gives_no_step_for_a_dangling_link_to_elsewhere() {
    let dangling = Found { exists: false, link_target: Some(b"/home/me/gone".to_vec()) };
    let stale = Found { exists: false, link_target: Some(b"/data/chug/bottles/gh/2.39.0/bin/gh".to_vec()) };
    assert_eq!(
        gh().link(&dirs(), false, &[entry("mine", dangling), entry("gh", stale)]),
        vec![
            symlink("/data/chug/bottles/gh/2.40.0", "/data/chug/opt/gh"),
            remove("/home/me/.local/bin/gh"),
            record("/home/me/.local/bin/gh"),
            symlink("/data/chug/bottles/gh/2.40.0/bin/gh", "/home/me/.local/bin/gh"),
        ]
    );
}

#[test]
fn decide_link_replaces_a_link_into_the_bottles() {
    assert_eq!(
        decide_link(&link_to("/data/chug/bottles/gh/2.39.0/bin/gh"), b"/data/chug/bottles"),
        LinkDecision::Replace
    );
}

#[test]
fn decide_link_leaves_other_links_and_files_alone() {
    assert_eq!(decide_link(&link_to("/usr/bin/gh"), b"/data/chug/bottles"), LinkDecision::Skip);
    assert_eq!(decide_link(&link_to("/data/chug/bottles-old/gh"), b"/data/chug/bottles"), LinkDecision::Skip);
    let file = Found { exists: true, link_target: None };
    assert_eq!(decide_link(&file, b"/data/chug/bottles"), LinkDecision::Skip);
}

#[test]
fn link_publishes_the_files_of_the_bin_directory() {
    let entries = vec![
        entry("gh", absent()),
        entry("hub", link_to("/data/chug/bottles/hub/1.0/bin/hub")),
        entry("git", link_to("/usr/bin/git")),
    ];
    assert_eq!(
        gh().link(&dirs(), false, &entries),
        vec![
            symlink("/data/chug/bottles/gh/2.40.0", "/data/chug/opt/gh"),
            record("/home/me/.local/bin/gh"),
            symlink("/data/chug/bottles/gh/2.40.0/bin/gh", "/home/me/.local/bin/gh"),
            remove("/home/me/.local/bin/hub"),
            record("/home/me/.local/bin/hub"),
            symlink("/data/chug/bottles/gh/2.40.0/bin/hub", "/home/me/.local/bin/hub"),
        ]
    );
}

#[test]
fn link_replaces_the_link_under_opt() {
    assert_eq!(
        gh().link(&dirs(), true, &[]),
        vec![remove("/data/chug/opt/gh"), symlink("/data/chug/bottles/gh/2.40.0", "/data/chug/opt/gh")]
    );
}

#[test]
fn link_copies_the_certificates() {
    let certificates = DownloadedBottle::new(
        3,
        "ca-certificates".to_string(),
        "2024-01-01".to_string(),
        "/data/chug/bottles/ca-certificates/2024-01-01".to_string(),
    );
    assert_eq!(
        certificates.link(&dirs(), false, &[]),
        vec![
            symlink("/data/chug/bottles/ca-certificates/2024-01-01", "/data/chug/opt/ca-certificates"),
            Step::CreateDirAll(b"/data/chug/etc/ca-certificates".to_vec()),
            Step::Copy {
                from: b"/data/chug/bottles/ca-certificates/2024-01-01/share/ca-certificates/cacert.pem".to_vec(),
                to: b"/data/chug/etc/ca-certificates/cert.pem".to_vec(),
            },
        ]
    );
}

#[test]
fn unlink_removes_the_links_that_still_point_into_the_bottle() {
    let published = vec![
        Published {
            id: 1,
            path: b"/home/me/.local/bin/gh".to_vec(),
            link_target: Some(b"/data/chug/bottles/gh/2.40.0/bin/gh".to_vec()),
        },
        Published {
            id: 2,
            path: b"/home/me/.local/bin/hub".to_vec(),
            link_target: Some(b"/data/chug/bottles/gh/2.41.0/bin/hub".to_vec()),
        },
        Published { id: 3, path: b"/home/me/.local/bin/git".to_vec(), link_target: None },
    ];
    assert_eq!(
        gh().unlink(b"/data/chug/opt", b"/data/chug/bottles/gh/2.40.0/", &published),
        vec![
            remove("/data/chug/opt/gh"),
            remove("/home/me/.local/bin/gh"),
            Step::Forget(1),
            Step::Forget(2),
            Step::Forget(3),
        ]
    );
}

#[test]
fn unlink_leaves_a_link_under_opt_that_points_elsewhere() {
    assert_eq!(gh().unlink(b"/data/chug/opt", b"/data/chug/bottles/gh/2.41.0", &[]), Vec::<Step>::new());
}

#[test]
fn remove_takes_the_directory_and_then_the_row() {
    assert_eq!(
        gh().remove(),
        vec![Step::RemoveTree(b"/data/chug/bottles/gh/2.40.0".to_vec()), Step::DeleteBottle(7)]
    );
}

#[test]
fn rows_hand_out_what_they_hold() {
    let bottle = gh();
    assert_eq!(bottle.id(), 7);
    assert_eq!(bottle.name(), "gh");
    assert_eq!(bottle.version(), "2.40.0");
    assert_eq!(bottle.path(), "/data/chug/bottles/gh/2.40.0");
    let copy = bottle.clone();
    assert_eq!(copy.id(), 7);
    assert_eq!(copy.path(), bottle.path());
    let linked = LinkedFile::new(4, "/home/me/.local/bin/gh".to_string());
    assert_eq!(linked.id(), 4);
    assert_eq!(linked.path(), "/home/me/.local/bin/gh");
}
