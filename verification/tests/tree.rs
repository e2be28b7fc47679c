use chug::db::models::{Dependency, DownloadedBottle};
use chug::tree::{display_tree, list_bottles};
use ptree::item::StringItem;

fn row(id: i32, name: &str, version: &str) -> DownloadedBottle {
    DownloadedBottle::new(id, name.to_string(), version.to_string(), format!("/bottles/{name}/{version}"))
}

fn flatten(item: &StringItem, depth: usize, lines: &mut Vec<(usize, String)>) {
    lines.push((depth, item.text.clone()));
    for child in &item.children {
        flatten(child, depth + 1, lines);
    }
}

fn lines_of(bottles: &Vec<DownloadedBottle>, dependencies: &Vec<Dependency>) -> Vec<(usize, String)> {
    let mut lines = Vec::new();
    flatten(&display_tree(bottles, dependencies), 0, &mut lines);
    lines
}

fn line(depth: usize, text: &str) -> (usize, String) {
    (depth, text.to_string())
}

#[test]
fn list_bottles_lists_name_and_version() {
    let bottles = vec![row(1, "gh", "2.40.0"), row(2, "sqlite", "3.44.2")];
    assert_eq!(list_bottles(&bottles), vec!["gh 2.40.0".to_string(), "sqlite 3.44.2".to_string()]);
    assert!(list_bottles(&Vec::new()).is_empty());
}

#[test]
fn tree_of_nothing_is_the_heading() {
    assert_eq!(lines_of(&Vec::new(), &Vec::new()), vec![line(0, "Installed bottles:")]);
}

#[test]
fn tree_shows_the_roots_by_name() {
    let bottles = vec![row(1, "sqlite", "3.44.2"), row(2, "gh", "2.40.0")];
    let dependencies = vec![Dependency::new(None, 1), Dependency::new(None, 2)];
    assert_eq!(
        lines_of(&bottles, &dependencies),
        vec![line(0, "Installed bottles:"), line(1, "gh 2.40.0"), line(1, "sqlite 3.44.2")]
    );
}

#[test]
fn tree_shows_what_depends_on_what() {
    let bottles = vec![
        row(1, "python@3.12", "3.12.1"),
        row(2, "openssl@3", "3.2.0"),
        row(3, "sqlite", "3.44.2"),
        row(4, "ca-certificates", "2024-01-01"),
    ];
    let dependencies = vec![
        Dependency::new(None, 1),
        Dependency::new(Some(1), 3),
        Dependency::new(Some(1), 2),
        Dependency::new(Some(2), 4),
    ];
    assert_eq!(
        lines_of(&bottles, &dependencies),
        vec![
            line(0, "Installed bottles:"),
            line(1, "python@3.12 3.12.1"),
            line(2, "openssl@3 3.2.0"),
            line(3, "ca-certificates 2024-01-01"),
            line(2, "sqlite 3.44.2"),
        ]
    );
}

#[test]
fn tree_only_mentions_what_it_has_shown() {
    let bottles = vec![row(1, "a", "1"), row(2, "b", "1"), row(3, "c", "1")];
    let dependencies = vec![
        Dependency::new(None, 1),
        Dependency::new(None, 2),
        Dependency::new(Some(1), 3),
        Dependency::new(Some(2), 3),
        Dependency::new(None, 3),
    ];
    assert_eq!(
        lines_of(&bottles, &dependencies),
        vec![
            line(0, "Installed bottles:"),
            line(1, "a 1"),
            line(2, "c 1"),
            line(1, "b 1"),
            line(2, "c 1 (*)"),
            line(1, "c 1 (*)"),
        ]
    );
}

#[test]
fn tree_ends_on_a_cycle() {
    let bottles = vec![row(1, "a", "1"), row(2, "b", "1")];
    let dependencies =
        vec![Dependency::new(None, 1), Dependency::new(Some(1), 2), Dependency::new(Some(2), 1)];
    assert_eq!(
        lines_of(&bottles, &dependencies),
        vec![line(0, "Installed bottles:"), line(1, "a 1"), line(2, "b 1"), line(3, "a 1 (*)")]
    );
}

#[test]
fn tree_leaves_out_what_no_root_leads_to() {
    let bottles = vec![row(1, "a", "1"), row(2, "b", "1")];
    let dependencies = vec![Dependency::new(Some(1), 2)];
    assert_eq!(lines_of(&bottles, &dependencies), vec![line(0, "Installed bottles:")]);
}

#[test]
fn tree_keeps_rows_of_one_name_in_their_order() {
    let bottles = vec![row(1, "gh", "2.40.0"), row(2, "gh", "2.39.0"), row(3, "ab", "1")];
    let dependencies = vec![Dependency::new(None, 1), Dependency::new(None, 2), Dependency::new(None, 3)];
    assert_eq!(
        lines_of(&bottles, &dependencies),
        vec![line(0, "Installed bottles:"), line(1, "ab 1"), line(1, "gh 2.40.0"), line(1, "gh 2.39.0")]
    );
}
