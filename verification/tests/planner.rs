use chug::action_builder::{diff_bottles, validate_additions, ActionBuilder, BottleForestSnapshot};
use chug::bottle_set::BottleRef;
use chug::bottles::{Bottle, Bottles};
use chug::db::models::{Dependency, DownloadedBottle};
use chug::error::Error;
use chug::forest::Edge;
use chug::formulae::{Formula, FormulaIndex, Versions};

fn formula(name: &str, version: &str, aliases: &[&str], dependencies: &[&str]) -> Formula {
    Formula {
        name: name.to_string(),
        aliases: aliases.iter().map(|a| a.to_string()).collect(),
        dependencies: dependencies.iter().map(|d| d.to_string()).collect(),
        versions: Versions { stable: version.to_string(), bottle: true },
        bottle: Bottles { stable: Bottle { files: Vec::new() } },
    }
}

fn sample_index() -> FormulaIndex {
    FormulaIndex::new(vec![
        formula("ca-certificates", "2024-01-01", &[], &[]),
        formula("gh", "2.40.0", &["github-cli"], &[]),
        formula("httpie", "3.2.2", &["http"], &["python@3.12"]),
        formula("openssl@3", "3.2.0", &["openssl"], &["ca-certificates"]),
        formula("python@3.12", "3.12.1", &["python3"], &["openssl@3", "sqlite"]),
        formula("sqlite", "3.44.2", &[], &[]),
    ])
    .unwrap()
}

fn bottle(name: &str, version: &str) -> BottleRef {
    BottleRef { name: name.to_string(), version: version.to_string() }
}

fn root(name: &str, version: &str) -> Edge {
    Edge { dependent: None, dependency: bottle(name, version) }
}

fn edge(parent: (&str, &str), child: (&str, &str)) -> Edge {
    Edge { dependent: Some(bottle(parent.0, parent.1)), dependency: bottle(child.0, child.1) }
}

fn row(id: i32, name: &str, version: &str) -> DownloadedBottle {
    DownloadedBottle::new(
        id,
        name.to_string(),
        version.to_string(),
        format!("/data/chug/bottles/{name}/{version}"),
    )
}

fn texts(list: &[&str]) -> Vec<String> {
    list.iter().map(|t| t.to_string()).collect()
}

fn empty_snapshot() -> BottleForestSnapshot {
    BottleForestSnapshot::new(Vec::new(), Vec::new()).unwrap()
}

fn python_snapshot() -> BottleForestSnapshot {
    BottleForestSnapshot::new(
        vec![
            row(1, "python@3.12", "3.12.1"),
            row(2, "openssl@3", "3.2.0"),
            row(3, "sqlite", "3.44.2"),
            row(4, "ca-certificates", "2024-01-01"),
        ],
        vec![
            Dependency::new(None, 1),
            Dependency::new(Some(1), 2),
            Dependency::new(Some(1), 3),
            Dependency::new(Some(2), 4),
        ],
    )
    .unwrap()
}

fn sorted_edges(edges: &[Edge]) -> Vec<(Option<(String, String)>, (String, String))> {
    let mut list: Vec<_> = edges
        .iter()
        .map(|e| {
            (
                e.dependent.as_ref().map(|p| (p.name.clone(), p.version.clone())),
                (e.dependency.name.clone(), e.dependency.version.clone()),
            )
        })
        .collect();
    list.sort();
    list
}

#[test]
fn snapshot_records_the_rows() {
    let snapshot = python_snapshot();
    assert_eq!(snapshot.bottles().len(), 4);
    assert_eq!(snapshot.dependencies().len(), 4);
    assert_eq!(
        snapshot.refs(),
        &vec![
            bottle("ca-certificates", "2024-01-01"),
            bottle("openssl@3", "3.2.0"),
            bottle("python@3.12", "3.12.1"),
            bottle("sqlite", "3.44.2"),
        ]
    );
}

#[test]
fn snapshot_refuses_a_bottle_that_is_recorded_twice() {
    let outcome = BottleForestSnapshot::new(vec![row(1, "gh", "2.40.0"), row(2, "gh", "2.40.0")], Vec::new());
    assert_eq!(outcome.unwrap_err(), Error::CatalogFailure);
}

#[test]
fn snapshot_takes_two_versions_of_a_bottle() {
    let outcome = BottleForestSnapshot::new(vec![row(1, "gh", "2.40.0"), row(2, "gh", "2.39.0")], Vec::new());
    assert_eq!(outcome.unwrap().refs(), &vec![bottle("gh", "2.39.0"), bottle("gh", "2.40.0")]);
}

#[test]
fn snapshot_refuses_an_edge_to_a_missing_row() {
    let dangling_child =
        BottleForestSnapshot::new(vec![row(1, "gh", "2.40.0")], vec![Dependency::new(None, 7)]);
    assert_eq!(dangling_child.unwrap_err(), Error::CatalogFailure);
    let dangling_parent =
        BottleForestSnapshot::new(vec![row(1, "gh", "2.40.0")], vec![Dependency::new(Some(7), 1)]);
    assert_eq!(dangling_parent.unwrap_err(), Error::CatalogFailure);
}

#[test]
fn builder_starts_from_the_snapshot() {
    let snapshot = python_snapshot();
    let builder = ActionBuilder::new(&snapshot);
    assert_eq!(builder.bottles(), snapshot.refs());
    assert_eq!(
        sorted_edges(builder.dependencies()),
        sorted_edges(&[
            root("python@3.12", "3.12.1"),
            edge(("python@3.12", "3.12.1"), ("openssl@3", "3.2.0")),
            edge(("python@3.12", "3.12.1"), ("sqlite", "3.44.2")),
            edge(("openssl@3", "3.2.0"), ("ca-certificates", "2024-01-01")),
        ])
    );
}

#[test]
fn add_bottles_adds_a_root() {
    let index = sample_index();
    let snapshot = empty_snapshot();
    let builder = ActionBuilder::new(&snapshot).add_bottles(&index, &texts(&["gh"])).unwrap();
    assert_eq!(builder.bottles(), &vec![bottle("gh", "2.40.0")]);
    assert_eq!(builder.dependencies(), &vec![root("gh", "2.40.0")]);
}

#[test]
fn add_bottles_resolves_an_alias() {
    let index = sample_index();
    let snapshot = empty_snapshot();
    let builder = ActionBuilder::new(&snapshot).add_bottles(&index, &texts(&["python3"])).unwrap();
    assert_eq!(builder.bottles(), &vec![bottle("python@3.12", "3.12.1")]);
    assert_eq!(builder.dependencies(), &vec![root("python@3.12", "3.12.1")]);
}

#[test]
fn add_bottles_twice_is_add_bottles_once() {
    let index = sample_index();
    let snapshot = empty_snapshot();
    let wanted = texts(&["gh", "python3", "gh"]);
    let once = ActionBuilder::new(&snapshot).add_bottles(&index, &wanted).unwrap();
    let bottles = once.bottles().clone();
    let edges = once.dependencies().clone();
    let twice = once.add_bottles(&index, &wanted).unwrap();
    assert_eq!(twice.bottles(), &bottles);
    assert_eq!(twice.dependencies(), &edges);
    assert_eq!(bottles, vec![bottle("gh", "2.40.0"), bottle("python@3.12", "3.12.1")]);
}

#[test]
fn add_bottles_leaves_an_installed_formula_alone() {
    let index = sample_index();
    let snapshot = BottleForestSnapshot::new(vec![row(1, "gh", "2.39.0")], vec![Dependency::new(None, 1)]).unwrap();
    let builder = ActionBuilder::new(&snapshot).add_bottles(&index, &texts(&["github-cli"])).unwrap();
    assert_eq!(builder.bottles(), &vec![bottle("gh", "2.39.0")]);
    assert_eq!(builder.dependencies(), &vec![root("gh", "2.39.0")]);
}

#[test]
fn add_bottles_fails_on_an_unknown_name() {
    let index = sample_index();
    let snapshot = empty_snapshot();
    let outcome = ActionBuilder::new(&snapshot).add_bottles(&index, &texts(&["gh", "nonesuch", "sqlite"]));
    assert_eq!(outcome.unwrap_err(), Error::UnknownFormula("nonesuch".to_string()));
}

#[test]
fn remove_bottles_removes_by_name_and_by_alias() {
    let index = sample_index();
    let snapshot = python_snapshot();
    let builder = ActionBuilder::new(&snapshot).remove_bottles(&index, &texts(&["python3"])).unwrap();
    assert_eq!(
        builder.bottles(),
        &vec![
            bottle("ca-certificates", "2024-01-01"),
            bottle("openssl@3", "3.2.0"),
            bottle("sqlite", "3.44.2"),
        ]
    );
    assert_eq!(builder.dependencies().len(), 4);
}

#[test]
fn remove_bottles_removes_every_version_of_the_name() {
    let index = sample_index();
    let snapshot = BottleForestSnapshot::new(
        vec![row(1, "gh", "2.39.0"), row(2, "gh", "2.40.0"), row(3, "sqlite", "3.44.2")],
        Vec::new(),
    )
    .unwrap();
    let builder = ActionBuilder::new(&snapshot).remove_bottles(&index, &texts(&["gh"])).unwrap();
    assert_eq!(builder.bottles(), &vec![bottle("sqlite", "3.44.2")]);
}

#[test]
fn remove_bottles_of_a_known_formula_that_is_not_installed() {
    let index = sample_index();
    let snapshot = python_snapshot();
    let outcome = ActionBuilder::new(&snapshot).remove_bottles(&index, &texts(&["github-cli"]));
    assert_eq!(outcome.unwrap_err(), Error::NotInstalled("gh".to_string()));
}

#[test]
fn remove_bottles_of_an_unknown_name() {
    let index = sample_index();
    let snapshot = python_snapshot();
    let outcome = ActionBuilder::new(&snapshot).remove_bottles(&index, &texts(&["nonesuch"]));
    assert_eq!(outcome.unwrap_err(), Error::UnknownFormula("nonesuch".to_string()));
}

#[test]
fn remove_bottles_takes_each_name_in_turn() {
    let index = sample_index();
    let snapshot = python_snapshot();
    let outcome = ActionBuilder::new(&snapshot).remove_bottles(&index, &texts(&["sqlite", "sqlite"]));
    assert_eq!(outcome.unwrap_err(), Error::NotInstalled("sqlite".to_string()));
}

#[test]
fn remove_bottles_of_what_the_index_has_dropped() {
    let index = sample_index();
    let snapshot = BottleForestSnapshot::new(vec![row(1, "legacy", "1.0")], vec![Dependency::new(None, 1)]).unwrap();
    let builder = ActionBuilder::new(&snapshot).remove_bottles(&index, &texts(&["legacy"])).unwrap();
    assert!(builder.bottles().is_empty());
}

#[test]
fn remove_all_clears_the_bottles() {
    let snapshot = python_snapshot();
    let builder = ActionBuilder::new(&snapshot).remove_all();
    assert!(builder.bottles().is_empty());
    assert_eq!(builder.dependencies().len(), 4);
}

#[test]
fn remove_all_then_run_removes_everything() {
    let index = sample_index();
    let snapshot = python_snapshot();
    let plan = ActionBuilder::new(&snapshot).remove_all().run(&index).unwrap();
    assert!(plan.to_add.is_empty());
    assert_eq!(&plan.to_remove, snapshot.refs());
    assert!(plan.bottles.is_empty());
    assert!(plan.dependencies.is_empty());
}

#[test]
fn update_starts_over_from_the_roots() {
    let index = sample_index();
    let snapshot = BottleForestSnapshot::new(
        vec![row(1, "python@3.12", "3.12.0"), row(2, "openssl@3", "3.1.0"), row(3, "gh", "2.40.0")],
        vec![Dependency::new(None, 1), Dependency::new(Some(1), 2), Dependency::new(None, 3)],
    )
    .unwrap();
    let builder = ActionBuilder::new(&snapshot).update(&index).unwrap();
    assert_eq!(builder.bottles(), &vec![bottle("gh", "2.40.0"), bottle("python@3.12", "3.12.1")]);
    assert_eq!(
        sorted_edges(builder.dependencies()),
        sorted_edges(&[root("gh", "2.40.0"), root("python@3.12", "3.12.1")])
    );
}

#[test]
fn update_fails_when_a_root_is_gone_from_the_index() {
    let index = sample_index();
    let snapshot = BottleForestSnapshot::new(vec![row(1, "legacy", "1.0")], vec![Dependency::new(None, 1)]).unwrap();
    let outcome = ActionBuilder::new(&snapshot).update(&index);
    assert_eq!(outcome.unwrap_err(), Error::UnknownFormula("legacy".to_string()));
}

#[test]
fn update_replaces_an_old_version() {
    let index = sample_index();
    let snapshot = BottleForestSnapshot::new(vec![row(1, "gh", "2.39.0")], vec![Dependency::new(None, 1)]).unwrap();
    let plan = ActionBuilder::new(&snapshot).update(&index).unwrap().run(&index).unwrap();
    assert_eq!(plan.to_add, vec![bottle("gh", "2.40.0")]);
    assert_eq!(plan.to_remove, vec![bottle("gh", "2.39.0")]);
    assert_eq!(plan.bottles, vec![bottle("gh", "2.40.0")]);
    assert_eq!(plan.dependencies, vec![root("gh", "2.40.0")]);
}

#[test]
fn update_without_news_finds_no_work() {
    let index = sample_index();
    let snapshot = python_snapshot();
    let outcome = ActionBuilder::new(&snapshot).update(&index).unwrap().run(&index);
    assert_eq!(outcome.unwrap_err(), Error::NoWorkToDo);
}

#[test]
fn fix_dependencies_draws_in_the_closure() {
    let index = sample_index();
    let snapshot = empty_snapshot();
    let builder = ActionBuilder::new(&snapshot)
        .add_bottles(&index, &texts(&["httpie"]))
        .unwrap()
        .fix_dependencies(&index)
        .unwrap();
    assert_eq!(
        builder.bottles(),
        &vec![
            bottle("ca-certificates", "2024-01-01"),
            bottle("httpie", "3.2.2"),
            bottle("openssl@3", "3.2.0"),
            bottle("python@3.12", "3.12.1"),
            bottle("sqlite", "3.44.2"),
        ]
    );
    assert_eq!(
        sorted_edges(builder.dependencies()),
        sorted_edges(&[
            root("httpie", "3.2.2"),
            edge(("httpie", "3.2.2"), ("python@3.12", "3.12.1")),
            edge(("python@3.12", "3.12.1"), ("openssl@3", "3.2.0")),
            edge(("python@3.12", "3.12.1"), ("sqlite", "3.44.2")),
            edge(("openssl@3", "3.2.0"), ("ca-certificates", "2024-01-01")),
        ])
    );
}

#[test]
fn fix_dependencies_settles_on_an_installed_older_dependency() {
    let index = sample_index();
    let snapshot = BottleForestSnapshot::new(
        vec![row(1, "openssl@3", "3.1.0"), row(2, "ca-certificates", "2023-01-01")],
        vec![Dependency::new(None, 1), Dependency::new(Some(1), 2)],
    )
    .unwrap();
    let builder = ActionBuilder::new(&snapshot)
        .add_bottles(&index, &texts(&["python@3.12"]))
        .unwrap()
        .fix_dependencies(&index)
        .unwrap();
    assert_eq!(
        builder.bottles(),
        &vec![
            bottle("ca-certificates", "2023-01-01"),
            bottle("openssl@3", "3.1.0"),
            bottle("python@3.12", "3.12.1"),
            bottle("sqlite", "3.44.2"),
        ]
    );
    assert!(builder
        .dependencies()
        .contains(&edge(("python@3.12", "3.12.1"), ("openssl@3", "3.1.0"))));
}

#[test]
fn fix_dependencies_takes_the_lowest_of_two_installed_versions() {
    let index = FormulaIndex::new(vec![formula("app", "1", &[], &["lib"]), formula("lib", "3", &[], &[])]).unwrap();
    let snapshot = BottleForestSnapshot::new(
        vec![row(1, "lib", "2"), row(2, "lib", "1")],
        vec![Dependency::new(None, 1), Dependency::new(None, 2)],
    )
    .unwrap();
    let builder = ActionBuilder::new(&snapshot)
        .add_bottles(&index, &texts(&["app"]))
        .unwrap()
        .fix_dependencies(&index)
        .unwrap();
    assert!(builder.dependencies().contains(&edge(("app", "1"), ("lib", "1"))));
    assert!(!builder.dependencies().contains(&edge(("app", "1"), ("lib", "2"))));
    assert_eq!(builder.bottles(), &vec![bottle("app", "1"), bottle("lib", "1"), bottle("lib", "2")]);
}

#[test]
fn fix_dependencies_fails_on_a_dependency_that_nothing_stands_for() {
    let index = FormulaIndex::new(vec![formula("app", "1", &[], &["lib"]), formula("lib", "1", &[], &["missing"])]).unwrap();
    let snapshot = empty_snapshot();
    let outcome = ActionBuilder::new(&snapshot)
        .add_bottles(&index, &texts(&["app"]))
        .unwrap()
        .fix_dependencies(&index);
    assert_eq!(outcome.unwrap_err(), Error::UnknownFormula("missing".to_string()));
}

#[test]
fn fix_dependencies_removes_what_nothing_holds() {
    let index = sample_index();
    let snapshot = python_snapshot();
    let builder = ActionBuilder::new(&snapshot)
        .remove_bottles(&index, &texts(&["python@3.12"]))
        .unwrap()
        .fix_dependencies(&index)
        .unwrap();
    assert!(builder.bottles().is_empty());
    assert!(builder.dependencies().is_empty());
}

#[test]
fn fix_dependencies_keeps_what_another_root_holds() {
    let index = sample_index();
    let snapshot = BottleForestSnapshot::new(
        vec![
            row(1, "python@3.12", "3.12.1"),
            row(2, "openssl@3", "3.2.0"),
            row(3, "sqlite", "3.44.2"),
            row(4, "ca-certificates", "2024-01-01"),
        ],
        vec![
            Dependency::new(None, 1),
            Dependency::new(Some(1), 2),
            Dependency::new(Some(1), 3),
            Dependency::new(Some(2), 4),
            Dependency::new(None, 2),
        ],
    )
    .unwrap();
    let plan = ActionBuilder::new(&snapshot)
        .remove_bottles(&index, &texts(&["python@3.12"]))
        .unwrap()
        .run(&index)
        .unwrap();
    assert!(plan.to_add.is_empty());
    assert_eq!(plan.to_remove, vec![bottle("python@3.12", "3.12.1"), bottle("sqlite", "3.44.2")]);
    assert_eq!(plan.bottles, vec![bottle("ca-certificates", "2024-01-01"), bottle("openssl@3", "3.2.0")]);
    assert_eq!(
        sorted_edges(&plan.dependencies),
        sorted_edges(&[
            root("openssl@3", "3.2.0"),
            edge(("openssl@3", "3.2.0"), ("ca-certificates", "2024-01-01")),
        ])
    );
}

#[test]
fn fix_dependencies_keeps_bottles_that_hold_each_other() {
    // Two bottles that depend on each other hold each other, root or not.
    let index = FormulaIndex::new(vec![formula("a", "1", &[], &["b"]), formula("b", "1", &[], &["a"])]).unwrap();
    let snapshot = BottleForestSnapshot::new(
        vec![row(1, "a", "1"), row(2, "b", "1")],
        vec![Dependency::new(Some(1), 2), Dependency::new(Some(2), 1)],
    )
    .unwrap();
    let builder = ActionBuilder::new(&snapshot).fix_dependencies(&index).unwrap();
    assert_eq!(builder.bottles(), &vec![bottle("a", "1"), bottle("b", "1")]);
}

#[test]
fn run_on_a_clean_system_adds_the_closure() {
    let index = sample_index();
    let snapshot = empty_snapshot();
    let plan = ActionBuilder::new(&snapshot).add_bottles(&index, &texts(&["python@3.12"])).unwrap().run(&index).unwrap();
    assert_eq!(
        plan.to_add,
        vec![
            bottle("ca-certificates", "2024-01-01"),
            bottle("openssl@3", "3.2.0"),
            bottle("python@3.12", "3.12.1"),
            bottle("sqlite", "3.44.2"),
        ]
    );
    assert!(plan.to_remove.is_empty());
    assert_eq!(plan.bottles, plan.to_add);
    assert_eq!(plan.dependencies.len(), 4);
}

#[test]
fn run_lists_the_edges_in_order() {
    let index = sample_index();
    let snapshot = empty_snapshot();
    let plan = ActionBuilder::new(&snapshot)
        .add_bottles(&index, &texts(&["python@3.12", "gh"]))
        .unwrap()
        .run(&index)
        .unwrap();
    assert_eq!(
        plan.dependencies,
        vec![
            root("gh", "2.40.0"),
            root("python@3.12", "3.12.1"),
            edge(("openssl@3", "3.2.0"), ("ca-certificates", "2024-01-01")),
            edge(("python@3.12", "3.12.1"), ("openssl@3", "3.2.0")),
            edge(("python@3.12", "3.12.1"), ("sqlite", "3.44.2")),
        ]
    );
}

#[test]
fn run_after_adding_what_is_installed_finds_no_work() {
    let index = sample_index();
    let snapshot = python_snapshot();
    let outcome = ActionBuilder::new(&snapshot).add_bottles(&index, &texts(&["python@3.12"])).unwrap().run(&index);
    assert_eq!(outcome.unwrap_err(), Error::NoWorkToDo);
}

#[test]
fn run_after_add_and_remove_is_back_where_it_started() {
    let index = sample_index();
    let snapshot = python_snapshot();
    let builder = ActionBuilder::new(&snapshot)
        .add_bottles(&index, &texts(&["gh"]))
        .unwrap()
        .fix_dependencies(&index)
        .unwrap()
        .remove_bottles(&index, &texts(&["gh"]))
        .unwrap()
        .fix_dependencies(&index)
        .unwrap();
    assert_eq!(builder.bottles(), snapshot.refs());
    let start = ActionBuilder::new(&snapshot);
    assert_eq!(sorted_edges(builder.dependencies()), sorted_edges(start.dependencies()));
}

#[test]
fn run_refuses_a_bottle_that_does_not_exist() {
    let mut unbottled = formula("src-only", "1.0", &[], &[]);
    unbottled.versions.bottle = false;
    let index = FormulaIndex::new(vec![formula("gh", "2.40.0", &[], &[]), unbottled]).unwrap();
    let snapshot = empty_snapshot();
    let outcome = ActionBuilder::new(&snapshot).add_bottles(&index, &texts(&["gh", "src-only"])).unwrap().run(&index);
    assert_eq!(outcome.unwrap_err(), Error::NoBottle("src-only".to_string()));
}

#[test]
fn validate_additions_reports_the_first_violation() {
    let mut unbottled = formula("src-only", "1.0", &[], &[]);
    unbottled.versions.bottle = false;
    let index = FormulaIndex::new(vec![formula("gh", "2.40.0", &[], &[]), unbottled]).unwrap();
    assert_eq!(validate_additions(&index, &vec![bottle("gh", "2.40.0")]), Ok(()));
    assert_eq!(validate_additions(&index, &Vec::new()), Ok(()));
    assert_eq!(
        validate_additions(&index, &vec![bottle("gh", "2.39.0"), bottle("src-only", "1.0")]),
        Err(Error::UnavailableVersion("gh".to_string()))
    );
    assert_eq!(
        validate_additions(&index, &vec![bottle("gh", "2.40.0"), bottle("src-only", "1.0")]),
        Err(Error::NoBottle("src-only".to_string()))
    );
    assert_eq!(
        validate_additions(&index, &vec![bottle("gone", "1"), bottle("src-only", "1.0")]),
        Err(Error::UnknownFormula("gone".to_string()))
    );
}

#[test]
fn diff_bottles_splits_what_is_new_from_what_is_gone() {
    let before = vec![bottle("a", "1"), bottle("b", "1"), bottle("c", "1")];
    let after = vec![bottle("b", "1"), bottle("c", "2"), bottle("d", "1")];
    let (added, removed) = diff_bottles(&before, &after);
    assert_eq!(added, vec![bottle("c", "2"), bottle("d", "1")]);
    assert_eq!(removed, vec![bottle("a", "1"), bottle("c", "1")]);
    let (none_added, none_removed) = diff_bottles(&before, &before);
    assert!(none_added.is_empty() && none_removed.is_empty());
}
