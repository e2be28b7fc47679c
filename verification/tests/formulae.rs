use chug::bottles::{Bottle, Bottles, FileMetadata};
use chug::error::Error;
use chug::formulae::{Formula, FormulaIndex, Versions};

fn formula(name: &str, version: &str, aliases: &[&str], dependencies: &[&str]) -> Formula {
    Formula {
        name: name.to_string(),
        aliases: aliases.iter().map(|a| a.to_string()).collect(),
        dependencies: dependencies.iter().map(|d| d.to_string()).collect(),
        versions: Versions { stable: version.to_string(), bottle: true },
        bottle: Bottles {
            stable: Bottle {
                files: vec![(
                    "all".to_string(),
                    FileMetadata { url: format!("https://example.org/{name}"), sha256: String::new() },
                )],
            },
        },
    }
}

fn sample_index() -> FormulaIndex {
    FormulaIndex::new(vec![
        formula("ca-certificates", "2024-01-01", &[], &[]),
        formula("gh", "2.40.0", &["github-cli"], &[]),
        formula("httpie", "3.2.2", &["http", "https"], &["python@3.12"]),
        formula("openssl@3", "3.2.0", &["openssl"], &["ca-certificates"]),
        formula("python@3.12", "3.12.1", &["python", "python3"], &["openssl@3", "sqlite"]),
        formula("sqlite", "3.44.2", &["sqlite3"], &[]),
    ])
    .unwrap()
}

#[test]
fn index_takes_a_sorted_list() {
    let index = sample_index();
    assert_eq!(index.len(), 6);
    assert_eq!(index.all().len(), 6);
    assert_eq!(index.all()[1].name, "gh");
}

#[test]
fn index_takes_an_empty_list() {
    let index = FormulaIndex::new(Vec::new()).unwrap();
    assert_eq!(index.len(), 0);
    assert_eq!(
        Formula::get_exact(&index, "gh").unwrap_err(),
        Error::UnknownFormula("gh".to_string())
    );
}

#[test]
fn index_sorts_an_unsorted_list() {
    let unsorted = vec![
        formula("sqlite", "3", &["sqlite3"], &[]),
        formula("gh", "1", &["github-cli"], &[]),
        formula("zsh", "5", &[], &[]),
        formula("bat", "2", &[], &["gh"]),
    ];
    let index = FormulaIndex::new(unsorted).unwrap();
    let names: Vec<&str> = index.all().iter().map(|f| f.name.as_str()).collect();
    assert_eq!(names, vec!["bat", "gh", "sqlite", "zsh"]);
    assert_eq!(Formula::get_exact(&index, "sqlite").unwrap().versions.stable, "3");
    assert_eq!(Formula::get_exact(&index, "bat").unwrap().dependencies, vec!["gh".to_string()]);
    assert_eq!(Formula::get_by_alias(&index, "github-cli").unwrap().name, "gh");
    assert_eq!(Formula::get(&index, "sqlite3").unwrap().name, "sqlite");
}

#[test]
fn index_sorts_a_list_that_comes_backwards() {
    let backwards = vec![
        formula("e", "5", &[], &[]),
        formula("d", "4", &[], &[]),
        formula("c", "3", &[], &[]),
        formula("b", "2", &[], &[]),
        formula("a", "1", &[], &[]),
    ];
    let index = FormulaIndex::new(backwards).unwrap();
    let seen: Vec<(&str, &str)> =
        index.all().iter().map(|f| (f.name.as_str(), f.versions.stable.as_str())).collect();
    assert_eq!(seen, vec![("a", "1"), ("b", "2"), ("c", "3"), ("d", "4"), ("e", "5")]);
}

#[test]
fn index_refuses_a_name_twice_in_an_unsorted_list() {
    let twice = vec![
        formula("sqlite", "1", &[], &[]),
        formula("gh", "1", &[], &[]),
        formula("sqlite", "2", &[], &[]),
    ];
    assert!(FormulaIndex::new(twice).is_none());
}

#[test]
fn index_refuses_a_name_that_stands_twice() {
    let twice = vec![formula("gh", "1", &[], &[]), formula("gh", "2", &[], &[])];
    assert!(FormulaIndex::new(twice).is_none());
}

#[test]
fn index_orders_names_by_their_bytes() {
    // `@` sorts after `-` and before letters; upper case before lower case.
    let sorted = vec![
        formula("Zsh", "1", &[], &[]),
        formula("a-b", "1", &[], &[]),
        formula("a@1", "1", &[], &[]),
        formula("ab", "1", &[], &[]),
        formula("abc", "1", &[], &[]),
    ];
    assert!(FormulaIndex::new(sorted).is_some());
    let mixed = vec![
        formula("abc", "1", &[], &[]),
        formula("ab", "1", &[], &[]),
        formula("a@1", "1", &[], &[]),
        formula("Zsh", "1", &[], &[]),
        formula("a-b", "1", &[], &[]),
    ];
    let index = FormulaIndex::new(mixed).unwrap();
    let names: Vec<&str> = index.all().iter().map(|f| f.name.as_str()).collect();
    assert_eq!(names, vec!["Zsh", "a-b", "a@1", "ab", "abc"]);
}

#[test]
fn get_exact_finds_each_formula_by_name() {
    let index = sample_index();
    for name in ["ca-certificates", "gh", "httpie", "openssl@3", "python@3.12", "sqlite"] {
        assert_eq!(Formula::get_exact(&index, name).unwrap().name, name);
    }
}

#[test]
fn get_exact_does_not_look_at_aliases() {
    let index = sample_index();
    assert_eq!(
        Formula::get_exact(&index, "python").unwrap_err(),
        Error::UnknownFormula("python".to_string())
    );
    assert_eq!(
        Formula::get_exact(&index, "").unwrap_err(),
        Error::UnknownFormula(String::new())
    );
}

#[test]
fn get_by_alias_finds_the_formula_of_an_alias() {
    let index = sample_index();
    assert_eq!(Formula::get_by_alias(&index, "python3").unwrap().name, "python@3.12");
    assert_eq!(Formula::get_by_alias(&index, "https").unwrap().name, "httpie");
    assert_eq!(
        Formula::get_by_alias(&index, "gh").unwrap_err(),
        Error::UnknownFormula("gh".to_string())
    );
}

#[test]
fn get_prefers_the_exact_name_to_an_alias() {
    let index = FormulaIndex::new(vec![
        formula("alpha", "1", &["beta"], &[]),
        formula("beta", "2", &[], &[]),
    ])
    .unwrap();
    assert_eq!(Formula::get(&index, "beta").unwrap().versions.stable, "2");
    assert_eq!(Formula::get_by_alias(&index, "beta").unwrap().name, "alpha");
}

#[test]
fn get_takes_the_first_formula_of_a_shared_alias() {
    let index = FormulaIndex::new(vec![
        formula("alpha", "1", &[], &[]),
        formula("beta", "2", &["tool"], &[]),
        formula("gamma", "3", &["other", "tool"], &[]),
    ])
    .unwrap();
    assert_eq!(Formula::get(&index, "tool").unwrap().name, "beta");
    assert_eq!(Formula::get(&index, "other").unwrap().name, "gamma");
}

#[test]
fn get_fails_on_what_is_neither_name_nor_alias() {
    let index = sample_index();
    assert_eq!(
        Formula::get(&index, "nonesuch").unwrap_err(),
        Error::UnknownFormula("nonesuch".to_string())
    );
}

#[test]
fn positions_agree_with_lookups() {
    let index = sample_index();
    assert_eq!(index.position_exact("gh"), Some(1));
    assert_eq!(index.position_exact("github-cli"), None);
    assert_eq!(index.position_by_alias("github-cli"), Some(1));
    assert_eq!(index.position("github-cli"), Some(1));
    assert_eq!(index.position("sqlite"), Some(5));
    assert_eq!(index.position("zzz"), None);
    assert_eq!(index.at(5).name, "sqlite");
}

#[test]
fn resolve_dependencies_collects_what_the_roots_need() {
    let index = sample_index();
    let found = Formula::resolve_dependencies(&index, vec!["httpie"]).unwrap();
    let names: Vec<&str> = found.iter().map(|f| f.name.as_str()).collect();
    assert_eq!(names, vec!["ca-certificates", "httpie", "openssl@3", "python@3.12", "sqlite"]);
}

#[test]
fn resolve_dependencies_takes_aliases_and_lists_each_formula_once() {
    let index = sample_index();
    let found =
        Formula::resolve_dependencies(&index, vec!["openssl", "python3", "openssl@3", "gh"]).unwrap();
    let names: Vec<&str> = found.iter().map(|f| f.name.as_str()).collect();
    assert_eq!(names, vec!["ca-certificates", "gh", "openssl@3", "python@3.12", "sqlite"]);
}

#[test]
fn resolve_dependencies_of_nothing_is_nothing() {
    let index = sample_index();
    assert!(Formula::resolve_dependencies(&index, Vec::new()).unwrap().is_empty());
}

#[test]
fn resolve_dependencies_fails_on_an_unknown_root() {
    let index = sample_index();
    assert_eq!(
        Formula::resolve_dependencies(&index, vec!["gh", "nonesuch"]).unwrap_err(),
        Error::UnknownFormula("nonesuch".to_string())
    );
}

#[test]
fn resolve_dependencies_fails_on_an_unknown_dependency() {
    let index = FormulaIndex::new(vec![
        formula("app", "1", &[], &["lib"]),
        formula("lib", "1", &[], &["missing"]),
    ])
    .unwrap();
    assert_eq!(
        Formula::resolve_dependencies(&index, vec!["app"]).unwrap_err(),
        Error::UnknownFormula("missing".to_string())
    );
}

#[test]
fn resolve_dependencies_ends_on_a_cycle() {
    let index = FormulaIndex::new(vec![
        formula("a", "1", &[], &["b"]),
        formula("b", "1", &[], &["c"]),
        formula("c", "1", &[], &["a"]),
        formula("d", "1", &[], &[]),
    ])
    .unwrap();
    let found = Formula::resolve_dependencies(&index, vec!["b"]).unwrap();
    let names: Vec<&str> = found.iter().map(|f| f.name.as_str()).collect();
    assert_eq!(names, vec!["a", "b", "c"]);
}
