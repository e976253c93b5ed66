use depgraph::closure::{transitive_dependencies, transitive_dependents};
use depgraph::component::Component;
use depgraph::errors::CustomError;

fn comp(dir: &str, deps: &[&str]) -> Component {
    Component::new(
        String::from(dir),
        deps.iter().map(|d| String::from(*d)).collect(),
    )
}

fn dirs(v: &[Component]) -> Vec<String> {
    v.iter().map(|c| c.dir.clone()).collect()
}

fn roots(v: &[&str]) -> Vec<String> {
    v.iter().map(|d| String::from(*d)).collect()
}

fn abc_registry() -> Vec<Component> {
    vec![comp("a", &[]), comp("b", &["a"]), comp("c", &["a", "b"])]
}

#[test]
fn dependencies_of_c_without_roots_are_a_then_b() {
    let out = transitive_dependencies(abc_registry(), &roots(&["c"]), false, false).unwrap();
    assert_eq!(dirs(&out), vec!["a", "b"]);
}

#[test]
fn dependencies_of_c_with_roots_include_c_last() {
    let out = transitive_dependencies(abc_registry(), &roots(&["c"]), true, false).unwrap();
    assert_eq!(dirs(&out), vec!["a", "b", "c"]);
}

#[test]
fn dependencies_reversed_order_lists_consumers_first() {
    let out = transitive_dependencies(abc_registry(), &roots(&["c"]), true, true).unwrap();
    assert_eq!(dirs(&out), vec!["c", "b", "a"]);
}

#[test]
fn dependencies_ignore_unrelated_nodes() {
    let mut reg = abc_registry();
    reg.push(comp("z", &[]));
    let out = transitive_dependencies(reg, &roots(&["b"]), false, false).unwrap();
    assert_eq!(dirs(&out), vec!["a"]);
}

#[test]
fn absent_transitive_dependency_is_a_missing_dependency_error() {
    let reg = vec![comp("a", &[]), comp("b", &["z"]), comp("c", &["b"])];
    match transitive_dependencies(reg, &roots(&["c"]), true, false) {
        Err(CustomError::MissingDepError(v)) => {
            assert_eq!(v, vec![String::from("z")]);
        }
        _ => panic!("expected a missing-dependency error"),
    }
}

#[test]
fn absent_requested_root_is_a_missing_dependency_error() {
    let reg = vec![comp("a", &[]), comp("b", &["a"])];
    match transitive_dependencies(reg, &roots(&["b", "ghost"]), true, false) {
        Err(CustomError::MissingDepError(v)) => {
            assert_eq!(v, vec![String::from("ghost")]);
        }
        _ => panic!("expected a missing-dependency error"),
    }
}

#[test]
fn dependents_report_absent_declared_dependencies() {
    let reg = vec![comp("a", &[]), comp("b", &["z"])];
    match transitive_dependents(reg, &roots(&["a"]), true) {
        Err(CustomError::MissingDepError(v)) => {
            assert_eq!(v, vec![String::from("z")]);
        }
        _ => panic!("expected a missing-dependency error"),
    }
}

#[test]
fn dependents_of_lib_include_all_consumers_in_dependency_first_order() {
    let reg = vec![
        comp("lib", &[]),
        comp("svcA", &["lib"]),
        comp("svcB", &["lib"]),
        comp("svcC", &["svcA"]),
    ];
    let out = transitive_dependents(reg, &roots(&["lib"]), true).unwrap();
    assert_eq!(dirs(&out), vec!["lib", "svcA", "svcB", "svcC"]);
}

#[test]
fn dependents_without_roots_drop_the_root() {
    let reg = vec![
        comp("lib", &[]),
        comp("svcA", &["lib"]),
        comp("svcB", &["lib"]),
        comp("svcC", &["svcA"]),
    ];
    let out = transitive_dependents(reg, &roots(&["lib"]), false).unwrap();
    assert_eq!(dirs(&out), vec!["svcA", "svcB", "svcC"]);
}

#[test]
fn dependents_of_unknown_root_fail_with_missing_component() {
    let reg = vec![comp("a", &[]), comp("b", &["a"])];
    match transitive_dependents(reg, &roots(&["nope"]), true) {
        Err(CustomError::MissingComponentError(v)) => {
            assert_eq!(v, vec![String::from("nope")]);
        }
        _ => panic!("expected a missing-component error"),
    }
}

#[test]
fn every_requested_root_is_excluded_without_include_roots() {
    // a is both a requested root and a dependency of the other root c; it
    // is still an original root, so it is dropped from the result
    let out = transitive_dependencies(abc_registry(), &roots(&["a", "c"]), false, false).unwrap();
    assert_eq!(dirs(&out), vec!["b"]);
}
