use depgraph::component::Component;
use depgraph::errors::CustomError;
use depgraph::toposort::{toposort, toposort_components};

fn comp(dir: &str, deps: &[&str]) -> Component {
    Component::new(
        String::from(dir),
        deps.iter().map(|d| String::from(*d)).collect(),
    )
}

fn dirs(v: &[Component]) -> Vec<String> {
    v.iter().map(|c| c.dir.clone()).collect()
}

#[test]
fn sorts_three_node_chain_dependency_first() {
    let inp = vec![comp("c", &["a", "b"]), comp("b", &["a"]), comp("a", &[])];
    let out = toposort(inp).unwrap();
    assert_eq!(dirs(&out), vec!["a", "b", "c"]);
}

#[test]
fn every_dependency_precedes_its_dependent() {
    let inp = vec![
        comp("svc", &["lib", "util"]),
        comp("util", &[]),
        comp("lib", &["util"]),
        comp("top", &["svc", "lib"]),
    ];
    let out = toposort(inp).unwrap();
    let names = dirs(&out);
    for (i, c) in out.iter().enumerate() {
        for d in c.dependencies.iter() {
            let pos = names.iter().position(|n| n == d).unwrap();
            assert!(pos < i, "dependency {} must precede {}", d, c.dir);
        }
    }
}

#[test]
fn mutual_dependency_reports_both_participants() {
    let inp = vec![comp("A", &["B"]), comp("B", &["A"])];
    match toposort(inp) {
        Err(CustomError::CycleError(rep)) => {
            assert_eq!(rep.len(), 2);
            let a = rep.iter().find(|u| u.dir == "A").unwrap();
            let b = rep.iter().find(|u| u.dir == "B").unwrap();
            assert_eq!(a.unsatisfied, vec![String::from("B")]);
            assert_eq!(b.unsatisfied, vec![String::from("A")]);
        }
        _ => panic!("expected a cycle error"),
    }
}

#[test]
fn unfound_dependency_is_reported_with_the_node() {
    let inp = vec![comp("a", &[]), comp("b", &["ghost"])];
    match toposort(inp) {
        Err(CustomError::CycleError(rep)) => {
            assert_eq!(rep.len(), 1);
            assert_eq!(rep[0].dir, "b");
            assert_eq!(rep[0].unsatisfied, vec![String::from("ghost")]);
        }
        _ => panic!("expected a cycle error"),
    }
}

#[test]
fn toposort_components_matches_toposort() {
    let inp = vec![comp("b", &["a"]), comp("a", &[])];
    let out = toposort_components(inp).unwrap();
    assert_eq!(dirs(&out), vec!["a", "b"]);
}

#[test]
fn empty_registry_sorts_to_empty() {
    let out = toposort(Vec::new()).unwrap();
    assert!(out.is_empty());
}
