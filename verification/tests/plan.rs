use container_ci::circular::CircularDependency;
use container_ci::config::{Container, MainConfig};
use container_ci::plan::Plan;

fn container(name: &str, depends: Option<&str>) -> Container {
    Container {
        name: name.to_string(),
        enabled: None,
        env: None,
        async_execution: None,
        output: false,
        depends: depends.map(|name| vec![name.to_string()]),
    }
}

fn config(container_ordering: bool, containers: Vec<Container>) -> MainConfig {
    MainConfig {
        repositories: vec![],
        container_ordering,
        containers,
        dashboard_port: None,
        container_network: None,
        worker_containers: None,
    }
}

#[test]
fn a_fixed_order_is_kept() {
    let all = vec![container("b", Some("a")), container("a", None)];
    let plan = config(true, all.clone()).plan();
    assert_eq!(plan, Ok(Plan::OneByOne { containers: all }));
}

#[test]
fn a_fixed_order_may_be_circular() {
    let all = vec![container("a", Some("a"))];
    let plan = config(true, all.clone()).plan();
    assert_eq!(plan, Ok(Plan::OneByOne { containers: all }));
}

#[test]
fn otherwise_containers_are_scheduled() {
    let all = vec![container("a", None), container("b", Some("a")), container("c", None)];
    let expected = vec![container("c", None), container("a", None), container("b", Some("a"))];
    let plan = config(false, all).plan();
    assert_eq!(plan, Ok(Plan::Together { containers: expected }));
}

#[test]
fn circles_have_no_plan() {
    let all = vec![container("a", Some("b")), container("b", Some("a"))];
    assert_eq!(
        config(false, all).plan(),
        Err(CircularDependency::Through { name: "a".to_string(), other: "b".to_string() })
    );
}

#[test]
fn longer_circles_have_no_plan() {
    let all = vec![container("a", Some("b")), container("b", Some("c")), container("c", Some("a"))];
    assert_eq!(
        config(false, all.clone()).plan(),
        Err(CircularDependency::Around {
            path: vec!["a".to_string(), "b".to_string(), "c".to_string()]
        })
    );
    assert_eq!(config(true, all.clone()).plan(), Ok(Plan::OneByOne { containers: all }));
}

#[test]
fn a_plan_holds_what_is_listed() {
    let all = vec![container("a", Some("x")), container("b", None), container("b", Some("a"))];
    for ordered in [true, false] {
        let containers = match config(ordered, all.clone()).plan().unwrap() {
            Plan::OneByOne { containers } => containers,
            Plan::Together { containers } => containers,
        };
        assert_eq!(containers.len(), all.len());
        for container in &all {
            assert!(containers.contains(container));
        }
    }
}
