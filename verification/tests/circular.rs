use container_ci::circular::{check, CircularDependency};
use container_ci::config::Container;

fn container(name: &str, depends: &[&str]) -> Container {
    Container {
        name: name.to_string(),
        enabled: None,
        env: None,
        async_execution: None,
        output: false,
        depends: if depends.is_empty() {
            None
        } else {
            Some(depends.iter().map(|name| name.to_string()).collect())
        },
    }
}

#[test]
fn no_containers_no_circle() {
    assert_eq!(check(&vec![]), Ok(()));
}

#[test]
fn a_chain_is_no_circle() {
    let all = vec![container("a", &["b"]), container("b", &["c"]), container("c", &[])];
    assert_eq!(check(&all), Ok(()));
}

#[test]
fn a_container_depends_on_itself() {
    let all = vec![container("b", &[]), container("a", &["b", "a"])];
    let circle = check(&all).unwrap_err();
    assert_eq!(circle, CircularDependency::OnItself { name: "a".to_string() });
    assert_eq!(circle.message(), "a depends on itself");
}

#[test]
fn two_containers_depend_on_each_other() {
    let all = vec![container("c", &[]), container("a", &["c", "b"]), container("b", &["a"])];
    let circle = check(&all).unwrap_err();
    assert_eq!(
        circle,
        CircularDependency::Through { name: "a".to_string(), other: "b".to_string() }
    );
    assert_eq!(
        circle.message(),
        "[CIRCULAR DEPENDANCY] a depends on b which depends on a"
    );
}

#[test]
fn naming_itself_is_reported_first() {
    let all = vec![container("a", &["b", "a"]), container("b", &["a"])];
    assert_eq!(
        check(&all),
        Err(CircularDependency::OnItself { name: "a".to_string() })
    );
}

fn around(path: &[&str]) -> Result<(), CircularDependency> {
    Err(CircularDependency::Around {
        path: path.iter().map(|name| name.to_string()).collect(),
    })
}

#[test]
fn longer_circles_are_reported() {
    let all = vec![container("a", &["b"]), container("b", &["c"]), container("c", &["a"])];
    assert_eq!(check(&all), around(&["a", "b", "c"]));
    assert_eq!(
        check(&all).unwrap_err().message(),
        "[CIRCULAR DEPENDANCY] a depends on b which depends on c which depends on a"
    );
    let all = vec![
        container("d", &["a"]),
        container("c", &["d"]),
        container("b", &["x", "c"]),
        container("a", &["e", "b"]),
        container("e", &[]),
    ];
    assert_eq!(check(&all), around(&["d", "a", "b", "c"]));
    assert_eq!(
        check(&all).unwrap_err().message(),
        "[CIRCULAR DEPENDANCY] d depends on a which depends on b which depends on c which \
         depends on d"
    );
}

#[test]
fn what_waits_for_a_circle_is_not_in_it() {
    let all = vec![
        container("web", &["log", "api"]),
        container("log", &[]),
        container("api", &["a"]),
        container("b", &["c"]),
        container("c", &["a"]),
        container("a", &["b"]),
    ];
    assert_eq!(check(&all), around(&["a", "b", "c"]));
}

#[test]
fn one_of_several_circles_is_reported() {
    let all = vec![
        container("x", &["y"]),
        container("y", &["z"]),
        container("z", &["x"]),
        container("a", &["b"]),
        container("b", &["c"]),
        container("c", &["a"]),
    ];
    assert_eq!(check(&all), around(&["x", "y", "z"]));
    let all = vec![
        container("a", &["b", "d"]),
        container("b", &["c"]),
        container("c", &["a"]),
        container("d", &["e"]),
        container("e", &["a"]),
    ];
    assert_eq!(check(&all), around(&["a", "b", "c"]));
}

#[test]
fn shorter_circles_are_reported_first() {
    let mut all = vec![
        container("a", &["b"]),
        container("b", &["c"]),
        container("c", &["a"]),
        container("d", &["e"]),
        container("e", &["d"]),
    ];
    assert_eq!(
        check(&all),
        Err(CircularDependency::Through { name: "d".to_string(), other: "e".to_string() })
    );
    all.insert(3, container("f", &["f"]));
    assert_eq!(check(&all), Err(CircularDependency::OnItself { name: "f".to_string() }));
}

#[test]
fn many_ways_are_no_circle() {
    let all = vec![
        container("a", &["b", "c", "d"]),
        container("b", &["c", "d"]),
        container("c", &["d"]),
        container("d", &[]),
        container("e", &["a", "d", "none"]),
    ];
    assert_eq!(check(&all), Ok(()));
}

#[test]
fn long_chains_and_circles() {
    let size = 60;
    let mut all: Vec<Container> = Vec::new();
    for i in 0..size {
        all.push(container(&format!("c{}", i), &[format!("c{}", i + 1).as_str()]));
    }
    assert_eq!(check(&all), Ok(()));
    all.push(container("c60", &["c20"]));
    match check(&all) {
        Err(CircularDependency::Around { path }) => {
            assert_eq!(path.len(), 41);
            assert_eq!(path[0], "c20");
            assert_eq!(path[40], "c60");
        }
        other => panic!("{:?}", other),
    }
}

#[test]
fn a_longer_circle_goes_by_the_last_container_of_a_name() {
    let mut all = vec![
        container("b", &[]),
        container("a", &["b"]),
        container("b", &["c"]),
        container("c", &["a"]),
    ];
    assert_eq!(check(&all), around(&["a", "b", "c"]));
    all.push(container("b", &[]));
    assert_eq!(check(&all), Ok(()));
}

#[test]
fn an_empty_path_has_no_names_to_report() {
    let nothing = CircularDependency::Around { path: vec![] };
    assert_eq!(nothing.message(), "[CIRCULAR DEPENDANCY] ");
}

#[test]
fn unknown_dependencies_pass() {
    assert_eq!(check(&vec![container("a", &["x"])]), Ok(()));
}

#[test]
fn a_shared_name_stands_for_the_last_container() {
    let clear = vec![container("a", &["b"]), container("b", &["a"]), container("b", &[])];
    assert_eq!(
        check(&clear),
        Err(CircularDependency::Through { name: "b".to_string(), other: "a".to_string() })
    );
    let hidden = vec![
        container("a", &["b"]),
        container("b", &["a"]),
        container("b", &[]),
        container("a", &[]),
    ];
    assert_eq!(check(&hidden), Ok(()));
}
