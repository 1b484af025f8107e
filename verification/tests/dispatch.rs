use container_ci::circular::{check, CircularDependency};
use container_ci::config::Container;
use container_ci::dispatch::{is_ready, Dispatcher};
use container_ci::job::{ContainerSetupJob, SetupFile};

fn entry(name: &str, depends: Option<&[&str]>) -> (Container, ContainerSetupJob) {
    (
        Container {
            name: name.to_string(),
            enabled: None,
            env: None,
            async_execution: None,
            output: false,
            depends: depends.map(|names| names.iter().map(|name| name.to_string()).collect()),
        },
        ContainerSetupJob {
            name: name.to_string(),
            job_type: SetupFile::Shell,
            shell_hook: false,
            output: false,
        },
    )
}

fn names(list: &[&str]) -> Vec<String> {
    list.iter().map(|name| name.to_string()).collect()
}

#[test]
fn readiness() {
    assert!(is_ready(&None, &vec![]));
    assert!(is_ready(&Some(vec![]), &vec![]));
    assert!(!is_ready(&Some(names(&["a"])), &vec![]));
    assert!(!is_ready(&Some(names(&["a", "b"])), &names(&["b"])));
    assert!(is_ready(&Some(names(&["a", "b"])), &names(&["b", "c", "a"])));
    assert!(is_ready(&Some(names(&["a", "a"])), &names(&["a"])));
}

#[test]
fn jobs_wait_for_what_they_depend_on() {
    let queue = vec![
        entry("web", Some(&["api", "db"])),
        entry("db", None),
        entry("api", Some(&["db"])),
    ];
    let mut dispatcher = Dispatcher::new(&queue);
    assert!(!dispatcher.try_start(0));
    assert!(!dispatcher.try_start(2));
    assert!(dispatcher.try_start(1));
    assert!(!dispatcher.try_start(2));
    dispatcher.finish(1);
    assert!(!dispatcher.try_start(0));
    assert!(dispatcher.try_start(2));
    dispatcher.finish(2);
    assert!(dispatcher.try_start(0));
    dispatcher.finish(0);
}

#[test]
fn what_fails_is_never_finished() {
    let queue = vec![entry("db", None), entry("api", Some(&["db"]))];
    let mut dispatcher = Dispatcher::new(&queue);
    assert!(dispatcher.try_start(0));
    dispatcher.fail(0);
    assert!(!dispatcher.try_start(1));
}

#[test]
fn what_is_not_queued_is_waited_for() {
    let mut dispatcher = Dispatcher::new(&vec![entry("api", Some(&["db"]))]);
    assert!(!dispatcher.try_start(0));
    assert!(!dispatcher.try_start(0));
}

#[test]
fn a_circle_is_never_started() {
    let queue = vec![
        entry("a", Some(&["b"])),
        entry("b", Some(&["c"])),
        entry("c", Some(&["a"])),
        entry("d", None),
    ];
    let mut dispatcher = Dispatcher::new(&queue);
    assert!(dispatcher.try_start(3));
    dispatcher.finish(3);
    for i in 0..3 {
        assert!(!dispatcher.try_start(i));
    }
}

#[test]
fn what_can_be_ranked_comes_to_its_end() {
    let queue = vec![
        entry("e", Some(&["d", "b"])),
        entry("d", Some(&["c"])),
        entry("c", Some(&["a", "b"])),
        entry("b", Some(&["a"])),
        entry("a", None),
    ];
    let mut dispatcher = Dispatcher::new(&queue);
    let mut left: Vec<usize> = (0..queue.len()).collect();
    let mut order: Vec<String> = Vec::new();
    while !left.is_empty() {
        let ready = left.iter().position(|i| dispatcher.try_start(*i)).unwrap();
        let i = left.remove(ready);
        dispatcher.finish(i);
        order.push(queue[i].0.name.clone());
    }
    assert_eq!(order, vec!["a", "b", "c", "d", "e"]);
}

/// Starts and finishes jobs until none is ready, and says which were finished.
fn run_all(queue: &Vec<(Container, ContainerSetupJob)>) -> Vec<usize> {
    let mut dispatcher = Dispatcher::new(queue);
    let mut order = Vec::new();
    loop {
        let mut ready = None;
        for i in 0..queue.len() {
            if ready.is_none() && !order.contains(&i) && dispatcher.try_start(i) {
                ready = Some(i);
            }
        }
        match ready {
            Some(i) => {
                dispatcher.finish(i);
                order.push(i);
            }
            None => return order,
        }
    }
}

#[test]
fn checked_containers_are_all_finished() {
    let queue = vec![
        entry("web", Some(&["api", "log"])),
        entry("api", Some(&["db", "log"])),
        entry("log", Some(&[])),
        entry("db", Some(&["log"])),
    ];
    let containers: Vec<Container> = queue.iter().map(|(c, _)| c.clone()).collect();
    assert_eq!(check(&containers), Ok(()));
    assert_eq!(run_all(&queue), vec![2, 3, 1, 0]);
}

#[test]
fn reported_containers_are_never_started() {
    let queue = vec![
        entry("a", Some(&["b"])),
        entry("log", None),
        entry("b", Some(&["log", "c"])),
        entry("c", Some(&["a"])),
    ];
    let containers: Vec<Container> = queue.iter().map(|(c, _)| c.clone()).collect();
    assert_eq!(
        check(&containers),
        Err(CircularDependency::Around { path: names(&["a", "b", "c"]) })
    );
    assert_eq!(run_all(&queue), vec![1]);
}
