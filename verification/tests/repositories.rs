use container_ci::config::Repo;
use container_ci::repositories::{CloneAction, CloneEvent, Provision};

fn repositories() -> Vec<Repo> {
    ["web", "api"]
        .iter()
        .map(|name| Repo { name: name.to_string(), url: format!("git@host:{}", name) })
        .collect()
}

fn look(name: &str) -> CloneAction {
    CloneAction::Look { dir: format!("./data/{}", name) }
}

fn clone(name: &str) -> CloneAction {
    CloneAction::Clone { url: format!("git@host:{}", name), dir: format!("./data/{}", name) }
}

#[test]
fn no_repositories_are_there_at_once() {
    let none = vec![];
    let (_, action) = Provision::begin(&none);
    assert_eq!(action, CloneAction::Done);
}

#[test]
fn missing_repositories_are_cloned() {
    let all = repositories();
    let (mut provision, action) = Provision::begin(&all);
    assert_eq!(action, look("web"));
    assert_eq!(provision.step(CloneEvent::Missing), clone("web"));
    assert_eq!(provision.step(CloneEvent::Cloned), look("api"));
    assert_eq!(provision.step(CloneEvent::Missing), clone("api"));
    assert_eq!(provision.step(CloneEvent::Cloned), CloneAction::Done);
}

#[test]
fn repositories_that_exist_are_skipped() {
    let all = repositories();
    let (mut provision, _) = Provision::begin(&all);
    assert_eq!(provision.step(CloneEvent::Found), look("api"));
    assert_eq!(provision.step(CloneEvent::Found), CloneAction::Done);
}

#[test]
fn a_failed_clone_is_the_end() {
    let all = repositories();
    let (mut provision, _) = Provision::begin(&all);
    assert_eq!(provision.step(CloneEvent::Missing), clone("web"));
    assert_eq!(provision.step(CloneEvent::Failed), CloneAction::Fail);
}
