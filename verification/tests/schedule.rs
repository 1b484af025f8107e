use container_ci::config::Container;
use container_ci::schedule::{find_all, schedule, slot_among};

fn container(name: &str, depends: Option<&[&str]>) -> Container {
    Container {
        name: name.to_string(),
        enabled: None,
        env: None,
        async_execution: None,
        output: false,
        depends: depends.map(|names| names.iter().map(|name| name.to_string()).collect()),
    }
}

fn order(containers: &Vec<Container>) -> Vec<String> {
    schedule(containers).iter().map(|c| c.name.clone()).collect()
}

/// The last position after sorting with the missing ones in front.
fn last_after_sorting(found: &[Option<usize>]) -> Option<usize> {
    let mut sorted = found.to_vec();
    sorted.sort();
    sorted.last().copied().flatten()
}

fn next_random(seed: &mut u64) -> usize {
    *seed = seed.wrapping_mul(6364136223846793005).wrapping_add(1442695040888963407);
    usize::try_from(*seed >> 40).unwrap()
}

#[test]
fn nothing_to_schedule() {
    assert_eq!(order(&vec![]), Vec::<String>::new());
}

#[test]
fn independent_containers_are_reversed() {
    let all = vec![container("a", None), container("b", None), container("c", None)];
    assert_eq!(order(&all), vec!["c", "b", "a"]);
}

#[test]
fn met_dependencies_put_a_container_at_the_back() {
    let all = vec![
        container("db", None),
        container("api", Some(&["db"])),
        container("cache", None),
        container("web", Some(&["api", "cache"])),
    ];
    assert_eq!(order(&all), vec!["cache", "db", "api", "web"]);
}

#[test]
fn an_empty_list_of_dependencies_is_met() {
    let all = vec![container("a", None), container("b", Some(&[])), container("c", None)];
    assert_eq!(order(&all), vec!["c", "a", "b"]);
}

#[test]
fn unmet_dependencies_put_a_container_at_the_back() {
    let all = vec![container("a", None), container("b", Some(&["x", "y"]))];
    assert_eq!(order(&all), vec!["a", "b"]);
}

#[test]
fn a_met_dependency_is_an_anchor() {
    let all = vec![container("b", None), container("a", None), container("c", Some(&["b", "x"]))];
    assert_eq!(order(&all), vec!["a", "c", "b"]);
}

#[test]
fn an_unmet_first_dependency_does_not_hide_the_anchor() {
    let all = vec![container("b", None), container("a", None), container("c", Some(&["x", "a"]))];
    assert_eq!(order(&all), vec!["c", "a", "b"]);
    let all = vec![container("b", None), container("a", None), container("c", Some(&["x", "b"]))];
    assert_eq!(order(&all), vec!["a", "c", "b"]);
}

#[test]
fn the_anchor_is_the_latest_met_dependency() {
    let all = vec![
        container("a", None),
        container("b", None),
        container("c", None),
        container("d", Some(&["c", "x", "b"])),
    ];
    assert_eq!(order(&all), vec!["c", "d", "b", "a"]);
}

#[test]
fn a_name_stands_for_its_first_container() {
    let all = vec![container("a", None), container("b", None), container("a", None)];
    let wanted = vec!["a".to_string(), "b".to_string(), "c".to_string()];
    assert_eq!(find_all(&all, &wanted), vec![Some(0), Some(1), None]);
}

#[test]
fn containers_are_kept_whole() {
    let mut first = container("a", None);
    first.enabled = Some(false);
    first.output = true;
    first.async_execution = Some(true);
    first.env = Some(vec![("K".to_string(), "v".to_string())]);
    let all = vec![first, container("b", Some(&["a"]))];
    assert_eq!(schedule(&all), all);
}

#[test]
fn slots_agree_with_sorting() {
    let end = 100;
    let mut seed = 7;
    for _ in 0..20000 {
        let length = next_random(&mut seed) % 21;
        let mut found: Vec<Option<usize>> = Vec::new();
        for _ in 0..length {
            let value = next_random(&mut seed);
            found.push(if value % 3 == 0 { None } else { Some(value % 11) });
        }
        let expected = if !found.contains(&None) {
            end
        } else {
            last_after_sorting(&found).unwrap_or(end)
        };
        assert_eq!(slot_among(&found, end), expected, "{:?}", found);
    }
}

#[test]
fn slots_of_short_lists_agree_with_sorting() {
    let choices = [None, Some(0), Some(1), Some(2), Some(3)];
    let end = 9;
    for a in choices {
        for b in choices {
            for c in choices {
                for d in choices {
                    for found in [vec![a], vec![a, b], vec![a, b, c], vec![a, b, c, d]] {
                        let expected = if !found.contains(&None) {
                            end
                        } else {
                            last_after_sorting(&found).unwrap_or(end)
                        };
                        assert_eq!(slot_among(&found, end), expected);
                    }
                }
            }
        }
    }
}

#[test]
fn a_schedule_holds_what_is_listed() {
    let all = vec![
        container("a", Some(&["b"])),
        container("b", Some(&["c", "a"])),
        container("c", None),
        container("a", Some(&["c", "z"])),
    ];
    let mut names = order(&all);
    names.sort();
    assert_eq!(names, vec!["a", "a", "b", "c"]);
}

#[test]
fn later_containers_keep_the_order() {
    let mut all = vec![
        container("db", None),
        container("api", Some(&["db"])),
        container("web", Some(&["api"])),
    ];
    let before = order(&all);
    all.push(container("cache", None));
    all.push(container("job", Some(&["api", "none"])));
    let after: Vec<String> = order(&all).into_iter().filter(|n| before.contains(n)).collect();
    assert_eq!(after, before);
}
