use dep_cycles::members::{distinct_cycles, is_reported};
use dep_cycles::model::{Cycle, Node, State};

fn member(name: &str) -> Node {
    Node { name: name.to_string(), dependencies: Vec::new(), state: State::Processed }
}

fn cycle(names: &[&str]) -> Cycle {
    Cycle(names.iter().map(|name| member(name)).collect())
}

fn members_of(cycle: &Cycle) -> Vec<String> {
    cycle.0.iter().map(|node| node.name.clone()).collect()
}

#[test]
fn a_rotation_is_the_same_cycle() {
    assert!(cycle(&["a", "b", "c"]) == cycle(&["b", "c", "a"]));
    assert!(cycle(&["a", "b", "c"]) == cycle(&["c", "a", "b"]));
}

#[test]
fn the_reverse_is_the_same_cycle() {
    assert!(cycle(&["a", "b", "c"]) == cycle(&["c", "b", "a"]));
    assert!(cycle(&["a", "b"]) == cycle(&["b", "a"]));
}

#[test]
fn a_cycle_equals_itself() {
    assert!(cycle(&["a", "b", "c"]) == cycle(&["a", "b", "c"]));
    assert!(cycle(&[]) == cycle(&[]));
}

#[test]
fn cycles_with_other_members_differ() {
    assert!(cycle(&["a", "b"]) != cycle(&["a", "c"]));
    assert!(cycle(&["a", "b"]) != cycle(&["a", "b", "c"]));
    assert!(cycle(&["a", "b", "c"]) != cycle(&["a", "b"]));
    assert!(cycle(&["a"]) != cycle(&[]));
    assert!(cycle(&[]) != cycle(&["a"]));
}

#[test]
fn members_count_as_often_as_they_occur() {
    assert!(cycle(&["a", "a", "b"]) != cycle(&["a", "b", "b"]));
    assert!(cycle(&["a"]) != cycle(&["a", "a"]));
    assert!(cycle(&["a", "b", "a"]) == cycle(&["a", "a", "b"]));
}

#[test]
fn the_state_and_dependencies_of_members_do_not_matter() {
    let mut left = cycle(&["a", "b"]);
    let right = cycle(&["b", "a"]);
    left.0[0].state = State::NotProcessed;
    assert!(left == right);
}

#[test]
fn occurrences_of_a_name_are_counted() {
    let walked = cycle(&["a", "b", "a", "c", "a"]);
    assert_eq!(walked.count(&"a".to_string()), 3);
    assert_eq!(walked.count(&"b".to_string()), 1);
    assert_eq!(walked.count(&"d".to_string()), 0);
    assert_eq!(cycle(&[]).count(&"a".to_string()), 0);
}

#[test]
fn the_first_of_the_same_cycles_is_kept() {
    let kept = distinct_cycles(vec![
        cycle(&["a", "b", "c"]),
        cycle(&["b", "c", "a"]),
        cycle(&["x", "y"]),
        cycle(&["c", "a", "b"]),
        cycle(&["y", "x"]),
        cycle(&["a", "b"]),
    ]);
    let names: Vec<Vec<String>> = kept.iter().map(members_of).collect();
    assert_eq!(
        names,
        vec![
            vec!["a".to_string(), "b".to_string(), "c".to_string()],
            vec!["x".to_string(), "y".to_string()],
            vec!["a".to_string(), "b".to_string()],
        ]
    );
}

#[test]
fn no_cycles_stay_no_cycles() {
    assert!(distinct_cycles(Vec::new()).is_empty());
}

#[test]
fn distinct_cycles_are_all_kept() {
    let kept = distinct_cycles(vec![cycle(&["a"]), cycle(&["b"]), cycle(&["a", "b"])]);
    assert_eq!(kept.len(), 3);
}

#[test]
fn a_cycle_is_found_among_cycles_by_its_members() {
    let found = vec![cycle(&["a", "b", "c"]), cycle(&["x", "y"])];
    assert!(is_reported(&found, &cycle(&["c", "b", "a"])));
    assert!(is_reported(&found, &cycle(&["y", "x"])));
    assert!(!is_reported(&found, &cycle(&["a", "b"])));
    assert!(!is_reported(&Vec::new(), &cycle(&["a", "b"])));
}
