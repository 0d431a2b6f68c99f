use dep_cycles::detect::{detect_cycle, detect_cycles_all, fresh_copy, workspace_cycles};
use dep_cycles::graph::build_nodes;
use dep_cycles::model::{CrateMetadata, Cycle, Dependency, DependencyType, Node, State};

fn package(name: &str, dependencies: &[&str], dev_dependencies: &[&str]) -> CrateMetadata {
    CrateMetadata {
        name: name.to_string(),
        dependencies: dependencies.iter().map(|d| d.to_string()).collect(),
        dev_dependencies: dev_dependencies.iter().map(|d| d.to_string()).collect(),
    }
}

fn node(name: &str, dependencies: &[(&str, DependencyType)]) -> Node {
    Node {
        name: name.to_string(),
        dependencies: dependencies
            .iter()
            .map(|(target, dep_type)| Dependency { name: target.to_string(), dep_type: *dep_type })
            .collect(),
        state: State::NotProcessed,
    }
}

fn names(cycle: &Cycle) -> Vec<String> {
    cycle.0.iter().map(|node| node.name.clone()).collect()
}

fn all_names(cycles: &[Cycle]) -> Vec<Vec<String>> {
    cycles.iter().map(names).collect()
}

fn list(names: &[&str]) -> Vec<String> {
    names.iter().map(|name| name.to_string()).collect()
}

fn walk_from(nodes: &Vec<Node>, root: usize) -> Vec<Vec<String>> {
    let mut copy = fresh_copy(nodes);
    let mut path = Vec::new();
    let cycles = detect_cycle(&mut copy, &mut path, root);
    assert!(path.is_empty());
    all_names(&cycles)
}

#[test]
fn a_workspace_without_dependencies_has_no_cycle() {
    let nodes = build_nodes(vec![
        package("a", &[], &[]),
        package("b", &[], &[]),
        package("c", &[], &[]),
    ]);
    assert!(detect_cycles_all(&nodes).is_empty());
}

#[test]
fn dependencies_on_outside_packages_make_no_cycle() {
    let cycles = workspace_cycles(vec![
        package("a", &["serde", "toml"], &["proptest"]),
        package("b", &["serde"], &["a_helper"]),
    ]);
    assert!(cycles.is_empty());
}

#[test]
fn an_empty_workspace_has_no_cycle() {
    assert!(workspace_cycles(Vec::new()).is_empty());
    assert!(detect_cycles_all(&Vec::new()).is_empty());
}

#[test]
fn a_chain_without_a_way_back_has_no_cycle() {
    let cycles = workspace_cycles(vec![
        package("a", &["b"], &[]),
        package("b", &["c"], &[]),
        package("c", &[], &[]),
    ]);
    assert!(cycles.is_empty());
}

#[test]
fn a_package_without_dependencies_starts_no_cycle() {
    let nodes = build_nodes(vec![
        package("leaf", &[], &[]),
        package("a", &["leaf", "b"], &[]),
        package("b", &["leaf", "a"], &[]),
    ]);
    assert!(walk_from(&nodes, 0).is_empty());
    assert_eq!(walk_from(&nodes, 1), vec![list(&["a", "b"])]);
    let cycles = detect_cycles_all(&nodes);
    assert_eq!(all_names(&cycles), vec![list(&["a", "b"])]);
}

#[test]
fn mutual_dependency_is_one_cycle_of_two() {
    let nodes = build_nodes(vec![package("a", &["b"], &[]), package("b", &["a"], &[])]);
    let cycles = detect_cycles_all(&nodes);
    assert_eq!(all_names(&cycles), vec![list(&["a", "b"])]);
}

#[test]
fn mutual_dependency_is_found_from_either_root() {
    let nodes = build_nodes(vec![package("a", &["b"], &[]), package("b", &["a"], &[])]);
    assert_eq!(walk_from(&nodes, 0), vec![list(&["a", "b"])]);
    assert_eq!(walk_from(&nodes, 1), vec![list(&["b", "a"])]);
}

#[test]
fn a_self_dependency_is_a_cycle_of_one() {
    let nodes = build_nodes(vec![package("a", &["a"], &[]), package("b", &[], &[])]);
    let cycles = detect_cycles_all(&nodes);
    assert_eq!(all_names(&cycles), vec![list(&["a"])]);
}

#[test]
fn a_dev_self_dependency_is_a_cycle_of_one() {
    let cycles = workspace_cycles(vec![package("a", &[], &["a"])]);
    assert_eq!(all_names(&cycles), vec![list(&["a"])]);
}

#[test]
fn a_self_dependency_beside_a_longer_cycle() {
    let nodes = build_nodes(vec![package("a", &["a", "b"], &[]), package("b", &["a"], &[])]);
    assert_eq!(walk_from(&nodes, 0), vec![list(&["a"]), list(&["a", "b"])]);
    assert_eq!(walk_from(&nodes, 1), vec![list(&["b", "a"]), list(&["b", "a"])]);
    let cycles = detect_cycles_all(&nodes);
    assert_eq!(all_names(&cycles), vec![list(&["a"]), list(&["a", "b"])]);
}

#[test]
fn a_dev_dependency_counts_at_the_root_only() {
    let nodes = build_nodes(vec![
        package("a", &[], &["b"]),
        package("b", &["c"], &[]),
        package("c", &["a"], &[]),
    ]);
    assert_eq!(walk_from(&nodes, 0), vec![list(&["a", "b", "c"])]);
    assert!(walk_from(&nodes, 1).is_empty());
    assert!(walk_from(&nodes, 2).is_empty());
    let cycles = detect_cycles_all(&nodes);
    assert_eq!(all_names(&cycles), vec![list(&["a", "b", "c"])]);
}

#[test]
fn a_dev_dependency_below_the_root_is_not_followed() {
    let nodes = vec![
        node("a", &[("b", DependencyType::Regular)]),
        node("b", &[("a", DependencyType::Dev)]),
    ];
    assert!(walk_from(&nodes, 0).is_empty());
    assert_eq!(walk_from(&nodes, 1), vec![list(&["b", "a"])]);
    assert_eq!(all_names(&detect_cycles_all(&nodes)), vec![list(&["b", "a"])]);
}

#[test]
fn a_build_dependency_is_followed_at_any_depth() {
    let nodes = vec![
        node("a", &[("b", DependencyType::Build)]),
        node("b", &[("c", DependencyType::Build)]),
        node("c", &[("a", DependencyType::Build)]),
    ];
    assert_eq!(walk_from(&nodes, 0), vec![list(&["a", "b", "c"])]);
    assert_eq!(all_names(&detect_cycles_all(&nodes)), vec![list(&["a", "b", "c"])]);
}

#[test]
fn rotations_of_a_cycle_are_reported_once() {
    let nodes = build_nodes(vec![
        package("a", &["b"], &[]),
        package("b", &["c"], &[]),
        package("c", &["a"], &[]),
    ]);
    assert_eq!(walk_from(&nodes, 0), vec![list(&["a", "b", "c"])]);
    assert_eq!(walk_from(&nodes, 1), vec![list(&["b", "c", "a"])]);
    assert_eq!(walk_from(&nodes, 2), vec![list(&["c", "a", "b"])]);
    let cycles = detect_cycles_all(&nodes);
    assert_eq!(all_names(&cycles), vec![list(&["a", "b", "c"])]);
}

#[test]
fn web_and_core_form_the_only_cycle() {
    let cycles = workspace_cycles(vec![
        package("web", &["core"], &[]),
        package("core", &["web"], &[]),
        package("util", &[], &[]),
    ]);
    assert_eq!(all_names(&cycles), vec![list(&["web", "core"])]);
    assert!(cycles.iter().all(|cycle| cycle.0.iter().all(|node| node.name != "util")));
}

#[test]
fn a_repeated_declaration_does_not_inflate_a_cycle() {
    let once = workspace_cycles(vec![package("a", &["b"], &[]), package("b", &["a"], &[])]);
    let twice = workspace_cycles(vec![
        package("a", &["b", "b"], &[]),
        package("b", &["a", "a", "a"], &[]),
    ]);
    assert_eq!(all_names(&twice), all_names(&once));
    assert_eq!(twice.len(), 1);
    assert_eq!(twice[0].0.len(), 2);
    assert_eq!(twice[0].0[0].dependencies.len(), 1);
    assert_eq!(twice[0].0[1].dependencies.len(), 1);
}

#[test]
fn a_regular_and_a_dev_dependency_on_one_package_close_one_cycle() {
    let nodes = build_nodes(vec![package("a", &["b"], &["b"]), package("b", &["a"], &[])]);
    assert_eq!(walk_from(&nodes, 0), vec![list(&["a", "b"]), list(&["a", "b"])]);
    assert_eq!(all_names(&detect_cycles_all(&nodes)), vec![list(&["a", "b"])]);
}

#[test]
fn the_whole_path_is_reported_with_its_leading_nodes() {
    let nodes = build_nodes(vec![
        package("a", &["b"], &[]),
        package("b", &["c"], &[]),
        package("c", &["b"], &[]),
    ]);
    assert_eq!(walk_from(&nodes, 0), vec![list(&["a", "b", "c"])]);
    assert_eq!(walk_from(&nodes, 1), vec![list(&["b", "c"])]);
    assert_eq!(walk_from(&nodes, 2), vec![list(&["c", "b"])]);
    let cycles = detect_cycles_all(&nodes);
    assert_eq!(all_names(&cycles), vec![list(&["a", "b", "c"]), list(&["b", "c"])]);
}

#[test]
fn every_branch_of_a_walk_is_searched() {
    let nodes = build_nodes(vec![
        package("a", &["b", "c"], &[]),
        package("b", &["d"], &[]),
        package("c", &["d"], &[]),
        package("d", &["a"], &[]),
    ]);
    assert_eq!(
        walk_from(&nodes, 0),
        vec![list(&["a", "b", "d"]), list(&["a", "c", "d"])]
    );
    assert_eq!(
        walk_from(&nodes, 1),
        vec![list(&["b", "d", "a"]), list(&["b", "d", "a", "c"])]
    );
    assert_eq!(
        walk_from(&nodes, 3),
        vec![list(&["d", "a", "b"]), list(&["d", "a", "c"])]
    );
    let cycles = detect_cycles_all(&nodes);
    assert_eq!(
        all_names(&cycles),
        vec![list(&["a", "b", "d"]), list(&["a", "c", "d"]), list(&["b", "d", "a", "c"])]
    );
}

#[test]
fn the_nodes_of_a_reported_cycle_are_processed() {
    let nodes = build_nodes(vec![package("a", &["b"], &[]), package("b", &["a"], &[])]);
    let cycles = detect_cycles_all(&nodes);
    assert_eq!(cycles.len(), 1);
    assert!(cycles[0].0.iter().all(|node| node.state == State::Processed));
    assert!(nodes.iter().all(|node| node.state == State::NotProcessed));
}

#[test]
fn a_walk_processes_the_nodes_it_enters() {
    let mut nodes = vec![
        node("a", &[("b", DependencyType::Regular)]),
        node("b", &[("c", DependencyType::Regular), ("e", DependencyType::Dev)]),
        node("c", &[]),
        node("d", &[("a", DependencyType::Regular)]),
        node("e", &[]),
    ];
    let mut path = Vec::new();
    let cycles = detect_cycle(&mut nodes, &mut path, 0);
    assert!(cycles.is_empty());
    assert!(path.is_empty());
    let states: Vec<State> = nodes.iter().map(|node| node.state).collect();
    assert_eq!(
        states,
        vec![
            State::Processed,
            State::Processed,
            State::Processed,
            State::NotProcessed,
            State::NotProcessed,
        ]
    );
}

#[test]
fn a_walk_changes_no_name_and_no_dependency() {
    let nodes = build_nodes(vec![
        package("a", &["b"], &["c"]),
        package("b", &["a"], &[]),
        package("c", &[], &[]),
    ]);
    let mut copy = fresh_copy(&nodes);
    let mut path = Vec::new();
    detect_cycle(&mut copy, &mut path, 0);
    assert_eq!(copy.len(), nodes.len());
    for at in 0..nodes.len() {
        assert_eq!(copy[at].name, nodes[at].name);
        assert_eq!(copy[at].dependencies, nodes[at].dependencies);
    }
}

#[test]
fn a_processed_node_on_the_path_closes_a_cycle() {
    let mut nodes = vec![
        node("a", &[("b", DependencyType::Regular)]),
        node("b", &[("a", DependencyType::Regular)]),
    ];
    nodes[0].mark_processed();
    let mut path = vec![0];
    let cycles = detect_cycle(&mut nodes, &mut path, 0);
    assert_eq!(all_names(&cycles), vec![list(&["a"])]);
    assert_eq!(path, vec![0]);
    assert_eq!(nodes[1].state, State::NotProcessed);
}

#[test]
fn a_walk_goes_on_from_the_path_it_stands_on() {
    let mut nodes = vec![
        node("a", &[("b", DependencyType::Regular)]),
        node("b", &[("a", DependencyType::Dev), ("c", DependencyType::Regular)]),
        node("c", &[("a", DependencyType::Build)]),
    ];
    nodes[0].mark_processed();
    let mut path = vec![0];
    let cycles = detect_cycle(&mut nodes, &mut path, 1);
    assert_eq!(all_names(&cycles), vec![list(&["a", "b", "c"])]);
    assert_eq!(path, vec![0]);
    assert!(nodes.iter().all(|node| node.state == State::Processed));
}

#[test]
fn two_dependencies_that_close_a_cycle_report_it_twice() {
    let mut nodes = vec![node(
        "a",
        &[("a", DependencyType::Regular), ("a", DependencyType::Build)],
    )];
    let mut path = Vec::new();
    let cycles = detect_cycle(&mut nodes, &mut path, 0);
    assert_eq!(all_names(&cycles), vec![list(&["a"]), list(&["a"])]);
    let mut again = vec![node(
        "a",
        &[("a", DependencyType::Regular), ("a", DependencyType::Build)],
    )];
    again[0].state = State::NotProcessed;
    assert_eq!(all_names(&detect_cycles_all(&again)), vec![list(&["a"])]);
}

#[test]
fn a_fresh_copy_has_no_processed_node() {
    let mut nodes = vec![
        node("a", &[("b", DependencyType::Regular)]),
        node("b", &[]),
    ];
    nodes[0].mark_processed();
    let copy = fresh_copy(&nodes);
    assert_eq!(copy.len(), 2);
    assert!(copy.iter().all(|node| node.state == State::NotProcessed));
    assert_eq!(copy[0].name, "a");
    assert_eq!(copy[0].dependencies, nodes[0].dependencies);
    assert_eq!(copy[1].name, "b");
    assert_eq!(nodes[0].state, State::Processed);
}

#[test]
fn marks_on_the_graph_do_not_change_what_is_found() {
    let mut nodes = build_nodes(vec![
        package("a", &["b"], &[]),
        package("b", &["c"], &[]),
        package("c", &["a"], &[]),
    ]);
    let before = all_names(&detect_cycles_all(&nodes));
    nodes[1].mark_processed();
    nodes[2].mark_processed();
    let after = all_names(&detect_cycles_all(&nodes));
    assert_eq!(before, after);
    assert_eq!(after, vec![list(&["a", "b", "c"])]);
}

#[test]
fn a_repeated_record_does_not_repeat_a_cycle() {
    let cycles = workspace_cycles(vec![
        package("a", &["b"], &[]),
        package("a", &["b"], &[]),
        package("b", &["a"], &[]),
    ]);
    assert_eq!(all_names(&cycles), vec![list(&["a", "b"])]);
}

#[test]
fn no_cycle_lists_a_package_twice() {
    let cycles = workspace_cycles(vec![
        package("a", &["b", "c"], &[]),
        package("b", &["c", "a"], &["b"]),
        package("a", &["a"], &[]),
        package("c", &["a", "b"], &[]),
        package("b", &[], &[]),
    ]);
    assert!(!cycles.is_empty());
    for cycle in &cycles {
        let members = names(cycle);
        for i in 0..members.len() {
            for j in (i + 1)..members.len() {
                assert_ne!(members[i], members[j]);
            }
        }
    }
}

#[test]
fn declaring_dependencies_again_changes_no_cycle() {
    let once = workspace_cycles(vec![
        package("a", &["b", "c"], &["d"]),
        package("b", &["c"], &[]),
        package("c", &["a"], &["b"]),
        package("d", &["a"], &[]),
    ]);
    let again = workspace_cycles(vec![
        package("a", &["b", "c", "b", "c", "b"], &["d", "d"]),
        package("b", &["c", "c"], &[]),
        package("c", &["a", "a", "a"], &["b", "b"]),
        package("d", &["a", "a"], &[]),
    ]);
    assert!(!once.is_empty());
    assert_eq!(all_names(&again), all_names(&once));
}
