use dep_cycles::emit::{clusters, label, Cluster, ClusterEdge};
use dep_cycles::model::{Cycle, Dependency, DependencyType, Node, State};

fn drawn_node(name: &str, dependencies: &[(&str, DependencyType)]) -> Node {
    Node {
        name: name.to_string(),
        dependencies: dependencies
            .iter()
            .map(|(target, dep_type)| Dependency { name: target.to_string(), dep_type: *dep_type })
            .collect(),
        state: State::Processed,
    }
}

fn edge_triples(edges: &[ClusterEdge]) -> Vec<(String, String, DependencyType)> {
    edges.iter().map(|edge| (edge.from.clone(), edge.to.clone(), edge.dep_type)).collect()
}

fn triple(from: &str, to: &str, dep_type: DependencyType) -> (String, String, DependencyType) {
    (from.to_string(), to.to_string(), dep_type)
}

fn indexes(drawn: &[Cluster]) -> Vec<usize> {
    drawn.iter().map(|cluster| cluster.index).collect()
}

#[test]
fn labels_tell_dev_dependencies_from_the_others() {
    assert_eq!(label(DependencyType::Dev), "DEV");
    assert_eq!(label(DependencyType::Regular), "REG");
    assert_eq!(label(DependencyType::Build), "REG");
}

#[test]
fn a_cycle_of_two_is_drawn_with_both_its_edges() {
    let cycle = Cycle(vec![
        drawn_node("a", &[("b", DependencyType::Regular)]),
        drawn_node("b", &[("a", DependencyType::Dev)]),
    ]);
    let drawn = clusters(&vec![cycle]);
    assert_eq!(drawn.len(), 1);
    assert_eq!(drawn[0].index, 0);
    assert_eq!(drawn[0].members, vec!["a".to_string(), "b".to_string()]);
    assert_eq!(
        edge_triples(&drawn[0].edges),
        vec![triple("a", "b", DependencyType::Regular), triple("b", "a", DependencyType::Dev)]
    );
    let labels: Vec<&str> = drawn[0].edges.iter().map(|edge| label(edge.dep_type)).collect();
    assert_eq!(labels, vec!["REG", "DEV"]);
}

#[test]
fn the_way_back_to_the_first_member_is_drawn_last() {
    let cycle = Cycle(vec![
        drawn_node("a", &[("b", DependencyType::Dev)]),
        drawn_node("b", &[("c", DependencyType::Regular)]),
        drawn_node("c", &[("a", DependencyType::Regular)]),
    ]);
    assert_eq!(
        edge_triples(&cycle.edges()),
        vec![
            triple("a", "b", DependencyType::Dev),
            triple("b", "c", DependencyType::Regular),
            triple("c", "a", DependencyType::Regular),
        ]
    );
}

#[test]
fn a_way_back_that_misses_the_first_member_is_not_drawn() {
    let cycle = Cycle(vec![
        drawn_node("a", &[("b", DependencyType::Regular)]),
        drawn_node("b", &[("c", DependencyType::Regular)]),
        drawn_node("c", &[("b", DependencyType::Regular)]),
    ]);
    assert_eq!(
        edge_triples(&cycle.edges()),
        vec![triple("a", "b", DependencyType::Regular), triple("b", "c", DependencyType::Regular)]
    );
}

#[test]
fn cycles_of_one_are_not_drawn_and_keep_their_number() {
    let drawn = clusters(&vec![
        Cycle(vec![drawn_node("a", &[("a", DependencyType::Regular)])]),
        Cycle(vec![
            drawn_node("b", &[("c", DependencyType::Regular)]),
            drawn_node("c", &[("b", DependencyType::Regular)]),
        ]),
        Cycle(Vec::new()),
        Cycle(vec![
            drawn_node("d", &[("e", DependencyType::Build)]),
            drawn_node("e", &[("d", DependencyType::Regular)]),
        ]),
    ]);
    assert_eq!(indexes(&drawn), vec![1, 3]);
    assert_eq!(drawn[0].members, vec!["b".to_string(), "c".to_string()]);
    assert_eq!(drawn[1].members, vec!["d".to_string(), "e".to_string()]);
    assert_eq!(
        edge_triples(&drawn[0].edges),
        vec![triple("b", "c", DependencyType::Regular), triple("c", "b", DependencyType::Regular)]
    );
    assert_eq!(
        edge_triples(&drawn[1].edges),
        vec![triple("d", "e", DependencyType::Build), triple("e", "d", DependencyType::Regular)]
    );
}

#[test]
fn the_cycle_of_web_and_core_is_drawn_once() {
    let cycles = dep_cycles::detect::workspace_cycles(vec![
        dep_cycles::model::CrateMetadata {
            name: "web".to_string(),
            dependencies: vec!["core".to_string()],
            dev_dependencies: Vec::new(),
        },
        dep_cycles::model::CrateMetadata {
            name: "core".to_string(),
            dependencies: vec!["web".to_string()],
            dev_dependencies: Vec::new(),
        },
        dep_cycles::model::CrateMetadata {
            name: "util".to_string(),
            dependencies: Vec::new(),
            dev_dependencies: Vec::new(),
        },
    ]);
    let drawn = clusters(&cycles);
    assert_eq!(indexes(&drawn), vec![0]);
    assert_eq!(drawn[0].members, vec!["web".to_string(), "core".to_string()]);
    assert_eq!(
        edge_triples(&drawn[0].edges),
        vec![
            triple("web", "core", DependencyType::Regular),
            triple("core", "web", DependencyType::Regular),
        ]
    );
}

#[test]
fn no_cycles_give_no_clusters() {
    assert!(clusters(&Vec::new()).is_empty());
}

#[test]
fn neighbours_without_a_dependency_have_no_edge() {
    let cycle = Cycle(vec![
        drawn_node("a", &[("c", DependencyType::Regular)]),
        drawn_node("b", &[("c", DependencyType::Regular)]),
        drawn_node("c", &[("a", DependencyType::Regular)]),
    ]);
    let expected =
        vec![triple("b", "c", DependencyType::Regular), triple("c", "a", DependencyType::Regular)];
    assert_eq!(edge_triples(&cycle.edges()), expected);
    let drawn = clusters(&vec![cycle]);
    assert_eq!(drawn[0].members, vec!["a".to_string(), "b".to_string(), "c".to_string()]);
    assert_eq!(edge_triples(&drawn[0].edges), expected);
}

#[test]
fn members_without_any_dependency_between_them_have_no_edge() {
    let cycle = Cycle(vec![
        drawn_node("a", &[("x", DependencyType::Regular)]),
        drawn_node("b", &[]),
        drawn_node("c", &[("c", DependencyType::Dev)]),
    ]);
    assert!(cycle.edges().is_empty());
}

#[test]
fn the_first_dependency_on_the_neighbour_is_the_connection() {
    let from = drawn_node(
        "a",
        &[
            ("c", DependencyType::Regular),
            ("b", DependencyType::Dev),
            ("b", DependencyType::Regular),
        ],
    );
    let to = drawn_node("b", &[]);
    let found = from.connection_to(&to);
    assert_eq!(
        found,
        Some(&Dependency { name: "b".to_string(), dep_type: DependencyType::Dev })
    );
    assert_eq!(to.connection_to(&from), None);
}

#[test]
fn the_names_of_a_cycle_come_in_order() {
    let cycle = Cycle(vec![drawn_node("c", &[]), drawn_node("a", &[]), drawn_node("b", &[])]);
    assert_eq!(cycle.names(), vec!["c".to_string(), "a".to_string(), "b".to_string()]);
    assert!(Cycle(Vec::new()).names().is_empty());
}

#[test]
fn a_cycle_of_one_has_the_edge_onto_itself() {
    assert!(Cycle(Vec::new()).edges().is_empty());
    let alone = Cycle(vec![drawn_node("a", &[("a", DependencyType::Regular)])]);
    assert_eq!(edge_triples(&alone.edges()), vec![triple("a", "a", DependencyType::Regular)]);
    let bare = Cycle(vec![drawn_node("a", &[("b", DependencyType::Regular)])]);
    assert!(bare.edges().is_empty());
}

#[test]
fn detected_cycles_are_drawn_with_their_kinds() {
    let nodes = dep_cycles::graph::build_nodes(vec![
        dep_cycles::model::CrateMetadata {
            name: "a".to_string(),
            dependencies: Vec::new(),
            dev_dependencies: vec!["b".to_string()],
        },
        dep_cycles::model::CrateMetadata {
            name: "b".to_string(),
            dependencies: vec!["c".to_string()],
            dev_dependencies: Vec::new(),
        },
        dep_cycles::model::CrateMetadata {
            name: "c".to_string(),
            dependencies: vec!["a".to_string()],
            dev_dependencies: Vec::new(),
        },
    ]);
    let cycles = dep_cycles::detect::detect_cycles_all(&nodes);
    let drawn = clusters(&cycles);
    assert_eq!(drawn.len(), 1);
    assert_eq!(drawn[0].index, 0);
    assert_eq!(drawn[0].members, vec!["a".to_string(), "b".to_string(), "c".to_string()]);
    assert_eq!(
        edge_triples(&drawn[0].edges),
        vec![
            triple("a", "b", DependencyType::Dev),
            triple("b", "c", DependencyType::Regular),
            triple("c", "a", DependencyType::Regular),
        ]
    );
}
