//! The cycle detector: a depth-first walk from a node, and from every node.

use vstd::prelude::*;
use crate::cycles::{
    cycle_along, cycles_along, cycles_of, lemma_closing_route_is_reported,
    lemma_cycle_names_differ, lemma_cycles_along_same_shape, lemma_cycles_lie_on_closing_routes,
    lemma_path_names_differ, on_closing_route, processed,
};
use crate::graph::{all_declared_once, build_nodes, graph_of, lemma_graph_of_declared_once};
use crate::links::{
    closed, find_node, lemma_closed_is_linked, lemma_links_of_same_shape, linked, links,
    names_differ, resolve, same_shape,
};
use crate::members::{distinct_cycles, names_of, reported, same_members};
use crate::model::{CrateMetadata, Cycle, DependencyType, Node, NodeView, State};
use crate::routes::{closes, is_route};
use crate::walk::{
    entered, entered_links, followed, is_path, lemma_path_push, lemma_walk_paths, walk,
    walk_links, walks,
};

verus! {

/// A path of node positions as a sequence of integers.
pub open spec fn indices(path: Seq<usize>) -> Seq<int> {
    path.map_values(|at: usize| at as int)
}

/// The graph once the nodes of `entered` have been processed.
pub open spec fn marked(graph: Seq<NodeView>, entered: Set<int>) -> Seq<NodeView> {
    Seq::new(
        graph.len(),
        |at: int|
            if entered.contains(at) {
                processed(graph[at])
            } else {
                graph[at]
            },
    )
}

/// Whether every node on `path` has been processed.
pub open spec fn path_processed(graph: Seq<NodeView>, path: Seq<int>) -> bool {
    forall|k: int| 0 <= k < path.len() ==> graph[#[trigger] path[k]].state == State::Processed
}

/// Whether `node` is on `path`.
fn on_path(path: &Vec<usize>, node: usize) -> (found: bool)
    ensures
        found == indices(path@).contains(node as int),
{
    let mut k: usize = 0;
    while k < path.len()
        invariant
            k <= path.len(),
            forall|j: int| 0 <= j < k ==> path[j] != node,
        decreases path.len() - k,
    {
        if path[k] == node {
            assert(indices(path@)[k as int] == node as int);
            return true;
        }
        k += 1;
    }
    false
}

/// Copies the nodes on `path`, in order, into a cycle.
fn cycle_of(nodes: &Vec<Node>, path: &Vec<usize>) -> (cycle: Cycle)
    requires
        forall|k: int| 0 <= k < path.len() ==> path[k] < nodes.len(),
    ensures
        cycle@ == indices(path@).map_values(|at: int| nodes.deep_view()[at]),
{
    let mut members: Vec<Node> = Vec::new();
    let mut k: usize = 0;
    while k < path.len()
        invariant
            k <= path.len(),
            forall|j: int| 0 <= j < path.len() ==> path[j] < nodes.len(),
            members.len() == k,
            forall|j: int| 0 <= j < k ==> members[j]@ == nodes[path[j] as int]@,
        decreases path.len() - k,
    {
        members.push(nodes[path[k]].clone());
        k += 1;
    }
    let cycle = Cycle(members);
    assert(cycle@ =~= indices(path@).map_values(|at: int| nodes.deep_view()[at]));
    cycle
}

/// Visits `node` on a walk that stands on `path`, and reports the cycles
/// found from there. A processed node that is on the path closes a cycle:
/// the path is reported and the walk goes no further. Any other node is
/// processed and joins the path while each of its dependencies that the
/// walk follows is visited in turn.
///
/// The path is that of a walk: it holds no node twice, and each node was
/// processed when it joined. A walk starts with an empty path. Where no two
/// nodes have the same name, no cycle reported lists a name twice.
pub fn detect_cycle(nodes: &mut Vec<Node>, path: &mut Vec<usize>, node: usize) -> (cycles: Vec<
    Cycle,
>)
    requires
        closed(old(nodes).deep_view()),
        node < old(nodes).len(),
        is_path(old(nodes).len() as nat, indices(old(path)@)),
        path_processed(old(nodes).deep_view(), indices(old(path)@)),
    ensures
        cycles.deep_view() == cycles_along(
            old(nodes).deep_view(),
            walk(links(old(nodes).deep_view()), indices(old(path)@), node as int),
        ),
        final(nodes).deep_view() == marked(
            old(nodes).deep_view(),
            entered(links(old(nodes).deep_view()), indices(old(path)@), node as int),
        ),
        final(path)@ == old(path)@,
        names_differ(old(nodes).deep_view()) ==> forall|k: int|
            0 <= k < cycles.len() ==> names_of(#[trigger] cycles.deep_view()[k]).no_duplicates(),
    decreases old(nodes).len() - old(path).len(),
{
    let ghost graph = nodes.deep_view();
    let ghost net = links(graph);
    let ghost above = indices(path@);
    proof {
        lemma_closed_is_linked(graph);
        if names_differ(graph) {
            let found = walk(net, above, node as int);
            lemma_walk_paths(net, above, node as int);
            assert forall|k: int| 0 <= k < found.len() implies names_of(
                #[trigger] cycles_along(graph, found)[k],
            ).no_duplicates() by {
                lemma_path_names_differ(graph, found[k]);
            }
        }
    }
    if nodes[node].is_processed() && on_path(path, node) {
        assert forall|k: int| 0 <= k < path.len() implies path[k] < nodes.len() by {
            assert(0 <= above[k] < nodes.len());
        }
        let cycle = cycle_of(nodes, path);
        let mut cycles: Vec<Cycle> = Vec::new();
        cycles.push(cycle);
        proof {
            assert(walk(net, above, node as int) == seq![above]);
            assert(cycle@ =~= cycle_along(graph, above)) by {
                assert forall|k: int| 0 <= k < above.len() implies graph[above[k]] == processed(
                    graph[above[k]],
                ) by {
                    assert(graph[above[k]].state == State::Processed);
                }
            }
            assert(cycles.deep_view() =~= cycles_along(graph, seq![above]));
            assert(nodes.deep_view() =~= marked(graph, Set::empty()));
        }
        cycles
    } else {
        assert(!above.contains(node as int)) by {
            if above.contains(node as int) {
                let k = choose|k: int| 0 <= k < above.len() && above[k] == node as int;
                assert(graph[above[k]].state == State::Processed);
            }
        }
        let at_root = path.len() == 0;
        nodes[node].mark_processed();
        path.push(node);
        let ghost below = indices(path@);
        proof {
            assert(below =~= above.push(node as int));
            lemma_path_push(net.len(), above, node as int);
            assert(nodes.deep_view() =~= marked(
                graph,
                entered_links(net, below, 0).insert(node as int),
            ));
        }
        let mut cycles: Vec<Cycle> = Vec::new();
        let count = nodes[node].dependencies.len();
        let mut e: usize = 0;
        while e < count
            invariant
                e <= count,
                closed(graph),
                net == links(graph),
                linked(net),
                count == net[node as int].len(),
                graph.len() == nodes.len(),
                path_processed(graph, above),
                below.len() <= net.len(),
                node < nodes.len(),
                at_root == (above.len() == 0),
                below == above.push(node as int),
                below == indices(path@),
                is_path(net.len(), below),
                path.len() == old(path).len() + 1,
                nodes.len() == old(nodes).len(),
                path@ == old(path)@.push(node),
                nodes.deep_view() == marked(
                    graph,
                    entered_links(net, below, e as nat).insert(node as int),
                ),
                cycles.deep_view() == cycles_along(graph, walk_links(net, below, e as nat)),
            decreases count - e,
        {
            let ghost now = nodes.deep_view();
            let ghost link = net[node as int][e as int];
            proof {
                lemma_closed_is_linked(graph);
                assert(same_shape(graph, now));
                lemma_links_of_same_shape(graph, now);
                assert(link.kind == nodes[node as int].dependencies[e as int].dep_type);
                assert(link.target == resolve(
                    now,
                    nodes[node as int].dependencies[e as int].name@,
                ));
            }
            let follow = at_root || nodes[node].dependencies[e].dep_type != DependencyType::Dev;
            assert(follow == followed(below.len() - 1, link.kind));
            if follow {
                let target = find_node(nodes, &nodes[node].dependencies[e].name);
                match target {
                    Some(next) => {
                        proof {
                            assert(path_processed(now, below)) by {
                                assert forall|k: int| 0 <= k < below.len() implies now[
                                    #[trigger] below[k]
                                ].state == State::Processed by {
                                    if k < above.len() {
                                        assert(graph[above[k]].state == State::Processed);
                                    }
                                }
                            }
                            lemma_walk_paths(net, below, next as int);
                            lemma_cycles_along_same_shape(
                                now,
                                graph,
                                walk(net, below, next as int),
                            );
                        }
                        let ghost kept = cycles.deep_view();
                        let mut found = detect_cycle(nodes, path, next);
                        let ghost more = found.deep_view();
                        cycles.append(&mut found);
                        proof {
                            assert(cycles.deep_view() =~= kept + more);
                            assert(cycles.deep_view() =~= cycles_along(
                                graph,
                                walk_links(net, below, (e + 1) as nat),
                            ));
                            assert(nodes.deep_view() =~= marked(
                                graph,
                                entered_links(net, below, (e + 1) as nat).insert(node as int),
                            ));
                        }
                    },
                    None => {
                        assert(false);
                    },
                }
            }
            e += 1;
        }
        path.pop();
        proof {
            assert(path@ =~= old(path)@);
        }
        cycles
    }
}

/// The graph before any walk: no node has been processed.
pub open spec fn unprocessed(graph: Seq<NodeView>) -> Seq<NodeView> {
    graph.map_values(|node: NodeView| NodeView { state: State::NotProcessed, ..node })
}

/// Copies the graph for a walk of its own: no node of the copy has been
/// processed.
pub fn fresh_copy(nodes: &Vec<Node>) -> (copy: Vec<Node>)
    ensures
        copy.deep_view() == unprocessed(nodes.deep_view()),
{
    let mut copy: Vec<Node> = Vec::new();
    let mut at: usize = 0;
    while at < nodes.len()
        invariant
            at <= nodes.len(),
            copy.len() == at,
            forall|k: int|
                0 <= k < at ==> copy[k]@ == (NodeView {
                    state: State::NotProcessed,
                    ..nodes[k]@
                }),
        decreases nodes.len() - at,
    {
        let mut node = nodes[at].clone();
        node.state = State::NotProcessed;
        copy.push(node);
        at += 1;
    }
    assert(copy.deep_view() =~= unprocessed(nodes.deep_view()));
    copy
}

/// Finds the cycles of a graph. A walk starts at every node in turn, each
/// on a copy of the graph in which no node has been processed, and of the
/// cycles that the walks report those with the same members are reported
/// once. So every cycle reported lies along a route that closes, every
/// route that closes has its members reported, and no two cycles reported
/// have the same members. Where no two nodes have the same name, no cycle
/// lists a name twice.
pub fn detect_cycles_all(nodes: &Vec<Node>) -> (cycles: Vec<Cycle>)
    requires
        closed(nodes.deep_view()),
    ensures
        cycles.deep_view() == cycles_of(nodes.deep_view()),
        forall|k: int|
            0 <= k < cycles.len() ==> on_closing_route(
                nodes.deep_view(),
                #[trigger] cycles.deep_view()[k],
            ),
        forall|route: Seq<int>|
            is_route(links(nodes.deep_view()), route) && closes(links(nodes.deep_view()), route)
                ==> reported(cycles.deep_view(), #[trigger] cycle_along(nodes.deep_view(), route)),
        forall|i: int, j: int|
            0 <= i < j < cycles.len() ==> !same_members(
                #[trigger] cycles.deep_view()[i],
                #[trigger] cycles.deep_view()[j],
            ),
        names_differ(nodes.deep_view()) ==> forall|k: int|
            0 <= k < cycles.len() ==> names_of(#[trigger] cycles.deep_view()[k]).no_duplicates(),
{
    let ghost graph = nodes.deep_view();
    let ghost net = links(graph);
    proof {
        lemma_closed_is_linked(graph);
        if names_differ(graph) {
            assert forall|k: int| 0 <= k < cycles_of(graph).len() implies names_of(
                #[trigger] cycles_of(graph)[k],
            ).no_duplicates() by {
                lemma_cycle_names_differ(graph, k);
            }
        }
        lemma_cycles_lie_on_closing_routes(graph);
        assert forall|route: Seq<int>| is_route(net, route) && closes(net, route) implies reported(
            cycles_of(graph),
            #[trigger] cycle_along(graph, route),
        ) by {
            lemma_closing_route_is_reported(graph, route);
        }
    }
    let mut found: Vec<Cycle> = Vec::new();
    let mut root: usize = 0;
    while root < nodes.len()
        invariant
            root <= nodes.len(),
            graph == nodes.deep_view(),
            net == links(graph),
            closed(graph),
            linked(net),
            found.deep_view() == cycles_along(graph, walks(net, root as nat)),
        decreases nodes.len() - root,
    {
        let mut copy = fresh_copy(nodes);
        let mut path: Vec<usize> = Vec::new();
        let ghost fresh = copy.deep_view();
        proof {
            assert(same_shape(graph, fresh));
            lemma_links_of_same_shape(graph, fresh);
            assert(indices(path@) =~= Seq::<int>::empty());
            lemma_walk_paths(net, Seq::empty(), root as int);
            lemma_cycles_along_same_shape(fresh, graph, walk(net, Seq::empty(), root as int));
        }
        let ghost before = found.deep_view();
        let mut here = detect_cycle(&mut copy, &mut path, root);
        let ghost more = here.deep_view();
        found.append(&mut here);
        proof {
            assert(found.deep_view() =~= before + more);
            assert(found.deep_view() =~= cycles_along(graph, walks(net, (root + 1) as nat)));
        }
        root += 1;
    }
    distinct_cycles(found)
}

/// Finds the cycles of a workspace from the records of its packages: the
/// cycles of the graph that the records give. They are the same however
/// often a record declares a dependency, and no cycle lists a package twice.
pub fn workspace_cycles(all_crates: Vec<CrateMetadata>) -> (cycles: Vec<Cycle>)
    ensures
        cycles.deep_view() == cycles_of(graph_of(all_crates.deep_view())),
        cycles.deep_view() == cycles_of(graph_of(all_declared_once(all_crates.deep_view()))),
        forall|k: int|
            0 <= k < cycles.len() ==> names_of(#[trigger] cycles.deep_view()[k]).no_duplicates(),
{
    proof {
        lemma_graph_of_declared_once(all_crates.deep_view());
    }
    let nodes = build_nodes(all_crates);
    detect_cycles_all(&nodes)
}

} // verus!
