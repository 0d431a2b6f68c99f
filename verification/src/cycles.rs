//! The cycles of a graph: what the detector reports, and what holds of it.

use vstd::prelude::*;
use crate::graph::{
    all_declared_once, crate_names, declared, graph_of, is_first_record, is_node_of_first,
    lemma_edges_kept, lemma_graph_from, lemma_graph_of, lemma_graph_of_declared_once, node_of,
};
use crate::links::{
    closed, has_name, is_first_named, lemma_closed_is_linked, lemma_resolve, linked, links,
    names_differ, resolve, same_shape,
};
use crate::members::{
    distinct, lemma_distinct_covers, lemma_distinct_kept, lemma_rotation_same_members, names_of,
    reported, same_members,
};
use crate::model::{CrateMetadataView, DependencyType, DependencyView, NodeView, State};
use crate::routes::{
    closes, is_route, leads, lemma_no_links_on_no_closing_route, lemma_walks_find_closing_routes,
};
use crate::walk::{is_path, lemma_walk_only_link, walk, walks};

verus! {

/// A node once it has been processed.
pub open spec fn processed(node: NodeView) -> NodeView {
    NodeView { state: State::Processed, ..node }
}

/// The cycle reported for a path: its nodes in order, each processed.
pub open spec fn cycle_along(graph: Seq<NodeView>, path: Seq<int>) -> Seq<NodeView> {
    path.map_values(|at: int| processed(graph[at]))
}

/// The cycles reported for a list of paths.
pub open spec fn cycles_along(graph: Seq<NodeView>, paths: Seq<Seq<int>>) -> Seq<Seq<NodeView>> {
    paths.map_values(|path: Seq<int>| cycle_along(graph, path))
}

/// Reports the same cycles for the same paths whichever nodes have been
/// processed.
pub proof fn lemma_cycles_along_same_shape(
    a: Seq<NodeView>,
    b: Seq<NodeView>,
    paths: Seq<Seq<int>>,
)
    requires
        same_shape(a, b),
        forall|k: int| 0 <= k < paths.len() ==> is_path(a.len(), #[trigger] paths[k]),
    ensures
        cycles_along(a, paths) == cycles_along(b, paths),
{
    assert forall|k: int| 0 <= k < paths.len() implies cycle_along(a, paths[k]) == cycle_along(
        b,
        paths[k],
    ) by {
        let path = paths[k];
        assert(is_path(a.len(), path));
        assert forall|j: int| 0 <= j < path.len() implies processed(a[path[j]]) == processed(
            b[path[j]],
        ) by {
            assert(0 <= path[j] < a.len());
        }
        assert(cycle_along(a, path) =~= cycle_along(b, path));
    }
    assert(cycles_along(a, paths) =~= cycles_along(b, paths));
}

/// The cycles of a graph: of what the walks from every node report, in
/// order, each cycle that has the members of none before it.
pub open spec fn cycles_of(graph: Seq<NodeView>) -> Seq<Seq<NodeView>> {
    distinct(cycles_along(graph, walks(links(graph), graph.len())))
}

/// Whether `cycle` lies along a route of the graph that closes: a chain of
/// dependencies, each followed by a walk from the first node, that leads
/// from node to node, to none twice, and from the last back onto the chain.
pub open spec fn on_closing_route(graph: Seq<NodeView>, cycle: Seq<NodeView>) -> bool {
    exists|route: Seq<int>|
        {
            &&& is_route(links(graph), route)
            &&& closes(links(graph), route)
            &&& cycle == #[trigger] cycle_along(graph, route)
        }
}

/// Every cycle of a graph lies along a route that closes.
pub proof fn lemma_cycles_lie_on_closing_routes(graph: Seq<NodeView>)
    requires
        closed(graph),
    ensures
        forall|k: int|
            0 <= k < cycles_of(graph).len() ==> on_closing_route(
                graph,
                #[trigger] cycles_of(graph)[k],
            ),
{
    let net = links(graph);
    let found = walks(net, net.len());
    let all = cycles_along(graph, found);
    lemma_closed_is_linked(graph);
    lemma_distinct_kept(all);
    assert forall|k: int| 0 <= k < cycles_of(graph).len() implies on_closing_route(
        graph,
        #[trigger] cycles_of(graph)[k],
    ) by {
        let cycle = cycles_of(graph)[k];
        assert(all.contains(cycle));
        let i = choose|i: int| 0 <= i < all.len() && all[i] == cycle;
        let route = found[i];
        assert(found.contains(route));
        lemma_walks_find_closing_routes(net, route);
        assert(cycle == cycle_along(graph, route));
    }
}

/// Every route that closes is reported: the cycles of the graph hold a
/// cycle with the members of the nodes along it.
pub proof fn lemma_closing_route_is_reported(graph: Seq<NodeView>, route: Seq<int>)
    requires
        closed(graph),
        is_route(links(graph), route),
        closes(links(graph), route),
    ensures
        reported(cycles_of(graph), cycle_along(graph, route)),
{
    let net = links(graph);
    let found = walks(net, net.len());
    let all = cycles_along(graph, found);
    lemma_closed_is_linked(graph);
    lemma_walks_find_closing_routes(net, route);
    let i = choose|i: int| 0 <= i < found.len() && found[i] == route;
    assert(all[i] == cycle_along(graph, route));
    lemma_distinct_covers(all);
}

/// A graph in which no node has a dependency has no cycle.
pub proof fn lemma_no_dependencies_no_cycles(graph: Seq<NodeView>)
    requires
        forall|at: int| 0 <= at < graph.len() ==> (#[trigger] graph[at]).dependencies.len() == 0,
    ensures
        cycles_of(graph) == Seq::<Seq<NodeView>>::empty(),
{
    let net = links(graph);
    assert(closed(graph));
    lemma_cycles_lie_on_closing_routes(graph);
    if cycles_of(graph).len() > 0 {
        assert(on_closing_route(graph, cycles_of(graph)[0]));
        let route = choose|route: Seq<int>|
            {
                &&& is_route(links(graph), route)
                &&& closes(links(graph), route)
                &&& cycles_of(graph)[0] == #[trigger] cycle_along(graph, route)
            };
        let to = choose|to: int|
            route.contains(to) && #[trigger] leads(net, route.last(), to, route.len() - 1);
        assert(0 <= route[route.len() - 1] < net.len());
        assert(graph[route.last()].dependencies.len() == 0);
        assert(false);
    }
    assert(cycles_of(graph) =~= Seq::<Seq<NodeView>>::empty());
}

/// A package with a dependency on itself is reported as a cycle of one:
/// the cycles of the graph hold one whose only node is that package.
pub proof fn lemma_self_dependency_is_cycle(graph: Seq<NodeView>, at: int, e: int)
    requires
        closed(graph),
        0 <= at < graph.len(),
        0 <= e < graph[at].dependencies.len(),
        resolve(graph, graph[at].dependencies[e].name) == at,
    ensures
        exists|k: int|
            0 <= k < cycles_of(graph).len() && names_of(#[trigger] cycles_of(graph)[k]) == seq![
                graph[at].name,
            ],
{
    let net = links(graph);
    let route = seq![at];
    assert(net[at][e].target == at);
    assert(leads(net, at, at, 0));
    assert(route.contains(at)) by {
        assert(route[0] == at);
    }
    assert(route.last() == at);
    assert(leads(net, route.last(), at, route.len() - 1));
    assert(closes(net, route));
    assert(is_route(net, route));
    lemma_closing_route_is_reported(graph, route);
    let alone = cycle_along(graph, route);
    let k = choose|k: int|
        0 <= k < cycles_of(graph).len() && same_members(#[trigger] cycles_of(graph)[k], alone);
    let names = names_of(cycles_of(graph)[k]);
    assert(names_of(alone) =~= seq![graph[at].name]);
    assert(names =~= seq![graph[at].name]) by {
        broadcast use vstd::seq_lib::group_to_multiset_ensures;

        assert(names.len() == names.to_multiset().len());
        assert(names_of(alone).len() == names_of(alone).to_multiset().len());
        assert(names.contains(names[0]));
        assert(names_of(alone).to_multiset().count(names[0]) > 0);
        assert(names_of(alone).contains(names[0]));
    }
}

/// Where packages are told apart by their names, the cycle reported for a
/// path lists no name twice.
pub proof fn lemma_path_names_differ(graph: Seq<NodeView>, path: Seq<int>)
    requires
        names_differ(graph),
        is_path(graph.len(), path),
    ensures
        names_of(cycle_along(graph, path)).no_duplicates(),
{
    let names = names_of(cycle_along(graph, path));
    assert forall|i: int, j: int|
        0 <= i < names.len() && 0 <= j < names.len() && i != j implies names[i] != names[j] by {
        assert(0 <= path[i] < graph.len());
        assert(0 <= path[j] < graph.len());
        assert(path[i] != path[j]);
        assert(names[i] == graph[path[i]].name);
        assert(names[j] == graph[path[j]].name);
    }
}

/// Where packages are told apart by their names, no cycle of the graph
/// lists a name twice.
pub proof fn lemma_cycle_names_differ(graph: Seq<NodeView>, k: int)
    requires
        closed(graph),
        names_differ(graph),
        0 <= k < cycles_of(graph).len(),
    ensures
        names_of(cycles_of(graph)[k]).no_duplicates(),
{
    let net = links(graph);
    let cycle = cycles_of(graph)[k];
    lemma_cycles_lie_on_closing_routes(graph);
    assert(on_closing_route(graph, cycle));
    let route = choose|route: Seq<int>|
        {
            &&& is_route(net, route)
            &&& closes(net, route)
            &&& cycle == #[trigger] cycle_along(graph, route)
        };
    lemma_path_names_differ(graph, route);
}

/// No cycle of a workspace lists a package twice.
pub proof fn lemma_workspace_cycle_names_differ(crates: Seq<CrateMetadataView>, k: int)
    requires
        0 <= k < cycles_of(graph_of(crates)).len(),
    ensures
        names_of(cycles_of(graph_of(crates))[k]).no_duplicates(),
{
    lemma_graph_of(crates);
    lemma_cycle_names_differ(graph_of(crates), k);
}

/// However often the records of a workspace declare a dependency, with the
/// same name and kind, the cycles of the workspace are those of the records
/// with each dependency declared once.
pub proof fn lemma_declared_once_same_cycles(crates: Seq<CrateMetadataView>)
    ensures
        cycles_of(graph_of(crates)) == cycles_of(graph_of(all_declared_once(crates))),
{
    lemma_graph_of_declared_once(crates);
}

/// A package without dependencies is on no cycle: where packages are told
/// apart by their names, its name is on none of the cycles of the graph.
pub proof fn lemma_without_dependencies_on_no_cycle(graph: Seq<NodeView>, at: int, k: int)
    requires
        closed(graph),
        names_differ(graph),
        0 <= at < graph.len(),
        graph[at].dependencies.len() == 0,
        0 <= k < cycles_of(graph).len(),
    ensures
        !names_of(cycles_of(graph)[k]).contains(graph[at].name),
{
    let net = links(graph);
    let cycle = cycles_of(graph)[k];
    lemma_cycles_lie_on_closing_routes(graph);
    assert(on_closing_route(graph, cycle));
    let route = choose|route: Seq<int>|
        {
            &&& is_route(net, route)
            &&& closes(net, route)
            &&& cycle == #[trigger] cycle_along(graph, route)
        };
    lemma_no_links_on_no_closing_route(net, route, at);
    if names_of(cycle).contains(graph[at].name) {
        let j = choose|j: int|
            0 <= j < names_of(cycle).len() && names_of(cycle)[j] == graph[at].name;
        assert(cycle[j].name == graph[route[j]].name);
        assert(0 <= route[j] < graph.len());
        assert(route.contains(route[j]));
        assert(route[j] != at);
        assert(graph[route[j]].name != graph[at].name);
    }
}

/// A package of a workspace that has no dependency on a package of the
/// workspace is on no cycle of the workspace.
pub proof fn lemma_workspace_without_dependencies_on_no_cycle(
    crates: Seq<CrateMetadataView>,
    at: int,
    k: int,
)
    requires
        0 <= at < graph_of(crates).len(),
        graph_of(crates)[at].dependencies.len() == 0,
        0 <= k < cycles_of(graph_of(crates)).len(),
    ensures
        !names_of(cycles_of(graph_of(crates))[k]).contains(graph_of(crates)[at].name),
{
    lemma_graph_of(crates);
    lemma_without_dependencies_on_no_cycle(graph_of(crates), at, k);
}

/// Whether each node of the graph has one dependency and no more, the node
/// at `k` on the node at `targets[k]` and of kind `kinds[k]`.
spec fn is_ring(graph: Seq<NodeView>, targets: Seq<int>, kinds: Seq<DependencyType>) -> bool {
    &&& names_differ(graph)
    &&& targets.len() == graph.len()
    &&& kinds.len() == graph.len()
    &&& forall|k: int| 0 <= k < graph.len() ==> 0 <= #[trigger] targets[k] < graph.len()
    &&& forall|k: int|
        0 <= k < graph.len() ==> graph[k].dependencies == seq![
            DependencyView { name: graph[#[trigger] targets[k]].name, dep_type: kinds[k] },
        ]
}

/// In a ring the only link of each node leads where its dependency says.
proof fn lemma_link_of_ring(
    graph: Seq<NodeView>,
    targets: Seq<int>,
    kinds: Seq<DependencyType>,
    at: int,
)
    requires
        is_ring(graph, targets, kinds),
        0 <= at < graph.len(),
    ensures
        links(graph)[at].len() == 1,
        links(graph)[at][0].target == targets[at],
        links(graph)[at][0].kind == kinds[at],
        has_name(graph, graph[at].dependencies[0].name),
{
    let target = targets[at];
    let name = graph[target].name;
    assert(graph[at].dependencies == seq![DependencyView { name, dep_type: kinds[at] }]);
    assert(graph[at].dependencies[0].name == name);
    assert(is_first_named(graph, name, target)) by {
        assert forall|earlier: int| 0 <= earlier < target implies graph[earlier].name != name by {
            assert(graph[earlier].name != graph[target].name);
        }
    }
    lemma_resolve(graph, name);
    assert(links(graph)[at][0].target == resolve(graph, graph[at].dependencies[0].name));
}

/// A ring is closed, and its links are those of its dependencies.
proof fn lemma_links_of_ring(graph: Seq<NodeView>, targets: Seq<int>, kinds: Seq<DependencyType>)
    requires
        is_ring(graph, targets, kinds),
    ensures
        closed(graph),
        linked(links(graph)),
        forall|k: int|
            0 <= k < graph.len() ==> (#[trigger] links(graph)[k]).len() == 1 && links(
                graph,
            )[k][0].target == targets[k] && links(graph)[k][0].kind == kinds[k],
{
    assert forall|at: int, e: int|
        0 <= at < graph.len() && 0 <= e < graph[at].dependencies.len() implies has_name(
        graph,
        #[trigger] graph[at].dependencies[e].name,
    ) by {
        lemma_link_of_ring(graph, targets, kinds, at);
    }
    lemma_closed_is_linked(graph);
    assert forall|k: int| 0 <= k < graph.len() implies (#[trigger] links(graph)[k]).len() == 1
        && links(graph)[k][0].target == targets[k] && links(graph)[k][0].kind == kinds[k] by {
        lemma_link_of_ring(graph, targets, kinds, k);
    }
}

/// Two packages that depend on each other are one cycle of the two,
/// whichever of them a walk starts from.
pub proof fn lemma_mutual_dependency_is_one_cycle(graph: Seq<NodeView>, kind: DependencyType)
    requires
        graph.len() == 2,
        graph[0].name != graph[1].name,
        graph[0].dependencies == seq![DependencyView { name: graph[1].name, dep_type: kind }],
        graph[1].dependencies == seq![DependencyView { name: graph[0].name, dep_type: kind }],
        kind != DependencyType::Dev,
    ensures
        walk(links(graph), Seq::empty(), 0) == seq![seq![0int, 1int]],
        walk(links(graph), Seq::empty(), 1) == seq![seq![1int, 0int]],
        cycles_of(graph) == seq![cycle_along(graph, seq![0int, 1int])],
{
    let net = links(graph);
    assert(is_ring(graph, seq![1int, 0int], seq![kind, kind]));
    lemma_links_of_ring(graph, seq![1int, 0int], seq![kind, kind]);
    let none = Seq::<int>::empty();
    let forth = seq![0int, 1int];
    let back = seq![1int, 0int];
    assert(none.push(0).push(1) =~= forth);
    assert(none.push(1).push(0) =~= back);
    assert(forth.contains(0)) by {
        assert(forth[0] == 0);
    }
    assert(back.contains(1)) by {
        assert(back[0] == 1);
    }
    lemma_walk_only_link(net, none, 0);
    lemma_walk_only_link(net, none.push(0), 1);
    lemma_walk_only_link(net, none, 1);
    lemma_walk_only_link(net, none.push(1), 0);
    assert(walk(net, none, 0) == seq![forth]);
    assert(walk(net, none, 1) == seq![back]);

    assert(walks(net, 0) == Seq::<Seq<int>>::empty());
    assert(walks(net, 1) =~= seq![forth]);
    assert(walks(net, 2) =~= seq![forth, back]);
    let found = cycle_along(graph, forth);
    let all = cycles_along(graph, walks(net, 2));
    assert(all =~= seq![found, cycle_along(graph, back)]);
    assert(same_members(found, cycle_along(graph, back))) by {
        lemma_rotation_same_members(found, 1);
        assert(found.skip(1) + found.take(1) =~= cycle_along(graph, back));
    }
    lemma_distinct_of_one(found, seq![cycle_along(graph, back)]);
    assert(seq![found] + seq![cycle_along(graph, back)] =~= all);
}

/// Where every cycle of a list has the members of the first, the first is
/// the only distinct one.
proof fn lemma_distinct_of_one(first: Seq<NodeView>, others: Seq<Seq<NodeView>>)
    requires
        forall|k: int| 0 <= k < others.len() ==> same_members(first, #[trigger] others[k]),
    ensures
        distinct(seq![first] + others) == seq![first],
    decreases others.len(),
{
    let all = seq![first] + others;
    if others.len() == 0 {
        assert(all =~= seq![first]);
        assert(all.drop_last() =~= Seq::<Seq<NodeView>>::empty());
        assert(distinct(all.drop_last()) =~= Seq::<Seq<NodeView>>::empty());
        assert(distinct(all) =~= seq![first]);
    } else {
        lemma_distinct_of_one(first, others.drop_last());
        assert(all.drop_last() =~= seq![first] + others.drop_last());
        assert(all.last() == others[others.len() - 1]);
        assert(same_members(seq![first][0], all.last()));
        assert(reported(seq![first], all.last()));
    }
}

/// A dev dependency closes a cycle from its own package only. Where the
/// first of three packages depends on the second for development only, the
/// second on the third and the third on the first, the walk from the first
/// finds the cycle of the three, and the walks from the others find nothing.
pub proof fn lemma_dev_dependency_closes_from_its_package(
    graph: Seq<NodeView>,
    onward: DependencyType,
    back: DependencyType,
)
    requires
        graph.len() == 3,
        graph[0].name != graph[1].name,
        graph[0].name != graph[2].name,
        graph[1].name != graph[2].name,
        graph[0].dependencies == seq![
            DependencyView { name: graph[1].name, dep_type: DependencyType::Dev },
        ],
        graph[1].dependencies == seq![DependencyView { name: graph[2].name, dep_type: onward }],
        graph[2].dependencies == seq![DependencyView { name: graph[0].name, dep_type: back }],
        onward != DependencyType::Dev,
        back != DependencyType::Dev,
    ensures
        walk(links(graph), Seq::empty(), 0) == seq![seq![0int, 1int, 2int]],
        walk(links(graph), Seq::empty(), 1) == Seq::<Seq<int>>::empty(),
        walk(links(graph), Seq::empty(), 2) == Seq::<Seq<int>>::empty(),
        cycles_of(graph) == seq![cycle_along(graph, seq![0int, 1int, 2int])],
{
    let net = links(graph);
    assert(is_ring(graph, seq![1int, 2int, 0int], seq![DependencyType::Dev, onward, back]));
    lemma_links_of_ring(graph, seq![1int, 2int, 0int], seq![DependencyType::Dev, onward, back]);
    let none = Seq::<int>::empty();
    let round = seq![0int, 1int, 2int];
    assert(none.push(0).push(1).push(2) =~= round);
    assert(round.contains(0)) by {
        assert(round[0] == 0);
    }
    lemma_walk_only_link(net, none, 0);
    lemma_walk_only_link(net, none.push(0), 1);
    lemma_walk_only_link(net, none.push(0).push(1), 2);
    assert(walk(net, none, 0) == seq![round]);

    lemma_walk_only_link(net, none, 1);
    lemma_walk_only_link(net, none.push(1), 2);
    lemma_walk_only_link(net, none.push(1).push(2), 0);
    assert(walk(net, none, 1) == Seq::<Seq<int>>::empty());

    lemma_walk_only_link(net, none, 2);
    lemma_walk_only_link(net, none.push(2), 0);
    assert(walk(net, none, 2) == Seq::<Seq<int>>::empty());

    assert(walks(net, 0) == Seq::<Seq<int>>::empty());
    assert(walks(net, 1) =~= seq![round]);
    assert(walks(net, 2) =~= seq![round]);
    assert(walks(net, 3) =~= seq![round]);
    lemma_distinct_of_one(cycle_along(graph, round), Seq::empty());
    assert(cycles_along(graph, walks(net, 3)) =~= seq![cycle_along(graph, round)]
        + Seq::empty());
}

/// A cycle of three packages is found from each of them, each time entered
/// at another package, and reported once.
pub proof fn lemma_cycle_of_three_is_reported_once(graph: Seq<NodeView>, kind: DependencyType)
    requires
        graph.len() == 3,
        graph[0].name != graph[1].name,
        graph[0].name != graph[2].name,
        graph[1].name != graph[2].name,
        graph[0].dependencies == seq![DependencyView { name: graph[1].name, dep_type: kind }],
        graph[1].dependencies == seq![DependencyView { name: graph[2].name, dep_type: kind }],
        graph[2].dependencies == seq![DependencyView { name: graph[0].name, dep_type: kind }],
        kind != DependencyType::Dev,
    ensures
        walk(links(graph), Seq::empty(), 0) == seq![seq![0int, 1int, 2int]],
        walk(links(graph), Seq::empty(), 1) == seq![seq![1int, 2int, 0int]],
        walk(links(graph), Seq::empty(), 2) == seq![seq![2int, 0int, 1int]],
        cycles_of(graph) == seq![cycle_along(graph, seq![0int, 1int, 2int])],
{
    let net = links(graph);
    assert(is_ring(graph, seq![1int, 2int, 0int], seq![kind, kind, kind]));
    lemma_links_of_ring(graph, seq![1int, 2int, 0int], seq![kind, kind, kind]);
    let none = Seq::<int>::empty();
    let from_first = seq![0int, 1int, 2int];
    let from_second = seq![1int, 2int, 0int];
    let from_third = seq![2int, 0int, 1int];
    assert(none.push(0).push(1).push(2) =~= from_first);
    assert(none.push(1).push(2).push(0) =~= from_second);
    assert(none.push(2).push(0).push(1) =~= from_third);
    assert(from_first.contains(0)) by {
        assert(from_first[0] == 0);
    }
    assert(from_second.contains(1)) by {
        assert(from_second[0] == 1);
    }
    assert(from_third.contains(2)) by {
        assert(from_third[0] == 2);
    }
    lemma_walk_only_link(net, none, 0);
    lemma_walk_only_link(net, none.push(0), 1);
    lemma_walk_only_link(net, none.push(0).push(1), 2);
    assert(walk(net, none, 0) == seq![from_first]);
    lemma_walk_only_link(net, none, 1);
    lemma_walk_only_link(net, none.push(1), 2);
    lemma_walk_only_link(net, none.push(1).push(2), 0);
    assert(walk(net, none, 1) == seq![from_second]);
    lemma_walk_only_link(net, none, 2);
    lemma_walk_only_link(net, none.push(2), 0);
    lemma_walk_only_link(net, none.push(2).push(0), 1);
    assert(walk(net, none, 2) == seq![from_third]);

    assert(walks(net, 0) == Seq::<Seq<int>>::empty());
    assert(walks(net, 1) =~= seq![from_first]);
    assert(walks(net, 2) =~= seq![from_first, from_second]);
    assert(walks(net, 3) =~= seq![from_first, from_second, from_third]);
    let found = cycle_along(graph, from_first);
    let others = seq![cycle_along(graph, from_second), cycle_along(graph, from_third)];
    assert(same_members(found, others[0])) by {
        lemma_rotation_same_members(found, 1);
        assert(found.skip(1) + found.take(1) =~= others[0]);
    }
    assert(same_members(found, others[1])) by {
        lemma_rotation_same_members(found, 2);
        assert(found.skip(2) + found.take(2) =~= others[1]);
    }
    lemma_distinct_of_one(found, others);
    assert(cycles_along(graph, walks(net, 3)) =~= seq![found] + others);
}

/// A workspace in which no package declares a dependency on a package of
/// the workspace has no cycle.
pub proof fn lemma_no_workspace_dependencies_no_cycles(crates: Seq<CrateMetadataView>)
    requires
        forall|at: int, e: int|
            0 <= at < crates.len() && 0 <= e < declared(crates[at]).len() ==> !crate_names(
                crates,
            ).contains((#[trigger] declared(crates[at])[e]).name),
    ensures
        cycles_of(graph_of(crates)) == Seq::<Seq<NodeView>>::empty(),
{
    let graph = graph_of(crates);
    let names = crate_names(crates);
    lemma_graph_from(crates, names);
    assert forall|at: int| 0 <= at < graph.len() implies (#[trigger] graph[at]).dependencies.len()
        == 0 by {
        let kept = graph[at].dependencies;
        if kept.len() > 0 {
            assert(is_node_of_first(crates, names, graph[at]));
            let from = choose|from: int|
                #[trigger] is_first_record(crates, from) && graph[at] == node_of(
                    crates[from],
                    names,
                );
            lemma_edges_kept(declared(crates[from]), names);
            assert(kept.contains(kept[0]));
            let e = choose|e: int|
                0 <= e < declared(crates[from]).len() && declared(crates[from])[e] == kept[0];
            assert(!names.contains(declared(crates[from])[e].name));
        }
    }
    lemma_no_dependencies_no_cycles(graph);
}

} // verus!
