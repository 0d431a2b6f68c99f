//! What a drawing of the cycles shows: a cluster for each cycle of two or
//! more packages, with its members, the dependencies between neighbours and
//! the dependency of the last member on the first, which closes the cycle.

use vstd::prelude::*;
use crate::cycles::{cycle_along, processed};
use crate::links::{closed, has_name, lemma_resolve, links};
use crate::model::{Cycle, Dependency, DependencyType, DependencyView, Node, NodeView};
use crate::routes::{is_route, leads};
use crate::walk::followed;

verus! {

/// A dependency of one member of a cycle on the next, or of the last on
/// the first.
#[derive(Debug)]
pub struct ClusterEdge {
    /// Name of the package that depends.
    pub from: String,
    /// Name of the package it depends on.
    pub to: String,
    /// Kind of the dependency.
    pub dep_type: DependencyType,
}

/// An edge of a cluster as a mathematical value.
pub struct ClusterEdgeView {
    pub from: Seq<char>,
    pub to: Seq<char>,
    pub dep_type: DependencyType,
}

impl View for ClusterEdge {
    type V = ClusterEdgeView;

    open spec fn view(&self) -> ClusterEdgeView {
        ClusterEdgeView { from: self.from@, to: self.to@, dep_type: self.dep_type }
    }
}

impl DeepView for ClusterEdge {
    type V = ClusterEdgeView;

    open spec fn deep_view(&self) -> ClusterEdgeView {
        self@
    }
}

/// One cycle as it is drawn.
#[derive(Debug)]
pub struct Cluster {
    /// Position of the cycle among the cycles found.
    pub index: usize,
    /// Names of the packages on the cycle, in order.
    pub members: Vec<String>,
    /// The dependencies found between each member and the next, and
    /// between the last member and the first.
    pub edges: Vec<ClusterEdge>,
}

/// A cluster as a mathematical value.
pub struct ClusterView {
    pub index: int,
    pub members: Seq<Seq<char>>,
    pub edges: Seq<ClusterEdgeView>,
}

impl View for Cluster {
    type V = ClusterView;

    open spec fn view(&self) -> ClusterView {
        ClusterView {
            index: self.index as int,
            members: self.members.deep_view(),
            edges: self.edges.deep_view(),
        }
    }
}

impl DeepView for Cluster {
    type V = ClusterView;

    open spec fn deep_view(&self) -> ClusterView {
        self@
    }
}

/// Whether the dependency at `e` is the first of `dependencies` on a
/// package called `name`.
pub open spec fn is_first_on(dependencies: Seq<DependencyView>, name: Seq<char>, e: int) -> bool {
    &&& 0 <= e < dependencies.len()
    &&& dependencies[e].name == name
    &&& forall|earlier: int| 0 <= earlier < e ==> dependencies[earlier].name != name
}

/// Where the first of `dependencies` on a package called `name` stands.
pub open spec fn first_on(dependencies: Seq<DependencyView>, name: Seq<char>) -> int {
    choose|e: int| is_first_on(dependencies, name, e)
}

/// The dependency that connects a package to its neighbour: the first that
/// it has on a package of the neighbour's name, if it has one.
pub open spec fn connection(from: NodeView, to: NodeView) -> Option<DependencyView> {
    if exists|e: int| is_first_on(from.dependencies, to.name, e) {
        Some(from.dependencies[first_on(from.dependencies, to.name)])
    } else {
        None
    }
}

/// The edge drawn from a package to another: its connection to the other,
/// where it has one, and nothing where it has none.
pub open spec fn edge_between(from: NodeView, to: NodeView) -> Seq<ClusterEdgeView> {
    match connection(from, to) {
        Some(dependency) => seq![
            ClusterEdgeView {
                from: from.name,
                to: dependency.name,
                dep_type: dependency.dep_type,
            },
        ],
        None => Seq::empty(),
    }
}

/// The edges drawn between the first `upto` members of a cycle: for each
/// of them but the last, the edge to the next.
pub open spec fn edges_along(cycle: Seq<NodeView>, upto: nat) -> Seq<ClusterEdgeView>
    decreases upto,
{
    if upto <= 1 {
        Seq::empty()
    } else {
        edges_along(cycle, (upto - 1) as nat) + edge_between(cycle[upto - 2], cycle[upto - 1])
    }
}

/// The edges drawn for a cycle: for each member the edge to the next, and
/// for the last member the edge back to the first, which closes the cycle.
pub open spec fn edges_around(cycle: Seq<NodeView>) -> Seq<ClusterEdgeView> {
    if cycle.len() == 0 {
        Seq::empty()
    } else {
        edges_along(cycle, cycle.len()) + edge_between(cycle.last(), cycle.first())
    }
}

/// Whether each member of the cycle has a dependency on the next, by name,
/// and the last member on the first.
pub open spec fn is_connected_around(cycle: Seq<NodeView>) -> bool {
    &&& cycle.len() > 0
    &&& forall|k: int|
        0 <= k < cycle.len() - 1 ==> (#[trigger] connection(cycle[k], cycle[k + 1])) is Some
    &&& connection(cycle.last(), cycle.first()) is Some
}

/// Where each of the first `upto` members has a dependency on the next, an
/// edge is drawn from each of them but the last to the next.
proof fn lemma_edges_along_connected(cycle: Seq<NodeView>, upto: nat)
    requires
        1 <= upto <= cycle.len(),
        forall|k: int|
            0 <= k < cycle.len() - 1 ==> (#[trigger] connection(cycle[k], cycle[k + 1])) is Some,
    ensures
        edges_along(cycle, upto).len() == upto - 1,
        forall|k: int|
            0 <= k < upto - 1 ==> seq![#[trigger] edges_along(cycle, upto)[k]] == edge_between(
                cycle[k],
                cycle[k + 1],
            ),
    decreases upto,
{
    if upto > 1 {
        let earlier = edges_along(cycle, (upto - 1) as nat);
        let from = cycle[upto - 2];
        let to = cycle[upto - 1];
        lemma_edges_along_connected(cycle, (upto - 1) as nat);
        let k0 = upto - 2;
        assert(connection(cycle[k0], cycle[k0 + 1]) is Some);
        assert(edges_along(cycle, upto) == earlier + edge_between(from, to));
        assert forall|k: int| 0 <= k < upto - 1 implies seq![
            #[trigger] edges_along(cycle, upto)[k],
        ] == edge_between(cycle[k], cycle[k + 1]) by {
            if k < upto - 2 {
                assert(edges_along(cycle, upto)[k] == earlier[k]);
            } else {
                assert(seq![edges_along(cycle, upto)[k]] =~= edge_between(from, to));
            }
        }
    }
}

/// The connection of a package to another is a dependency of the one on
/// the name of the other.
pub proof fn lemma_connection(from: NodeView, to: NodeView)
    ensures
        match connection(from, to) {
            Some(dependency) => from.dependencies.contains(dependency) && dependency.name
                == to.name,
            None => forall|e: int|
                0 <= e < from.dependencies.len() ==> (#[trigger] from.dependencies[e]).name
                    != to.name,
        },
{
    if exists|e: int| is_first_on(from.dependencies, to.name, e) {
        let chosen = first_on(from.dependencies, to.name);
        assert(is_first_on(from.dependencies, to.name, chosen));
        assert(from.dependencies[chosen] == connection(from, to)->0);
    } else {
        assert forall|e: int| 0 <= e < from.dependencies.len() implies (
        #[trigger] from.dependencies[e]).name != to.name by {
            if from.dependencies[e].name == to.name {
                lemma_first_on_exists(from.dependencies, to.name, e);
            }
        }
    }
}

/// Where a dependency is on a name, one is the first on it.
proof fn lemma_first_on_exists(dependencies: Seq<DependencyView>, name: Seq<char>, some: int)
    requires
        0 <= some < dependencies.len(),
        dependencies[some].name == name,
    ensures
        exists|e: int| is_first_on(dependencies, name, e),
    decreases some,
{
    if exists|earlier: int| 0 <= earlier < some && dependencies[earlier].name == name {
        let earlier = choose|earlier: int|
            0 <= earlier < some && dependencies[earlier].name == name;
        lemma_first_on_exists(dependencies, name, earlier);
    } else {
        assert(is_first_on(dependencies, name, some));
    }
}

/// A cycle in which each member depends on the next, and the last on the
/// first, is drawn closed: with the edge from each member to the next and,
/// last, the edge from the last member back to the first.
pub proof fn lemma_drawn_closed(cycle: Seq<NodeView>)
    requires
        is_connected_around(cycle),
    ensures
        edges_around(cycle).len() == cycle.len(),
        forall|k: int|
            0 <= k < cycle.len() - 1 ==> seq![#[trigger] edges_around(cycle)[k]] == edge_between(
                cycle[k],
                cycle[k + 1],
            ),
        seq![edges_around(cycle).last()] == edge_between(cycle.last(), cycle.first()),
{
    let along = edges_along(cycle, cycle.len());
    lemma_edges_along_connected(cycle, cycle.len());
    assert forall|k: int| 0 <= k < cycle.len() - 1 implies seq![
        #[trigger] edges_around(cycle)[k],
    ] == edge_between(cycle[k], cycle[k + 1]) by {
        assert(edges_around(cycle)[k] == along[k]);
    }
    assert(seq![edges_around(cycle).last()] =~= edge_between(cycle.last(), cycle.first()));
}

/// Two packages that depend on each other are drawn with both edges: the
/// first on the second, then the second back on the first, each with the
/// kind of its dependency.
pub proof fn lemma_cycle_of_two_is_drawn_closed(
    first: NodeView,
    second: NodeView,
    forth: DependencyType,
    back: DependencyType,
)
    requires
        first.dependencies == seq![DependencyView { name: second.name, dep_type: forth }],
        second.dependencies == seq![DependencyView { name: first.name, dep_type: back }],
    ensures
        edges_around(seq![first, second]) == seq![
            ClusterEdgeView { from: first.name, to: second.name, dep_type: forth },
            ClusterEdgeView { from: second.name, to: first.name, dep_type: back },
        ],
{
    let cycle = seq![first, second];
    assert(is_first_on(first.dependencies, second.name, 0));
    assert(is_first_on(second.dependencies, first.name, 0));
    lemma_connection(first, second);
    lemma_connection(second, first);
    assert(connection(first, second) == Some(first.dependencies[0])) by {
        let d = connection(first, second)->0;
        let e = choose|e: int| 0 <= e < first.dependencies.len() && first.dependencies[e] == d;
    }
    assert(connection(second, first) == Some(second.dependencies[0])) by {
        let d = connection(second, first)->0;
        let e = choose|e: int| 0 <= e < second.dependencies.len() && second.dependencies[e] == d;
    }
    assert(is_connected_around(cycle));
    lemma_drawn_closed(cycle);
    assert(edges_around(cycle)[0] == seq![edges_around(cycle)[0]][0]);
    assert(edges_around(cycle)[1] == seq![edges_around(cycle).last()][0]);
    assert(edges_around(cycle) =~= seq![
        ClusterEdgeView { from: first.name, to: second.name, dep_type: forth },
        ClusterEdgeView { from: second.name, to: first.name, dep_type: back },
    ]);
}

/// Where a walk follows a link from a node to another, the one has a
/// dependency on the name of the other.
proof fn lemma_link_is_connection(graph: Seq<NodeView>, from: int, to: int, depth: int)
    requires
        closed(graph),
        0 <= from < graph.len(),
        leads(links(graph), from, to, depth),
    ensures
        0 <= to < graph.len(),
        connection(processed(graph[from]), processed(graph[to])) is Some,
{
    let net = links(graph);
    let e = choose|e: int|
        0 <= e < net[from].len() && (#[trigger] net[from][e]).target == to && followed(
            depth,
            net[from][e].kind,
        );
    let name = graph[from].dependencies[e].name;
    assert(has_name(graph, name));
    lemma_resolve(graph, name);
    assert(graph[to].name == name);
    lemma_first_on_exists(graph[from].dependencies, name, e);
    assert(processed(graph[from]).dependencies == graph[from].dependencies);
    assert(processed(graph[to]).name == name);
    assert(exists|c: int|
        is_first_on(processed(graph[from]).dependencies, processed(graph[to]).name, c));
}

/// A cycle found on a route whose last node leads back to the first is
/// drawn closed: with as many edges as it has members.
pub proof fn lemma_route_drawn_closed(graph: Seq<NodeView>, route: Seq<int>)
    requires
        closed(graph),
        is_route(links(graph), route),
        leads(links(graph), route.last(), route[0], route.len() - 1),
    ensures
        is_connected_around(cycle_along(graph, route)),
        edges_around(cycle_along(graph, route)).len() == route.len(),
{
    let cycle = cycle_along(graph, route);
    assert forall|k: int| 0 <= k < cycle.len() - 1 implies (#[trigger] connection(
        cycle[k],
        cycle[k + 1],
    )) is Some by {
        assert(leads(links(graph), route[k], route[k + 1], k));
        assert(0 <= route[k] < graph.len());
        lemma_link_is_connection(graph, route[k], route[k + 1], k);
    }
    assert(0 <= route[route.len() - 1] < graph.len());
    lemma_link_is_connection(graph, route.last(), route[0], route.len() - 1);
    assert(cycle.last() == processed(graph[route.last()]));
    assert(cycle.first() == processed(graph[route[0]]));
    lemma_drawn_closed(cycle);
}

/// The cluster drawn for the cycle at position `index`.
pub open spec fn cluster_of(index: int, cycle: Seq<NodeView>) -> ClusterView {
    ClusterView {
        index,
        members: cycle.map_values(|node: NodeView| node.name),
        edges: edges_around(cycle),
    }
}

/// The clusters drawn for the first `upto` cycles: one for each cycle of
/// two or more packages.
pub open spec fn clusters_of(cycles: Seq<Seq<NodeView>>, upto: nat) -> Seq<ClusterView>
    decreases upto,
{
    if upto == 0 {
        Seq::empty()
    } else {
        let earlier = clusters_of(cycles, (upto - 1) as nat);
        if cycles[upto - 1].len() >= 2 {
            earlier.push(cluster_of(upto - 1, cycles[upto - 1]))
        } else {
            earlier
        }
    }
}

/// How the drawing labels a dependency of the given kind: a dev dependency
/// as such, any other as a regular one.
pub fn label(dep_type: DependencyType) -> (text: &'static str)
    ensures
        text@ == if dep_type == DependencyType::Dev {
            "DEV"@
        } else {
            "REG"@
        },
{
    match dep_type {
        DependencyType::Dev => "DEV",
        _ => "REG",
    }
}

impl Node {
    /// Finds the dependency that connects this package to `neighbour`.
    pub fn connection_to<'a>(&'a self, neighbour: &Node) -> (found: Option<&'a Dependency>)
        ensures
            match found {
                Some(dependency) => Some(dependency@) == connection(self@, neighbour@),
                None => connection(self@, neighbour@) is None,
            },
    {
        let ghost dependencies = self@.dependencies;
        let mut e: usize = 0;
        while e < self.dependencies.len()
            invariant
                e <= self.dependencies.len(),
                dependencies == self@.dependencies,
                forall|earlier: int|
                    0 <= earlier < e ==> dependencies[earlier].name != neighbour.name@,
            decreases self.dependencies.len() - e,
        {
            assert(dependencies[e as int] == self.dependencies[e as int]@);
            if self.dependencies[e].name == neighbour.name {
                proof {
                    assert(is_first_on(self@.dependencies, neighbour@.name, e as int));
                    let chosen = first_on(self@.dependencies, neighbour@.name);
                    assert(is_first_on(self@.dependencies, neighbour@.name, chosen));
                    assert(chosen == e);
                }
                return Some(&self.dependencies[e]);
            }
            e += 1;
        }
        proof {
            if exists|c: int| is_first_on(self@.dependencies, neighbour@.name, c) {
                let chosen = first_on(self@.dependencies, neighbour@.name);
                assert(dependencies[chosen].name != neighbour.name@);
            }
        }
        None
    }
}

impl Cycle {
    /// The names of the packages on the cycle, in order.
    pub fn names(&self) -> (names: Vec<String>)
        ensures
            names.deep_view() == self@.map_values(|node: NodeView| node.name),
    {
        let mut names: Vec<String> = Vec::new();
        let mut k: usize = 0;
        while k < self.0.len()
            invariant
                k <= self.0.len(),
                names.len() == k,
                forall|j: int| 0 <= j < k ==> names[j]@ == self.0[j].name@,
            decreases self.0.len() - k,
        {
            names.push(self.0[k].name.clone());
            k += 1;
        }
        assert(names.deep_view() =~= self@.map_values(|node: NodeView| node.name));
        names
    }

    /// Adds to `edges` the edge drawn from the member at `from` to the
    /// member at `to`.
    fn add_edge(&self, edges: &mut Vec<ClusterEdge>, from: usize, to: usize)
        requires
            from < self@.len(),
            to < self@.len(),
        ensures
            final(edges).deep_view() == old(edges).deep_view() + edge_between(
                self@[from as int],
                self@[to as int],
            ),
    {
        assert(self@[from as int] == self.0[from as int]@);
        assert(self@[to as int] == self.0[to as int]@);
        let ghost before = edges.deep_view();
        match self.0[from].connection_to(&self.0[to]) {
            Some(dependency) => {
                let edge = ClusterEdge {
                    from: self.0[from].name.clone(),
                    to: dependency.name.clone(),
                    dep_type: dependency.dep_type,
                };
                edges.push(edge);
                assert(edges.deep_view() =~= before + seq![edge@]);
            },
            None => {
                assert(edges.deep_view() =~= before + Seq::empty());
            },
        }
    }

    /// The dependencies found between each package on the cycle and the
    /// next, and between the last and the first.
    pub fn edges(&self) -> (edges: Vec<ClusterEdge>)
        ensures
            edges.deep_view() == edges_around(self@),
    {
        let mut edges: Vec<ClusterEdge> = Vec::new();
        if self.0.len() == 0 {
            assert(edges.deep_view() =~= edges_around(self@));
            return edges;
        }
        let mut k: usize = 1;
        assert(edges.deep_view() =~= edges_along(self@, 1));
        while k < self.0.len()
            invariant
                1 <= k <= self.0.len(),
                edges.deep_view() == edges_along(self@, k as nat),
            decreases self.0.len() - k,
        {
            self.add_edge(&mut edges, k - 1, k);
            k += 1;
        }
        self.add_edge(&mut edges, self.0.len() - 1, 0);
        edges
    }
}

/// Lays out the drawing: a cluster for each cycle of two or more packages,
/// numbered by the cycle's position among `cycles`.
pub fn clusters(cycles: &Vec<Cycle>) -> (drawn: Vec<Cluster>)
    ensures
        drawn.deep_view() == clusters_of(cycles.deep_view(), cycles.len() as nat),
{
    let mut drawn: Vec<Cluster> = Vec::new();
    let mut index: usize = 0;
    assert(drawn.deep_view() =~= clusters_of(cycles.deep_view(), 0));
    while index < cycles.len()
        invariant
            index <= cycles.len(),
            drawn.deep_view() == clusters_of(cycles.deep_view(), index as nat),
        decreases cycles.len() - index,
    {
        assert(cycles.deep_view()[index as int] == cycles[index as int]@);
        if cycles[index].0.len() >= 2 {
            let ghost before = drawn.deep_view();
            let cluster = Cluster {
                index,
                members: cycles[index].names(),
                edges: cycles[index].edges(),
            };
            drawn.push(cluster);
            assert(drawn.deep_view() =~= before.push(cluster@));
        }
        index += 1;
    }
    drawn
}

} // verus!
