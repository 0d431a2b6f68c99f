//! Resolving the dependencies of a graph to the nodes they name.

use vstd::prelude::*;
use crate::model::{DependencyType, Node, NodeView};

verus! {

/// Whether `at` is the first node of `graph` called `name`.
pub open spec fn is_first_named(graph: Seq<NodeView>, name: Seq<char>, at: int) -> bool {
    &&& 0 <= at < graph.len()
    &&& graph[at].name == name
    &&& forall|earlier: int| 0 <= earlier < at ==> graph[earlier].name != name
}

/// Whether some node of `graph` is called `name`.
pub open spec fn has_name(graph: Seq<NodeView>, name: Seq<char>) -> bool {
    exists|at: int| 0 <= at < graph.len() && #[trigger] graph[at].name == name
}

/// Whether no two nodes of the graph have the same name.
pub open spec fn names_differ(graph: Seq<NodeView>) -> bool {
    forall|i: int, j: int|
        0 <= i < graph.len() && 0 <= j < graph.len() && i != j ==> (#[trigger] graph[i]).name != (
        #[trigger] graph[j]).name
}

/// The node that `name` stands for: the first one of `graph` with that
/// name, or `graph.len()` where there is none.
pub open spec fn resolve(graph: Seq<NodeView>, name: Seq<char>) -> int {
    if exists|at: int| is_first_named(graph, name, at) {
        choose|at: int| is_first_named(graph, name, at)
    } else {
        graph.len() as int
    }
}

/// Whether every dependency of every node names a node of the graph.
pub open spec fn closed(graph: Seq<NodeView>) -> bool {
    forall|at: int, e: int|
        0 <= at < graph.len() && 0 <= e < graph[at].dependencies.len() ==> has_name(
            graph,
            #[trigger] graph[at].dependencies[e].name,
        )
}

/// A dependency once its target is resolved to a node.
pub struct Link {
    pub target: int,
    pub kind: DependencyType,
}

/// The links of a graph: for each node, in order, what its dependencies
/// resolve to.
pub open spec fn links(graph: Seq<NodeView>) -> Seq<Seq<Link>> {
    Seq::new(
        graph.len(),
        |at: int|
            Seq::new(
                graph[at].dependencies.len(),
                |e: int|
                    Link {
                        target: resolve(graph, graph[at].dependencies[e].name),
                        kind: graph[at].dependencies[e].dep_type,
                    },
            ),
    )
}

/// Whether every link leads to a node.
pub open spec fn linked(links: Seq<Seq<Link>>) -> bool {
    forall|at: int, e: int|
        0 <= at < links.len() && 0 <= e < links[at].len() ==> 0 <= (
        #[trigger] links[at][e]).target < links.len()
}

/// A node is the first of its name exactly where `resolve` points.
pub proof fn lemma_resolve(graph: Seq<NodeView>, name: Seq<char>)
    ensures
        has_name(graph, name) <==> 0 <= resolve(graph, name) < graph.len(),
        has_name(graph, name) ==> is_first_named(graph, name, resolve(graph, name)),
        forall|at: int| is_first_named(graph, name, at) ==> at == resolve(graph, name),
{
    if has_name(graph, name) {
        let some = choose|at: int| 0 <= at < graph.len() && #[trigger] graph[at].name == name;
        lemma_first_exists(graph, name, some);
    }
    assert forall|at: int| is_first_named(graph, name, at) implies at == resolve(graph, name) by {
        let r = resolve(graph, name);
        assert(is_first_named(graph, name, r));
        if at < r {
            assert(graph[at].name != name);
        } else if r < at {
            assert(graph[r].name != name);
        }
    }
}

/// Where a node has a name, some node is the first with it.
proof fn lemma_first_exists(graph: Seq<NodeView>, name: Seq<char>, some: int)
    requires
        0 <= some < graph.len(),
        graph[some].name == name,
    ensures
        exists|at: int| is_first_named(graph, name, at),
    decreases some,
{
    if exists|earlier: int| 0 <= earlier < some && graph[earlier].name == name {
        let earlier = choose|earlier: int| 0 <= earlier < some && graph[earlier].name == name;
        lemma_first_exists(graph, name, earlier);
    } else {
        assert(is_first_named(graph, name, some));
    }
}

/// In a closed graph every link leads to a node.
pub proof fn lemma_closed_is_linked(graph: Seq<NodeView>)
    requires
        closed(graph),
    ensures
        linked(links(graph)),
{
    let l = links(graph);
    assert forall|at: int, e: int| 0 <= at < l.len() && 0 <= e < l[at].len() implies 0 <= (
    #[trigger] l[at][e]).target < l.len() by {
        let name = graph[at].dependencies[e].name;
        assert(has_name(graph, name));
        lemma_resolve(graph, name);
    }
}

/// Whether two graphs differ at most in which nodes have been processed.
pub open spec fn same_shape(a: Seq<NodeView>, b: Seq<NodeView>) -> bool {
    &&& a.len() == b.len()
    &&& forall|at: int|
        0 <= at < a.len() ==> (#[trigger] a[at]).name == b[at].name && a[at].dependencies
            == b[at].dependencies
}

/// Processing nodes changes no link.
pub proof fn lemma_links_of_same_shape(a: Seq<NodeView>, b: Seq<NodeView>)
    requires
        same_shape(a, b),
    ensures
        links(a) == links(b),
        closed(a) == closed(b),
{
    assert forall|name: Seq<char>| resolve(a, name) == resolve(b, name) by {
        lemma_resolve(a, name);
        lemma_resolve(b, name);
        if has_name(a, name) {
            let at = resolve(a, name);
            assert(b[at].name == name);
            assert(is_first_named(b, name, at)) by {
                assert forall|earlier: int| 0 <= earlier < at implies b[earlier].name != name by {
                    assert(a[earlier].name != name);
                }
            }
        } else if has_name(b, name) {
            let at = resolve(b, name);
            assert(a[at].name == name);
        }
    }
    assert(links(a) =~~= links(b));
    assert forall|name: Seq<char>| has_name(a, name) == has_name(b, name) by {
        lemma_resolve(a, name);
        lemma_resolve(b, name);
    }
    if closed(a) {
        assert forall|at: int, e: int|
            0 <= at < b.len() && 0 <= e < b[at].dependencies.len() implies has_name(
            b,
            #[trigger] b[at].dependencies[e].name,
        ) by {
            assert(has_name(a, a[at].dependencies[e].name));
        }
    }
    if closed(b) {
        assert forall|at: int, e: int|
            0 <= at < a.len() && 0 <= e < a[at].dependencies.len() implies has_name(
            a,
            #[trigger] a[at].dependencies[e].name,
        ) by {
            assert(has_name(b, b[at].dependencies[e].name));
        }
    }
}

/// Looks up the node that a name stands for.
pub fn find_node(nodes: &Vec<Node>, name: &String) -> (found: Option<usize>)
    ensures
        match found {
            Some(at) => is_first_named(nodes.deep_view(), name@, at as int) && at == resolve(
                nodes.deep_view(),
                name@,
            ),
            None => !has_name(nodes.deep_view(), name@),
        },
{
    let mut at: usize = 0;
    while at < nodes.len()
        invariant
            at <= nodes.len(),
            forall|earlier: int| 0 <= earlier < at ==> nodes.deep_view()[earlier].name != name@,
        decreases nodes.len() - at,
    {
        if nodes[at].name == *name {
            proof {
                assert(nodes.deep_view()[at as int].name == name@);
                assert(is_first_named(nodes.deep_view(), name@, at as int));
                lemma_resolve(nodes.deep_view(), name@);
            }
            return Some(at);
        }
        at += 1;
    }
    None
}

/// Whether the dependency at `e` of the node at `at` is the first of the
/// graph, node by node and in each node's order, that names no node.
pub open spec fn is_first_unresolved(graph: Seq<NodeView>, at: int, e: int) -> bool {
    &&& 0 <= at < graph.len()
    &&& 0 <= e < graph[at].dependencies.len()
    &&& !has_name(graph, graph[at].dependencies[e].name)
    &&& forall|a: int, k: int|
        0 <= a < graph.len() && 0 <= k < graph[a].dependencies.len() && (a < at || (a == at && k
            < e)) ==> has_name(graph, #[trigger] graph[a].dependencies[k].name)
}

/// Looks for a dependency that names no node of the graph, and says where
/// the first one stands: the position of its node and its own position
/// among the node's dependencies.
pub fn find_unresolved(nodes: &Vec<Node>) -> (found: Option<(usize, usize)>)
    ensures
        match found {
            Some((at, e)) => is_first_unresolved(nodes.deep_view(), at as int, e as int),
            None => closed(nodes.deep_view()),
        },
{
    let ghost graph = nodes.deep_view();
    let mut at: usize = 0;
    while at < nodes.len()
        invariant
            at <= nodes.len(),
            graph == nodes.deep_view(),
            forall|a: int, k: int|
                0 <= a < at && 0 <= k < graph[a].dependencies.len() ==> has_name(
                    graph,
                    #[trigger] graph[a].dependencies[k].name,
                ),
        decreases nodes.len() - at,
    {
        let mut e: usize = 0;
        while e < nodes[at].dependencies.len()
            invariant
                at < nodes.len(),
                graph == nodes.deep_view(),
                e <= nodes[at as int].dependencies.len(),
                forall|a: int, k: int|
                    0 <= a < at && 0 <= k < graph[a].dependencies.len() ==> has_name(
                        graph,
                        #[trigger] graph[a].dependencies[k].name,
                    ),
                forall|k: int|
                    0 <= k < e ==> has_name(
                        graph,
                        #[trigger] graph[at as int].dependencies[k].name,
                    ),
            decreases nodes[at as int].dependencies.len() - e,
        {
            assert(graph[at as int].dependencies[e as int].name
                == nodes[at as int].dependencies[e as int].name@);
            if find_node(nodes, &nodes[at].dependencies[e].name).is_none() {
                return Some((at, e));
            }
            e += 1;
        }
        assert(graph[at as int].dependencies.len() == nodes[at as int].dependencies.len());
        at += 1;
    }
    None
}

/// Whether every dependency of every node names a node of the graph.
pub fn is_closed(nodes: &Vec<Node>) -> (all_resolve: bool)
    ensures
        all_resolve == closed(nodes.deep_view()),
{
    let found = find_unresolved(nodes);
    proof {
        if let Some((at, e)) = found {
            assert(!has_name(
                nodes.deep_view(),
                nodes.deep_view()[at as int].dependencies[e as int].name,
            ));
        }
    }
    found.is_none()
}

} // verus!
