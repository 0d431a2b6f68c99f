//! Building the dependency graph of a workspace from its package records.

use vstd::prelude::*;
use crate::links::{closed, find_node, has_name, names_differ};
use crate::model::{
    CrateMetadata, CrateMetadataView, Dependency, DependencyType, DependencyView, Node, NodeView,
    State,
};

verus! {

/// The names of the packages of a workspace, in order.
pub open spec fn crate_names(crates: Seq<CrateMetadataView>) -> Seq<Seq<char>> {
    crates.map_values(|c: CrateMetadataView| c.name)
}

/// The given names as dependencies of one kind.
pub open spec fn tagged(names: Seq<Seq<char>>, dep_type: DependencyType) -> Seq<DependencyView> {
    names.map_values(|name: Seq<char>| DependencyView { name, dep_type })
}

/// Everything a package record declares: its regular dependencies, then its
/// dev dependencies.
pub open spec fn declared(krate: CrateMetadataView) -> Seq<DependencyView> {
    tagged(krate.dependencies, DependencyType::Regular) + tagged(
        krate.dev_dependencies,
        DependencyType::Dev,
    )
}

/// The edges that a list of declarations gives a package: the declarations
/// whose target is one of `names`, each kept where it first occurs.
pub open spec fn edges(declarations: Seq<DependencyView>, names: Seq<Seq<char>>) -> Seq<
    DependencyView,
>
    decreases declarations.len(),
{
    if declarations.len() == 0 {
        Seq::empty()
    } else {
        let earlier = edges(declarations.drop_last(), names);
        let last = declarations.last();
        if names.contains(last.name) && !earlier.contains(last) {
            earlier.push(last)
        } else {
            earlier
        }
    }
}

/// The node that the graph holds for a package record of a workspace with
/// the given package names.
pub open spec fn node_of(krate: CrateMetadataView, names: Seq<Seq<char>>) -> NodeView {
    NodeView {
        name: krate.name,
        dependencies: edges(declared(krate), names),
        state: State::NotProcessed,
    }
}

/// Whether the record at `at` is the first of `records` with its name.
pub open spec fn is_first_record(records: Seq<CrateMetadataView>, at: int) -> bool {
    &&& 0 <= at < records.len()
    &&& forall|earlier: int| 0 <= earlier < at ==> records[earlier].name != records[at].name
}

/// Whether `node` is the node of a record that is the first with its name.
pub open spec fn is_node_of_first(
    records: Seq<CrateMetadataView>,
    names: Seq<Seq<char>>,
    node: NodeView,
) -> bool {
    exists|at: int| #[trigger] is_first_record(records, at) && node == node_of(records[at], names)
}

/// The nodes that `records` give in a workspace with the given package
/// names: in order, a node for each record whose name no earlier record
/// has. A record that repeats a name gives no node and adds nothing to the
/// node of that name.
pub open spec fn graph_from(records: Seq<CrateMetadataView>, names: Seq<Seq<char>>) -> Seq<
    NodeView,
>
    decreases records.len(),
{
    if records.len() == 0 {
        Seq::empty()
    } else {
        let earlier = graph_from(records.drop_last(), names);
        if has_name(earlier, records.last().name) {
            earlier
        } else {
            earlier.push(node_of(records.last(), names))
        }
    }
}

/// The graph of a workspace: one node for each package name, in the order
/// in which the names first occur, holding what the first record of that
/// name declares.
pub open spec fn graph_of(crates: Seq<CrateMetadataView>) -> Seq<NodeView> {
    graph_from(crates, crate_names(crates))
}

/// The nodes that records give have the names of the records, each name
/// once, and each node is that of the first record of its name.
pub proof fn lemma_graph_from(records: Seq<CrateMetadataView>, names: Seq<Seq<char>>)
    ensures
        names_differ(graph_from(records, names)),
        forall|name: Seq<char>|
            has_name(graph_from(records, names), name) <==> #[trigger] crate_names(
                records,
            ).contains(name),
        forall|k: int|
            0 <= k < graph_from(records, names).len() ==> is_node_of_first(
                records,
                names,
                #[trigger] graph_from(records, names)[k],
            ),
        forall|at: int|
            #[trigger] is_first_record(records, at) ==> graph_from(records, names).contains(
                node_of(records[at], names),
            ),
    decreases records.len(),
{
    let graph = graph_from(records, names);
    if records.len() > 0 {
        let shorter = records.drop_last();
        let earlier = graph_from(shorter, names);
        let last = records.last();
        lemma_graph_from(shorter, names);
        assert(crate_names(shorter) =~= crate_names(records).drop_last());
        assert forall|name: Seq<char>| has_name(graph, name) <==> #[trigger] crate_names(
            records,
        ).contains(name) by {
            if has_name(graph, name) {
                let k = choose|k: int| 0 <= k < graph.len() && #[trigger] graph[k].name == name;
                if k < earlier.len() {
                    assert(earlier[k].name == name);
                    assert(has_name(earlier, name));
                    assert(crate_names(shorter).contains(name));
                    let i = choose|i: int|
                        0 <= i < crate_names(shorter).len() && crate_names(shorter)[i] == name;
                    assert(crate_names(records)[i] == name);
                } else {
                    assert(crate_names(records)[records.len() - 1] == name);
                }
            }
            if crate_names(records).contains(name) {
                let i = choose|i: int|
                    0 <= i < crate_names(records).len() && crate_names(records)[i] == name;
                if i < shorter.len() {
                    assert(crate_names(shorter)[i] == name);
                    assert(crate_names(shorter).contains(name));
                    assert(has_name(earlier, name));
                }
                if has_name(earlier, name) {
                    let k = choose|k: int|
                        0 <= k < earlier.len() && #[trigger] earlier[k].name == name;
                    assert(graph[k].name == name);
                } else {
                    assert(graph[earlier.len() as int].name == name);
                }
            }
        }
        assert(names_differ(graph)) by {
            assert forall|i: int, j: int|
                0 <= i < graph.len() && 0 <= j < graph.len() && i != j implies (
            #[trigger] graph[i]).name != (#[trigger] graph[j]).name by {
                if i < earlier.len() && j < earlier.len() {
                    assert(earlier[i].name != earlier[j].name);
                } else if i < earlier.len() {
                    assert(earlier[i].name == graph[i].name);
                } else if j < earlier.len() {
                    assert(earlier[j].name == graph[j].name);
                }
            }
        }
        assert forall|k: int| 0 <= k < graph.len() implies is_node_of_first(
            records,
            names,
            #[trigger] graph[k],
        ) by {
            if k < earlier.len() {
                assert(is_node_of_first(shorter, names, earlier[k]));
                let at = choose|at: int|
                    #[trigger] is_first_record(shorter, at) && earlier[k] == node_of(
                        shorter[at],
                        names,
                    );
                assert forall|before: int| 0 <= before < at implies records[before].name
                    != records[at].name by {
                    assert(shorter[before].name != shorter[at].name);
                }
                assert(is_first_record(records, at) && graph[k] == node_of(records[at], names));
            } else {
                let at = records.len() - 1;
                assert(!has_name(earlier, last.name));
                assert forall|before: int| 0 <= before < at implies records[before].name
                    != records[at].name by {
                    if records[before].name == last.name {
                        assert(crate_names(shorter)[before] == last.name);
                        assert(crate_names(shorter).contains(last.name));
                    }
                }
                assert(is_first_record(records, at) && graph[k] == node_of(records[at], names));
            }
        }
        assert forall|at: int| #[trigger] is_first_record(records, at) implies graph.contains(
            node_of(records[at], names),
        ) by {
            if at < shorter.len() {
                assert forall|before: int| 0 <= before < at implies shorter[before].name
                    != shorter[at].name by {
                    assert(records[before].name != records[at].name);
                }
                assert(is_first_record(shorter, at));
                assert(earlier.contains(node_of(shorter[at], names)));
                let k = choose|k: int|
                    0 <= k < earlier.len() && earlier[k] == node_of(shorter[at], names);
                assert(graph[k] == node_of(records[at], names));
            } else {
                if has_name(earlier, last.name) {
                    assert(crate_names(shorter).contains(last.name));
                    let i = choose|i: int|
                        0 <= i < crate_names(shorter).len() && crate_names(shorter)[i]
                            == last.name;
                    assert(records[i].name == records[at].name);
                }
                assert(graph[earlier.len() as int] == node_of(records[at], names));
            }
        }
    }
}

/// A record whose name an earlier record has gives no further node and
/// changes none.
pub proof fn lemma_repeated_record(
    records: Seq<CrateMetadataView>,
    again: CrateMetadataView,
    names: Seq<Seq<char>>,
)
    requires
        crate_names(records).contains(again.name),
    ensures
        graph_from(records.push(again), names) == graph_from(records, names),
{
    lemma_graph_from(records, names);
    assert(records.push(again).drop_last() =~= records);
}

/// A package keeps of its declarations exactly those on packages of the
/// workspace.
pub proof fn lemma_edges_kept(declarations: Seq<DependencyView>, names: Seq<Seq<char>>)
    ensures
        forall|d: DependencyView|
            #[trigger] edges(declarations, names).contains(d) <==> declarations.contains(d)
                && names.contains(d.name),
    decreases declarations.len(),
{
    if declarations.len() > 0 {
        let shorter = declarations.drop_last();
        let earlier = edges(shorter, names);
        let last = declarations.last();
        lemma_edges_kept(shorter, names);
        assert forall|d: DependencyView|
            #[trigger] edges(declarations, names).contains(d) <==> declarations.contains(d)
                && names.contains(d.name) by {
            let kept = edges(declarations, names);
            if kept.contains(d) {
                let k = choose|k: int| 0 <= k < kept.len() && kept[k] == d;
                if k < earlier.len() {
                    assert(earlier[k] == d);
                    assert(earlier.contains(d));
                    let i = choose|i: int| 0 <= i < shorter.len() && shorter[i] == d;
                    assert(declarations[i] == d);
                } else {
                    assert(declarations[declarations.len() - 1] == d);
                }
            }
            if declarations.contains(d) && names.contains(d.name) {
                let i = choose|i: int| 0 <= i < declarations.len() && declarations[i] == d;
                if i < shorter.len() {
                    assert(shorter[i] == d);
                }
                if earlier.contains(d) {
                    let k = choose|k: int| 0 <= k < earlier.len() && earlier[k] == d;
                    assert(kept[k] == d);
                } else {
                    assert(kept[earlier.len() as int] == d);
                }
            }
        }
    }
}

/// However often a dependency is declared, with the same name and kind, the
/// package has it once.
pub proof fn lemma_edges_distinct(declarations: Seq<DependencyView>, names: Seq<Seq<char>>)
    ensures
        edges(declarations, names).no_duplicates(),
    decreases declarations.len(),
{
    if declarations.len() > 0 {
        let earlier = edges(declarations.drop_last(), names);
        lemma_edges_distinct(declarations.drop_last(), names);
        let kept = edges(declarations, names);
        assert forall|i: int, j: int|
            0 <= i < kept.len() && 0 <= j < kept.len() && i != j implies kept[i] != kept[j] by {
            if i < earlier.len() && j < earlier.len() {
                assert(earlier[i] != earlier[j]);
            } else if i < earlier.len() {
                assert(earlier.contains(earlier[i]));
            } else if j < earlier.len() {
                assert(earlier.contains(earlier[j]));
            }
        }
    }
}

/// A dependency that is declared a second time gives the package nothing
/// more: its edges are those of the declarations without the repetition.
pub proof fn lemma_edges_declared_again(
    before: Seq<DependencyView>,
    again: DependencyView,
    after: Seq<DependencyView>,
    names: Seq<Seq<char>>,
)
    requires
        before.contains(again),
    ensures
        edges(before.push(again) + after, names) == edges(before + after, names),
    decreases after.len(),
{
    if after.len() == 0 {
        lemma_edges_kept(before, names);
        assert(before.push(again) + after =~= before.push(again));
        assert(before + after =~= before);
        assert(before.push(again).drop_last() =~= before);
    } else {
        let shorter = after.drop_last();
        lemma_edges_declared_again(before, again, shorter, names);
        assert((before.push(again) + after).drop_last() =~= before.push(again) + shorter);
        assert((before + after).drop_last() =~= before + shorter);
    }
}

/// In the graph of a workspace no two nodes have the same name, every
/// dependency names a package of the workspace, and no node has a
/// dependency twice.
pub proof fn lemma_graph_of(crates: Seq<CrateMetadataView>)
    ensures
        names_differ(graph_of(crates)),
        closed(graph_of(crates)),
        forall|at: int|
            0 <= at < graph_of(crates).len() ==> (#[trigger] graph_of(crates)[at]).well_formed(),
{
    let graph = graph_of(crates);
    let names = crate_names(crates);
    lemma_graph_from(crates, names);
    assert forall|at: int| 0 <= at < graph.len() implies (#[trigger] graph[at]).well_formed() && (
    forall|e: int|
        0 <= e < graph[at].dependencies.len() ==> has_name(
            graph,
            #[trigger] graph[at].dependencies[e].name,
        )) by {
        assert(is_node_of_first(crates, names, graph[at]));
        let from = choose|from: int|
            #[trigger] is_first_record(crates, from) && graph[at] == node_of(crates[from], names);
        lemma_edges_distinct(declared(crates[from]), names);
        lemma_edges_kept(declared(crates[from]), names);
        assert forall|e: int| 0 <= e < graph[at].dependencies.len() implies has_name(
            graph,
            #[trigger] graph[at].dependencies[e].name,
        ) by {
            let dependency = graph[at].dependencies[e];
            assert(edges(declared(crates[from]), names).contains(dependency));
            assert(names.contains(dependency.name));
        }
    }
    assert(closed(graph)) by {
        assert forall|at: int, e: int|
            0 <= at < graph.len() && 0 <= e < graph[at].dependencies.len() implies has_name(
            graph,
            #[trigger] graph[at].dependencies[e].name,
        ) by {
            assert(graph[at].well_formed());
        }
    }
}

/// The elements of a list, each where it first occurs.
pub open spec fn first_occurrences<T>(list: Seq<T>) -> Seq<T>
    decreases list.len(),
{
    if list.len() == 0 {
        Seq::empty()
    } else {
        let earlier = first_occurrences(list.drop_last());
        if earlier.contains(list.last()) {
            earlier
        } else {
            earlier.push(list.last())
        }
    }
}

/// The first occurrences of a list hold what the list holds.
pub proof fn lemma_first_occurrences<T>(list: Seq<T>)
    ensures
        forall|x: T| #[trigger] first_occurrences(list).contains(x) <==> list.contains(x),
    decreases list.len(),
{
    if list.len() > 0 {
        let shorter = list.drop_last();
        let earlier = first_occurrences(shorter);
        let kept = first_occurrences(list);
        lemma_first_occurrences(shorter);
        assert forall|x: T| #[trigger] kept.contains(x) <==> list.contains(x) by {
            if kept.contains(x) {
                let k = choose|k: int| 0 <= k < kept.len() && kept[k] == x;
                if k < earlier.len() {
                    assert(earlier[k] == x);
                    assert(earlier.contains(x));
                    let i = choose|i: int| 0 <= i < shorter.len() && shorter[i] == x;
                    assert(list[i] == x);
                } else {
                    assert(list[list.len() - 1] == x);
                }
            }
            if list.contains(x) {
                let i = choose|i: int| 0 <= i < list.len() && list[i] == x;
                if i < shorter.len() {
                    assert(shorter[i] == x);
                }
                if earlier.contains(x) {
                    let k = choose|k: int| 0 <= k < earlier.len() && earlier[k] == x;
                    assert(kept[k] == x);
                } else {
                    assert(kept[earlier.len() as int] == x);
                }
            }
        }
    }
}

/// A package record with each dependency declared once: of the names it
/// lists, regularly and for development, each where it first occurs.
pub open spec fn declared_once(krate: CrateMetadataView) -> CrateMetadataView {
    CrateMetadataView {
        name: krate.name,
        dependencies: first_occurrences(krate.dependencies),
        dev_dependencies: first_occurrences(krate.dev_dependencies),
    }
}

/// Only the first occurrence of a declaration counts: a list of
/// declarations gives the edges that its first occurrences give.
pub proof fn lemma_edges_of_first_occurrences(
    declarations: Seq<DependencyView>,
    names: Seq<Seq<char>>,
)
    ensures
        edges(first_occurrences(declarations), names) == edges(declarations, names),
    decreases declarations.len(),
{
    if declarations.len() > 0 {
        let shorter = declarations.drop_last();
        let once = first_occurrences(shorter);
        let last = declarations.last();
        lemma_edges_of_first_occurrences(shorter, names);
        lemma_first_occurrences(shorter);
        lemma_edges_kept(shorter, names);
        if once.contains(last) {
            assert(shorter.contains(last));
            if names.contains(last.name) {
                assert(edges(shorter, names).contains(last));
            }
        } else {
            assert(once.push(last).drop_last() =~= once);
        }
    }
}

/// A name is among the tagged names, with the tag, where it is among the
/// names.
proof fn lemma_tagged_contains(names: Seq<Seq<char>>, dep_type: DependencyType, d: DependencyView)
    ensures
        tagged(names, dep_type).contains(d) <==> d.dep_type == dep_type && names.contains(d.name),
{
    if tagged(names, dep_type).contains(d) {
        let k = choose|k: int| 0 <= k < tagged(names, dep_type).len() && tagged(
            names,
            dep_type,
        )[k] == d;
        assert(names[k] == d.name);
    }
    if d.dep_type == dep_type && names.contains(d.name) {
        let k = choose|k: int| 0 <= k < names.len() && names[k] == d.name;
        assert(tagged(names, dep_type)[k] == d);
    }
}

/// Tagging names and keeping first occurrences come to the same in either
/// order.
proof fn lemma_tagged_first_occurrences(names: Seq<Seq<char>>, dep_type: DependencyType)
    ensures
        first_occurrences(tagged(names, dep_type)) == tagged(first_occurrences(names), dep_type),
    decreases names.len(),
{
    if names.len() == 0 {
        assert(tagged(first_occurrences(names), dep_type) =~= Seq::empty());
    } else {
        let shorter = names.drop_last();
        let last = DependencyView { name: names.last(), dep_type };
        lemma_tagged_first_occurrences(shorter, dep_type);
        assert(tagged(names, dep_type).drop_last() =~= tagged(shorter, dep_type));
        assert(tagged(names, dep_type).last() == last);
        lemma_tagged_contains(first_occurrences(shorter), dep_type, last);
        if first_occurrences(shorter).contains(names.last()) {
        } else {
            assert(tagged(first_occurrences(shorter).push(names.last()), dep_type) =~= tagged(
                first_occurrences(shorter),
                dep_type,
            ).push(last));
        }
    }
}

/// What a record declares, each declaration where it first occurs, is what
/// the record with each dependency declared once declares.
pub proof fn lemma_declared_once(krate: CrateMetadataView)
    ensures
        first_occurrences(declared(krate)) == declared(declared_once(krate)),
{
    lemma_declared_once_upto(krate.dependencies, krate.dev_dependencies);
}

proof fn lemma_declared_once_upto(regular: Seq<Seq<char>>, dev: Seq<Seq<char>>)
    ensures
        first_occurrences(
            tagged(regular, DependencyType::Regular) + tagged(dev, DependencyType::Dev),
        ) == tagged(first_occurrences(regular), DependencyType::Regular) + tagged(
            first_occurrences(dev),
            DependencyType::Dev,
        ),
    decreases dev.len(),
{
    let front = tagged(regular, DependencyType::Regular);
    let all = front + tagged(dev, DependencyType::Dev);
    let front_once = tagged(first_occurrences(regular), DependencyType::Regular);
    if dev.len() == 0 {
        lemma_tagged_first_occurrences(regular, DependencyType::Regular);
        assert(all =~= front);
        assert(front_once + tagged(first_occurrences(dev), DependencyType::Dev) =~= front_once);
    } else {
        let shorter = dev.drop_last();
        let last = DependencyView { name: dev.last(), dep_type: DependencyType::Dev };
        let back_once = tagged(first_occurrences(shorter), DependencyType::Dev);
        lemma_declared_once_upto(regular, shorter);
        assert(all.drop_last() =~= front + tagged(shorter, DependencyType::Dev));
        assert(all.last() == last);
        lemma_tagged_contains(first_occurrences(regular), DependencyType::Regular, last);
        lemma_tagged_contains(first_occurrences(shorter), DependencyType::Dev, last);
        assert((front_once + back_once).contains(last) <==> back_once.contains(last)) by {
            if (front_once + back_once).contains(last) {
                let k = choose|k: int|
                    0 <= k < (front_once + back_once).len() && (front_once + back_once)[k]
                        == last;
                if k < front_once.len() {
                    assert(front_once[k] == last);
                    assert(front_once.contains(last));
                } else {
                    assert(back_once[k - front_once.len()] == last);
                }
            }
            if back_once.contains(last) {
                let k = choose|k: int| 0 <= k < back_once.len() && back_once[k] == last;
                assert((front_once + back_once)[front_once.len() + k] == last);
            }
        }
        if first_occurrences(shorter).contains(dev.last()) {
        } else {
            assert(tagged(first_occurrences(shorter).push(dev.last()), DependencyType::Dev)
                =~= back_once.push(last));
            assert((front_once + back_once).push(last) =~= front_once + back_once.push(last));
        }
    }
}

/// Records that agree in their names and in the nodes they give, one by
/// one, give the same graph.
pub proof fn lemma_graph_from_same_nodes(
    a: Seq<CrateMetadataView>,
    a_names: Seq<Seq<char>>,
    b: Seq<CrateMetadataView>,
    b_names: Seq<Seq<char>>,
)
    requires
        a.len() == b.len(),
        forall|at: int|
            0 <= at < a.len() ==> (#[trigger] a[at]).name == b[at].name && node_of(a[at], a_names)
                == node_of(b[at], b_names),
    ensures
        graph_from(a, a_names) == graph_from(b, b_names),
    decreases a.len(),
{
    if a.len() > 0 {
        assert(a[a.len() - 1].name == b[a.len() - 1].name);
        let a_rest = a.drop_last();
        let b_rest = b.drop_last();
        assert forall|at: int| 0 <= at < a_rest.len() implies (#[trigger] a_rest[at]).name
            == b_rest[at].name && node_of(a_rest[at], a_names) == node_of(b_rest[at], b_names) by {
            assert(a[at].name == b[at].name);
        }
        lemma_graph_from_same_nodes(a_rest, a_names, b_rest, b_names);
    }
}

/// The records of a workspace with each dependency declared once.
pub open spec fn all_declared_once(crates: Seq<CrateMetadataView>) -> Seq<CrateMetadataView> {
    crates.map_values(|krate: CrateMetadataView| declared_once(krate))
}

/// However often the records of a workspace declare a dependency, with the
/// same name and kind, the graph is that of the records with each
/// dependency declared once.
pub proof fn lemma_graph_of_declared_once(crates: Seq<CrateMetadataView>)
    ensures
        graph_of(crates) == graph_of(all_declared_once(crates)),
{
    let once = all_declared_once(crates);
    let names = crate_names(crates);
    assert(crate_names(once) =~= names);
    assert forall|at: int| 0 <= at < crates.len() implies (#[trigger] crates[at]).name
        == once[at].name && node_of(crates[at], names) == node_of(once[at], names) by {
        lemma_edges_of_first_occurrences(declared(crates[at]), names);
        lemma_declared_once(crates[at]);
    }
    lemma_graph_from_same_nodes(crates, names, once, names);
}

/// Whether `name` is among `names`.
pub fn contains_name(names: &Vec<String>, name: &String) -> (found: bool)
    ensures
        found == names.deep_view().contains(name@),
{
    let mut i: usize = 0;
    while i < names.len()
        invariant
            i <= names.len(),
            forall|k: int| 0 <= k < i ==> names[k]@ != name@,
        decreases names.len() - i,
    {
        if names[i] == *name {
            assert(names.deep_view()[i as int] == name@);
            return true;
        }
        i += 1;
    }
    false
}

/// Whether `dependency` is among `dependencies`, by name and kind.
pub fn contains_dependency(dependencies: &Vec<Dependency>, dependency: &Dependency) -> (found:
    bool)
    ensures
        found == dependencies.deep_view().contains(dependency@),
{
    let mut i: usize = 0;
    while i < dependencies.len()
        invariant
            i <= dependencies.len(),
            forall|k: int| 0 <= k < i ==> dependencies[k]@ != dependency@,
        decreases dependencies.len() - i,
    {
        if dependencies[i] == *dependency {
            assert(dependencies.deep_view()[i as int] == dependency@);
            return true;
        }
        i += 1;
    }
    false
}

/// Adds to `dependencies` the edges that `targets`, declared with kind
/// `dep_type`, give a package of a workspace with the given package names.
fn add_edges(
    dependencies: &mut Vec<Dependency>,
    targets: &Vec<String>,
    dep_type: DependencyType,
    names: &Vec<String>,
    Ghost(before): Ghost<Seq<DependencyView>>,
)
    requires
        old(dependencies).deep_view() == edges(before, names.deep_view()),
    ensures
        final(dependencies).deep_view() == edges(
            before + tagged(targets.deep_view(), dep_type),
            names.deep_view(),
        ),
{
    let ghost added = tagged(targets.deep_view(), dep_type);
    let mut i: usize = 0;
    assert(before + added.take(0) =~= before);
    while i < targets.len()
        invariant
            i <= targets.len(),
            added == tagged(targets.deep_view(), dep_type),
            dependencies.deep_view() == edges(before + added.take(i as int), names.deep_view()),
        decreases targets.len() - i,
    {
        let dependency = Dependency { name: targets[i].clone(), dep_type };
        proof {
            let so_far = before + added.take(i as int);
            let next = before + added.take(i + 1);
            assert(next.drop_last() =~= so_far);
            assert(next.last() == dependency@);
        }
        if contains_name(names, &dependency.name) && !contains_dependency(
            dependencies,
            &dependency,
        ) {
            let ghost kept = dependencies.deep_view();
            dependencies.push(dependency);
            assert(dependencies.deep_view() =~= kept.push(dependency@));
        }
        i += 1;
    }
    assert(added.take(i as int) =~= added);
}

/// Builds the graph of a workspace. Each package name becomes one node,
/// which keeps, of the dependencies that the first record of that name
/// declares, those on packages of the workspace, each once; no node has been
/// processed. So no two nodes have the same name, and every dependency names
/// a node.
pub fn build_nodes(all_crates: Vec<CrateMetadata>) -> (nodes: Vec<Node>)
    ensures
        nodes.deep_view() == graph_of(all_crates.deep_view()),
        names_differ(nodes.deep_view()),
        closed(nodes.deep_view()),
        forall|at: int| 0 <= at < nodes.len() ==> (#[trigger] nodes.deep_view()[at]).well_formed(),
{
    let ghost records = all_crates.deep_view();
    proof {
        lemma_graph_of(records);
    }
    let mut names: Vec<String> = Vec::new();
    let mut i: usize = 0;
    while i < all_crates.len()
        invariant
            i <= all_crates.len(),
            names.deep_view() == crate_names(all_crates.deep_view()).take(i as int),
        decreases all_crates.len() - i,
    {
        let ghost collected = names.deep_view();
        names.push(all_crates[i].name.clone());
        assert(names.deep_view() =~= collected.push(all_crates[i as int].name@));
        assert(names.deep_view() =~= crate_names(all_crates.deep_view()).take(i + 1));
        i += 1;
    }
    assert(names.deep_view() =~= crate_names(all_crates.deep_view()));

    let mut nodes: Vec<Node> = Vec::new();
    let mut i: usize = 0;
    assert(records.take(0) =~= Seq::empty());
    while i < all_crates.len()
        invariant
            i <= all_crates.len(),
            records == all_crates.deep_view(),
            names.deep_view() == crate_names(records),
            nodes.deep_view() == graph_from(records.take(i as int), names.deep_view()),
        decreases all_crates.len() - i,
    {
        let krate = &all_crates[i];
        proof {
            assert(records.take(i + 1).drop_last() =~= records.take(i as int));
            assert(records.take(i + 1).last() == krate@);
        }
        if find_node(&nodes, &krate.name).is_none() {
            let mut dependencies: Vec<Dependency> = Vec::new();
            let ghost regular = tagged(krate.dependencies.deep_view(), DependencyType::Regular);
            assert(dependencies.deep_view() =~= edges(Seq::empty(), names.deep_view()));
            add_edges(
                &mut dependencies,
                &krate.dependencies,
                DependencyType::Regular,
                &names,
                Ghost(Seq::empty()),
            );
            assert(Seq::<DependencyView>::empty() + regular =~= regular);
            add_edges(
                &mut dependencies,
                &krate.dev_dependencies,
                DependencyType::Dev,
                &names,
                Ghost(regular),
            );
            let node = Node { name: krate.name.clone(), dependencies, state: State::NotProcessed };
            assert(node@ == node_of(krate@, names.deep_view()));
            let ghost built = nodes.deep_view();
            nodes.push(node);
            assert(nodes.deep_view() =~= built.push(node@));
        }
        i += 1;
    }
    assert(records.take(records.len() as int) =~= records);
    nodes
}

} // verus!
