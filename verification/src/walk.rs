//! What a depth-first walk over the links of a graph finds and enters.

use vstd::prelude::*;
use crate::links::{linked, Link};
use crate::model::DependencyType;

verus! {

/// Whether a link of kind `kind` is followed from a node with `depth` nodes
/// above it on the path. From the root of a walk every link is followed,
/// below it every link but a dev dependency.
pub open spec fn followed(depth: int, kind: DependencyType) -> bool {
    depth == 0 || kind != DependencyType::Dev
}

/// Whether `path` lists nodes of a graph of `count` nodes, none twice.
pub open spec fn is_path(count: nat, path: Seq<int>) -> bool {
    &&& path.no_duplicates()
    &&& forall|k: int| 0 <= k < path.len() ==> 0 <= #[trigger] path[k] < count
}

/// A path is no longer than the graph has nodes.
pub proof fn lemma_path_length(count: nat, path: Seq<int>)
    requires
        is_path(count, path),
    ensures
        path.len() <= count,
{
    let all = vstd::set_lib::set_int_range(0, count as int);
    path.unique_seq_to_set();
    vstd::set_lib::lemma_int_range(0, count as int);
    assert(path.to_set().subset_of(all)) by {
        assert forall|i: int| path.to_set().contains(i) implies all.contains(i) by {
            let k = choose|k: int| 0 <= k < path.len() && path[k] == i;
            assert(0 <= path[k] < count);
        }
    }
    vstd::set_lib::lemma_len_subset(path.to_set(), all);
}

/// A path grows by a node that is not on it.
pub proof fn lemma_path_push(count: nat, path: Seq<int>, at: int)
    requires
        is_path(count, path),
        0 <= at < count,
        !path.contains(at),
    ensures
        is_path(count, path.push(at)),
        path.len() < count,
{
    let longer = path.push(at);
    assert forall|i: int, j: int|
        0 <= i < longer.len() && 0 <= j < longer.len() && i != j implies longer[i] != longer[j] by {
        if i < path.len() {
            assert(path.contains(path[i]));
        }
        if j < path.len() {
            assert(path.contains(path[j]));
        }
    }
    assert forall|k: int| 0 <= k < longer.len() implies 0 <= #[trigger] longer[k] < count by {
        if k < path.len() {
            assert(longer[k] == path[k]);
        }
    }
    lemma_path_length(count, longer);
}

/// The paths on which a walk that stands on `path` and visits `at` finds
/// a cycle. A node that is on the path closes a cycle: the walk reports the
/// path and goes no further. Any other node is entered: it joins the path,
/// and its links are walked in order.
pub open spec fn walk(links: Seq<Seq<Link>>, path: Seq<int>, at: int) -> Seq<Seq<int>>
    decreases links.len() - path.len(), 0nat, 0nat,
    when linked(links) && is_path(links.len(), path) && 0 <= at < links.len()
    via walk_decreases
{
    if path.contains(at) {
        seq![path]
    } else {
        walk_links(links, path.push(at), links[at].len())
    }
}

/// The paths on which a walk finds a cycle while it follows the first
/// `upto` links of the last node of `path`.
pub open spec fn walk_links(links: Seq<Seq<Link>>, path: Seq<int>, upto: nat) -> Seq<Seq<int>>
    decreases links.len() - path.len(), 1nat, upto,
    when linked(links) && is_path(links.len(), path) && path.len() > 0 && upto
        <= links[path.last()].len()
{
    if upto == 0 {
        Seq::empty()
    } else {
        let link = links[path.last()][upto - 1];
        walk_links(links, path, (upto - 1) as nat) + if followed(path.len() - 1, link.kind) {
            walk(links, path, link.target)
        } else {
            Seq::empty()
        }
    }
}

/// The paths on which the walks that start at each of the first `upto`
/// nodes, in order, find a cycle.
pub open spec fn walks(links: Seq<Seq<Link>>, upto: nat) -> Seq<Seq<int>>
    decreases upto,
{
    if upto == 0 {
        Seq::empty()
    } else {
        walks(links, (upto - 1) as nat) + walk(links, Seq::empty(), upto - 1)
    }
}

#[via_fn]
proof fn walk_decreases(links: Seq<Seq<Link>>, path: Seq<int>, at: int) {
    if !path.contains(at) {
        lemma_path_push(links.len(), path, at);
    }
}

/// The nodes that a walk which stands on `path` and visits `at` enters.
pub open spec fn entered(links: Seq<Seq<Link>>, path: Seq<int>, at: int) -> Set<int>
    decreases links.len() - path.len(), 0nat, 0nat,
    when linked(links) && is_path(links.len(), path) && 0 <= at < links.len()
    via entered_decreases
{
    if path.contains(at) {
        Set::empty()
    } else {
        entered_links(links, path.push(at), links[at].len()).insert(at)
    }
}

/// The nodes that a walk enters while it follows the first `upto` links of
/// the last node of `path`.
pub open spec fn entered_links(links: Seq<Seq<Link>>, path: Seq<int>, upto: nat) -> Set<int>
    decreases links.len() - path.len(), 1nat, upto,
    when linked(links) && is_path(links.len(), path) && path.len() > 0 && upto
        <= links[path.last()].len()
{
    if upto == 0 {
        Set::empty()
    } else {
        let link = links[path.last()][upto - 1];
        entered_links(links, path, (upto - 1) as nat).union(
            if followed(path.len() - 1, link.kind) {
                entered(links, path, link.target)
            } else {
                Set::empty()
            },
        )
    }
}

#[via_fn]
proof fn entered_decreases(links: Seq<Seq<Link>>, path: Seq<int>, at: int) {
    if !path.contains(at) {
        lemma_path_push(links.len(), path, at);
    }
}

/// Every path that a walk reports is a path of the graph.
pub proof fn lemma_walk_paths(links: Seq<Seq<Link>>, path: Seq<int>, at: int)
    requires
        linked(links),
        is_path(links.len(), path),
        0 <= at < links.len(),
    ensures
        forall|k: int|
            0 <= k < walk(links, path, at).len() ==> is_path(
                links.len(),
                #[trigger] walk(links, path, at)[k],
            ),
    decreases links.len() - path.len(), 0nat, 0nat,
{
    if path.contains(at) {
        assert(walk(links, path, at) == seq![path]);
    } else {
        lemma_path_push(links.len(), path, at);
        lemma_walk_links_paths(links, path.push(at), links[at].len());
        assert(walk(links, path, at) == walk_links(links, path.push(at), links[at].len()));
    }
}

/// Every path that a walk reports while it follows links is a path of the
/// graph.
pub proof fn lemma_walk_links_paths(links: Seq<Seq<Link>>, path: Seq<int>, upto: nat)
    requires
        linked(links),
        is_path(links.len(), path),
        path.len() > 0,
        upto <= links[path.last()].len(),
    ensures
        forall|k: int|
            0 <= k < walk_links(links, path, upto).len() ==> is_path(
                links.len(),
                #[trigger] walk_links(links, path, upto)[k],
            ),
    decreases links.len() - path.len(), 1nat, upto,
{
    if upto > 0 {
        let link = links[path.last()][upto - 1];
        let before = walk_links(links, path, (upto - 1) as nat);
        lemma_walk_links_paths(links, path, (upto - 1) as nat);
        if followed(path.len() - 1, link.kind) {
            let here = walk(links, path, link.target);
            lemma_walk_paths(links, path, link.target);
            assert(walk_links(links, path, upto) == before + here);
            assert forall|k: int| 0 <= k < (before + here).len() implies is_path(
                links.len(),
                #[trigger] (before + here)[k],
            ) by {
                if k < before.len() {
                    assert((before + here)[k] == before[k]);
                } else {
                    assert((before + here)[k] == here[k - before.len()]);
                }
            }
        } else {
            assert(walk_links(links, path, upto) =~= before);
        }
    }
}

/// From a node with one link, a walk goes where the link leads, if it
/// follows the link, and reports what it finds from there.
pub proof fn lemma_walk_only_link(links: Seq<Seq<Link>>, path: Seq<int>, at: int)
    requires
        linked(links),
        is_path(links.len(), path),
        0 <= at < links.len(),
        !path.contains(at),
        links[at].len() == 1,
    ensures
        is_path(links.len(), path.push(at)),
        walk(links, path, at) == if followed(path.len() as int, links[at][0].kind) {
            walk(links, path.push(at), links[at][0].target)
        } else {
            Seq::empty()
        },
{
    let below = path.push(at);
    lemma_path_push(links.len(), path, at);
    assert(walk(links, path, at) == walk_links(links, below, 1));
    assert(walk_links(links, below, 0) == Seq::<Seq<int>>::empty());
    if followed(path.len() as int, links[at][0].kind) {
        assert(walk_links(links, below, 1) =~= walk(links, below, links[at][0].target));
    } else {
        assert(walk_links(links, below, 1) =~= Seq::<Seq<int>>::empty());
    }
}

} // verus!
