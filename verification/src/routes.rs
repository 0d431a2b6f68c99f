//! Routes: what the walks over a graph find, said without walking.

use vstd::prelude::*;
use crate::links::{linked, Link};
use crate::model::DependencyType;
use crate::walk::{
    entered, entered_links, followed, is_path, lemma_path_push, walk, walk_links, walks,
};

verus! {

/// Whether a walk that stands `depth` nodes deep on `from` follows a link
/// from there to `to`.
pub open spec fn leads(links: Seq<Seq<Link>>, from: int, to: int, depth: int) -> bool {
    exists|e: int|
        0 <= e < links[from].len() && (#[trigger] links[from][e]).target == to && followed(
            depth,
            links[from][e].kind,
        )
}

/// Whether `path` is a route: a path from a root on which a walk that
/// follows the links reaches each node from the one before it.
pub open spec fn is_route(links: Seq<Seq<Link>>, path: Seq<int>) -> bool {
    &&& path.len() > 0
    &&& is_path(links.len(), path)
    &&& forall|k: int| 0 <= k < path.len() - 1 ==> leads(links, #[trigger] path[k], path[k + 1], k)
}

/// Whether a route closes: a walk follows a link from its last node back
/// to a node on it.
pub open spec fn closes(links: Seq<Seq<Link>>, path: Seq<int>) -> bool {
    exists|to: int| path.contains(to) && #[trigger] leads(links, path.last(), to, path.len() - 1)
}

/// A node without dependencies starts no cycle: the walk from it reports
/// nothing.
pub proof fn lemma_no_links_no_walk(links: Seq<Seq<Link>>, root: int)
    requires
        linked(links),
        0 <= root < links.len(),
        links[root].len() == 0,
    ensures
        walk(links, Seq::empty(), root) == Seq::<Seq<int>>::empty(),
{
    let alone = Seq::<int>::empty().push(root);
    lemma_path_push(links.len(), Seq::empty(), root);
    assert(walk(links, Seq::empty(), root) == walk_links(links, alone, 0));
}

/// A node without dependencies lies on no route that closes.
pub proof fn lemma_no_links_on_no_closing_route(links: Seq<Seq<Link>>, route: Seq<int>, at: int)
    requires
        is_route(links, route),
        closes(links, route),
        0 <= at < links.len(),
        links[at].len() == 0,
    ensures
        !route.contains(at),
{
    if route.contains(at) {
        let k = choose|k: int| 0 <= k < route.len() && route[k] == at;
        if k < route.len() - 1 {
            assert(leads(links, route[k], route[k + 1], k));
        } else {
            let to = choose|to: int|
                route.contains(to) && #[trigger] leads(links, route.last(), to, route.len() - 1);
            assert(leads(links, at, to, route.len() - 1));
        }
    }
}

/// Whether `from` has a link to `to` that is no dev dependency.
pub open spec fn leads_beyond_dev(links: Seq<Seq<Link>>, from: int, to: int) -> bool {
    exists|e: int|
        0 <= e < links[from].len() && (#[trigger] links[from][e]).target == to
            && links[from][e].kind != DependencyType::Dev
}

/// A dev dependency is followed from the root of a walk only: on a route
/// that closes, each node below the first is joined to the next by a
/// dependency that is no dev dependency, and so is the last node of a route
/// of two or more to the node that it closes on.
pub proof fn lemma_dev_only_at_root(links: Seq<Seq<Link>>, route: Seq<int>)
    requires
        is_route(links, route),
        closes(links, route),
    ensures
        forall|k: int|
            1 <= k < route.len() - 1 ==> leads_beyond_dev(links, #[trigger] route[k], route[k + 1]),
        route.len() >= 2 ==> exists|to: int|
            route.contains(to) && #[trigger] leads_beyond_dev(links, route.last(), to),
{
    assert forall|k: int| 1 <= k < route.len() - 1 implies leads_beyond_dev(
        links,
        #[trigger] route[k],
        route[k + 1],
    ) by {
        assert(leads(links, route[k], route[k + 1], k));
    }
    if route.len() >= 2 {
        let to = choose|to: int|
            route.contains(to) && #[trigger] leads(links, route.last(), to, route.len() - 1);
        assert(leads_beyond_dev(links, route.last(), to));
    }
}

/// A route grows by a node to which a walk follows a link from its end.
proof fn lemma_route_push(links: Seq<Seq<Link>>, path: Seq<int>, at: int)
    requires
        path.len() == 0 || is_route(links, path),
        is_path(links.len(), path),
        0 <= at < links.len(),
        !path.contains(at),
        path.len() > 0 ==> leads(links, path.last(), at, path.len() - 1),
    ensures
        is_route(links, path.push(at)),
{
    let longer = path.push(at);
    lemma_path_push(links.len(), path, at);
    assert forall|k: int| 0 <= k < longer.len() - 1 implies leads(
        links,
        #[trigger] longer[k],
        longer[k + 1],
        k,
    ) by {
        if k < path.len() - 1 {
            assert(leads(links, path[k], path[k + 1], k));
        }
    }
}

/// What a walk reports is a route that closes.
pub proof fn lemma_walk_sound(links: Seq<Seq<Link>>, path: Seq<int>, at: int)
    requires
        linked(links),
        is_path(links.len(), path),
        path.len() == 0 || is_route(links, path),
        0 <= at < links.len(),
        path.len() > 0 ==> leads(links, path.last(), at, path.len() - 1),
    ensures
        forall|k: int|
            0 <= k < walk(links, path, at).len() ==> {
                &&& is_route(links, #[trigger] walk(links, path, at)[k])
                &&& closes(links, walk(links, path, at)[k])
            },
    decreases links.len() - path.len(), 0nat, 0nat,
{
    if path.contains(at) {
        assert(walk(links, path, at) == seq![path]);
        assert(closes(links, path));
    } else {
        lemma_path_push(links.len(), path, at);
        lemma_route_push(links, path, at);
        lemma_walk_links_sound(links, path.push(at), links[at].len());
        assert(walk(links, path, at) == walk_links(links, path.push(at), links[at].len()));
    }
}

/// What a walk reports while it follows links is a route that closes.
pub proof fn lemma_walk_links_sound(links: Seq<Seq<Link>>, path: Seq<int>, upto: nat)
    requires
        linked(links),
        is_route(links, path),
        upto <= links[path.last()].len(),
    ensures
        forall|k: int|
            0 <= k < walk_links(links, path, upto).len() ==> {
                &&& is_route(links, #[trigger] walk_links(links, path, upto)[k])
                &&& closes(links, walk_links(links, path, upto)[k])
            },
    decreases links.len() - path.len(), 1nat, upto,
{
    if upto > 0 {
        let link = links[path.last()][upto - 1];
        let before = walk_links(links, path, (upto - 1) as nat);
        lemma_walk_links_sound(links, path, (upto - 1) as nat);
        if followed(path.len() - 1, link.kind) {
            let here = walk(links, path, link.target);
            assert(leads(links, path.last(), link.target, path.len() - 1));
            lemma_walk_sound(links, path, link.target);
            assert(walk_links(links, path, upto) == before + here);
            assert forall|k: int| 0 <= k < (before + here).len() implies {
                &&& is_route(links, #[trigger] (before + here)[k])
                &&& closes(links, (before + here)[k])
            } by {
                if k < before.len() {
                    assert((before + here)[k] == before[k]);
                } else {
                    assert((before + here)[k] == here[k - before.len()]);
                }
            }
        } else {
            assert(walk_links(links, path, upto) =~= before);
        }
    }
}

/// What a walk has reported after some links it has still reported after
/// more.
pub proof fn lemma_walk_links_grows(
    links: Seq<Seq<Link>>,
    path: Seq<int>,
    upto: nat,
    later: nat,
    found: Seq<int>,
)
    requires
        linked(links),
        is_path(links.len(), path),
        path.len() > 0,
        upto <= later <= links[path.last()].len(),
        walk_links(links, path, upto).contains(found),
    ensures
        walk_links(links, path, later).contains(found),
    decreases later - upto,
{
    if upto < later {
        lemma_walk_links_grows(links, path, upto, (later - 1) as nat, found);
        let before = walk_links(links, path, (later - 1) as nat);
        let k = choose|k: int| 0 <= k < before.len() && before[k] == found;
        let link = links[path.last()][later - 1];
        if followed(path.len() - 1, link.kind) {
            let here = walk(links, path, link.target);
            assert(walk_links(links, path, later) == before + here);
            assert((before + here)[k] == found);
        } else {
            assert(walk_links(links, path, later) =~= before);
        }
    }
}

/// A walk that stands on the first `upto` nodes of a route that closes, and
/// visits the next, reports the route.
pub proof fn lemma_walk_complete(links: Seq<Seq<Link>>, route: Seq<int>, upto: int)
    requires
        linked(links),
        is_route(links, route),
        closes(links, route),
        0 <= upto < route.len(),
    ensures
        walk(links, route.take(upto), route[upto]).contains(route),
    decreases route.len() - upto,
{
    let above = route.take(upto);
    let at = route[upto];
    let below = route.take(upto + 1);
    assert(is_path(links.len(), above));
    assert(!above.contains(at)) by {
        if above.contains(at) {
            let k = choose|k: int| 0 <= k < above.len() && above[k] == at;
            assert(route[k] == route[upto]);
        }
    }
    assert(above.push(at) =~= below);
    lemma_path_push(links.len(), above, at);
    assert(walk(links, above, at) == walk_links(links, below, links[at].len()));
    if upto + 1 == route.len() {
        assert(below =~= route);
        let to = choose|to: int|
            route.contains(to) && #[trigger] leads(links, route.last(), to, route.len() - 1);
        let e = choose|e: int|
            0 <= e < links[at].len() && (#[trigger] links[at][e]).target == to && followed(
                route.len() - 1,
                links[at][e].kind,
            );
        assert(walk(links, route, to) == seq![route]);
        let before = walk_links(links, route, e as nat);
        assert(walk_links(links, route, (e + 1) as nat) == before + seq![route]);
        assert((before + seq![route])[before.len() as int] == route);
        lemma_walk_links_grows(links, route, (e + 1) as nat, links[at].len(), route);
    } else {
        let next = route[upto + 1];
        assert(leads(links, route[upto], route[upto + 1], upto));
        let e = choose|e: int|
            0 <= e < links[at].len() && (#[trigger] links[at][e]).target == next && followed(
                upto,
                links[at][e].kind,
            );
        lemma_walk_complete(links, route, upto + 1);
        let here = walk(links, below, next);
        let k = choose|k: int| 0 <= k < here.len() && here[k] == route;
        let before = walk_links(links, below, e as nat);
        assert(walk_links(links, below, (e + 1) as nat) == before + here);
        assert((before + here)[before.len() + k] == route);
        lemma_walk_links_grows(links, below, (e + 1) as nat, links[at].len(), route);
    }
}

/// The walks from every node report exactly the routes that close.
pub proof fn lemma_walks_find_closing_routes(links: Seq<Seq<Link>>, route: Seq<int>)
    requires
        linked(links),
    ensures
        walks(links, links.len()).contains(route) <==> is_route(links, route) && closes(
            links,
            route,
        ),
{
    if walks(links, links.len()).contains(route) {
        lemma_walks_sound(links, links.len());
    }
    if is_route(links, route) && closes(links, route) {
        lemma_walk_complete(links, route, 0);
        assert(route.take(0) =~= Seq::empty());
        lemma_walks_hold(links, links.len(), route[0], route);
    }
}

/// What the walks from the first `upto` nodes report are routes that close.
proof fn lemma_walks_sound(links: Seq<Seq<Link>>, upto: nat)
    requires
        linked(links),
        upto <= links.len(),
    ensures
        forall|k: int|
            0 <= k < walks(links, upto).len() ==> {
                &&& is_route(links, #[trigger] walks(links, upto)[k])
                &&& closes(links, walks(links, upto)[k])
            },
    decreases upto,
{
    if upto > 0 {
        let before = walks(links, (upto - 1) as nat);
        let here = walk(links, Seq::empty(), upto - 1);
        lemma_walks_sound(links, (upto - 1) as nat);
        lemma_walk_sound(links, Seq::empty(), upto - 1);
        assert forall|k: int| 0 <= k < (before + here).len() implies {
            &&& is_route(links, #[trigger] (before + here)[k])
            &&& closes(links, (before + here)[k])
        } by {
            if k < before.len() {
                assert((before + here)[k] == before[k]);
            } else {
                assert((before + here)[k] == here[k - before.len()]);
            }
        }
    }
}

/// The walks from the first `upto` nodes report what the walk from one of
/// them reports.
proof fn lemma_walks_hold(links: Seq<Seq<Link>>, upto: nat, root: int, found: Seq<int>)
    requires
        0 <= root < upto,
        walk(links, Seq::empty(), root).contains(found),
    ensures
        walks(links, upto).contains(found),
    decreases upto,
{
    let before = walks(links, (upto - 1) as nat);
    let here = walk(links, Seq::empty(), upto - 1);
    if root == upto - 1 {
        let k = choose|k: int| 0 <= k < here.len() && here[k] == found;
        assert((before + here)[before.len() + k] == found);
    } else {
        lemma_walks_hold(links, (upto - 1) as nat, root, found);
        let k = choose|k: int| 0 <= k < before.len() && before[k] == found;
        assert((before + here)[k] == found);
    }
}

/// Whether a walk from `root` reaches `node`: a route leads from the one
/// to the other.
pub open spec fn reaches(links: Seq<Seq<Link>>, root: int, node: int) -> bool {
    exists|route: Seq<int>|
        #[trigger] is_route(links, route) && route[0] == root && route.last() == node
}

/// Whether `route` goes on from `path` with `at`.
spec fn goes_on(route: Seq<int>, path: Seq<int>, at: int) -> bool {
    &&& route.len() > path.len()
    &&& route.take(path.len() as int) == path
    &&& route[path.len() as int] == at
}

/// Each node that a walk enters is the end of a route that goes on from
/// where the walk stood.
proof fn lemma_entered_sound(links: Seq<Seq<Link>>, path: Seq<int>, at: int, node: int)
    requires
        linked(links),
        is_path(links.len(), path),
        path.len() == 0 || is_route(links, path),
        0 <= at < links.len(),
        path.len() > 0 ==> leads(links, path.last(), at, path.len() - 1),
        entered(links, path, at).contains(node),
    ensures
        exists|route: Seq<int>|
            #[trigger] is_route(links, route) && goes_on(route, path, at) && route.last() == node,
    decreases links.len() - path.len(), 0nat, 0nat,
{
    let below = path.push(at);
    lemma_path_push(links.len(), path, at);
    lemma_route_push(links, path, at);
    assert(below.take(path.len() as int) =~= path);
    if node == at {
        assert(is_route(links, below) && goes_on(below, path, at) && below.last() == node);
    } else {
        lemma_entered_links_sound(links, below, links[at].len(), node);
        let route = choose|route: Seq<int>|
            #[trigger] is_route(links, route) && route.len() > below.len() && route.take(
                below.len() as int,
            ) == below && route.last() == node;
        assert(route.take(path.len() as int) =~= below.take(path.len() as int));
        assert(route[path.len() as int] == route.take(below.len() as int)[path.len() as int]);
        assert(is_route(links, route) && goes_on(route, path, at) && route.last() == node);
    }
}

/// Each node that a walk enters while it follows links is the end of a
/// route that goes on from where the walk stood.
proof fn lemma_entered_links_sound(links: Seq<Seq<Link>>, path: Seq<int>, upto: nat, node: int)
    requires
        linked(links),
        is_route(links, path),
        upto <= links[path.last()].len(),
        entered_links(links, path, upto).contains(node),
    ensures
        exists|route: Seq<int>|
            #[trigger] is_route(links, route) && route.len() > path.len() && route.take(
                path.len() as int,
            ) == path && route.last() == node,
    decreases links.len() - path.len(), 1nat, upto,
{
    let link = links[path.last()][upto - 1];
    if entered_links(links, path, (upto - 1) as nat).contains(node) {
        lemma_entered_links_sound(links, path, (upto - 1) as nat, node);
    } else {
        assert(leads(links, path.last(), link.target, path.len() - 1));
        lemma_entered_sound(links, path, link.target, node);
        let route = choose|route: Seq<int>|
            #[trigger] is_route(links, route) && goes_on(route, path, link.target) && route.last()
                == node;
        assert(is_route(links, route) && route.len() > path.len() && route.take(
            path.len() as int,
        ) == path && route.last() == node);
    }
}

/// What a walk has entered after some links it has still entered after
/// more.
proof fn lemma_entered_links_grows(
    links: Seq<Seq<Link>>,
    path: Seq<int>,
    upto: nat,
    later: nat,
    node: int,
)
    requires
        linked(links),
        is_path(links.len(), path),
        path.len() > 0,
        upto <= later <= links[path.last()].len(),
        entered_links(links, path, upto).contains(node),
    ensures
        entered_links(links, path, later).contains(node),
    decreases later - upto,
{
    if upto < later {
        lemma_entered_links_grows(links, path, upto, (later - 1) as nat, node);
    }
}

/// A walk that stands on the first `upto` nodes of a route, and visits the
/// next, enters every further node of the route.
proof fn lemma_entered_complete(links: Seq<Seq<Link>>, route: Seq<int>, upto: int, further: int)
    requires
        linked(links),
        is_route(links, route),
        0 <= upto <= further < route.len(),
    ensures
        entered(links, route.take(upto), route[upto]).contains(route[further]),
    decreases route.len() - upto,
{
    let above = route.take(upto);
    let at = route[upto];
    let below = route.take(upto + 1);
    assert(is_path(links.len(), above));
    assert(!above.contains(at)) by {
        if above.contains(at) {
            let k = choose|k: int| 0 <= k < above.len() && above[k] == at;
            assert(route[k] == route[upto]);
        }
    }
    assert(above.push(at) =~= below);
    lemma_path_push(links.len(), above, at);
    assert(entered(links, above, at) == entered_links(links, below, links[at].len()).insert(at));
    if upto < further {
        let next = route[upto + 1];
        assert(leads(links, route[upto], route[upto + 1], upto));
        let e = choose|e: int|
            0 <= e < links[at].len() && (#[trigger] links[at][e]).target == next && followed(
                upto,
                links[at][e].kind,
            );
        lemma_entered_complete(links, route, upto + 1, further);
        assert(entered_links(links, below, (e + 1) as nat).contains(route[further]));
        lemma_entered_links_grows(links, below, (e + 1) as nat, links[at].len(), route[further]);
    }
}

/// The walk from a node enters exactly the nodes that it reaches.
pub proof fn lemma_entered_are_reached(links: Seq<Seq<Link>>, root: int, node: int)
    requires
        linked(links),
        0 <= root < links.len(),
    ensures
        entered(links, Seq::empty(), root).contains(node) <==> reaches(links, root, node),
{
    if entered(links, Seq::empty(), root).contains(node) {
        lemma_entered_sound(links, Seq::empty(), root, node);
        let route = choose|route: Seq<int>|
            #[trigger] is_route(links, route) && goes_on(route, Seq::empty(), root)
                && route.last() == node;
        assert(is_route(links, route) && route[0] == root && route.last() == node);
    }
    if reaches(links, root, node) {
        let route = choose|route: Seq<int>|
            #[trigger] is_route(links, route) && route[0] == root && route.last() == node;
        lemma_entered_complete(links, route, 0, route.len() - 1);
        assert(route.take(0) =~= Seq::empty());
    }
}

} // verus!
