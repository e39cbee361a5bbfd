//! Routing between two vehicle nodes of the road network.
//!
//! From a node, the route may go to each node that one of the node's links
//! refers to.  The cost of a step and the estimate of the cost still to pay
//! come from a distance function that the caller supplies; the search is
//! the A* search of [`crate::search`].
use vstd::prelude::*;

use crate::network::{
    VehicleLink, VehicleLinkView, VehicleNode, VehicleNodeView, count_in, is_link_object, link_map,
    link_of, link_seq, links_referencing, links_view, node_count, node_map, nodes_view, ref_guids,
    str_seq,
};
use crate::scene::TopLevelObject;
use crate::scene::Position;
use crate::search::{
    RouteGraph, edges_view, admissible, astar_result, cheapest, found_view, walk_cost, graph_well_formed, has_edge, is_walk,
    reachable, search_outcome, total, walk_weights,
};
use crate::strmap::StrMap;

verus! {

/// The guids named by a list of links, link after link, each link's
/// references in order.
pub open spec fn flat_refs(ls: Seq<VehicleLinkView>) -> Seq<Seq<char>>
    decreases ls.len(),
{
    if ls.len() == 0 {
        Seq::empty()
    } else {
        flat_refs(ls.drop_last()) + ls.last().refs
    }
}

/// The guids named by the links stored under `g`, in order.
pub open spec fn next_refs(lv: Map<Seq<char>, Seq<VehicleLinkView>>, g: Seq<char>) -> Seq<Seq<char>> {
    if lv.contains_key(g) {
        flat_refs(lv[g])
    } else {
        Seq::empty()
    }
}

/// A route may go from `g` to `h`: a link stored under `g` names a node
/// whose guid is `h`.
pub open spec fn step(
    nv: Map<Seq<char>, VehicleNodeView>,
    lv: Map<Seq<char>, Seq<VehicleLinkView>>,
    g: Seq<char>,
    h: Seq<char>,
) -> bool {
    &&& lv.contains_key(g)
    &&& exists|k: int|
        0 <= k < next_refs(lv, g).len() && nv.contains_key(#[trigger] next_refs(lv, g)[k]) && nv[next_refs(lv, g)[k]].guid == h
}

/// `p` is a route: it has a node, and each of its nodes steps to the next.
pub open spec fn is_route(
    nv: Map<Seq<char>, VehicleNodeView>,
    lv: Map<Seq<char>, Seq<VehicleLinkView>>,
    p: Seq<Seq<char>>,
) -> bool {
    &&& p.len() >= 1
    &&& forall|k: int| 0 <= k < p.len() - 1 ==> step(nv, lv, #[trigger] p[k], p[k + 1])
}

/// Some route leads from `s` to `t`.
pub open spec fn route_exists(
    nv: Map<Seq<char>, VehicleNodeView>,
    lv: Map<Seq<char>, Seq<VehicleLinkView>>,
    s: Seq<char>,
    t: Seq<char>,
) -> bool {
    exists|p: Seq<Seq<char>>| #[trigger] is_route(nv, lv, p) && p[0] == s && p.last() == t
}

/// `r` names a node whose own guid is a node too.
pub open spec fn ref_known(nv: Map<Seq<char>, VehicleNodeView>, r: Seq<char>) -> bool {
    nv.contains_key(r) && nv.contains_key(nv[r].guid)
}

/// The successors of `g` can be listed: `g` has an entry in the link map,
/// every guid its links name is a node, and so is that node's own guid.
pub open spec fn expandable(
    nv: Map<Seq<char>, VehicleNodeView>,
    lv: Map<Seq<char>, Seq<VehicleLinkView>>,
    g: Seq<char>,
) -> bool {
    &&& lv.contains_key(g)
    &&& forall|k: int| 0 <= k < next_refs(lv, g).len() ==> ref_known(nv, #[trigger] next_refs(lv, g)[k])
}

/// No node of `q` but its last is `goal`.
pub open spec fn avoids_before_end(q: Seq<Seq<char>>, goal: Seq<char>) -> bool {
    forall|k: int| 0 <= k < q.len() - 1 ==> #[trigger] q[k] != goal
}

/// Some route leads from `s` to `g` without passing through `goal` on the way.
pub open spec fn reaches_before(
    nv: Map<Seq<char>, VehicleNodeView>,
    lv: Map<Seq<char>, Seq<VehicleLinkView>>,
    s: Seq<char>,
    g: Seq<char>,
    goal: Seq<char>,
) -> bool {
    exists|q: Seq<Seq<char>>|
        #[trigger] is_route(nv, lv, q) && q[0] == s && q.last() == g && avoids_before_end(q, goal)
}

/// Every node other than `goal` that a route from `s` reaches without
/// passing through `goal` can be expanded: the nodes a search from `s` for
/// `goal` may expand.
pub open spec fn closed_before(
    nv: Map<Seq<char>, VehicleNodeView>,
    lv: Map<Seq<char>, Seq<VehicleLinkView>>,
    s: Seq<char>,
    goal: Seq<char>,
) -> bool {
    forall|g: Seq<char>| #[trigger] reaches_before(nv, lv, s, g, goal) && g != goal ==> expandable(nv, lv, g)
}

/// No guid occurs twice in `p`.
pub open spec fn distinct_guids(p: Seq<Seq<char>>) -> bool {
    forall|a: int, b: int| 0 <= a < b < p.len() ==> #[trigger] p[a] != #[trigger] p[b]
}

/// The distance function may be called on any two positions and never
/// answers a negative number.
pub open spec fn distance_ok<F: Fn(&Position, &Position) -> i32>(dist: F) -> bool {
    &&& forall|a: &Position, b: &Position| #[trigger] dist.requires((a, b))
    &&& forall|a: &Position, b: &Position, w: i32| #[trigger] dist.ensures((a, b), w) ==> 0 <= w
}

proof fn lemma_flat_refs_take(ls: Seq<VehicleLinkView>, i: int)
    requires
        0 <= i < ls.len(),
    ensures
        flat_refs(ls.take(i + 1)) == flat_refs(ls.take(i)) + ls[i].refs,
{
    assert(ls.take(i + 1).drop_last() =~= ls.take(i));
}

/// `g` has an entry in the link map and its links name no guid: a search
/// from `g` ends there without looking up any node.
pub open spec fn names_nothing(lv: Map<Seq<char>, Seq<VehicleLinkView>>, g: Seq<char>) -> bool {
    lv.contains_key(g) && next_refs(lv, g).len() == 0
}

/// Whether `guid` has an entry in `links` whose links name no guid.
pub fn links_name_nothing(links: &StrMap<Vec<VehicleLink>>, guid: &String) -> (b: bool)
    ensures
        b == names_nothing(links_view(*links), guid@),
{
    let ghost lv = links_view(*links);
    match links.get(guid.as_str()) {
        None => false,
        Some(list) => {
            let ghost ls = link_seq(list@);
            assert(lv[guid@] == ls);
            let n = list.len();
            let mut empty = true;
            for i in 0..n
                invariant
                    n == list@.len(),
                    ls == link_seq(list@),
                    empty == (flat_refs(ls.take(i as int)).len() == 0),
            {
                proof {
                    lemma_flat_refs_take(ls, i as int);
                }
                empty = empty && list[i].refs.len() == 0;
            }
            assert(ls.take(n as int) =~= ls);
            empty
        },
    }
}

/// No route leaves a node whose links name nothing.
proof fn lemma_dead_end(
    nv: Map<Seq<char>, VehicleNodeView>,
    lv: Map<Seq<char>, Seq<VehicleLinkView>>,
    s: Seq<char>,
    goal: Seq<char>,
)
    requires
        names_nothing(lv, s),
        s != goal,
    ensures
        !route_exists(nv, lv, s, goal),
{
    if route_exists(nv, lv, s, goal) {
        let q = choose|q: Seq<Seq<char>>| #[trigger] is_route(nv, lv, q) && q[0] == s && q.last() == goal;
        assert(q.len() >= 2);
        assert(step(nv, lv, q[0], q[1]));
    }
}

/// Whether every guid that `link` names is a node whose own guid is a node.
fn refs_known(link: &VehicleLink, nodes: &StrMap<VehicleNode>) -> (b: bool)
    ensures
        b == forall|j: int| 0 <= j < link@.refs.len() ==> ref_known(nodes_view(*nodes), #[trigger] link@.refs[j]),
{
    let ghost nv = nodes_view(*nodes);
    let m = link.refs.len();
    for j in 0..m
        invariant
            m == link@.refs.len(),
            nv == nodes_view(*nodes),
            forall|jj: int| 0 <= jj < j ==> ref_known(nv, #[trigger] link@.refs[jj]),
    {
        let r = &link.refs[j];
        assert(link@.refs[j as int] == r@);
        match nodes.get(r.as_str()) {
            None => {
                return false;
            },
            Some(node) => {
                if !nodes.contains_key(node.guid.as_str()) {
                    return false;
                }
            },
        }
    }
    true
}

/// A property holds of every guid a list of links names exactly when it
/// holds of every reference of every link.
proof fn lemma_flat_all(p: spec_fn(Seq<char>) -> bool, ls: Seq<VehicleLinkView>)
    ensures
        (forall|k: int| 0 <= k < flat_refs(ls).len() ==> p(#[trigger] flat_refs(ls)[k]))
            <==> (forall|i: int, j: int|
            0 <= i < ls.len() && 0 <= j < ls[i].refs.len() ==> p(#[trigger] ls[i].refs[j])),
    decreases ls.len(),
{
    if ls.len() > 0 {
        let init = ls.drop_last();
        lemma_flat_all(p, init);
        let f = flat_refs(ls);
        let fi = flat_refs(init);
        assert(f == fi + ls.last().refs);
        if forall|k: int| 0 <= k < f.len() ==> p(#[trigger] f[k]) {
            assert forall|k: int| 0 <= k < fi.len() implies p(#[trigger] fi[k]) by {
                assert(f[k] == fi[k]);
            }
            assert forall|i: int, j: int|
                0 <= i < ls.len() && 0 <= j < ls[i].refs.len() implies p(#[trigger] ls[i].refs[j]) by {
                if i < ls.len() - 1 {
                    assert(init[i] == ls[i]);
                } else {
                    assert(f[fi.len() + j] == ls[i].refs[j]);
                }
            }
        }
        if forall|i: int, j: int|
            0 <= i < ls.len() && 0 <= j < ls[i].refs.len() ==> p(#[trigger] ls[i].refs[j]) {
            assert forall|i: int, j: int|
                0 <= i < init.len() && 0 <= j < init[i].refs.len() implies p(#[trigger] init[i].refs[j]) by {
                assert(init[i] == ls[i]);
            }
            assert forall|k: int| 0 <= k < f.len() implies p(#[trigger] f[k]) by {
                if k < fi.len() {
                    assert(f[k] == fi[k]);
                } else {
                    assert(f[k] == ls[ls.len() - 1].refs[k - fi.len()]);
                }
            }
        }
    }
}

/// See [`lemma_flat_all`], for [`ref_known`].
proof fn lemma_flat_known(nv: Map<Seq<char>, VehicleNodeView>, ls: Seq<VehicleLinkView>)
    ensures
        (forall|k: int| 0 <= k < flat_refs(ls).len() ==> ref_known(nv, #[trigger] flat_refs(ls)[k]))
            <==> (forall|i: int, j: int|
            0 <= i < ls.len() && 0 <= j < ls[i].refs.len() ==> ref_known(nv, #[trigger] ls[i].refs[j])),
{
    let p = |r: Seq<char>| ref_known(nv, r);
    lemma_flat_all(p, ls);
    assert forall|k: int| 0 <= k < flat_refs(ls).len() implies (p(flat_refs(ls)[k]) == ref_known(nv, #[trigger] flat_refs(ls)[k])) by {}
    assert forall|i: int, j: int| 0 <= i < ls.len() && 0 <= j < ls[i].refs.len() implies (p(ls[i].refs[j]) == ref_known(nv, #[trigger] ls[i].refs[j])) by {}
}

/// Whether the successors of `guid` can be listed (see [`expandable`]).
pub fn successors_known(
    guid: &str,
    links: &StrMap<Vec<VehicleLink>>,
    nodes: &StrMap<VehicleNode>,
) -> (b: bool)
    ensures
        b == expandable(nodes_view(*nodes), links_view(*links), guid@),
{
    let ghost nv = nodes_view(*nodes);
    let ghost lv = links_view(*links);
    match links.get(guid) {
        None => false,
        Some(list) => {
            let ghost ls = link_seq(list@);
            assert(lv[guid@] == ls);
            proof {
                lemma_flat_known(nv, ls);
            }
            let n = list.len();
            for i in 0..n
                invariant
                    n == list@.len(),
                    ls == link_seq(list@),
                    nv == nodes_view(*nodes),
                    lv == links_view(*links),
                    lv.contains_key(guid@),
                    lv[guid@] == ls,
                    (forall|k: int| 0 <= k < flat_refs(ls).len() ==> ref_known(nv, #[trigger] flat_refs(ls)[k]))
                        <==> (forall|i: int, j: int|
                        0 <= i < ls.len() && 0 <= j < ls[i].refs.len() ==> ref_known(nv, #[trigger] ls[i].refs[j])),
                    forall|ii: int, j: int|
                        0 <= ii < i && 0 <= j < ls[ii].refs.len() ==> ref_known(nv, #[trigger] ls[ii].refs[j]),
            {
                if !refs_known(&list[i], nodes) {
                    assert(ls[i as int] == list@[i as int]@);
                    assert(next_refs(lv, guid@) == flat_refs(ls));
                    return false;
                }
            }
            assert(next_refs(lv, guid@) == flat_refs(ls));
            true
        },
    }
}

/// `e` is what the successor list of a node at `here` holds for the
/// referenced guid `r`: the guid of node `r`, and a distance from `r` to
/// `here` that `dist` may answer.
pub open spec fn successor_entry<F: Fn(&Position, &Position) -> i32>(
    nv: Map<Seq<char>, VehicleNodeView>,
    here: Position,
    r: Seq<char>,
    e: (String, i32),
    dist: F,
) -> bool {
    &&& e.0@ == nv[r].guid
    &&& dist.ensures((&nv[r].position, &here), e.1)
}

/// Appends to `out` the successor entries, from the node `guid`, for the
/// guids that `link` names.
fn push_link_successors<F: Fn(&Position, &Position) -> i32>(
    out: &mut Vec<(String, i32)>,
    link: &VehicleLink,
    guid: &String,
    nodes: &StrMap<VehicleNode>,
    dist: &F,
)
    requires
        forall|j: int| 0 <= j < link@.refs.len() ==> nodes@.contains_key(#[trigger] link@.refs[j]),
        link@.refs.len() > 0 ==> nodes@.contains_key(guid@),
        distance_ok(*dist),
    ensures
        final(out)@.len() == old(out)@.len() + link@.refs.len(),
        forall|k: int| 0 <= k < old(out)@.len() ==> #[trigger] final(out)@[k] == old(out)@[k],
        forall|j: int|
            0 <= j < link@.refs.len() ==> successor_entry(
                nodes_view(*nodes),
                nodes_view(*nodes)[guid@].position,
                link@.refs[j],
                #[trigger] final(out)@[old(out)@.len() + j],
                *dist,
            ),
{
    let ghost nv = nodes_view(*nodes);
    let ghost start = out@;
    let m = link.refs.len();
    for j in 0..m
        invariant
            m == link@.refs.len(),
            nv == nodes_view(*nodes),
            distance_ok(*dist),
            forall|jj: int| 0 <= jj < link@.refs.len() ==> nodes@.contains_key(#[trigger] link@.refs[jj]),
            link@.refs.len() > 0 ==> nodes@.contains_key(guid@),
            out@.len() == start.len() + j,
            forall|k: int| 0 <= k < start.len() ==> #[trigger] out@[k] == start[k],
            forall|jj: int|
                0 <= jj < j ==> successor_entry(nv, nv[guid@].position, link@.refs[jj], #[trigger] out@[start.len() + jj], *dist),
    {
        let r = &link.refs[j];
        assert(link@.refs[j as int] == r@);
        assert(nodes@.contains_key(r@));
        let node = nodes.get(r.as_str()).unwrap();
        let here = nodes.get(guid.as_str()).unwrap();
        let w = dist(&node.position, &here.position);
        out.push((node.guid.clone(), w));
        assert(out@[start.len() + j] == (node.guid, w));
    }
}

/// The successors of the node `guid`: for each link stored under it, for
/// each guid the link names, the guid of that node and the distance to it
/// from `guid`, as `dist` gives it.  `guid` itself is looked up only when
/// its links name some guid.
pub fn get_next<F: Fn(&Position, &Position) -> i32>(
    guid: &String,
    links: &StrMap<Vec<VehicleLink>>,
    nodes: &StrMap<VehicleNode>,
    dist: &F,
) -> (r: Vec<(String, i32)>)
    requires
        links@.contains_key(guid@),
        forall|k: int|
            0 <= k < next_refs(links_view(*links), guid@).len() ==> nodes@.contains_key(
                #[trigger] next_refs(links_view(*links), guid@)[k],
            ),
        next_refs(links_view(*links), guid@).len() > 0 ==> nodes@.contains_key(guid@),
        distance_ok(*dist),
    ensures
        r@.len() == next_refs(links_view(*links), guid@).len(),
        forall|k: int|
            0 <= k < r@.len() ==> successor_entry(
                nodes_view(*nodes),
                nodes_view(*nodes)[guid@].position,
                next_refs(links_view(*links), guid@)[k],
                #[trigger] r@[k],
                *dist,
            ),
{
    let ghost nv = nodes_view(*nodes);
    let ghost lv = links_view(*links);
    let list = links.get(guid.as_str()).unwrap();
    let ghost ls = link_seq(list@);
    assert(lv[guid@] == ls);
    assert(next_refs(lv, guid@) == flat_refs(ls));
    proof {
        let known = |r: Seq<char>| nodes@.contains_key(r);
        lemma_flat_all(known, ls);
        assert forall|k: int| 0 <= k < flat_refs(ls).len() implies known(#[trigger] flat_refs(ls)[k]) by {
            assert(nodes@.contains_key(next_refs(lv, guid@)[k]));
        }
        assert forall|i: int, j: int| 0 <= i < ls.len() && 0 <= j < ls[i].refs.len() implies nodes@.contains_key(#[trigger] ls[i].refs[j]) by {
            assert(known(ls[i].refs[j]));
        }
        let none = |r: Seq<char>| false;
        lemma_flat_all(none, ls);
        assert forall|i: int| 0 <= i < ls.len() && (#[trigger] ls[i]).refs.len() > 0 implies nodes@.contains_key(guid@) by {
            if flat_refs(ls).len() == 0 {
                assert(!none(ls[i].refs[0]));
            }
        }
    }
    let mut out: Vec<(String, i32)> = Vec::new();
    let n = list.len();
    for i in 0..n
        invariant
            n == list@.len(),
            ls == link_seq(list@),
            nv == nodes_view(*nodes),
            distance_ok(*dist),
            forall|i: int, j: int|
                0 <= i < ls.len() && 0 <= j < ls[i].refs.len() ==> nodes@.contains_key(#[trigger] ls[i].refs[j]),
            forall|i: int| 0 <= i < ls.len() && (#[trigger] ls[i]).refs.len() > 0 ==> nodes@.contains_key(guid@),
            out@.len() == flat_refs(ls.take(i as int)).len(),
            forall|k: int|
                0 <= k < out@.len() ==> successor_entry(
                    nv,
                    nv[guid@].position,
                    flat_refs(ls.take(i as int))[k],
                    #[trigger] out@[k],
                    *dist,
                ),
    {
        let link = &list[i];
        assert(ls[i as int] == link@);
        let ghost before = out@;
        push_link_successors(&mut out, link, guid, nodes, dist);
        proof {
            lemma_flat_refs_take(ls, i as int);
            let f = flat_refs(ls.take(i + 1));
            let f0 = flat_refs(ls.take(i as int));
            assert forall|k: int| 0 <= k < out@.len() implies successor_entry(
                nv,
                nv[guid@].position,
                f[k],
                #[trigger] out@[k],
                *dist,
            ) by {
                if k < before.len() {
                    assert(f[k] == f0[k]);
                } else {
                    assert(f[k] == link@.refs[k - before.len()]);
                    assert(out@[before.len() + (k - before.len())] == out@[k]);
                }
            }
        }
    }
    assert(ls.take(n as int) =~= ls);
    assert(next_refs(lv, guid@) == flat_refs(ls));
    out
}

/// `adj` holds, for the node stored at each position of `nodes`, the
/// successors that [`get_next`] lists for it, as positions: all of them
/// where the node can be expanded, none where it cannot.
pub open spec fn adjacency_of(
    nodes: StrMap<VehicleNode>,
    links: StrMap<Vec<VehicleLink>>,
    adj: Seq<Seq<(usize, i128)>>,
) -> bool {
    let nv = nodes_view(nodes);
    let lv = links_view(links);
    &&& adj.len() == nodes.spec_len()
    &&& forall|i: int|
        0 <= i < adj.len() ==> {
            let g = nodes.key_seq()[i];
            if expandable(nv, lv, g) {
                &&& (#[trigger] adj[i]).len() == next_refs(lv, g).len()
                &&& forall|k: int|
                    0 <= k < adj[i].len() ==> (#[trigger] adj[i][k]).0 == nodes.position_of(
                        nv[next_refs(lv, g)[k]].guid,
                    )
            } else {
                adj[i].len() == 0
            }
        }
}

/// The weights of `adj` and the estimates `h` are distances that `dist`
/// may answer: from each successor to its node, and from each node to the
/// goal `goal`.
pub open spec fn distances_of<F: Fn(&Position, &Position) -> i32>(
    nodes: StrMap<VehicleNode>,
    links: StrMap<Vec<VehicleLink>>,
    goal: Seq<char>,
    adj: Seq<Seq<(usize, i128)>>,
    h: Seq<i128>,
    dist: F,
) -> bool {
    let nv = nodes_view(nodes);
    let lv = links_view(links);
    &&& h.len() == nodes.spec_len()
    &&& forall|i: int|
        0 <= i < h.len() ==> dist.ensures(
            (&nv[nodes.key_seq()[i]].position, &nv[goal].position),
            #[trigger] h[i] as i32,
        )
    &&& forall|i: int, k: int|
        0 <= i < adj.len() && 0 <= k < adj[i].len() ==> dist.ensures(
            (&nv[next_refs(lv, nodes.key_seq()[i])[k]].position, &nv[nodes.key_seq()[i]].position),
            (#[trigger] adj[i][k]).1 as i32,
        )
}

/// The graph that the search runs on: one node per entry of `nodes`, at
/// the entry's position; its edges are the successors that [`get_next`]
/// lists, weighted by `dist`; and its estimates are the distances from
/// each node to `goal`.
pub fn route_graph<F: Fn(&Position, &Position) -> i32>(
    nodes: &StrMap<VehicleNode>,
    links: &StrMap<Vec<VehicleLink>>,
    goal: &String,
    dist: &F,
) -> (g: RouteGraph)
    requires
        nodes@.contains_key(goal@),
        distance_ok(*dist),
    ensures
        g.well_formed(),
        adjacency_of(*nodes, *links, g.edges()),
        distances_of(*nodes, *links, goal@, g.edges(), g.estimates(), *dist),
{
    let ghost nv = nodes_view(*nodes);
    let ghost lv = links_view(*links);
    nodes.layout_facts();
    let n = nodes.len();
    let goal_pos = nodes.get(goal.as_str()).unwrap().position;
    let mut adj: Vec<Vec<(usize, i128)>> = Vec::new();
    let mut h: Vec<i128> = Vec::new();
    for i in 0..n
        invariant
            n == nodes.spec_len(),
            nodes.layout(),
            nv == nodes_view(*nodes),
            lv == links_view(*links),
            goal_pos == nv[goal@].position,
            distance_ok(*dist),
            adj@.len() == i,
            h@.len() == i,
            forall|ii: int, e: int|
                0 <= ii < i && 0 <= e < adj@[ii]@.len() ==> {
                    &&& (#[trigger] adj@[ii]@[e]).0 < n
                    &&& 0 <= adj@[ii]@[e].1 <= i32::MAX
                },
            forall|ii: int| 0 <= ii < i ==> 0 <= #[trigger] h@[ii] <= i32::MAX,
            forall|ii: int|
                0 <= ii < i ==> dist.ensures(
                    (&nv[nodes.key_seq()[ii]].position, &nv[goal@].position),
                    #[trigger] h@[ii] as i32,
                ),
            forall|ii: int|
                0 <= ii < i ==> {
                    let g = nodes.key_seq()[ii];
                    if expandable(nv, lv, g) {
                        &&& (#[trigger] adj@[ii])@.len() == next_refs(lv, g).len()
                        &&& forall|k: int|
                            0 <= k < adj@[ii]@.len() ==> {
                                &&& (#[trigger] adj@[ii]@[k]).0 == nodes.position_of(
                                    nv[next_refs(lv, g)[k]].guid,
                                )
                                &&& dist.ensures(
                                    (&nv[next_refs(lv, g)[k]].position, &nv[g].position),
                                    adj@[ii]@[k].1 as i32,
                                )
                            }
                    } else {
                        adj@[ii]@.len() == 0
                    }
                },
    {
        let key = nodes.key_at(i);
        let node = nodes.value_at(i);
        assert(nodes@.contains_key(key@));
        assert(node@ == nv[key@]);
        let est = dist(&node.position, &goal_pos);
        h.push(est as i128);
        let mut edges: Vec<(usize, i128)> = Vec::new();
        if successors_known(key.as_str(), links, nodes) {
            let succ = get_next(key, links, nodes, dist);
            let ghost nr = next_refs(lv, key@);
            let m = succ.len();
            for k in 0..m
                invariant
                    m == succ@.len(),
                    m == nr.len(),
                    nodes.layout(),
                    n == nodes.spec_len(),
                    nv == nodes_view(*nodes),
                    distance_ok(*dist),
                    expandable(nv, lv, key@),
                    nr == next_refs(lv, key@),
                    forall|kk: int|
                        0 <= kk < m ==> successor_entry(nv, nv[key@].position, nr[kk], #[trigger] succ@[kk], *dist),
                    edges@.len() == k,
                    forall|kk: int|
                        0 <= kk < k ==> {
                            &&& (#[trigger] edges@[kk]).0 == nodes.position_of(nv[nr[kk]].guid)
                            &&& edges@[kk].0 < n
                            &&& 0 <= edges@[kk].1 <= i32::MAX
                            &&& dist.ensures(
                                (&nv[nr[kk]].position, &nv[key@].position),
                                edges@[kk].1 as i32,
                            )
                        },
            {
                let entry = &succ[k];
                assert(successor_entry(nv, nv[key@].position, nr[k as int], succ@[k as int], *dist));
                assert(ref_known(nv, nr[k as int]));
                let j = nodes.position(entry.0.as_str()).unwrap();
                edges.push((j, entry.1 as i128));
            }
        }
        adj.push(edges);
    }
    assert(graph_well_formed(edges_view(adj@), h@));
    RouteGraph::new(adj, h).unwrap()
}

/// The guids stored at the positions of a walk.
pub open spec fn guids_at(nodes: StrMap<VehicleNode>, p: Seq<usize>) -> Seq<Seq<char>> {
    p.map_values(|i: usize| nodes.key_seq()[i as int])
}

/// The positions at which the guids of a route are stored.
pub open spec fn positions_of(nodes: StrMap<VehicleNode>, q: Seq<Seq<char>>) -> Seq<usize> {
    q.map_values(|g: Seq<char>| nodes.position_of(g) as usize)
}

/// A walk through the graph of [`route_graph`] is a route through the network.
proof fn lemma_walk_is_route(
    nodes: StrMap<VehicleNode>,
    links: StrMap<Vec<VehicleLink>>,
    adj: Seq<Seq<(usize, i128)>>,
    p: Seq<usize>,
)
    requires
        nodes.layout(),
        adjacency_of(nodes, links, adj),
        is_walk(adj, p),
        forall|k: int| 0 <= k < p.len() ==> #[trigger] p[k] < adj.len(),
    ensures
        is_route(nodes_view(nodes), links_view(links), guids_at(nodes, p)),
{
    let nv = nodes_view(nodes);
    let lv = links_view(links);
    let q = guids_at(nodes, p);
    assert forall|k: int| 0 <= k < q.len() - 1 implies step(nv, lv, #[trigger] q[k], q[k + 1]) by {
        assert(has_edge(adj, p[k] as int, p[k + 1] as int));
        let i = p[k] as int;
        let e = choose|e: int| 0 <= e < adj[i].len() && (#[trigger] adj[i][e]).0 == p[k + 1];
        let g = nodes.key_seq()[i];
        assert(q[k] == g);
        assert(expandable(nv, lv, g));
        let r = next_refs(lv, g)[e];
        assert(ref_known(nv, r));
        assert(adj[i][e].0 == nodes.position_of(nv[r].guid));
        assert(nodes.key_seq()[nodes.position_of(nv[r].guid)] == nv[r].guid);
        assert(q[k + 1] == nv[r].guid);
    }
}

/// A route through the network, all of whose nodes but the last can be
/// expanded, is a walk through the graph of [`route_graph`].
proof fn lemma_route_is_walk(
    nodes: StrMap<VehicleNode>,
    links: StrMap<Vec<VehicleLink>>,
    adj: Seq<Seq<(usize, i128)>>,
    q: Seq<Seq<char>>,
)
    requires
        nodes.layout(),
        adjacency_of(nodes, links, adj),
        is_route(nodes_view(nodes), links_view(links), q),
        nodes@.contains_key(q[0]),
        forall|m: int| 0 <= m < q.len() - 1 ==> expandable(nodes_view(nodes), links_view(links), #[trigger] q[m]),
    ensures
        forall|m: int| 0 <= m < q.len() ==> nodes@.contains_key(#[trigger] q[m]),
        is_walk(adj, positions_of(nodes, q)),
{
    let nv = nodes_view(nodes);
    let lv = links_view(links);
    let p = positions_of(nodes, q);
    assert forall|m: int| 0 <= m < q.len() implies nodes@.contains_key(#[trigger] q[m]) by {
        if m > 0 {
            assert(step(nv, lv, q[m - 1], q[m]));
            let k = choose|k: int|
                0 <= k < next_refs(lv, q[m - 1]).len() && nv.contains_key(#[trigger] next_refs(lv, q[m - 1])[k])
                    && nv[next_refs(lv, q[m - 1])[k]].guid == q[m];
            assert(expandable(nv, lv, q[m - 1]));
            assert(ref_known(nv, next_refs(lv, q[m - 1])[k]));
        }
    }
    assert forall|m: int| 0 <= m < p.len() - 1 implies has_edge(adj, #[trigger] p[m] as int, p[m + 1] as int) by {
        assert(nodes@.contains_key(q[m]));
        assert(nodes@.contains_key(q[m + 1]));
        let i = nodes.position_of(q[m]);
        assert(nodes.key_seq()[i] == q[m]);
        assert(step(nv, lv, q[m], q[m + 1]));
        let k = choose|k: int|
            0 <= k < next_refs(lv, q[m]).len() && nv.contains_key(#[trigger] next_refs(lv, q[m])[k])
                && nv[next_refs(lv, q[m])[k]].guid == q[m + 1];
        assert(expandable(nv, lv, q[m]));
        assert(adj[i][k].0 == nodes.position_of(q[m + 1]));
        assert(p[m] as int == i);
    }
}

/// A cost as an `i32`: itself where it fits, `i32::MAX` above.
pub open spec fn saturated(c: i128) -> i32 {
    if c > i32::MAX {
        i32::MAX
    } else {
        c as i32
    }
}

/// `r` is what the search answer `found` says about the nodes of `nodes`:
/// nothing for nothing, and otherwise the guids at the positions of the
/// walk, with the cost saturated to `i32`.
pub open spec fn route_named(
    nodes: StrMap<VehicleNode>,
    found: Option<(Seq<usize>, i128)>,
    r: Option<(Vec<String>, i32)>,
) -> bool {
    match (found, r) {
        (None, None) => true,
        (Some((p, c)), Some((path, cost))) => str_seq(path@) == guids_at(nodes, p) && cost == saturated(c),
        _ => false,
    }
}

/// Turns a search answer over positions into one over guids: each position
/// of the walk becomes the guid stored there, and a cost beyond `i32::MAX`
/// becomes `i32::MAX`.
pub fn named_route(nodes: &StrMap<VehicleNode>, found: Option<(Vec<usize>, i128)>) -> (r: Option<(Vec<String>, i32)>)
    requires
        found matches Some((p, c)) ==> forall|k: int| 0 <= k < p@.len() ==> #[trigger] p@[k] < nodes.spec_len(),
    ensures
        route_named(*nodes, found_view(found), r),
{
    match found {
        None => None,
        Some((p, c)) => {
            let ghost pv = p@;
            let mut path: Vec<String> = Vec::new();
            let n = p.len();
            for k in 0..n
                invariant
                    n == pv.len(),
                    pv == p@,
                    forall|kk: int| 0 <= kk < pv.len() ==> #[trigger] pv[kk] < nodes.spec_len(),
                    str_seq(path@) == guids_at(*nodes, pv).take(k as int),
            {
                let key = nodes.key_at(p[k]).clone();
                let ghost prev = path@;
                path.push(key);
                assert(path@ =~= prev.push(key));
                assert(str_seq(path@) =~= str_seq(prev).push(key@));
                assert(str_seq(path@) =~= guids_at(*nodes, pv).take(k + 1));
            }
            assert(guids_at(*nodes, pv).take(n as int) =~= guids_at(*nodes, pv));
            let cost: i32 = if c > 2147483647 {
                2147483647
            } else {
                c as i32
            };
            Some((path, cost))
        },
    }
}

/// `r` is what the A* search answers on some graph that [`route_graph`]
/// may build for these arguments, translated by [`named_route`].
pub open spec fn pathfind_answer<F: Fn(&Position, &Position) -> i32>(
    nodes: StrMap<VehicleNode>,
    links: StrMap<Vec<VehicleLink>>,
    goal: Seq<char>,
    start: Seq<char>,
    dist: F,
    r: Option<(Vec<String>, i32)>,
) -> bool {
    exists|adj: Seq<Seq<(usize, i128)>>, h: Seq<i128>|
        #![trigger astar_result(adj, h, nodes.position_of(start) as usize, nodes.position_of(goal) as usize)]
        {
            &&& graph_well_formed(adj, h)
            &&& adjacency_of(nodes, links, adj)
            &&& distances_of(nodes, links, goal, adj, h, dist)
            &&& search_outcome(
                adj,
                h,
                nodes.position_of(start) as usize,
                nodes.position_of(goal) as usize,
                astar_result(adj, h, nodes.position_of(start) as usize, nodes.position_of(goal) as usize),
            )
            &&& route_named(
                nodes,
                astar_result(adj, h, nodes.position_of(start) as usize, nodes.position_of(goal) as usize),
                r,
            )
        }
}

/// `ws` are distances that `dist` may answer for the steps of the route
/// `q`: for each step, a guid named by the links of `q[k]` is a node whose
/// guid is `q[k + 1]`, and `ws[k]` is a distance from that node's position
/// to the position of `q[k]`.
pub open spec fn step_distances<F: Fn(&Position, &Position) -> i32>(
    nv: Map<Seq<char>, VehicleNodeView>,
    lv: Map<Seq<char>, Seq<VehicleLinkView>>,
    dist: F,
    q: Seq<Seq<char>>,
    ws: Seq<i32>,
) -> bool {
    &&& q.len() >= 1
    &&& ws.len() + 1 == q.len()
    &&& forall|k: int|
        #![trigger ws[k]]
        0 <= k < ws.len() ==> {
            &&& lv.contains_key(q[k])
            &&& exists|j: int|
                0 <= j < next_refs(lv, q[k]).len() && nv.contains_key(#[trigger] next_refs(lv, q[k])[j])
                    && nv[next_refs(lv, q[k])[j]].guid == q[k + 1] && dist.ensures(
                    (&nv[next_refs(lv, q[k])[j]].position, &nv[q[k]].position),
                    ws[k],
                )
        }
}

/// The sum of a list of distances.
pub open spec fn route_total(ws: Seq<i32>) -> int
    decreases ws.len(),
{
    if ws.len() == 0 {
        0
    } else {
        route_total(ws.drop_last()) + ws.last()
    }
}

/// A total as an `i32` cost: itself where it fits, `i32::MAX` above.
pub open spec fn saturate(c: int) -> int {
    if c > i32::MAX {
        i32::MAX as int
    } else {
        c
    }
}

/// `dist` answers each pair of positions with one value only.
pub open spec fn distance_functional<F: Fn(&Position, &Position) -> i32>(dist: F) -> bool {
    forall|a: &Position, b: &Position, w1: i32, w2: i32|
        #[trigger] dist.ensures((a, b), w1) && #[trigger] dist.ensures((a, b), w2) ==> w1 == w2
}

/// No distance `dist` may answer from a node to `goal` exceeds the total
/// distance of a route from that node to `goal`.
pub open spec fn never_overestimates<F: Fn(&Position, &Position) -> i32>(
    nv: Map<Seq<char>, VehicleNodeView>,
    lv: Map<Seq<char>, Seq<VehicleLinkView>>,
    goal: Seq<char>,
    dist: F,
) -> bool {
    forall|q: Seq<Seq<char>>, ws: Seq<i32>, w: i32|
        #![trigger step_distances(nv, lv, dist, q, ws), dist.ensures((&nv[q[0]].position, &nv[goal].position), w)]
        step_distances(nv, lv, dist, q, ws) && q.last() == goal && nv.contains_key(q[0]) && dist.ensures(
            (&nv[q[0]].position, &nv[goal].position),
            w,
        ) ==> w <= route_total(ws)
}

/// `cost` is what the route `path` costs: the total of distances `dist` may
/// answer for its steps, or `i32::MAX` where the total does not fit.
pub open spec fn route_cost<F: Fn(&Position, &Position) -> i32>(
    nv: Map<Seq<char>, VehicleNodeView>,
    lv: Map<Seq<char>, Seq<VehicleLinkView>>,
    dist: F,
    path: Seq<Seq<char>>,
    cost: i32,
) -> bool {
    exists|ws: Seq<i32>| #[trigger] step_distances(nv, lv, dist, path, ws) && cost == saturate(route_total(ws))
}

/// `path` with cost `cost` is a cheapest route from `start` to `goal`: its
/// cost is what it costs (see [`route_cost`]), and, when `dist` answers each
/// pair one way only, no route from `start` to `goal` has a smaller total.
pub open spec fn cheapest_route<F: Fn(&Position, &Position) -> i32>(
    nv: Map<Seq<char>, VehicleNodeView>,
    lv: Map<Seq<char>, Seq<VehicleLinkView>>,
    dist: F,
    start: Seq<char>,
    goal: Seq<char>,
    path: Seq<Seq<char>>,
    cost: i32,
) -> bool {
    &&& route_cost(nv, lv, dist, path, cost)
    &&& distance_functional(dist) ==> forall|q: Seq<Seq<char>>, ws: Seq<i32>|
        #[trigger] step_distances(nv, lv, dist, q, ws) && q[0] == start && q.last() == goal ==> cost <= route_total(ws)
}

proof fn lemma_total_narrow(ws: Seq<i128>)
    requires
        forall|k: int| 0 <= k < ws.len() ==> 0 <= #[trigger] ws[k] <= i32::MAX,
    ensures
        total(ws) == route_total(ws.map_values(|w: i128| w as i32)),
    decreases ws.len(),
{
    if ws.len() > 0 {
        let init = ws.drop_last();
        lemma_total_narrow(init);
        assert(ws.map_values(|w: i128| w as i32).drop_last() =~= init.map_values(|w: i128| w as i32));
    }
}

proof fn lemma_total_widen(ws: Seq<i32>)
    ensures
        route_total(ws) == total(ws.map_values(|w: i32| w as i128)),
    decreases ws.len(),
{
    if ws.len() > 0 {
        let init = ws.drop_last();
        lemma_total_widen(init);
        assert(ws.map_values(|w: i32| w as i128).drop_last() =~= init.map_values(|w: i32| w as i128));
    }
}

proof fn lemma_route_total_prefix(ws: Seq<i32>, j: int)
    requires
        0 <= j <= ws.len(),
        forall|k: int| 0 <= k < ws.len() ==> 0 <= #[trigger] ws[k],
    ensures
        0 <= route_total(ws.take(j)) <= route_total(ws),
    decreases ws.len(),
{
    if j < ws.len() {
        let init = ws.drop_last();
        lemma_route_total_prefix(init, if j <= init.len() { j } else { init.len() as int });
        assert(init.take(j) =~= ws.take(j));
        assert(ws[ws.len() - 1] >= 0);
    } else {
        assert(ws.take(j) =~= ws);
        if ws.len() > 0 {
            lemma_route_total_prefix(ws.drop_last(), 0);
            assert(ws.drop_last().take(0) =~= Seq::<i32>::empty());
            assert(ws[ws.len() - 1] >= 0);
        }
    }
}

proof fn lemma_steps_facts<F: Fn(&Position, &Position) -> i32>(
    nv: Map<Seq<char>, VehicleNodeView>,
    lv: Map<Seq<char>, Seq<VehicleLinkView>>,
    dist: F,
    q: Seq<Seq<char>>,
    ws: Seq<i32>,
)
    requires
        step_distances(nv, lv, dist, q, ws),
        distance_ok(dist),
    ensures
        is_route(nv, lv, q),
        forall|k: int| 0 <= k < ws.len() ==> 0 <= #[trigger] ws[k],
        forall|j: int|
            0 <= j < q.len() ==> step_distances(nv, lv, dist, q.take(j + 1), #[trigger] ws.take(j)),
{
    assert forall|k: int| 0 <= k < q.len() - 1 implies step(nv, lv, #[trigger] q[k], q[k + 1]) by {
        assert(ws[k] == ws[k]);
        let j = choose|j: int|
            0 <= j < next_refs(lv, q[k]).len() && nv.contains_key(#[trigger] next_refs(lv, q[k])[j])
                && nv[next_refs(lv, q[k])[j]].guid == q[k + 1] && dist.ensures(
                (&nv[next_refs(lv, q[k])[j]].position, &nv[q[k]].position),
                ws[k],
            );
        assert(nv.contains_key(next_refs(lv, q[k])[j]));
    }
    assert forall|k: int| 0 <= k < ws.len() implies 0 <= #[trigger] ws[k] by {
        let j = choose|j: int|
            0 <= j < next_refs(lv, q[k]).len() && nv.contains_key(#[trigger] next_refs(lv, q[k])[j])
                && nv[next_refs(lv, q[k])[j]].guid == q[k + 1] && dist.ensures(
                (&nv[next_refs(lv, q[k])[j]].position, &nv[q[k]].position),
                ws[k],
            );
    }
    assert forall|j: int| 0 <= j < q.len() implies step_distances(nv, lv, dist, q.take(j + 1), #[trigger] ws.take(j)) by {
        let qq = q.take(j + 1);
        let ww = ws.take(j);
        assert forall|k: int| 0 <= k < ww.len() implies {
            &&& lv.contains_key(qq[k])
            &&& exists|jj: int|
                0 <= jj < next_refs(lv, qq[k]).len() && nv.contains_key(#[trigger] next_refs(lv, qq[k])[jj])
                    && nv[next_refs(lv, qq[k])[jj]].guid == qq[k + 1] && dist.ensures(
                    (&nv[next_refs(lv, qq[k])[jj]].position, &nv[qq[k]].position),
                    ww[k],
                )
        } by {
            assert(ww[k] == ws[k]);
            assert(qq[k] == q[k]);
            assert(qq[k + 1] == q[k + 1]);
        }
    }
}

/// A walk through the graph of [`route_graph`], with its edge weights, is a
/// route with distances that `dist` may answer, of the same total.
proof fn lemma_walk_weights_are_steps<F: Fn(&Position, &Position) -> i32>(
    nodes: StrMap<VehicleNode>,
    links: StrMap<Vec<VehicleLink>>,
    goal: Seq<char>,
    dist: F,
    adj: Seq<Seq<(usize, i128)>>,
    h: Seq<i128>,
    p: Seq<usize>,
    ws: Seq<i128>,
)
    requires
        nodes.layout(),
        graph_well_formed(adj, h),
        adjacency_of(nodes, links, adj),
        distances_of(nodes, links, goal, adj, h, dist),
        walk_weights(adj, p, ws),
    ensures
        step_distances(
            nodes_view(nodes),
            links_view(links),
            dist,
            guids_at(nodes, p),
            ws.map_values(|w: i128| w as i32),
        ),
        total(ws) == route_total(ws.map_values(|w: i128| w as i32)),
{
    let nv = nodes_view(nodes);
    let lv = links_view(links);
    let q = guids_at(nodes, p);
    let w32 = ws.map_values(|w: i128| w as i32);
    assert forall|k: int| 0 <= k < ws.len() implies 0 <= #[trigger] ws[k] <= i32::MAX by {
        let e = choose|e: int| 0 <= e < adj[p[k] as int].len() && #[trigger] adj[p[k] as int][e] == (p[k + 1], ws[k]);
        assert(adj[p[k] as int][e].1 == ws[k]);
    }
    lemma_total_narrow(ws);
    assert(q.len() == p.len());
    assert(w32.len() == ws.len());
    assert forall|k: int| 0 <= k < w32.len() implies {
        &&& lv.contains_key(q[k])
        &&& exists|j: int|
            0 <= j < next_refs(lv, q[k]).len() && nv.contains_key(#[trigger] next_refs(lv, q[k])[j])
                && nv[next_refs(lv, q[k])[j]].guid == q[k + 1] && dist.ensures(
                (&nv[next_refs(lv, q[k])[j]].position, &nv[q[k]].position),
                w32[k],
            )
    } by {
        let i = p[k] as int;
        let e = choose|e: int| 0 <= e < adj[i].len() && #[trigger] adj[i][e] == (p[k + 1], ws[k]);
        let g = nodes.key_seq()[i];
        assert(q[k] == g);
        assert(expandable(nv, lv, g));
        let r = next_refs(lv, g)[e];
        assert(ref_known(nv, r));
        assert(adj[i][e].0 == nodes.position_of(nv[r].guid));
        assert(nodes.key_seq()[nodes.position_of(nv[r].guid)] == nv[r].guid);
        assert(q[k + 1] == nv[r].guid);
        assert(dist.ensures((&nv[next_refs(lv, g)[e]].position, &nv[g].position), adj[i][e].1 as i32));
        assert(w32[k] == adj[i][e].1 as i32);
        assert(nv.contains_key(next_refs(lv, g)[e]));
    }
}

/// A route through expandable nodes, with distances that a functional
/// `dist` answers, is a walk through the graph of [`route_graph`] with the
/// same weights.
proof fn lemma_steps_are_walk_weights<F: Fn(&Position, &Position) -> i32>(
    nodes: StrMap<VehicleNode>,
    links: StrMap<Vec<VehicleLink>>,
    goal: Seq<char>,
    dist: F,
    adj: Seq<Seq<(usize, i128)>>,
    h: Seq<i128>,
    q: Seq<Seq<char>>,
    ws: Seq<i32>,
)
    requires
        nodes.layout(),
        graph_well_formed(adj, h),
        adjacency_of(nodes, links, adj),
        distances_of(nodes, links, goal, adj, h, dist),
        distance_functional(dist),
        distance_ok(dist),
        step_distances(nodes_view(nodes), links_view(links), dist, q, ws),
        nodes@.contains_key(q[0]),
        forall|m: int| 0 <= m < q.len() - 1 ==> expandable(nodes_view(nodes), links_view(links), #[trigger] q[m]),
    ensures
        walk_weights(adj, positions_of(nodes, q), ws.map_values(|w: i32| w as i128)),
        forall|m: int| 0 <= m < q.len() ==> nodes@.contains_key(#[trigger] q[m]),
{
    let nv = nodes_view(nodes);
    let lv = links_view(links);
    let p = positions_of(nodes, q);
    let w = ws.map_values(|x: i32| x as i128);
    lemma_steps_facts(nv, lv, dist, q, ws);
    lemma_route_is_walk(nodes, links, adj, q);
    assert forall|k: int| 0 <= k < w.len() implies 0 <= #[trigger] p[k] < adj.len() && exists|e: int|
        0 <= e < adj[p[k] as int].len() && #[trigger] adj[p[k] as int][e] == (p[k + 1], w[k]) by {
        assert(nodes@.contains_key(q[k]));
        assert(nodes@.contains_key(q[k + 1]));
        let i = nodes.position_of(q[k]);
        assert(nodes.key_seq()[i] == q[k]);
        assert(ws[k] == ws[k]);
        let j = choose|j: int|
            0 <= j < next_refs(lv, q[k]).len() && nv.contains_key(#[trigger] next_refs(lv, q[k])[j])
                && nv[next_refs(lv, q[k])[j]].guid == q[k + 1] && dist.ensures(
                (&nv[next_refs(lv, q[k])[j]].position, &nv[q[k]].position),
                ws[k],
            );
        assert(expandable(nv, lv, q[k]));
        assert(adj[i][j].0 == nodes.position_of(q[k + 1]));
        assert(dist.ensures((&nv[next_refs(lv, q[k])[j]].position, &nv[q[k]].position), adj[i][j].1 as i32));
        assert(adj[i][j].1 as i32 == ws[k]);
        assert(0 <= adj[i][j].1 <= i32::MAX);
        assert(adj[i][j] == (p[k + 1], w[k]));
        assert(p[k] as int == i);
    }
}

/// A prefix of a route is a route.
proof fn lemma_route_prefix(
    nv: Map<Seq<char>, VehicleNodeView>,
    lv: Map<Seq<char>, Seq<VehicleLinkView>>,
    q: Seq<Seq<char>>,
    m: int,
)
    requires
        is_route(nv, lv, q),
        0 <= m < q.len(),
    ensures
        is_route(nv, lv, q.take(m + 1)),
{
    let pre = q.take(m + 1);
    assert forall|k: int| 0 <= k < pre.len() - 1 implies step(nv, lv, #[trigger] pre[k], pre[k + 1]) by {
        assert(pre[k] == q[k]);
        assert(pre[k + 1] == q[k + 1]);
    }
}

/// The first place at which `goal` occurs in `q`, which ends with it.
proof fn lemma_first_goal(q: Seq<Seq<char>>, goal: Seq<char>) -> (j: int)
    requires
        q.len() >= 1,
        q.last() == goal,
    ensures
        0 <= j < q.len(),
        q[j] == goal,
        forall|k: int| 0 <= k < j ==> #[trigger] q[k] != goal,
    decreases q.len(),
{
    let init = q.drop_last();
    if init.len() >= 1 && init.contains(goal) {
        let w = choose|w: int| 0 <= w < init.len() && init[w] == goal;
        let cut = init.take(w + 1);
        assert(cut.last() == goal);
        let j = lemma_first_goal(cut, goal);
        assert forall|k: int| 0 <= k < j implies #[trigger] q[k] != goal by {
            assert(cut[k] == q[k]);
        }
        assert(cut[j] == q[j]);
        j
    } else {
        assert forall|k: int| 0 <= k < q.len() - 1 implies #[trigger] q[k] != goal by {
            assert(init[k] == q[k]);
        }
        q.len() - 1
    }
}

/// Every route from `start` to `goal` has a shortest prefix ending at
/// `goal`, and the nodes of that prefix before its end can be expanded.
proof fn lemma_route_to_goal_expandable(
    nv: Map<Seq<char>, VehicleNodeView>,
    lv: Map<Seq<char>, Seq<VehicleLinkView>>,
    q: Seq<Seq<char>>,
    start: Seq<char>,
    goal: Seq<char>,
) -> (j: int)
    requires
        is_route(nv, lv, q),
        q[0] == start,
        q.last() == goal,
        closed_before(nv, lv, start, goal),
    ensures
        0 <= j < q.len(),
        q[j] == goal,
        forall|k: int| 0 <= k < j ==> #[trigger] q[k] != goal,
        is_route(nv, lv, q.take(j + 1)),
        forall|m: int| 0 <= m < j ==> expandable(nv, lv, #[trigger] q[m]),
{
    let j = lemma_first_goal(q, goal);
    lemma_route_prefix(nv, lv, q, j);
    assert forall|m: int| 0 <= m < j implies expandable(nv, lv, #[trigger] q[m]) by {
        lemma_route_prefix(nv, lv, q, m);
        let pre = q.take(m + 1);
        assert(avoids_before_end(pre, goal)) by {
            assert forall|k: int| 0 <= k < pre.len() - 1 implies #[trigger] pre[k] != goal by {
                assert(pre[k] == q[k]);
            }
        }
        assert(pre.last() == q[m]);
        assert(reaches_before(nv, lv, start, q[m], goal));
    }
    j
}

/// A walk on the graph of [`route_graph`] with what it costs is a route with
/// what it costs.
proof fn lemma_walk_cost_is_route_cost<F: Fn(&Position, &Position) -> i32>(
    nodes: StrMap<VehicleNode>,
    links: StrMap<Vec<VehicleLink>>,
    goal: Seq<char>,
    dist: F,
    adj: Seq<Seq<(usize, i128)>>,
    h: Seq<i128>,
    p: Seq<usize>,
    c: i128,
)
    requires
        nodes.layout(),
        graph_well_formed(adj, h),
        adjacency_of(nodes, links, adj),
        distances_of(nodes, links, goal, adj, h, dist),
        walk_cost(adj, p, c),
        0 <= c,
    ensures
        route_cost(nodes_view(nodes), links_view(links), dist, guids_at(nodes, p), saturated(c)),
{
    let wg = choose|ws: Seq<i128>| #[trigger] walk_weights(adj, p, ws) && total(ws) == c;
    lemma_walk_weights_are_steps(nodes, links, goal, dist, adj, h, p, wg);
    let w32 = wg.map_values(|w: i128| w as i32);
    assert(step_distances(nodes_view(nodes), links_view(links), dist, guids_at(nodes, p), w32));
}

/// When `dist` never overestimates, the walk the search returns on the
/// graph of [`route_graph`] is a cheapest route in route terms.
proof fn lemma_route_cost<F: Fn(&Position, &Position) -> i32>(
    nodes: StrMap<VehicleNode>,
    links: StrMap<Vec<VehicleLink>>,
    goal: Seq<char>,
    start: Seq<char>,
    dist: F,
    adj: Seq<Seq<(usize, i128)>>,
    h: Seq<i128>,
    s: usize,
    t: usize,
    p: Seq<usize>,
    c: i128,
)
    requires
        nodes.layout(),
        nodes@.contains_key(start),
        nodes@.contains_key(goal),
        s == nodes.position_of(start),
        t == nodes.position_of(goal),
        closed_before(nodes_view(nodes), links_view(links), start, goal),
        distance_ok(dist),
        graph_well_formed(adj, h),
        adjacency_of(nodes, links, adj),
        distances_of(nodes, links, goal, adj, h, dist),
        search_outcome(adj, h, s, t, Some((p, c))),
        never_overestimates(nodes_view(nodes), links_view(links), goal, dist),
    ensures
        cheapest_route(nodes_view(nodes), links_view(links), dist, start, goal, guids_at(nodes, p), saturated(c)),
{
    let nv = nodes_view(nodes);
    let lv = links_view(links);
    let n = adj.len();
    assert(nodes.key_seq()[t as int] == goal);
    assert forall|p2: Seq<usize>, ws2: Seq<i128>|
        #[trigger] walk_weights(adj, p2, ws2) && p2.last() == t implies h[p2[0] as int] <= total(ws2) by {
        lemma_walk_weights_are_steps(nodes, links, goal, dist, adj, h, p2, ws2);
        let q = guids_at(nodes, p2);
        let w32 = ws2.map_values(|w: i128| w as i32);
        let i0 = p2[0] as int;
        if ws2.len() > 0 {
            assert(0 <= p2[0] < n);
        } else {
            assert(p2[0] == p2.last());
        }
        assert(q[0] == nodes.key_seq()[i0]);
        assert(q.last() == goal);
        assert(nv.contains_key(q[0]));
        assert(dist.ensures((&nv[nodes.key_seq()[i0]].position, &nv[goal].position), h[i0] as i32));
        assert((h[i0] as i32) <= route_total(w32));
    }
    assert(admissible(adj, h, t));
    assert(cheapest(adj, s, t, p, c));
    lemma_walk_cost_is_route_cost(nodes, links, goal, dist, adj, h, p, c);
    if distance_functional(dist) {
        assert forall|q: Seq<Seq<char>>, ws: Seq<i32>|
            #[trigger] step_distances(nv, lv, dist, q, ws) && q[0] == start && q.last() == goal implies saturated(c) <= route_total(ws) by {
            lemma_steps_facts(nv, lv, dist, q, ws);
            let j = lemma_route_to_goal_expandable(nv, lv, q, start, goal);
            let q2 = q.take(j + 1);
            let ws2 = ws.take(j);
            assert(step_distances(nv, lv, dist, q2, ws2));
            assert forall|m: int| 0 <= m < q2.len() - 1 implies expandable(nv, lv, #[trigger] q2[m]) by {
                assert(q2[m] == q[m]);
            }
            lemma_steps_are_walk_weights(nodes, links, goal, dist, adj, h, q2, ws2);
            let p2 = positions_of(nodes, q2);
            let w128 = ws2.map_values(|w: i32| w as i128);
            assert(p2[0] == s);
            assert(q2.last() == goal);
            assert(p2.last() == t);
            assert(walk_weights(adj, p2, w128));
            assert(c <= total(w128));
            lemma_total_widen(ws2);
            lemma_route_total_prefix(ws, j);
        }
    }
}

/// Finds a route from `start` to `goal` through the road network.
///
/// `dist` gives the cost of each step, from the successor's position to the
/// current node's, and the estimate from each node's position to the goal's.
/// From a node to itself the route is that one node, at cost 0, with nothing
/// looked up; from a node whose links name nothing to another the answer is
/// `None`, with no node looked up.  Otherwise the answer is `None` exactly
/// when no route leads from `start` to `goal`, and a route found starts at
/// `start`, ends at `goal`, goes by links, visits no node twice, and comes
/// with the total of its step distances (`i32::MAX` where that does not
/// fit).  When no distance `dist` gives to the goal exceeds the total of a
/// route from there, no route from `start` to `goal` costs less.
pub fn pathfind<F: Fn(&Position, &Position) -> i32>(
    nodes: &StrMap<VehicleNode>,
    links: &StrMap<Vec<VehicleLink>>,
    goal: String,
    start: String,
    dist: F,
) -> (r: Option<(Vec<String>, i32)>)
    requires
        start@ == goal@ || names_nothing(links_view(*links), start@) || {
            &&& nodes@.contains_key(start@)
            &&& nodes@.contains_key(goal@)
            &&& closed_before(nodes_view(*nodes), links_view(*links), start@, goal@)
        },
        distance_ok(dist),
    ensures
        r is None <==> !route_exists(nodes_view(*nodes), links_view(*links), start@, goal@),
        r matches Some((path, cost)) ==> {
            &&& is_route(nodes_view(*nodes), links_view(*links), str_seq(path@))
            &&& str_seq(path@)[0] == start@
            &&& str_seq(path@).last() == goal@
            &&& distinct_guids(str_seq(path@))
            &&& 0 <= cost
            &&& route_cost(nodes_view(*nodes), links_view(*links), dist, str_seq(path@), cost)
        },
        start@ == goal@ ==> (r matches Some((path, cost)) && str_seq(path@) == seq![start@] && cost == 0),
        start@ != goal@ && names_nothing(links_view(*links), start@) ==> r is None,
        start@ != goal@ && !names_nothing(links_view(*links), start@) ==> pathfind_answer(
            *nodes,
            *links,
            goal@,
            start@,
            dist,
            r,
        ),
        never_overestimates(nodes_view(*nodes), links_view(*links), goal@, dist) ==> (r matches Some(
            (path, cost),
        ) ==> cheapest_route(
            nodes_view(*nodes),
            links_view(*links),
            dist,
            start@,
            goal@,
            str_seq(path@),
            cost,
        )),
{
    let ghost nv = nodes_view(*nodes);
    let ghost lv = links_view(*links);
    if start == goal {
        let mut path: Vec<String> = Vec::new();
        path.push(start);
        proof {
            assert(str_seq(path@) =~= seq![goal@]);
            assert(is_route(nv, lv, seq![goal@]));
            assert(step_distances(nv, lv, dist, seq![goal@], Seq::<i32>::empty()));
            assert forall|q: Seq<Seq<char>>, ws: Seq<i32>|
                #[trigger] step_distances(nv, lv, dist, q, ws) && q[0] == start@ && q.last() == goal@ implies 0 <= route_total(ws) by {
                lemma_steps_facts(nv, lv, dist, q, ws);
                lemma_route_total_prefix(ws, 0);
            }
        }
        return Some((path, 0));
    }
    if links_name_nothing(links, &start) {
        proof {
            lemma_dead_end(nv, lv, start@, goal@);
        }
        return None;
    }
    nodes.layout_facts();
    let graph = route_graph(nodes, links, &goal, &dist);
    let s = nodes.position(start.as_str()).unwrap();
    let t = nodes.position(goal.as_str()).unwrap();
    let ghost adj = graph.edges();
    let ghost h = graph.estimates();
    let found = graph.search(s, t);
    let ghost fv = found_view(found);
    assert(fv == astar_result(adj, h, nodes.position_of(start@) as usize, nodes.position_of(goal@) as usize));
    match found {
        None => {
            assert(!route_exists(nv, lv, start@, goal@)) by {
                if route_exists(nv, lv, start@, goal@) {
                    let q0 = choose|q: Seq<Seq<char>>| #[trigger] is_route(nv, lv, q) && q[0] == start@ && q.last() == goal@;
                    let j = lemma_route_to_goal_expandable(nv, lv, q0, start@, goal@);
                    let q = q0.take(j + 1);
                    assert forall|m: int| 0 <= m < q.len() - 1 implies expandable(nv, lv, #[trigger] q[m]) by {
                        assert(q[m] == q0[m]);
                    }
                    lemma_route_is_walk(*nodes, *links, adj, q);
                    let p = positions_of(*nodes, q);
                    assert(p[0] == s);
                    assert(q.last() == goal@);
                    assert(p.last() == t);
                    assert(reachable(adj, s, t));
                }
            }
            assert(route_named(*nodes, fv, None));
            None
        },
        Some((p, c)) => {
            let ghost pv = p@;
            assert forall|k: int| 0 <= k < pv.len() implies #[trigger] pv[k] < adj.len() by {
                if k < pv.len() - 1 {
                    assert(has_edge(adj, pv[k] as int, pv[k + 1] as int));
                }
            }
            proof {
                lemma_walk_is_route(*nodes, *links, adj, pv);
            }
            proof {
                lemma_walk_cost_is_route_cost(*nodes, *links, goal@, dist, adj, h, pv, c);
                if never_overestimates(nv, lv, goal@, dist) {
                    lemma_route_cost(*nodes, *links, goal@, start@, dist, adj, h, s, t, pv, c);
                }
            }
            let found = Some((p, c));
            assert(found_view(found) == fv);
            let r = named_route(nodes, found);
            let path = &r.as_ref().unwrap().0;
            assert(distinct_guids(str_seq(path@))) by {
                assert forall|a: int, b: int| 0 <= a < b < pv.len() implies #[trigger] str_seq(path@)[a]
                    != #[trigger] str_seq(path@)[b] by {
                    assert(pv[a] != pv[b]);
                }
            }
            r
        },
    }
}

/// Appends to `out` the positions of the nodes that `link` leads to.
fn push_link_positions(out: &mut Vec<usize>, link: &VehicleLink, nodes: &StrMap<VehicleNode>)
    requires
        nodes.layout(),
        forall|j: int| 0 <= j < link@.refs.len() ==> ref_known(nodes_view(*nodes), #[trigger] link@.refs[j]),
    ensures
        final(out)@.len() == old(out)@.len() + link@.refs.len(),
        forall|k: int| 0 <= k < old(out)@.len() ==> #[trigger] final(out)@[k] == old(out)@[k],
        forall|j: int|
            0 <= j < link@.refs.len() ==> #[trigger] final(out)@[old(out)@.len() + j] == nodes.position_of(
                nodes_view(*nodes)[link@.refs[j]].guid,
            ),
{
    let ghost nv = nodes_view(*nodes);
    let ghost start = out@;
    let m = link.refs.len();
    for j in 0..m
        invariant
            m == link@.refs.len(),
            nv == nodes_view(*nodes),
            nodes.layout(),
            forall|jj: int| 0 <= jj < link@.refs.len() ==> ref_known(nv, #[trigger] link@.refs[jj]),
            out@.len() == start.len() + j,
            forall|k: int| 0 <= k < start.len() ==> #[trigger] out@[k] == start[k],
            forall|jj: int|
                0 <= jj < j ==> #[trigger] out@[start.len() + jj] == nodes.position_of(nv[link@.refs[jj]].guid),
    {
        let r = &link.refs[j];
        assert(link@.refs[j as int] == r@);
        assert(ref_known(nv, r@));
        let node = nodes.get(r.as_str()).unwrap();
        let to = nodes.position(node.guid.as_str()).unwrap();
        out.push(to);
        assert(out@[start.len() + j] == to);
    }
}

/// The positions of the successors of `guid`, in the order of [`get_next`].
pub fn successor_positions(
    guid: &String,
    links: &StrMap<Vec<VehicleLink>>,
    nodes: &StrMap<VehicleNode>,
) -> (r: Vec<usize>)
    requires
        expandable(nodes_view(*nodes), links_view(*links), guid@),
    ensures
        r@.len() == next_refs(links_view(*links), guid@).len(),
        forall|k: int|
            0 <= k < r@.len() ==> #[trigger] r@[k] == nodes.position_of(
                nodes_view(*nodes)[next_refs(links_view(*links), guid@)[k]].guid,
            ),
            forall|k: int| 0 <= k < r@.len() ==> #[trigger] r@[k] < nodes.spec_len(),
{
    let ghost nv = nodes_view(*nodes);
    let ghost lv = links_view(*links);
    nodes.layout_facts();
    let list = links.get(guid.as_str()).unwrap();
    let ghost ls = link_seq(list@);
    assert(lv[guid@] == ls);
    assert(next_refs(lv, guid@) == flat_refs(ls));
    proof {
        lemma_flat_known(nv, ls);
    }
    let mut out: Vec<usize> = Vec::new();
    let n = list.len();
    for i in 0..n
        invariant
            n == list@.len(),
            ls == link_seq(list@),
            nv == nodes_view(*nodes),
            nodes.layout(),
            forall|i: int, j: int|
                0 <= i < ls.len() && 0 <= j < ls[i].refs.len() ==> ref_known(nv, #[trigger] ls[i].refs[j]),
            out@.len() == flat_refs(ls.take(i as int)).len(),
            forall|k: int|
                0 <= k < out@.len() ==> #[trigger] out@[k] == nodes.position_of(nv[flat_refs(ls.take(i as int))[k]].guid),
    {
        let link = &list[i];
        assert(ls[i as int] == link@);
        let ghost before = out@;
        push_link_positions(&mut out, link, nodes);
        proof {
            lemma_flat_refs_take(ls, i as int);
            let f = flat_refs(ls.take(i + 1));
            let f0 = flat_refs(ls.take(i as int));
            assert forall|k: int| 0 <= k < out@.len() implies #[trigger] out@[k] == nodes.position_of(nv[f[k]].guid) by {
                if k < before.len() {
                    assert(f[k] == f0[k]);
                } else {
                    assert(f[k] == link@.refs[k - before.len()]);
                    assert(out@[before.len() + (k - before.len())] == out@[k]);
                }
            }
        }
    }
    assert(ls.take(n as int) =~= ls);
    out
}

/// Whether [`pathfind`] may be asked for a route from `start` to `goal`:
/// they are the same guid, or the links of `start` name nothing, or both are
/// nodes and every node other than `goal` that a route from `start` reaches
/// without passing through `goal` can be expanded.
pub fn route_ready(
    nodes: &StrMap<VehicleNode>,
    links: &StrMap<Vec<VehicleLink>>,
    start: &String,
    goal: &String,
) -> (b: bool)
    ensures
        b == (start@ == goal@ || names_nothing(links_view(*links), start@) || (nodes@.contains_key(start@)
            && nodes@.contains_key(goal@) && closed_before(nodes_view(*nodes), links_view(*links), start@, goal@))),
{
    let ghost nv = nodes_view(*nodes);
    let ghost lv = links_view(*links);
    if *start == *goal {
        return true;
    }
    if links_name_nothing(links, start) {
        return true;
    }
    nodes.layout_facts();
    let s = match nodes.position(start.as_str()) {
        None => {
            return false;
        },
        Some(s) => s,
    };
    if !nodes.contains_key(goal.as_str()) {
        return false;
    }
    let n = nodes.len();
    let ghost keys = nodes.key_seq();
    let mut visited: Vec<bool> = Vec::new();
    for i in 0..n
        invariant
            visited@.len() == i,
            forall|j: int| 0 <= j < i ==> !#[trigger] visited@[j],
    {
        visited.push(false);
    }
    visited.set(s, true);
    let mut work: Vec<usize> = Vec::new();
    work.push(s);
    let ghost mut vs: Set<int> = Set::empty().insert(s as int);
    assert(work@[0] == s);
    assert(forall|i: int| 0 <= i < n && #[trigger] visited@[i] ==> i == s);
    assert(vs.subset_of(vstd::set_lib::set_int_range(0, n as int)));
    assert(is_route(nv, lv, seq![start@]));
    assert(reaches_before(nv, lv, start@, keys[s as int], goal@));
    loop
        invariant
            n == nodes.spec_len(),
            n == visited@.len(),
            nodes.layout(),
            nv == nodes_view(*nodes),
            lv == links_view(*links),
            keys == nodes.key_seq(),
            s < n,
            keys[s as int] == start@,
            visited@[s as int],
            forall|i: int| #[trigger] vs.contains(i) <==> (0 <= i < n && visited@[i]),
            vs.subset_of(vstd::set_lib::set_int_range(0, n as int)),
            forall|i: int| 0 <= i < n && #[trigger] visited@[i] ==> reaches_before(nv, lv, start@, keys[i], goal@),
            forall|k: int| 0 <= k < work@.len() ==> #[trigger] work@[k] < n && visited@[work@[k] as int],
            forall|a: int, b: int| 0 <= a < b < work@.len() ==> #[trigger] work@[a] != #[trigger] work@[b],
            forall|i: int|
                0 <= i < n && #[trigger] visited@[i] && !work@.contains(i as usize) && keys[i] != goal@ ==> {
                    &&& expandable(nv, lv, keys[i])
                    &&& forall|k: int|
                        0 <= k < next_refs(lv, keys[i]).len() ==> visited@[nodes.position_of(
                            nv[#[trigger] next_refs(lv, keys[i])[k]].guid,
                        )]
                },
        ensures
            work@.len() == 0,
            forall|i: int|
                0 <= i < n && #[trigger] visited@[i] && !work@.contains(i as usize) && keys[i] != goal@ ==> {
                    &&& expandable(nv, lv, keys[i])
                    &&& forall|k: int|
                        0 <= k < next_refs(lv, keys[i]).len() ==> visited@[nodes.position_of(
                            nv[#[trigger] next_refs(lv, keys[i])[k]].guid,
                        )]
                },
        decreases n - vs.len(), work@.len(),
    {
        let ghost work_before = work@;
        proof {
            vstd::set_lib::lemma_int_range(0, n as int);
            vstd::set_lib::lemma_len_subset(vs, vstd::set_lib::set_int_range(0, n as int));
        }
        let cur = match work.pop() {
            None => {
                break;
            },
            Some(c) => c,
        };
        let ghost work_after_pop = work@;
        let ghost vs_at_pop = vs;
        assert(work_before == work@.push(cur));
        assert(!work@.contains(cur)) by {
            if work@.contains(cur) {
                let w = choose|w: int| 0 <= w < work@.len() && work@[w] == cur;
                assert(work_before[w] == work_before[work_before.len() - 1]);
            }
        }
        assert forall|i: int|
            0 <= i < n && #[trigger] visited@[i] && !work@.contains(i as usize) && i != cur implies !work_before.contains(i as usize) by {
            if work_before.contains(i as usize) {
                let w = choose|w: int| 0 <= w < work_before.len() && work_before[w] == i as usize;
                if w < work@.len() {
                    assert(work@[w] == i as usize);
                }
            }
        }
        let key = nodes.key_at(cur);
        if *key == *goal {
            continue;
        }
        if !successors_known(key.as_str(), links, nodes) {
            assert(reaches_before(nv, lv, start@, keys[cur as int], goal@));
            return false;
        }
        let succ = successor_positions(key, links, nodes);
        let ghost nr = next_refs(lv, key@);
        let ghost route_cur = choose|q: Seq<Seq<char>>|
            #[trigger] is_route(nv, lv, q) && q[0] == start@ && q.last() == keys[cur as int] && avoids_before_end(q, goal@);
        let m = succ.len();
        for k in 0..m
            invariant
                m == succ@.len(),
                m == nr.len(),
                n == nodes.spec_len(),
                n == visited@.len(),
                nodes.layout(),
                nv == nodes_view(*nodes),
                lv == links_view(*links),
                keys == nodes.key_seq(),
                keys[cur as int] == key@,
                cur < n,
                nr == next_refs(lv, key@),
                expandable(nv, lv, key@),
                is_route(nv, lv, route_cur),
                route_cur[0] == start@,
                route_cur.last() == key@,
                avoids_before_end(route_cur, goal@),
                key@ != goal@,
                forall|kk: int| 0 <= kk < m ==> #[trigger] succ@[kk] == nodes.position_of(nv[nr[kk]].guid),
                forall|kk: int| 0 <= kk < m ==> #[trigger] succ@[kk] < n,
                s < n,
                keys[s as int] == start@,
                visited@[s as int],
                visited@[cur as int],
                forall|i: int| #[trigger] vs.contains(i) <==> (0 <= i < n && visited@[i]),
                vs.subset_of(vstd::set_lib::set_int_range(0, n as int)),
                vs_at_pop.subset_of(vs),
                vs.finite(),
                vs_at_pop.finite(),
                work@.len() == work_after_pop.len() + (vs.len() - vs_at_pop.len()),
                forall|kk: int| 0 <= kk < k ==> visited@[#[trigger] succ@[kk] as int],
                forall|i: int| 0 <= i < n && #[trigger] visited@[i] ==> reaches_before(nv, lv, start@, keys[i], goal@),
                forall|kk: int| 0 <= kk < work@.len() ==> #[trigger] work@[kk] < n && visited@[work@[kk] as int],
                forall|a: int, b: int| 0 <= a < b < work@.len() ==> #[trigger] work@[a] != #[trigger] work@[b],
                !work@.contains(cur),
                forall|i: int|
                    0 <= i < n && #[trigger] visited@[i] && !work@.contains(i as usize) && i != cur && keys[i] != goal@ ==> {
                        &&& expandable(nv, lv, keys[i])
                        &&& forall|kk: int|
                            0 <= kk < next_refs(lv, keys[i]).len() ==> visited@[nodes.position_of(
                                nv[#[trigger] next_refs(lv, keys[i])[kk]].guid,
                            )]
                    },
        {
            let to = succ[k];
            if !visited[to] {
                let ghost before_work = work@;
                let ghost before_vis = visited@;
                visited.set(to, true);
                work.push(to);
                proof {
                    assert(!vs.contains(to as int));
                    vs = vs.insert(to as int);
                    let r = nr[k as int];
                    assert(ref_known(nv, r));
                    assert(keys[to as int] == nv[r].guid);
                    let q = route_cur.push(keys[to as int]);
                    assert(step(nv, lv, key@, keys[to as int]));
                    assert forall|j: int| 0 <= j < q.len() - 1 implies step(nv, lv, #[trigger] q[j], q[j + 1]) by {
                        if j < route_cur.len() - 1 {
                            assert(q[j] == route_cur[j]);
                            assert(q[j + 1] == route_cur[j + 1]);
                        }
                    }
                    assert(is_route(nv, lv, q));
                    assert(avoids_before_end(q, goal@)) by {
                        assert forall|j: int| 0 <= j < q.len() - 1 implies #[trigger] q[j] != goal@ by {
                            assert(q[j] == route_cur[j]);
                        }
                    }
                    assert(reaches_before(nv, lv, start@, keys[to as int], goal@));
                    assert forall|i: int|
                        0 <= i < n && #[trigger] visited@[i] && !work@.contains(i as usize) && i != cur && keys[i] != goal@ implies {
                            &&& expandable(nv, lv, keys[i])
                            &&& forall|kk: int|
                                0 <= kk < next_refs(lv, keys[i]).len() ==> visited@[nodes.position_of(
                                    nv[#[trigger] next_refs(lv, keys[i])[kk]].guid,
                                )]
                        } by {
                        assert(work@[work@.len() - 1] == to);
                        assert(i != to);
                        assert(before_vis[i]);
                        if before_work.contains(i as usize) {
                            let w = choose|w: int| 0 <= w < before_work.len() && before_work[w] == i as usize;
                            assert(work@[w] == i as usize);
                        }
                    }
                    assert(!work@.contains(cur)) by {
                        if work@.contains(cur) {
                            let w = choose|w: int| 0 <= w < work@.len() && work@[w] == cur;
                            if w < before_work.len() {
                                assert(before_work[w] == cur);
                            }
                        }
                    }
                }
            }
        }
        proof {
            assert forall|i: int|
                0 <= i < n && #[trigger] visited@[i] && !work@.contains(i as usize) && keys[i] != goal@ implies {
                    &&& expandable(nv, lv, keys[i])
                    &&& forall|kk: int|
                        0 <= kk < next_refs(lv, keys[i]).len() ==> visited@[nodes.position_of(
                            nv[#[trigger] next_refs(lv, keys[i])[kk]].guid,
                        )]
                } by {
                if i == cur {
                    assert forall|kk: int| 0 <= kk < next_refs(lv, keys[i]).len() implies visited@[nodes.position_of(
                        nv[#[trigger] next_refs(lv, keys[i])[kk]].guid,
                    )] by {
                        assert(visited@[succ@[kk] as int]);
                    }
                }
            }
            vstd::set_lib::lemma_int_range(0, n as int);
            vstd::set_lib::lemma_len_subset(vs, vstd::set_lib::set_int_range(0, n as int));
            vstd::set_lib::lemma_len_subset(vs_at_pop, vs);
        }
    }
    assert(closed_before(nv, lv, start@, goal@)) by {
        assert forall|g: Seq<char>| #[trigger] reaches_before(nv, lv, start@, g, goal@) && g != goal@ implies expandable(nv, lv, g) by {
            let q = choose|q: Seq<Seq<char>>|
                #[trigger] is_route(nv, lv, q) && q[0] == start@ && q.last() == g && avoids_before_end(q, goal@);
            assert(forall|i: int| 0 <= i < n ==> !#[trigger] work@.contains(i as usize));
            lemma_route_stays_visited(*nodes, *links, visited@, q, goal@);
            assert(nodes@.contains_key(q[q.len() - 1]));
            assert(visited@[nodes.position_of(g)]);
            assert(keys[nodes.position_of(g)] == g);
        }
    }
    true
}

/// A route that starts at a marked node and does not pass through `goal`
/// before its end stays on marked nodes when every marked node other than
/// `goal` can be expanded and has all its successors marked.
proof fn lemma_route_stays_visited(
    nodes: StrMap<VehicleNode>,
    links: StrMap<Vec<VehicleLink>>,
    visited: Seq<bool>,
    q: Seq<Seq<char>>,
    goal: Seq<char>,
)
    requires
        avoids_before_end(q, goal),
        nodes.layout(),
        visited.len() == nodes.spec_len(),
        is_route(nodes_view(nodes), links_view(links), q),
        nodes@.contains_key(q[0]),
        visited[nodes.position_of(q[0])],
        forall|i: int|
            0 <= i < visited.len() && #[trigger] visited[i] && nodes.key_seq()[i] != goal ==> {
                &&& expandable(nodes_view(nodes), links_view(links), nodes.key_seq()[i])
                &&& forall|kk: int|
                    0 <= kk < next_refs(links_view(links), nodes.key_seq()[i]).len() ==> visited[nodes.position_of(
                        nodes_view(nodes)[#[trigger] next_refs(links_view(links), nodes.key_seq()[i])[kk]].guid,
                    )]
            },
    ensures
        forall|m: int| 0 <= m < q.len() ==> nodes@.contains_key(#[trigger] q[m]) && visited[nodes.position_of(q[m])],
    decreases q.len(),
{
    let nv = nodes_view(nodes);
    let lv = links_view(links);
    if q.len() > 1 {
        let init = q.drop_last();
        assert forall|k: int| 0 <= k < init.len() - 1 implies step(nv, lv, #[trigger] init[k], init[k + 1]) by {
            assert(init[k] == q[k]);
            assert(init[k + 1] == q[k + 1]);
        }
        assert forall|k: int| 0 <= k < init.len() - 1 implies #[trigger] init[k] != goal by {
            assert(init[k] == q[k]);
        }
        lemma_route_stays_visited(nodes, links, visited, init, goal);
        let m = q.len() - 2;
        assert(init[m] == q[m]);
        assert(nodes@.contains_key(q[m]) && visited[nodes.position_of(q[m])]);
        let i = nodes.position_of(q[m]);
        assert(nodes.key_seq()[i] == q[m]);
        assert(q[m] != goal);
        assert(step(nv, lv, q[m], q[m + 1]));
        let k = choose|k: int|
            0 <= k < next_refs(lv, q[m]).len() && nv.contains_key(#[trigger] next_refs(lv, q[m])[k])
                && nv[next_refs(lv, q[m])[k]].guid == q[m + 1];
        assert(ref_known(nv, next_refs(lv, q[m])[k]));
        assert forall|mm: int| 0 <= mm < q.len() implies nodes@.contains_key(#[trigger] q[mm]) && visited[nodes.position_of(q[mm])] by {
            if mm < q.len() - 1 {
                assert(init[mm] == q[mm]);
            }
        }
    }
}

// ---------------------------------------------------------------------------
// Routes between the nodes of a scene run both ways.
// ---------------------------------------------------------------------------

proof fn lemma_contains_count(s: Seq<Seq<char>>, g: Seq<char>)
    requires
        s.contains(g),
    ensures
        count_in(s, g) > 0,
    decreases s.len(),
{
    if s.last() != g {
        let k = choose|k: int| 0 <= k < s.len() && s[k] == g;
        assert(s.drop_last()[k] == g);
        lemma_contains_count(s.drop_last(), g);
    }
}

/// A link listed as referring to `g` is the link of a link object that
/// names `g`; `m` is that object's place.
pub(crate) proof fn lemma_referencing_source(objs: Seq<TopLevelObject>, g: Seq<char>, i: int) -> (m: int)
    requires
        0 <= i < links_referencing(objs, g).len(),
    ensures
        0 <= m < objs.len(),
        is_link_object(objs[m]),
        ref_guids(objs[m]).contains(g),
        links_referencing(objs, g)[i] == link_of(objs[m]),
    decreases objs.len(),
{
    let init = objs.drop_last();
    let prev = links_referencing(init, g);
    let o = objs.last();
    if i < prev.len() {
        assert(links_referencing(objs, g)[i] == prev[i]);
        let m = lemma_referencing_source(init, g, i);
        assert(init[m] == objs[m]);
        m
    } else {
        assert(is_link_object(o));
        assert(count_in(ref_guids(o), g) > 0);
        crate::network::lemma_count_contains(ref_guids(o), g);
        assert(objs[objs.len() - 1] == o);
        objs.len() - 1
    }
}

/// The link of a link object that names `h` is listed as referring to `h`,
/// at place `i`.
pub(crate) proof fn lemma_referencing_place(objs: Seq<TopLevelObject>, h: Seq<char>, m: int) -> (i: int)
    requires
        0 <= m < objs.len(),
        is_link_object(objs[m]),
        ref_guids(objs[m]).contains(h),
    ensures
        0 <= i < links_referencing(objs, h).len(),
        links_referencing(objs, h)[i] == link_of(objs[m]),
    decreases objs.len(),
{
    let init = objs.drop_last();
    let prev = links_referencing(init, h);
    if m == objs.len() - 1 {
        lemma_contains_count(ref_guids(objs[m]), h);
        assert(links_referencing(objs, h)[prev.len() as int] == link_of(objs[m]));
        prev.len() as int
    } else {
        assert(init[m] == objs[m]);
        let i = lemma_referencing_place(init, h, m);
        assert(links_referencing(objs, h)[i] == prev[i]);
        i
    }
}

/// The guid at place `k` of the flattened list is reference `j` of link `i`.
proof fn lemma_flat_locate(ls: Seq<VehicleLinkView>, k: int) -> (ij: (int, int))
    requires
        0 <= k < flat_refs(ls).len(),
    ensures
        0 <= ij.0 < ls.len(),
        0 <= ij.1 < ls[ij.0].refs.len(),
        flat_refs(ls)[k] == ls[ij.0].refs[ij.1],
    decreases ls.len(),
{
    let init = ls.drop_last();
    let fi = flat_refs(init);
    assert(flat_refs(ls) == fi + ls.last().refs);
    if k < fi.len() {
        let (i, j) = lemma_flat_locate(init, k);
        assert(init[i] == ls[i]);
        (i, j)
    } else {
        (ls.len() - 1, k - fi.len())
    }
}

/// Reference `j` of link `i` stands at place `k` of the flattened list.
proof fn lemma_flat_place(ls: Seq<VehicleLinkView>, i: int, j: int) -> (k: int)
    requires
        0 <= i < ls.len(),
        0 <= j < ls[i].refs.len(),
    ensures
        0 <= k < flat_refs(ls).len(),
        flat_refs(ls)[k] == ls[i].refs[j],
    decreases ls.len(),
{
    let init = ls.drop_last();
    let fi = flat_refs(init);
    assert(flat_refs(ls) == fi + ls.last().refs);
    if i == ls.len() - 1 {
        fi.len() + j
    } else {
        assert(init[i] == ls[i]);
        let k = lemma_flat_place(init, i, j);
        k
    }
}

/// In the maps of a scene whose node guids are all different, a step from
/// `g` to `h` can be taken back from `h` to `g`.
proof fn lemma_step_back(objs: Seq<TopLevelObject>, g: Seq<char>, h: Seq<char>)
    requires
        forall|x: Seq<char>| #[trigger] node_count(objs, x) <= 1,
        step(node_map(objs), link_map(objs), g, h),
    ensures
        step(node_map(objs), link_map(objs), h, g),
{
    let nv = node_map(objs);
    let lv = link_map(objs);
    crate::network::lemma_nodes_keyed_by_guid(objs);
    crate::network::lemma_node_keys(objs);
    assert(node_count(objs, g) == 1);
    let ls = links_referencing(objs, g);
    assert(lv[g] == ls);
    assert(next_refs(lv, g) == flat_refs(ls));
    let k = choose|k: int| 0 <= k < next_refs(lv, g).len() && nv.contains_key(#[trigger] next_refs(lv, g)[k]) && nv[next_refs(lv, g)[k]].guid == h;
    let r = next_refs(lv, g)[k];
    assert(r == h);
    assert(node_count(objs, h) == 1);
    let (i, j) = lemma_flat_locate(ls, k);
    let m = lemma_referencing_source(objs, g, i);
    assert(ls[i].refs == ref_guids(objs[m]));
    assert(ref_guids(objs[m])[j] == h);
    assert(ref_guids(objs[m]).contains(h));
    let i2 = lemma_referencing_place(objs, h, m);
    let lh = links_referencing(objs, h);
    let j2 = choose|j2: int| 0 <= j2 < ref_guids(objs[m]).len() && ref_guids(objs[m])[j2] == g;
    assert(lh[i2].refs[j2] == g);
    let k2 = lemma_flat_place(lh, i2, j2);
    assert(lv[h] == lh);
    assert(next_refs(lv, h)[k2] == g);
    assert(nv.contains_key(g));
}

/// In the node and link maps built from a scene whose node objects all
/// carry different guids, a route leads from `b` to `a` whenever one leads
/// from `a` to `b`: a link joins its nodes both ways.
pub proof fn lemma_routes_run_both_ways(objs: Seq<TopLevelObject>, a: Seq<char>, b: Seq<char>)
    requires
        forall|x: Seq<char>| #[trigger] node_count(objs, x) <= 1,
        route_exists(node_map(objs), link_map(objs), a, b),
    ensures
        route_exists(node_map(objs), link_map(objs), b, a),
{
    let nv = node_map(objs);
    let lv = link_map(objs);
    let q = choose|q: Seq<Seq<char>>| #[trigger] is_route(nv, lv, q) && q[0] == a && q.last() == b;
    let back = q.reverse();
    assert forall|k: int| 0 <= k < back.len() - 1 implies step(nv, lv, #[trigger] back[k], back[k + 1]) by {
        let n = q.len();
        assert(back[k] == q[n - 1 - k]);
        assert(back[k + 1] == q[n - 2 - k]);
        assert(step(nv, lv, q[n - 2 - k], q[n - 1 - k]));
        lemma_step_back(objs, q[n - 2 - k], q[n - 1 - k]);
    }
    assert(is_route(nv, lv, back));
    assert(back[0] == b);
    assert(back.last() == a);
}

/// The road network together with the two ends of the route shown.
pub struct PathfindingData {
    pub nodes: StrMap<VehicleNode>,
    pub links: StrMap<Vec<VehicleLink>>,
    pub start_node: String,
    pub end_node: String,
}

impl PathfindingData {
    /// Moves the ends of the route after the clicks of one frame: a left
    /// click makes `nearest` (the node nearest the cursor) the start, a right
    /// click makes it the end.  Answers whether the route is to be found anew,
    /// which it is after any click.
    pub fn apply_clicks(&mut self, left_click: bool, right_click: bool, nearest: Option<String>) -> (changed: bool)
        requires
            left_click || right_click ==> nearest is Some,
        ensures
            changed == (left_click || right_click),
            final(self).start_node == if left_click {
                nearest.unwrap()
            } else {
                old(self).start_node
            },
            final(self).end_node == if right_click {
                nearest.unwrap()
            } else {
                old(self).end_node
            },
            final(self).nodes == old(self).nodes,
            final(self).links == old(self).links,
    {
        if left_click {
            self.start_node = nearest.clone().unwrap();
        }
        if right_click {
            self.end_node = nearest.unwrap();
        }
        left_click || right_click
    }
}

} // verus!
