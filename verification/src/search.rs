//! Shortest-route search over a graph whose nodes are numbered `0..n`.
//!
//! The search itself is the A* implementation of the `pathfinding` crate;
//! this module states what the library relies on from it.
use vstd::prelude::*;

verus! {

/// A directed graph on the nodes `0..n`: the edges leaving each node as
/// (target, weight), and for each node the estimate of the cost still to
/// pay from it to the goal.  Every graph of this type is well formed (see
/// [`RouteGraph::well_formed`]).
pub struct RouteGraph {
    adj: Vec<Vec<(usize, i128)>>,
    h: Vec<i128>,
}

/// The edge lists of a graph, as values.
pub open spec fn edges_view(adj: Seq<Vec<(usize, i128)>>) -> Seq<Seq<(usize, i128)>> {
    adj.map_values(|v: Vec<(usize, i128)>| v@)
}

impl RouteGraph {
    /// The edge lists, as values.
    pub closed spec fn edges(&self) -> Seq<Seq<(usize, i128)>> {
        edges_view(self.adj@)
    }

    /// The estimates, one per node.
    pub closed spec fn estimates(&self) -> Seq<i128> {
        self.h@
    }

    /// Every edge leads to a node of the graph, every weight and every
    /// estimate lies in `0..=i32::MAX`, and there is one estimate per node.
    pub open spec fn well_formed(&self) -> bool {
        graph_well_formed(self.edges(), self.estimates())
    }

    #[verifier::type_invariant]
    spec fn inv(self) -> bool {
        graph_well_formed(edges_view(self.adj@), self.h@)
    }

    /// The graph with edge lists `adj` and estimates `h`, where these are
    /// well formed; `None` where they are not.
    pub fn new(adj: Vec<Vec<(usize, i128)>>, h: Vec<i128>) -> (r: Option<RouteGraph>)
        ensures
            r is Some <==> graph_well_formed(edges_view(adj@), h@),
            r matches Some(g) ==> g.edges() == edges_view(adj@) && g.estimates() == h@,
    {
        let n = adj.len();
        if h.len() != n {
            return None;
        }
        for i in 0..n
            invariant
                n == adj@.len(),
                forall|ii: int, e: int|
                    0 <= ii < i && 0 <= e < adj@[ii]@.len() ==> {
                        &&& (#[trigger] adj@[ii]@[e]).0 < n
                        &&& 0 <= adj@[ii]@[e].1 <= i32::MAX
                    },
        {
            let list = &adj[i];
            let m = list.len();
            for e in 0..m
                invariant
                    n == adj@.len(),
                    i < n,
                    list == adj@[i as int],
                    m == list@.len(),
                    forall|ii: int, ee: int|
                        0 <= ii < i && 0 <= ee < adj@[ii]@.len() ==> {
                            &&& (#[trigger] adj@[ii]@[ee]).0 < n
                            &&& 0 <= adj@[ii]@[ee].1 <= i32::MAX
                        },
                    forall|ee: int|
                        0 <= ee < e ==> {
                            &&& (#[trigger] list@[ee]).0 < n
                            &&& 0 <= list@[ee].1 <= i32::MAX
                        },
            {
                let (j, w) = list[e];
                if j >= n || w < 0 || w > 0x7fff_ffff {
                    assert(edges_view(adj@)[i as int][e as int] == list@[e as int]);
                    return None;
                }
            }
        }
        for i in 0..n
            invariant
                n == h@.len(),
                forall|ii: int| 0 <= ii < i ==> 0 <= #[trigger] h@[ii] <= i32::MAX,
        {
            if h[i] < 0 || h[i] > 0x7fff_ffff {
                return None;
            }
        }
        assert(graph_well_formed(edges_view(adj@), h@)) by {
            assert forall|i: int, e: int|
                0 <= i < edges_view(adj@).len() && 0 <= e < edges_view(adj@)[i].len() implies {
                    &&& (#[trigger] edges_view(adj@)[i][e]).0 < edges_view(adj@).len()
                    &&& 0 <= edges_view(adj@)[i][e].1 <= i32::MAX
                } by {
                assert(edges_view(adj@)[i][e] == adj@[i]@[e]);
            }
        }
        Some(RouteGraph { adj, h })
    }

    /// The number of nodes.
    pub fn node_count(&self) -> (n: usize)
        ensures
            n == self.edges().len(),
            n == self.estimates().len(),
    {
        proof {
            use_type_invariant(self);
        }
        self.adj.len()
    }

    /// The number of edges leaving `i`.
    pub fn out_degree(&self, i: usize) -> (d: usize)
        requires
            i < self.edges().len(),
        ensures
            d == self.edges()[i as int].len(),
    {
        self.adj[i].len()
    }

    /// The estimate for `i`.
    pub fn estimate(&self, i: usize) -> (e: i128)
        requires
            i < self.estimates().len(),
        ensures
            e == self.estimates()[i as int],
    {
        self.h[i]
    }
}

/// See [`RouteGraph::well_formed`].
pub open spec fn graph_well_formed(g: Seq<Seq<(usize, i128)>>, h: Seq<i128>) -> bool {
    &&& h.len() == g.len()
    &&& forall|i: int, e: int|
        0 <= i < g.len() && 0 <= e < g[i].len() ==> {
            &&& (#[trigger] g[i][e]).0 < g.len()
            &&& 0 <= g[i][e].1 <= i32::MAX
        }
    &&& forall|i: int| 0 <= i < h.len() ==> 0 <= #[trigger] h[i] <= i32::MAX
}

/// There is an edge from `i` to `j`.
pub open spec fn has_edge(g: Seq<Seq<(usize, i128)>>, i: int, j: int) -> bool {
    &&& 0 <= i < g.len()
    &&& exists|e: int| 0 <= e < g[i].len() && (#[trigger] g[i][e]).0 == j
}

/// `p` is a walk: it has a node, and each of its nodes has an edge to the next.
pub open spec fn is_walk(g: Seq<Seq<(usize, i128)>>, p: Seq<usize>) -> bool {
    &&& p.len() >= 1
    &&& forall|k: int| 0 <= k < p.len() - 1 ==> has_edge(g, #[trigger] p[k] as int, p[k + 1] as int)
}

/// Some walk leads from `s` to `t`.
pub open spec fn reachable(g: Seq<Seq<(usize, i128)>>, s: usize, t: usize) -> bool {
    exists|p: Seq<usize>| #[trigger] is_walk(g, p) && p[0] == s && p.last() == t
}

/// No node occurs twice in `p`.
pub open spec fn no_repeats(p: Seq<usize>) -> bool {
    forall|a: int, b: int| 0 <= a < b < p.len() ==> #[trigger] p[a] != #[trigger] p[b]
}

/// `ws` are the weights of edges that take the walk `p` from each node to the next.
pub open spec fn walk_weights(g: Seq<Seq<(usize, i128)>>, p: Seq<usize>, ws: Seq<i128>) -> bool {
    &&& p.len() >= 1
    &&& ws.len() + 1 == p.len()
    &&& forall|k: int|
        0 <= k < ws.len() ==> 0 <= #[trigger] p[k] < g.len() && exists|e: int|
            0 <= e < g[p[k] as int].len() && #[trigger] g[p[k] as int][e] == (p[k + 1], ws[k])
}

/// The sum of a list of weights.
pub open spec fn total(ws: Seq<i128>) -> int
    decreases ws.len(),
{
    if ws.len() == 0 {
        0
    } else {
        total(ws.drop_last()) + ws.last()
    }
}

/// No estimate exceeds the cost of any walk from its node to the goal `t`.
pub open spec fn admissible(g: Seq<Seq<(usize, i128)>>, h: Seq<i128>, t: usize) -> bool {
    forall|p: Seq<usize>, ws: Seq<i128>|
        #[trigger] walk_weights(g, p, ws) && p.last() == t ==> h[p[0] as int] <= total(ws)
}

/// `c` is what the walk `p` costs: the total of the weights of edges that
/// take it from each node to the next.
pub open spec fn walk_cost(g: Seq<Seq<(usize, i128)>>, p: Seq<usize>, c: i128) -> bool {
    exists|ws: Seq<i128>| #[trigger] walk_weights(g, p, ws) && total(ws) == c
}

/// `c` is the least cost of a walk from `s` to `t`, and `p` is such a walk.
pub open spec fn cheapest(g: Seq<Seq<(usize, i128)>>, s: usize, t: usize, p: Seq<usize>, c: i128) -> bool {
    &&& walk_cost(g, p, c)
    &&& forall|q: Seq<usize>, ws: Seq<i128>|
        #[trigger] walk_weights(g, q, ws) && q[0] == s && q.last() == t ==> c <= total(ws)
}

/// The result of a search, as values.
pub open spec fn found_view(r: Option<(Vec<usize>, i128)>) -> Option<(Seq<usize>, i128)> {
    match r {
        Some((p, c)) => Some((p@, c)),
        None => None,
    }
}

/// What the A* search of the `pathfinding` crate returns for the graph `g`
/// with estimates `h`, from `s` to the goal `t`.
pub uninterp spec fn astar_result(g: Seq<Seq<(usize, i128)>>, h: Seq<i128>, s: usize, t: usize) -> Option<(Seq<usize>, i128)>;

/// What a search from `s` to `t` answers: `None` exactly when no walk
/// leads there; otherwise a walk from `s` to `t` that repeats no node,
/// together with what that walk costs; `[s]` at cost 0 when `s == t`; and,
/// when the estimates `h` never exceed the true remaining cost, a cheapest
/// walk.
pub open spec fn search_outcome(
    g: Seq<Seq<(usize, i128)>>,
    h: Seq<i128>,
    s: usize,
    t: usize,
    r: Option<(Seq<usize>, i128)>,
) -> bool {
    &&& r is None <==> !reachable(g, s, t)
    &&& r matches Some((p, c)) ==> {
        &&& is_walk(g, p)
        &&& p[0] == s
        &&& p.last() == t
        &&& no_repeats(p)
        &&& walk_cost(g, p, c)
        &&& 0 <= c
    }
    &&& s == t ==> r == Some((seq![s], 0i128))
    &&& admissible(g, h, t) ==> (r matches Some((p, c)) ==> cheapest(g, s, t, p, c))
}

/// The edges that leave `i`; none where `i` is not a node.
pub fn successors_at(adj: &Vec<Vec<(usize, i128)>>, i: usize) -> (r: Vec<(usize, i128)>)
    ensures
        i < adj@.len() ==> r@ == adj@[i as int]@,
        i >= adj@.len() ==> r@.len() == 0,
{
    let mut r: Vec<(usize, i128)> = Vec::new();
    if i < adj.len() {
        let list = &adj[i];
        let n = list.len();
        for e in 0..n
            invariant
                n == list@.len(),
                r@ == list@.take(e as int),
        {
            r.push(list[e]);
            assert(r@ =~= list@.take(e + 1));
        }
        assert(list@.take(n as int) =~= list@);
    }
    r
}

/// The estimate for `i`; zero where `i` is not a node.
pub fn estimate_at(h: &Vec<i128>, i: usize) -> (r: i128)
    ensures
        i < h@.len() ==> r == h@[i as int],
        i >= h@.len() ==> r == 0,
{
    if i < h.len() {
        h[i]
    } else {
        0
    }
}

/// Whether `i` is the goal `t`.
pub fn is_goal(i: usize, t: usize) -> (b: bool)
    ensures
        b == (i == t),
{
    i == t
}

/// Runs A* from `s` to `t` over the edges of `adj`, with `h` as the
/// estimate, through `pathfinding::directed::astar::astar`.
///
/// Trusted, not proved: the answer depends on the arguments alone (it is
/// `astar_result`); it is `None` exactly when no walk leads from `s` to `t`;
/// a path returned starts at `s`, ends at `t`, follows edges, repeats no node
/// and comes with its total cost (the sum of its edges' weights); from `s` to
/// itself it is `[s]` at cost 0; and when no estimate exceeds the true
/// remaining cost, the path is a cheapest one.  Which path comes back, among
/// several that qualify, is left to `astar_result`.
#[verifier::external_body]
fn astar_search(adj: &Vec<Vec<(usize, i128)>>, h: &Vec<i128>, s: usize, t: usize) -> (r: Option<(Vec<usize>, i128)>)
    requires
        graph_well_formed(edges_view(adj@), h@),
        s < adj@.len(),
        t < adj@.len(),
    ensures
        found_view(r) == astar_result(edges_view(adj@), h@, s, t),
        search_outcome(edges_view(adj@), h@, s, t, found_view(r)),
{
    pathfinding::directed::astar::astar(
        &s,
        |i: &usize| successors_at(adj, *i),
        |i: &usize| estimate_at(h, *i),
        |i: &usize| is_goal(*i, t),
    )
}

impl RouteGraph {
    /// Searches for a route from `s` to `t` with A*.
    ///
    /// The answer is `None` exactly when no walk leads from `s` to `t`.  A
    /// route found starts at `s`, ends at `t`, follows edges and visits no
    /// node twice, and the cost returned is what it costs; from `s` to itself
    /// it is `[s]` at cost 0.  When the estimates never exceed the true
    /// remaining cost, the route is a cheapest one.
    pub fn search(&self, s: usize, t: usize) -> (r: Option<(Vec<usize>, i128)>)
        requires
            s < self.edges().len(),
            t < self.edges().len(),
        ensures
            found_view(r) == astar_result(self.edges(), self.estimates(), s, t),
            search_outcome(self.edges(), self.estimates(), s, t, found_view(r)),
    {
        proof {
            use_type_invariant(self);
        }
        astar_search(&self.adj, &self.h, s, t)
    }
}

} // verus!
