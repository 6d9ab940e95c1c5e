//! Shortest-path planning between two arbitrary points: both points are
//! spliced into a copy of the graph, each joined to its nearest node, and an
//! A* search runs over the copy with integer edge costs.
use vstd::prelude::*;

use crate::geometry::{
    distance_rounded, dist_sq, is_nearest, is_round_sqrt, lemma_nearest_unique, lemma_zero_distance,
    nearest_node, Point,
};
use crate::graph::{has_edge, same_edge, Edge, SpatialGraph};

verus! {

/// `route` is a walk along `edges` from node `from` to node `to`.
pub open spec fn is_walk(edges: Seq<Edge>, route: Seq<usize>, from: usize, to: usize) -> bool {
    &&& route.len() >= 1
    &&& route[0] == from
    &&& route.last() == to
    &&& forall|k: int| 0 <= k < route.len() - 1 ==> has_edge(edges, #[trigger] route[k], route[k + 1])
}

/// Some walk along `edges` leads from `from` to `to`.
pub open spec fn reachable(edges: Seq<Edge>, from: usize, to: usize) -> bool {
    exists|route: Seq<usize>| is_walk(edges, route, from, to)
}

/// The route that `pathfinding`'s A* search returns on the graph of `nodes`
/// and `edges` from `start` to `goal`, with the neighbour costs and goal
/// estimates of this module (`None` when it finds none).
pub uninterp spec fn astar_route_of(nodes: Seq<Point>, edges: Seq<Edge>, start: usize, goal: usize) -> Option<Seq<usize>>;

/// The node nearest to `p` (see `is_nearest`).
pub open spec fn nearest_of(nodes: Seq<Point>, p: Point) -> int {
    choose|c: int| is_nearest(nodes, p, c)
}

/// The positions along `route` in the graph of `nodes`.
pub open spec fn route_positions(nodes: Seq<Point>, route: Seq<usize>) -> Seq<Point> {
    route.map_values(|k: usize| nodes[k as int])
}

/// What planning from `start` to `end` over `(nodes, edges)` returns: the
/// positions along the route that the A* search finds in the planning graph.
pub open spec fn planned(nodes: Seq<Point>, edges: Seq<Edge>, start: Point, end: Point) -> Option<Seq<Point>> {
    let c1 = nearest_of(nodes, start) as usize;
    let c2 = nearest_of(nodes.push(start), end) as usize;
    let n = nodes.len();
    match astar_route_of(
        planning_nodes(nodes, start, end),
        planning_edges(nodes, edges, c1, c2),
        n as usize,
        (n + 1) as usize,
    ) {
        Some(route) => Some(route_positions(planning_nodes(nodes, start, end), route)),
        None => None,
    }
}

/// Exactly one node is nearest, so `nearest_of` names it.
proof fn lemma_nearest_of(nodes: Seq<Point>, p: Point, c: int)
    requires
        is_nearest(nodes, p, c),
    ensures
        nearest_of(nodes, p) == c,
{
    lemma_nearest_unique(nodes, p, nearest_of(nodes, p), c);
}

/// The nodes of the graph used for planning from `start` to `end`: the
/// graph's nodes followed by `start` and then `end`.
pub open spec fn planning_nodes(nodes: Seq<Point>, start: Point, end: Point) -> Seq<Point> {
    nodes.push(start).push(end)
}

/// The edges of the graph used for planning: the graph's edges, then an edge
/// from `start`'s nearest node `c1` to `start`, then one from `end`'s nearest
/// node `c2` (nearest among the graph's nodes and `start`) to `end`.
pub open spec fn planning_edges(nodes: Seq<Point>, edges: Seq<Edge>, c1: usize, c2: usize) -> Seq<Edge> {
    edges.push((c1, nodes.len() as usize)).push((c2, (nodes.len() + 1) as usize))
}

/// `path` is a plan from `start` to `end` over the graph `(nodes, edges)`:
/// the positions along a walk in the planning graph from the node spliced in
/// for `start` to the node spliced in for `end`.
pub open spec fn is_plan(nodes: Seq<Point>, edges: Seq<Edge>, start: Point, end: Point, path: Seq<Point>) -> bool {
    exists|c1: usize, c2: usize, route: Seq<usize>|
        #![trigger is_walk(planning_edges(nodes, edges, c1, c2), route, nodes.len() as usize, (nodes.len() + 1) as usize)]
        is_nearest(nodes, start, c1 as int) && is_nearest(nodes.push(start), end, c2 as int)
        && is_walk(planning_edges(nodes, edges, c1, c2), route, nodes.len() as usize, (nodes.len() + 1) as usize)
        && path == route.map_values(|k: usize| planning_nodes(nodes, start, end)[k as int])
}

/// `start` and `end` are connected in the planning graph.
pub open spec fn plannable(nodes: Seq<Point>, edges: Seq<Edge>, start: Point, end: Point) -> bool {
    forall|c1: usize, c2: usize|
        is_nearest(nodes, start, c1 as int) && is_nearest(nodes.push(start), end, c2 as int)
            ==> #[trigger] reachable(planning_edges(nodes, edges, c1, c2), nodes.len() as usize, (nodes.len() + 1) as usize)
}

/// The neighbours of node `i` with the cost of the step to each: the
/// Euclidean distance between the two nodes, rounded to the nearest unit.
pub fn neighbor_costs(graph: &SpatialGraph, i: usize) -> (r: Vec<(usize, u128)>)
    requires
        graph.wf(),
        i < graph.nodes@.len(),
    ensures
        forall|m: int|
            0 <= m < r@.len() ==> {
                let (j, c) = #[trigger] r@[m];
                &&& has_edge(graph.edges@, i, j)
                &&& j < graph.nodes@.len()
                &&& is_round_sqrt(dist_sq(graph.nodes@[i as int], graph.nodes@[j as int]), c as int)
                &&& c < 0x1_0000_0000
            },
        forall|j: usize|
            #[trigger] has_edge(graph.edges@, i, j) ==> exists|m: int| 0 <= m < r@.len() && (#[trigger] r@[m]).0 == j,
{
    let mut r: Vec<(usize, u128)> = Vec::new();
    let mut k: usize = 0;
    let n = graph.nodes.len();
    while k < graph.edges.len()
        invariant
            k <= graph.edges@.len(),
            graph.wf(),
            i < n == graph.nodes@.len(),
            forall|m: int|
                0 <= m < r@.len() ==> {
                    let (j, c) = #[trigger] r@[m];
                    &&& has_edge(graph.edges@, i, j)
                    &&& j < n
                    &&& is_round_sqrt(dist_sq(graph.nodes@[i as int], graph.nodes@[j as int]), c as int)
                    &&& c < 0x1_0000_0000
                },
            forall|q: int, j: usize|
                0 <= q < k && #[trigger] same_edge(graph.edges@[q], i, j) ==> exists|m: int|
                    0 <= m < r@.len() && (#[trigger] r@[m]).0 == j,
        decreases graph.edges@.len() - k,
    {
        let (a, b) = graph.edges[k];
        assert(graph.edges@[k as int] == (a, b));
        let ghost pre = r@;
        if a == i {
            assert(same_edge(graph.edges@[k as int], i, b));
            let c = distance_rounded(graph.nodes[i], graph.nodes[b]);
            r.push((b, c));
            assert(r@[pre.len() as int].0 == b);
        }
        let ghost mid = r@;
        if b == i {
            assert(same_edge(graph.edges@[k as int], i, a));
            let c = distance_rounded(graph.nodes[i], graph.nodes[a]);
            r.push((a, c));
            assert(r@[mid.len() as int].0 == a);
        }
        assert forall|q: int, j: usize|
            0 <= q < k + 1 && #[trigger] same_edge(graph.edges@[q], i, j) implies exists|m: int|
                0 <= m < r@.len() && (#[trigger] r@[m]).0 == j by {
            if q < k {
                let m = choose|m: int| 0 <= m < pre.len() && (#[trigger] pre[m]).0 == j;
                assert(r@[m] == pre[m]);
            } else if a == i && b == j {
                assert(r@[pre.len() as int] == mid[pre.len() as int]);
            } else {
                assert(b == i && a == j);
            }
        }
        k += 1;
    }
    r
}

/// The search's estimate of the cost from node `i` to node `goal`: their
/// Euclidean distance, rounded to the nearest unit.
pub fn goal_estimate(graph: &SpatialGraph, i: usize, goal: usize) -> (r: u128)
    requires
        graph.wf(),
        i < graph.nodes@.len(),
        goal < graph.nodes@.len(),
    ensures
        is_round_sqrt(dist_sq(graph.nodes@[i as int], graph.nodes@[goal as int]), r as int),
{
    distance_rounded(graph.nodes[i], graph.nodes[goal])
}

/// Whether the search has reached the goal node.
pub fn same_node(i: usize, goal: usize) -> (r: bool)
    ensures
        r == (i == goal),
{
    i == goal
}

/// Relies on `pathfinding::directed::astar::astar`. Started at `start`, with
/// the graph's neighbours as successors, it returns the nodes of a path that
/// begins at `start`, ends at the first node accepted as the goal, takes
/// each step to a successor of the previous node and visits no node twice;
/// its result depends on its arguments alone (its map and heap are
/// deterministic), which `astar_route_of` names; it returns `None` only once
/// every node reachable from `start` has been expanded, that is only when no
/// such path exists. Step costs stay below 2^32 and a returned or explored
/// path visits each node at most once, so the `u128` cost sums cannot overflow.
#[verifier::external_body]
fn astar_route(graph: &SpatialGraph, start: usize, goal: usize) -> (r: Option<Vec<usize>>)
    requires
        graph.wf(),
        start < graph.nodes@.len(),
        goal < graph.nodes@.len(),
    ensures
        r is None <==> !reachable(graph.edges@, start, goal),
        r matches Some(route) ==> is_walk(graph.edges@, route@, start, goal) && route@.no_duplicates(),
        match r {
            Some(route) => astar_route_of(graph.nodes@, graph.edges@, start, goal) == Some(route@),
            None => astar_route_of(graph.nodes@, graph.edges@, start, goal) is None,
        },
{
    pathfinding::directed::astar::astar(
        &start,
        |i: &usize| neighbor_costs(graph, *i),
        |i: &usize| goal_estimate(graph, *i, goal),
        |i: &usize| same_node(*i, goal),
    ).map(|found| found.0)
}

/// The positions of the nodes along `route`.
pub fn route_points(nodes: &Vec<Point>, route: &Vec<usize>) -> (r: Vec<Point>)
    requires
        forall|k: int| 0 <= k < route@.len() ==> #[trigger] route@[k] < nodes@.len(),
    ensures
        r@ == route_positions(nodes@, route@),
{
    let mut path: Vec<Point> = Vec::new();
    let mut k: usize = 0;
    while k < route.len()
        invariant
            k <= route@.len(),
            forall|j: int| 0 <= j < route@.len() ==> #[trigger] route@[j] < nodes@.len(),
            path@.len() == k,
            forall|m: int| 0 <= m < k ==> path@[m] == nodes@[#[trigger] route@[m] as int],
        decreases route@.len() - k,
    {
        path.push(nodes[route[k]]);
        k += 1;
    }
    assert(path@ =~= route_positions(nodes@, route@));
    path
}

/// Plans a path from `start` to `end` over `graph`. A copy of the graph gets
/// a node at `start` joined to its nearest node, then a node at `end` joined
/// to its nearest node (the `start` node included), and an A* search runs from
/// the first to the second. Returns the positions along the path found, or
/// `None` exactly when the two are not connected.
pub fn compute_path(start: Point, end: Point, graph: &SpatialGraph) -> (r: Option<Vec<Point>>)
    requires
        graph.wf(),
        graph.nodes@.len() > 0,
        graph.nodes@.len() + 2 <= usize::MAX,
        start.in_range(),
        end.in_range(),
    ensures
        r is Some <==> plannable(graph.nodes@, graph.edges@, start, end),
        r matches Some(path) ==> is_plan(graph.nodes@, graph.edges@, start, end, path@),
        r matches Some(path) ==> path@.len() >= 2 && path@[0] == start && path@.last() == end,
        r matches Some(path) ==> forall|k: int| 0 <= k < path@.len() ==> (#[trigger] path@[k]).in_range(),
        match r {
            Some(path) => planned(graph.nodes@, graph.edges@, start, end) == Some(path@),
            None => planned(graph.nodes@, graph.edges@, start, end) is None,
        },
        graph.nodes@.contains(start) && graph.nodes@.contains(end) ==> (r matches Some(path) ==> path@.len()
            >= 3 && path@[1] == start && path@[path@.len() - 2] == end),
{
    let ghost gn = graph.nodes@;
    let ghost ge = graph.edges@;
    let mut nodes = graph.nodes.clone();
    let mut edges: Vec<Edge> = Vec::new();
    let mut k: usize = 0;
    while k < graph.edges.len()
        invariant
            k <= ge.len(),
            ge == graph.edges@,
            edges@ == ge.subrange(0, k as int),
        decreases ge.len() - k,
    {
        edges.push(graph.edges[k]);
        assert(edges@ =~= ge.subrange(0, k + 1));
        k += 1;
    }
    assert(nodes@ =~= gn);
    assert(edges@ =~= ge);
    let n = nodes.len();
    let c1 = nearest_node(&nodes, start);
    nodes.push(start);
    edges.push((c1, n));
    assert forall|k: int| 0 <= k < nodes@.len() implies (#[trigger] nodes@[k]).in_range() by {
        if k < n {
            assert(nodes@[k] == gn[k]);
        }
    }
    let c2 = nearest_node(&nodes, end);
    nodes.push(end);
    edges.push((c2, n + 1));
    let plan_graph = SpatialGraph { nodes, edges };
    proof {
        let ns = plan_graph.nodes@;
        let es = plan_graph.edges@;
        assert(ns == planning_nodes(gn, start, end));
        assert(es == planning_edges(gn, ge, c1, c2));
        assert forall|k: int| 0 <= k < ns.len() implies (#[trigger] ns[k]).in_range() by {
            if k < n {
                assert(ns[k] == gn[k]);
            }
        }
        assert forall|k: int| 0 <= k < es.len() implies (#[trigger] es[k]).0 < ns.len() && es[k].1
            < ns.len() && es[k].0 != es[k].1 by {
            if k < ge.len() {
                assert(es[k] == ge[k]);
            }
        }
        assert forall|j: int, k: int| 0 <= j < k < es.len() implies !same_edge(
            #[trigger] es[j],
            #[trigger] es[k].0,
            es[k].1,
        ) by {
            if k < ge.len() {
                assert(es[j] == ge[j] && es[k] == ge[k]);
            } else if j < ge.len() {
                assert(es[j] == ge[j]);
            }
        }
    }
    let found = astar_route(&plan_graph, n, n + 1);
    proof {
        assert forall|d1: usize, d2: usize|
            is_nearest(gn, start, d1 as int) && is_nearest(gn.push(start), end, d2 as int) implies (d1
                == c1 && d2 == c2) by {
            lemma_nearest_unique(gn, start, d1 as int, c1 as int);
            lemma_nearest_unique(gn.push(start), end, d2 as int, c2 as int);
        }
    }
    proof {
        lemma_nearest_of(gn, start, c1 as int);
        lemma_nearest_of(gn.push(start), end, c2 as int);
    }
    match found {
        None => None,
        Some(route) => {
            let ghost pn = plan_graph.nodes@;
            let ghost es = plan_graph.edges@;
            proof {
                assert forall|k: int| 0 <= k < route@.len() implies #[trigger] route@[k] < pn.len() by {
                    if k > 0 {
                        assert(has_edge(es, route@[k - 1], route@[k]));
                        let q = choose|q: int|
                            0 <= q < es.len() && same_edge(#[trigger] es[q], route@[k - 1], route@[k]);
                    }
                }
            }
            let path = route_points(&plan_graph.nodes, &route);
            proof {
                assert forall|k: int| 0 <= k < path@.len() implies (#[trigger] path@[k]).in_range() by {
                    assert(path@[k] == pn[route@[k] as int]);
                }
                assert(is_walk(planning_edges(gn, ge, c1, c2), route@, gn.len() as usize, (gn.len() + 1) as usize));
                assert(route@[0] != route@.last());
                assert(path@[0] == pn[route@[0] as int]);
                assert(path@[path@.len() - 1] == pn[route@[route@.len() - 1] as int]);
                if gn.contains(start) && gn.contains(end) {
                    lemma_coincident_ends(gn, ge, start, end, c1, c2, route@);
                    assert(path@[1] == pn[route@[1] as int]);
                    assert(path@[path@.len() - 2] == pn[route@[route@.len() - 2] as int]);
                }
            }
            Some(path)
        },
    }
}

proof fn lemma_coincident_ends(
    nodes: Seq<Point>,
    edges: Seq<Edge>,
    start: Point,
    end: Point,
    c1: usize,
    c2: usize,
    route: Seq<usize>,
)
    requires
        crate::graph::edges_valid(edges, nodes.len() as int),
        nodes.len() + 2 <= usize::MAX,
        is_nearest(nodes, start, c1 as int),
        is_nearest(nodes.push(start), end, c2 as int),
        nodes.contains(start),
        nodes.contains(end),
        is_walk(planning_edges(nodes, edges, c1, c2), route, nodes.len() as usize, (nodes.len() + 1) as usize),
    ensures
        route.len() >= 3,
        route[1] == c1,
        route[route.len() - 2] == c2,
        planning_nodes(nodes, start, end)[c1 as int] == start,
        planning_nodes(nodes, start, end)[c2 as int] == end,
{
    let n = nodes.len() as usize;
    let es = planning_edges(nodes, edges, c1, c2);
    let pn = planning_nodes(nodes, start, end);
    let i = choose|i: int| 0 <= i < nodes.len() && nodes[i] == start;
    let j = choose|j: int| 0 <= j < nodes.len() && nodes[j] == end;
    assert(dist_sq(nodes[c1 as int], start) <= dist_sq(nodes[i], start));
    lemma_zero_distance(nodes[c1 as int], start);
    assert(nodes.push(start)[j] == end);
    assert(dist_sq(nodes.push(start)[c2 as int], end) <= dist_sq(nodes.push(start)[j], end));
    lemma_zero_distance(nodes.push(start)[c2 as int], end);
    if c2 as int > j {
        assert(dist_sq(nodes.push(start)[c2 as int], end) < dist_sq(nodes.push(start)[j], end));
    }
    assert(c2 < n);
    assert(pn[c1 as int] == nodes[c1 as int]);
    assert(pn[c2 as int] == nodes[c2 as int]);
    assert(nodes.push(start)[c2 as int] == nodes[c2 as int]);
    assert(route.len() >= 2);
    assert(has_edge(es, route[0], route[1]));
    let q = choose|q: int| 0 <= q < es.len() && same_edge(#[trigger] es[q], route[0], route[1]);
    if q < edges.len() {
        assert(es[q] == edges[q]);
    }
    assert(route[1] == c1);
    let l = route.len() - 1;
    assert(route[l] == (n + 1) as usize);
    assert(route.len() >= 3);
    assert(has_edge(es, route[l - 1], route[l]));
    let q2 = choose|q2: int| 0 <= q2 < es.len() && same_edge(#[trigger] es[q2], route[l - 1], route[l]);
    if q2 < edges.len() {
        assert(es[q2] == edges[q2]);
    }
}

} // verus!
