//! The planar waypoint graph: an ordered list of node positions and a list of
//! undirected edges given as pairs of node indices.
use vstd::prelude::*;

use crate::geometry::Point;

verus! {

/// An undirected edge between two node indices.
pub type Edge = (usize, usize);

/// Whether edge `e` has `i` as one of its endpoints.
pub open spec fn touches(e: Edge, i: usize) -> bool {
    e.0 == i || e.1 == i
}

/// Whether edge `e` joins `a` and `b`, in either order.
pub open spec fn same_edge(e: Edge, a: usize, b: usize) -> bool {
    (e.0 == a && e.1 == b) || (e.0 == b && e.1 == a)
}

/// Whether some edge joins `a` and `b`.
pub open spec fn has_edge(edges: Seq<Edge>, a: usize, b: usize) -> bool {
    exists|k: int| 0 <= k < edges.len() && same_edge(#[trigger] edges[k], a, b)
}

/// Every edge joins two different nodes below `n`.
pub open spec fn edges_valid(edges: Seq<Edge>, n: int) -> bool {
    forall|k: int|
        0 <= k < edges.len() ==> (#[trigger] edges[k]).0 < n && edges[k].1 < n && edges[k].0
            != edges[k].1
}

/// No two edges join the same pair of nodes.
pub open spec fn edges_distinct(edges: Seq<Edge>) -> bool {
    forall|j: int, k: int|
        0 <= j < k < edges.len() ==> !same_edge(#[trigger] edges[j], #[trigger] edges[k].0, edges[k].1)
}

/// Every node lies within the coordinate range.
pub open spec fn nodes_in_range(nodes: Seq<Point>) -> bool {
    forall|k: int| 0 <= k < nodes.len() ==> (#[trigger] nodes[k]).in_range()
}

/// The graph invariant: positions in range, edges valid and without duplicates.
pub open spec fn graph_wf(nodes: Seq<Point>, edges: Seq<Edge>) -> bool {
    nodes_in_range(nodes) && edges_valid(edges, nodes.len() as int) && edges_distinct(edges)
}

/// `r` is the index of the first edge joining `a` and `b`, or `None` if there is none.
pub open spec fn is_first_edge(edges: Seq<Edge>, a: usize, b: usize, r: Option<usize>) -> bool {
    match r {
        Some(k) => k < edges.len() && same_edge(edges[k as int], a, b) && forall|j: int|
            0 <= j < k ==> !same_edge(#[trigger] edges[j], a, b),
        None => !has_edge(edges, a, b),
    }
}

/// Number of edges that touch node `i`.
pub open spec fn degree(edges: Seq<Edge>, i: usize) -> nat
    decreases edges.len(),
{
    if edges.len() == 0 {
        0
    } else {
        degree(edges.drop_last(), i) + if touches(edges.last(), i) {
            1nat
        } else {
            0nat
        }
    }
}

/// A node index after node `i` has been deleted: indices above `i` move down by one.
pub open spec fn shift(v: usize, i: usize) -> usize {
    if v > i {
        (v - 1) as usize
    } else {
        v
    }
}

/// An edge after node `i` has been deleted.
pub open spec fn renumber(e: Edge, i: usize) -> Edge {
    (shift(e.0, i), shift(e.1, i))
}

/// The edge list after node `i` has been deleted: edges touching `i` are
/// dropped, the others are renumbered, and their order is kept.
pub open spec fn kept(edges: Seq<Edge>, i: usize) -> Seq<Edge>
    decreases edges.len(),
{
    if edges.len() == 0 {
        seq![]
    } else if touches(edges.last(), i) {
        kept(edges.drop_last(), i)
    } else {
        kept(edges.drop_last(), i).push(renumber(edges.last(), i))
    }
}

/// The edge list with the edges at the indices listed in `marked` dropped, order kept.
pub open spec fn unmarked(edges: Seq<Edge>, marked: Seq<usize>) -> Seq<Edge>
    decreases edges.len(),
{
    if edges.len() == 0 {
        seq![]
    } else if marked.contains((edges.len() - 1) as usize) {
        unmarked(edges.drop_last(), marked)
    } else {
        unmarked(edges.drop_last(), marked).push(edges.last())
    }
}

/// The edge set after splitting the edges listed in `split` at node `mid`:
/// unsplit edges stay, and each split edge `(s, e)` becomes `(s, mid)` and `(mid, e)`.
pub open spec fn split_has_edge(
    edges: Seq<Edge>,
    split: Seq<usize>,
    mid: usize,
    a: usize,
    b: usize,
) -> bool {
    (exists|j: int|
        0 <= j < edges.len() && !split.contains(j as usize) && same_edge(#[trigger] edges[j], a, b))
        || (exists|m: int|
        0 <= m < split.len() && (same_edge((edges[#[trigger] split[m] as int].0, mid), a, b)
            || same_edge((mid, edges[split[m] as int].1), a, b)))
}

/// The edges with `(a, b)` appended, unless the two nodes are already joined.
pub open spec fn with_edge(edges: Seq<Edge>, a: usize, b: usize) -> Seq<Edge> {
    if has_edge(edges, a, b) {
        edges
    } else {
        edges.push((a, b))
    }
}

/// The edge list while splitting at `mid`: the unlisted edges in order, then
/// the halves of the listed edges from the last listed down to position `k`.
pub open spec fn split_from(edges: Seq<Edge>, split: Seq<usize>, mid: usize, k: int) -> Seq<Edge>
    decreases split.len() - k,
{
    if k >= split.len() || k < 0 {
        unmarked(edges, split)
    } else {
        let e = edges[split[k] as int];
        with_edge(with_edge(split_from(edges, split, mid, k + 1), e.0, mid), mid, e.1)
    }
}

/// The edge list after splitting the listed edges at `mid`.
pub open spec fn split_result(edges: Seq<Edge>, split: Seq<usize>, mid: usize) -> Seq<Edge> {
    split_from(edges, split, mid, 0)
}

/// `after` is `before` with the edge joining `a` and `b` toggled: unchanged
/// when `a == b`, `(a, b)` appended when no edge joins them, and otherwise
/// the first edge joining them removed.
pub open spec fn toggled_list(before: Seq<Edge>, a: usize, b: usize, after: Seq<Edge>) -> bool {
    if a == b {
        after == before
    } else if !has_edge(before, a, b) {
        after == before.push((a, b))
    } else {
        exists|k: usize| is_first_edge(before, a, b, Some(k)) && after == before.remove(k as int)
    }
}

/// Strictly increasing indices, each below `n`.
pub open spec fn is_index_list(s: Seq<usize>, n: int) -> bool {
    &&& forall|m: int| 0 <= m < s.len() ==> #[trigger] s[m] < n
    &&& forall|m1: int, m2: int| 0 <= m1 < m2 < s.len() ==> #[trigger] s[m1] < #[trigger] s[m2]
}

/// The eight nodes of the built-in field layout.
pub open spec fn default_nodes() -> Seq<Point> {
    seq![
        Point { x: 0, y: 60_000 },
        Point { x: 219_000, y: -26_000i64 },
        Point { x: 225_000, y: 158_000 },
        Point { x: 0, y: 212_000 },
        Point { x: -199_000i64, y: 170_000 },
        Point { x: -147_000i64, y: -45_000i64 },
        Point { x: -45_000i64, y: -144_000i64 },
        Point { x: 166_000, y: -142_000i64 },
    ]
}

/// The ten edges of the built-in field layout.
pub open spec fn default_edges() -> Seq<Edge> {
    seq![(0, 1), (0, 3), (0, 5), (1, 2), (2, 3), (3, 4), (4, 5), (5, 6), (6, 7), (7, 1)]
}

/// A planar graph of waypoints: node positions and undirected edges between them.
#[derive(Debug)]
pub struct SpatialGraph {
    pub nodes: Vec<Point>,
    pub edges: Vec<Edge>,
}

fn edge_index(edges: &Vec<Edge>, a: usize, b: usize) -> (r: Option<usize>)
    ensures
        is_first_edge(edges@, a, b, r),
{
    let mut k: usize = 0;
    while k < edges.len()
        invariant
            k <= edges.len(),
            forall|j: int| 0 <= j < k ==> !same_edge(#[trigger] edges@[j], a, b),
        decreases edges.len() - k,
    {
        let e = edges[k];
        if (e.0 == a && e.1 == b) || (e.0 == b && e.1 == a) {
            return Some(k);
        }
        k += 1;
    }
    None
}

/// Pushes edge `(a, b)` unless an edge already joins the two nodes.
fn push_if_absent(edges: &mut Vec<Edge>, a: usize, b: usize) -> (added: bool)
    requires
        edges_distinct(old(edges)@),
    ensures
        edges_distinct(final(edges)@),
        added == !has_edge(old(edges)@, a, b),
        added ==> final(edges)@ == old(edges)@.push((a, b)),
        !added ==> final(edges)@ == old(edges)@,
        forall|x: usize, y: usize|
            #[trigger] has_edge(final(edges)@, x, y) <==> has_edge(old(edges)@, x, y)
                || same_edge((a, b), x, y),
{
    match edge_index(edges, a, b) {
        Some(k) => {
            assert forall|x: usize, y: usize|
                #[trigger] has_edge(edges@, x, y) <==> has_edge(edges@, x, y) || same_edge(
                    (a, b),
                    x,
                    y,
                ) by {
                if same_edge((a, b), x, y) {
                    assert(same_edge(edges@[k as int], x, y));
                }
            }
            false
        },
        None => {
            let ghost pre = edges@;
            edges.push((a, b));
            assert forall|x: usize, y: usize|
                #[trigger] has_edge(edges@, x, y) <==> has_edge(pre, x, y) || same_edge(
                    (a, b),
                    x,
                    y,
                ) by {
                if has_edge(pre, x, y) {
                    let k = choose|k: int| 0 <= k < pre.len() && same_edge(#[trigger] pre[k], x, y);
                    assert(edges@[k] == pre[k]);
                }
                if same_edge((a, b), x, y) {
                    assert(edges@[pre.len() as int] == (a, b));
                }
                if has_edge(edges@, x, y) {
                    let k = choose|k: int|
                        0 <= k < edges@.len() && same_edge(#[trigger] edges@[k], x, y);
                    if k < pre.len() {
                        assert(pre[k] == edges@[k]);
                    }
                }
            }
            assert forall|j: int, k: int| 0 <= j < k < edges@.len() implies !same_edge(
                #[trigger] edges@[j],
                #[trigger] edges@[k].0,
                edges@[k].1,
            ) by {
                if k == pre.len() {
                    assert(edges@[j] == pre[j]);
                    if same_edge(edges@[j], a, b) {
                        assert(same_edge(pre[j], a, b));
                    }
                } else {
                    assert(edges@[j] == pre[j] && edges@[k] == pre[k]);
                }
            }
            true
        },
    }
}

fn listed(s: &Vec<usize>, v: usize) -> (r: bool)
    ensures
        r == s@.contains(v),
{
    let mut k: usize = 0;
    while k < s.len()
        invariant
            k <= s.len(),
            forall|m: int| 0 <= m < k ==> s@[m] != v,
        decreases s.len() - k,
    {
        if s[k] == v {
            assert(s@[k as int] == v);
            return true;
        }
        k += 1;
    }
    false
}

proof fn lemma_kept_source(edges: Seq<Edge>, i: usize)
    ensures
        forall|m: int|
            0 <= m < kept(edges, i).len() ==> exists|j: int|
                0 <= j < edges.len() && !touches(edges[j], i) && #[trigger] kept(edges, i)[m]
                    == renumber(edges[j], i),
    decreases edges.len(),
{
    if edges.len() > 0 {
        let pre = edges.drop_last();
        lemma_kept_source(pre, i);
        assert forall|m: int| 0 <= m < kept(edges, i).len() implies exists|j: int|
            0 <= j < edges.len() && !touches(edges[j], i) && #[trigger] kept(edges, i)[m]
                == renumber(edges[j], i) by {
            if m < kept(pre, i).len() {
                let j = choose|j: int|
                    0 <= j < pre.len() && !touches(pre[j], i) && #[trigger] kept(pre, i)[m]
                        == renumber(pre[j], i);
                assert(edges[j] == pre[j]);
            } else {
                assert(edges[edges.len() - 1] == edges.last());
            }
        }
    }
}

proof fn lemma_kept_wf(edges: Seq<Edge>, i: usize, n: int)
    requires
        edges_valid(edges, n),
        edges_distinct(edges),
        i < n,
    ensures
        edges_valid(kept(edges, i), n - 1),
        edges_distinct(kept(edges, i)),
        kept(edges, i).len() + degree(edges, i) == edges.len(),
    decreases edges.len(),
{
    if edges.len() > 0 {
        let pre = edges.drop_last();
        let last = edges.last();
        assert(edges[edges.len() - 1] == last);
        assert forall|j: int, k: int| 0 <= j < k < pre.len() implies !same_edge(
            #[trigger] pre[j],
            #[trigger] pre[k].0,
            pre[k].1,
        ) by {
            assert(pre[j] == edges[j] && pre[k] == edges[k]);
        }
        assert forall|k: int| 0 <= k < pre.len() implies (#[trigger] pre[k]).0 < n && pre[k].1
            < n && pre[k].0 != pre[k].1 by {
            assert(pre[k] == edges[k]);
        }
        lemma_kept_wf(pre, i, n);
        if !touches(last, i) {
            lemma_kept_source(pre, i);
            let kp = kept(pre, i);
            let ks = kept(edges, i);
            assert(ks == kp.push(renumber(last, i)));
            assert forall|j: int, k: int| 0 <= j < k < ks.len() implies !same_edge(
                #[trigger] ks[j],
                #[trigger] ks[k].0,
                ks[k].1,
            ) by {
                if k == kp.len() {
                    let jj = choose|jj: int|
                        0 <= jj < pre.len() && !touches(pre[jj], i) && #[trigger] kp[j]
                            == renumber(pre[jj], i);
                    assert(pre[jj] == edges[jj]);
                    assert(!same_edge(edges[jj], last.0, last.1));
                    assert(ks[j] == kp[j]);
                } else {
                    assert(ks[j] == kp[j] && ks[k] == kp[k]);
                }
            }
            assert forall|k: int| 0 <= k < ks.len() implies (#[trigger] ks[k]).0 < n - 1
                && ks[k].1 < n - 1 && ks[k].0 != ks[k].1 by {
                if k < kp.len() {
                    assert(ks[k] == kp[k]);
                }
            }
        }
    }
}

proof fn lemma_unmarked_source(edges: Seq<Edge>, marked: Seq<usize>)
    ensures
        forall|m: int|
            0 <= m < unmarked(edges, marked).len() ==> exists|j: int|
                0 <= j < edges.len() && !marked.contains(j as usize) && #[trigger] unmarked(
                    edges,
                    marked,
                )[m] == edges[j],
        forall|j: int|
            0 <= j < edges.len() && !marked.contains(j as usize) ==> exists|m: int|
                0 <= m < unmarked(edges, marked).len() && #[trigger] unmarked(edges, marked)[m]
                    == #[trigger] edges[j],
    decreases edges.len(),
{
    if edges.len() > 0 {
        let pre = edges.drop_last();
        lemma_unmarked_source(pre, marked);
        let up = unmarked(pre, marked);
        let ue = unmarked(edges, marked);
        assert(edges[edges.len() - 1] == edges.last());
        assert forall|m: int| 0 <= m < ue.len() implies exists|j: int|
            0 <= j < edges.len() && !marked.contains(j as usize) && #[trigger] ue[m]
                == edges[j] by {
            if m < up.len() {
                let j = choose|j: int|
                    0 <= j < pre.len() && !marked.contains(j as usize) && #[trigger] up[m]
                        == pre[j];
                assert(edges[j] == pre[j]);
                assert(ue[m] == up[m]);
            }
        }
        assert forall|j: int| 0 <= j < edges.len() && !marked.contains(j as usize) implies exists|
            m: int,
        | 0 <= m < ue.len() && #[trigger] ue[m] == #[trigger] edges[j] by {
            if j < pre.len() {
                assert(pre[j] == edges[j]);
                let m = choose|m: int| 0 <= m < up.len() && #[trigger] up[m] == pre[j];
                assert(ue[m] == up[m]);
            } else {
                assert(ue[up.len() as int] == edges[j]);
            }
        }
    }
}

proof fn lemma_unmarked_has_edge(edges: Seq<Edge>, marked: Seq<usize>)
    ensures
        forall|a: usize, b: usize|
            #[trigger] has_edge(unmarked(edges, marked), a, b) <==> exists|j: int|
                0 <= j < edges.len() && !marked.contains(j as usize) && same_edge(
                    #[trigger] edges[j],
                    a,
                    b,
                ),
{
    lemma_unmarked_source(edges, marked);
    let u = unmarked(edges, marked);
    assert forall|a: usize, b: usize|
        #[trigger] has_edge(u, a, b) <==> exists|j: int|
            0 <= j < edges.len() && !marked.contains(j as usize) && same_edge(
                #[trigger] edges[j],
                a,
                b,
            ) by {
        if has_edge(u, a, b) {
            let q = choose|q: int| 0 <= q < u.len() && same_edge(#[trigger] u[q], a, b);
            let j = choose|j: int|
                0 <= j < edges.len() && !marked.contains(j as usize) && #[trigger] u[q]
                    == edges[j];
            assert(same_edge(edges[j], a, b));
        }
        if exists|j: int|
            0 <= j < edges.len() && !marked.contains(j as usize) && same_edge(
                #[trigger] edges[j],
                a,
                b,
            ) {
            let j = choose|j: int|
                0 <= j < edges.len() && !marked.contains(j as usize) && same_edge(
                    #[trigger] edges[j],
                    a,
                    b,
                );
            let q = choose|q: int| 0 <= q < u.len() && #[trigger] u[q] == #[trigger] edges[j];
            assert(same_edge(u[q], a, b));
        }
    }
}

proof fn lemma_unmarked_wf(edges: Seq<Edge>, marked: Seq<usize>, n: int)
    requires
        edges_valid(edges, n),
        edges_distinct(edges),
    ensures
        edges_valid(unmarked(edges, marked), n),
        edges_distinct(unmarked(edges, marked)),
    decreases edges.len(),
{
    if edges.len() > 0 {
        let pre = edges.drop_last();
        let last = edges.last();
        assert(edges[edges.len() - 1] == last);
        assert forall|j: int, k: int| 0 <= j < k < pre.len() implies !same_edge(
            #[trigger] pre[j],
            #[trigger] pre[k].0,
            pre[k].1,
        ) by {
            assert(pre[j] == edges[j] && pre[k] == edges[k]);
        }
        assert forall|k: int| 0 <= k < pre.len() implies (#[trigger] pre[k]).0 < n && pre[k].1
            < n && pre[k].0 != pre[k].1 by {
            assert(pre[k] == edges[k]);
        }
        lemma_unmarked_wf(pre, marked, n);
        if !marked.contains((edges.len() - 1) as usize) {
            lemma_unmarked_source(pre, marked);
            let up = unmarked(pre, marked);
            let ue = unmarked(edges, marked);
            assert forall|j: int, k: int| 0 <= j < k < ue.len() implies !same_edge(
                #[trigger] ue[j],
                #[trigger] ue[k].0,
                ue[k].1,
            ) by {
                if k == up.len() {
                    let jj = choose|jj: int|
                        0 <= jj < pre.len() && !marked.contains(jj as usize) && #[trigger] up[j]
                            == pre[jj];
                    assert(pre[jj] == edges[jj]);
                    assert(ue[j] == up[j]);
                } else {
                    assert(ue[j] == up[j] && ue[k] == up[k]);
                }
            }
            assert forall|k: int| 0 <= k < ue.len() implies (#[trigger] ue[k]).0 < n && ue[k].1
                < n && ue[k].0 != ue[k].1 by {
                if k < up.len() {
                    assert(ue[k] == up[k]);
                }
            }
        }
    }
}

/// `after` holds the edges of `before`, except that the presence of an edge
/// joining `a` and `b` is flipped (when `a` and `b` differ).
pub open spec fn toggled(before: Seq<Edge>, after: Seq<Edge>, a: usize, b: usize) -> bool {
    forall|x: usize, y: usize|
        #[trigger] has_edge(after, x, y) == if a != b && same_edge((a, b), x, y) {
            !has_edge(before, x, y)
        } else {
            has_edge(before, x, y)
        }
}

proof fn lemma_kept_complete(edges: Seq<Edge>, i: usize)
    ensures
        forall|j: int|
            0 <= j < edges.len() && !touches(edges[j], i) ==> exists|m: int|
                0 <= m < kept(edges, i).len() && #[trigger] kept(edges, i)[m] == renumber(
                    #[trigger] edges[j],
                    i,
                ),
    decreases edges.len(),
{
    if edges.len() > 0 {
        let pre = edges.drop_last();
        lemma_kept_complete(pre, i);
        let kp = kept(pre, i);
        let ke = kept(edges, i);
        assert forall|j: int| 0 <= j < edges.len() && !touches(edges[j], i) implies exists|m: int|
            0 <= m < ke.len() && #[trigger] ke[m] == renumber(#[trigger] edges[j], i) by {
            if j < pre.len() {
                assert(pre[j] == edges[j]);
                let m = choose|m: int| 0 <= m < kp.len() && #[trigger] kp[m] == renumber(pre[j], i);
                assert(ke[m] == kp[m]);
            } else {
                assert(edges[j] == edges.last());
                assert(ke[kp.len() as int] == renumber(edges[j], i));
            }
        }
    }
}

proof fn lemma_unmarked_congruent(edges: Seq<Edge>, s1: Seq<usize>, s2: Seq<usize>)
    requires
        edges.len() <= usize::MAX,
        forall|j: int| 0 <= j < edges.len() ==> #[trigger] s1.contains(j as usize) == s2.contains(j as usize),
    ensures
        unmarked(edges, s1) == unmarked(edges, s2),
    decreases edges.len(),
{
    if edges.len() > 0 {
        lemma_unmarked_congruent(edges.drop_last(), s1, s2);
        assert(s1.contains((edges.len() - 1) as usize) == s2.contains((edges.len() - 1) as usize));
    }
}

proof fn lemma_unmarked_len(edges: Seq<Edge>, marked: Seq<usize>)
    requires
        edges.len() <= usize::MAX,
        is_index_list(marked, edges.len() as int),
    ensures
        unmarked(edges, marked).len() + marked.len() == edges.len(),
    decreases edges.len(),
{
    if edges.len() == 0 {
        if marked.len() > 0 {
            assert(marked[0] < 0);
        }
    } else {
        let l = (edges.len() - 1) as usize;
        let pre = edges.drop_last();
        if marked.contains(l) {
            let i = choose|i: int| 0 <= i < marked.len() && marked[i] == l;
            if i < marked.len() - 1 {
                assert(marked[i] < marked[marked.len() - 1]);
            }
            assert(marked[marked.len() - 1] == l);
            let sp = marked.drop_last();
            assert forall|j: int| 0 <= j < pre.len() implies #[trigger] marked.contains(j as usize) == sp.contains(
                j as usize,
            ) by {
                if marked.contains(j as usize) {
                    let q = choose|q: int| 0 <= q < marked.len() && marked[q] == j as usize;
                    assert(q != marked.len() - 1);
                    assert(sp[q] == marked[q]);
                }
                if sp.contains(j as usize) {
                    let q = choose|q: int| 0 <= q < sp.len() && sp[q] == j as usize;
                    assert(marked[q] == sp[q]);
                }
            }
            lemma_unmarked_congruent(pre, marked, sp);
            assert forall|m: int| 0 <= m < sp.len() implies #[trigger] sp[m] < pre.len() by {
                assert(sp[m] == marked[m]);
                assert(marked[m] < marked[marked.len() - 1]);
            }
            assert forall|m1: int, m2: int| 0 <= m1 < m2 < sp.len() implies #[trigger] sp[m1]
                < #[trigger] sp[m2] by {
                assert(sp[m1] == marked[m1] && sp[m2] == marked[m2]);
            }
            lemma_unmarked_len(pre, sp);
        } else {
            assert forall|m: int| 0 <= m < marked.len() implies #[trigger] marked[m] < pre.len() by {
                assert(marked[m] != l);
            }
            lemma_unmarked_len(pre, marked);
        }
    }
}

/// No two of the listed edges share an endpoint.
pub open spec fn split_disjoint(edges: Seq<Edge>, split: Seq<usize>) -> bool {
    forall|q1: int, q2: int|
        0 <= q1 < q2 < split.len() ==> !touches(edges[#[trigger] split[q1] as int], edges[#[trigger] split[q2] as int].0)
            && !touches(edges[split[q1] as int], edges[split[q2] as int].1)
}

proof fn lemma_split_from_len(edges: Seq<Edge>, split: Seq<usize>, mid: usize, k: int)
    requires
        edges_valid(edges, mid as int + 1),
        forall|j: int| 0 <= j < edges.len() ==> !touches(#[trigger] edges[j], mid),
        forall|q: int| 0 <= q < split.len() ==> #[trigger] split[q] < edges.len(),
        split_disjoint(edges, split),
        0 <= k <= split.len(),
    ensures
        split_from(edges, split, mid, k).len() == unmarked(edges, split).len() + 2 * (split.len() - k),
        forall|i: int|
            0 <= i < split_from(edges, split, mid, k).len() && touches(
                #[trigger] split_from(edges, split, mid, k)[i],
                mid,
            ) ==> exists|q: int|
                k <= q < split.len() && (split_from(edges, split, mid, k)[i] == (
                    edges[split[q] as int].0,
                    mid,
                ) || split_from(edges, split, mid, k)[i] == (mid, edges[split[q] as int].1)),
    decreases split.len() - k,
{
    if k == split.len() {
        lemma_unmarked_source(edges, split);
        let u = unmarked(edges, split);
        assert forall|i: int| 0 <= i < u.len() implies !touches(#[trigger] u[i], mid) by {
            let j = choose|j: int| 0 <= j < edges.len() && !split.contains(j as usize) && #[trigger] u[i] == edges[j];
            assert(!touches(edges[j], mid));
        }
    } else {
        lemma_split_from_len(edges, split, mid, k + 1);
        let prev = split_from(edges, split, mid, k + 1);
        let e = edges[split[k] as int];
        assert(e.0 != e.1 && e.0 != mid && e.1 != mid);
        assert(!has_edge(prev, e.0, mid)) by {
            if has_edge(prev, e.0, mid) {
                let i = choose|i: int| 0 <= i < prev.len() && same_edge(#[trigger] prev[i], e.0, mid);
                assert(touches(prev[i], mid));
                let q = choose|q: int|
                    k + 1 <= q < split.len() && (prev[i] == (edges[split[q] as int].0, mid) || prev[i] == (
                        mid,
                        edges[split[q] as int].1,
                    ));
                assert(!touches(edges[split[k] as int], edges[split[q] as int].0));
                assert(!touches(edges[split[k] as int], edges[split[q] as int].1));
            }
        }
        let p1 = prev.push((e.0, mid));
        assert(!has_edge(p1, mid, e.1)) by {
            if has_edge(p1, mid, e.1) {
                let i = choose|i: int| 0 <= i < p1.len() && same_edge(#[trigger] p1[i], mid, e.1);
                if i < prev.len() {
                    assert(p1[i] == prev[i]);
                    assert(touches(prev[i], mid));
                    let q = choose|q: int|
                        k + 1 <= q < split.len() && (prev[i] == (edges[split[q] as int].0, mid) || prev[i]
                            == (mid, edges[split[q] as int].1));
                    assert(!touches(edges[split[k] as int], edges[split[q] as int].0));
                    assert(!touches(edges[split[k] as int], edges[split[q] as int].1));
                }
            }
        }
        let cur = split_from(edges, split, mid, k);
        assert(cur == p1.push((mid, e.1)));
        assert forall|i: int|
            0 <= i < cur.len() && touches(#[trigger] cur[i], mid) implies exists|q: int|
                k <= q < split.len() && (cur[i] == (edges[split[q] as int].0, mid) || cur[i] == (
                    mid,
                    edges[split[q] as int].1,
                )) by {
            if i < prev.len() {
                assert(cur[i] == prev[i]);
                let q = choose|q: int|
                    k + 1 <= q < split.len() && (prev[i] == (edges[split[q] as int].0, mid) || prev[i] == (
                        mid,
                        edges[split[q] as int].1,
                    ));
            } else if i == prev.len() {
                assert(cur[i] == (e.0, mid));
            } else {
                assert(cur[i] == (mid, e.1));
            }
        }
    }
}

/// Splitting edges that share no endpoint at a node no edge touches yet
/// replaces each of them by two edges: the edge count grows by the number of
/// edges split.
pub proof fn lemma_split_count(edges: Seq<Edge>, split: Seq<usize>, mid: usize)
    requires
        edges_valid(edges, mid as int + 1),
        forall|j: int| 0 <= j < edges.len() ==> !touches(#[trigger] edges[j], mid),
        is_index_list(split, edges.len() as int),
        split_disjoint(edges, split),
        edges.len() <= usize::MAX,
    ensures
        split_result(edges, split, mid).len() == edges.len() + split.len(),
{
    lemma_unmarked_len(edges, split);
    lemma_split_from_len(edges, split, mid, 0);
}

/// Deleting node `i` keeps the graph invariant, removes exactly the edges
/// touching `i`, keeps every other edge with its endpoints above `i` moved
/// down by one, and lowers the edge count by the degree of `i`.
pub proof fn lemma_remove_node_edges(nodes: Seq<Point>, edges: Seq<Edge>, i: usize)
    requires
        graph_wf(nodes, edges),
        i < nodes.len(),
    ensures
        graph_wf(nodes.remove(i as int), kept(edges, i)),
        kept(edges, i).len() == edges.len() - degree(edges, i),
        forall|j: int|
            0 <= j < edges.len() && !touches(edges[j], i) ==> #[trigger] has_edge(
                kept(edges, i),
                shift(edges[j].0, i),
                shift(edges[j].1, i),
            ),
        forall|m: int|
            0 <= m < kept(edges, i).len() ==> exists|j: int|
                0 <= j < edges.len() && !touches(edges[j], i) && #[trigger] kept(edges, i)[m]
                    == renumber(edges[j], i),
{
    assert(edges_valid(kept(edges, i), nodes.len() - 1) && edges_distinct(kept(edges, i))
        && kept(edges, i).len() + degree(edges, i) == edges.len()) by {
        lemma_kept_wf(edges, i, nodes.len() as int);
    }
    assert forall|m: int| 0 <= m < kept(edges, i).len() implies exists|j: int|
        0 <= j < edges.len() && !touches(edges[j], i) && #[trigger] kept(edges, i)[m]
            == renumber(edges[j], i) by {
        lemma_kept_source(edges, i);
        let ks = kept(edges, i);
        assert(ks[m] == kept(edges, i)[m]);
        let j = choose|j: int|
            0 <= j < edges.len() && !touches(edges[j], i) && #[trigger] kept(edges, i)[m]
                == renumber(edges[j], i);
        assert(0 <= j < edges.len() && !touches(edges[j], i) && kept(edges, i)[m] == renumber(
            edges[j],
            i,
        ));
    }
    assert forall|j: int| 0 <= j < edges.len() && !touches(edges[j], i) implies #[trigger] has_edge(
        kept(edges, i),
        shift(edges[j].0, i),
        shift(edges[j].1, i),
    ) by {
        lemma_kept_complete(edges, i);
        let m = choose|m: int|
            0 <= m < kept(edges, i).len() && #[trigger] kept(edges, i)[m] == renumber(edges[j], i);
        assert(same_edge(kept(edges, i)[m], shift(edges[j].0, i), shift(edges[j].1, i)));
    }
    let ns = nodes.remove(i as int);
    assert forall|k: int| 0 <= k < ns.len() implies (#[trigger] ns[k]).in_range() by {
        assert(ns[k] == nodes[if k < i { k } else { k + 1 }]);
    }
}

/// Toggling the same pair of nodes twice gives back the edge set it started from.
pub proof fn lemma_toggle_twice(e0: Seq<Edge>, e1: Seq<Edge>, e2: Seq<Edge>, a: usize, b: usize)
    requires
        toggled(e0, e1, a, b),
        toggled(e1, e2, a, b),
    ensures
        forall|x: usize, y: usize| #[trigger] has_edge(e2, x, y) == has_edge(e0, x, y),
{
    assert forall|x: usize, y: usize| #[trigger] has_edge(e2, x, y) == has_edge(e0, x, y) by {
        assert(has_edge(e1, x, y) == if a != b && same_edge((a, b), x, y) {
            !has_edge(e0, x, y)
        } else {
            has_edge(e0, x, y)
        });
        assert(has_edge(e2, x, y) == if a != b && same_edge((a, b), x, y) {
            !has_edge(e1, x, y)
        } else {
            has_edge(e1, x, y)
        });
    }
}

/// Looking up an edge does not depend on the order of its two endpoints.
pub proof fn lemma_find_edge_symmetric(
    edges: Seq<Edge>,
    a: usize,
    b: usize,
    r1: Option<usize>,
    r2: Option<usize>,
)
    requires
        is_first_edge(edges, a, b, r1),
        is_first_edge(edges, b, a, r2),
    ensures
        r1 == r2,
{
    assert forall|k: int| 0 <= k < edges.len() implies same_edge(#[trigger] edges[k], a, b)
        == same_edge(edges[k], b, a) by {}
    match (r1, r2) {
        (Some(k1), Some(k2)) => {
            if k1 < k2 {
                assert(same_edge(edges[k1 as int], b, a));
            } else if k2 < k1 {
                assert(same_edge(edges[k2 as int], a, b));
            }
        },
        (Some(k1), None) => {
            assert(same_edge(edges[k1 as int], b, a));
        },
        (None, Some(k2)) => {
            assert(same_edge(edges[k2 as int], a, b));
        },
        (None, None) => {},
    }
}

impl SpatialGraph {
    /// The graph invariant of this graph.
    pub open spec fn wf(&self) -> bool {
        graph_wf(self.nodes@, self.edges@)
    }

    /// Builds a graph from loaded parts, or `None` when the parts break the
    /// graph invariant (a position out of range, an edge to a missing node, a
    /// loop, or a duplicated edge).
    pub fn from_parts(nodes: Vec<Point>, edges: Vec<Edge>) -> (r: Option<SpatialGraph>)
        ensures
            r is Some <==> graph_wf(nodes@, edges@),
            r matches Some(g) ==> g.nodes@ == nodes@ && g.edges@ == edges@,
    {
        let mut k: usize = 0;
        while k < nodes.len()
            invariant
                k <= nodes.len(),
                forall|j: int| 0 <= j < k ==> (#[trigger] nodes@[j]).in_range(),
            decreases nodes.len() - k,
        {
            let p = nodes[k];
            if p.x < -crate::geometry::COORD_LIMIT || p.x > crate::geometry::COORD_LIMIT
                || p.y < -crate::geometry::COORD_LIMIT || p.y > crate::geometry::COORD_LIMIT {
                return None;
            }
            k += 1;
        }
        let n = nodes.len();
        let mut seen: Vec<Edge> = Vec::new();
        let mut k: usize = 0;
        while k < edges.len()
            invariant
                k <= edges.len(),
                n == nodes.len(),
                seen@ == edges@.subrange(0, k as int),
                edges_valid(seen@, n as int),
                edges_distinct(seen@),
            decreases edges.len() - k,
        {
            let e = edges[k];
            if e.0 >= n || e.1 >= n || e.0 == e.1 {
                assert(edges@[k as int] == e);
                return None;
            }
            let ghost pre = seen@;
            if !push_if_absent(&mut seen, e.0, e.1) {
                let ghost j = choose|j: int| 0 <= j < pre.len() && same_edge(#[trigger] pre[j], e.0, e.1);
                assert(edges@[j] == pre[j]);
                assert(edges@[k as int] == e);
                return None;
            }
            assert(edges@.subrange(0, k + 1) == pre.push(e));
            k += 1;
        }
        assert(edges@.subrange(0, edges.len() as int) == edges@);
        Some(SpatialGraph { nodes, edges })
    }

    /// The built-in field layout: eight nodes in a rough octagon and ten edges.
    pub fn default_field() -> (r: SpatialGraph)
        ensures
            r.wf(),
            r.nodes@ == default_nodes(),
            r.edges@ == default_edges(),
    {
        let nodes = vec![
            Point { x: 0, y: 60_000 },
            Point { x: 219_000, y: -26_000 },
            Point { x: 225_000, y: 158_000 },
            Point { x: 0, y: 212_000 },
            Point { x: -199_000, y: 170_000 },
            Point { x: -147_000, y: -45_000 },
            Point { x: -45_000, y: -144_000 },
            Point { x: 166_000, y: -142_000 },
        ];
        let edges = vec![(0, 1), (0, 3), (0, 5), (1, 2), (2, 3), (3, 4), (4, 5), (5, 6), (6, 7), (7, 1)];
        let g = SpatialGraph { nodes, edges };
        assert(g.nodes@ =~= default_nodes());
        assert(g.edges@ =~= default_edges());
        g
    }

    /// Appends a node at `p` and returns its index.
    pub fn add_node(&mut self, p: Point) -> (r: usize)
        requires
            old(self).wf(),
            p.in_range(),
        ensures
            final(self).wf(),
            r == old(self).nodes@.len(),
            final(self).nodes@ == old(self).nodes@.push(p),
            final(self).edges@ == old(self).edges@,
    {
        let r = self.nodes.len();
        self.nodes.push(p);
        proof {
            let ns = self.nodes@;
            assert forall|k: int| 0 <= k < ns.len() implies (#[trigger] ns[k]).in_range() by {
                if k < r {
                    assert(ns[k] == old(self).nodes@[k]);
                }
            }
        }
        r
    }

    /// Moves node `i` to `p`.
    pub fn move_node(&mut self, i: usize, p: Point)
        requires
            old(self).wf(),
            i < old(self).nodes@.len(),
            p.in_range(),
        ensures
            final(self).wf(),
            final(self).nodes@ == old(self).nodes@.update(i as int, p),
            final(self).edges@ == old(self).edges@,
    {
        self.nodes[i] = p;
        proof {
            let ns = self.nodes@;
            assert forall|k: int| 0 <= k < ns.len() implies (#[trigger] ns[k]).in_range() by {
                if k != i {
                    assert(ns[k] == old(self).nodes@[k]);
                }
            }
        }
    }

    /// Index of the edge joining `a` and `b`, in either order, if there is one.
    pub fn find_edge(&self, a: usize, b: usize) -> (r: Option<usize>)
        ensures
            is_first_edge(self.edges@, a, b, r),
    {
        edge_index(&self.edges, a, b)
    }

    /// Indices of the edges that touch node `i`, in increasing order.
    pub fn connected_edges(&self, i: usize) -> (r: Vec<usize>)
        ensures
            is_index_list(r@, self.edges@.len() as int),
            forall|m: int| 0 <= m < r@.len() ==> touches(self.edges@[#[trigger] r@[m] as int], i),
            forall|k: int|
                0 <= k < self.edges@.len() && touches(#[trigger] self.edges@[k], i) ==> r@.contains(
                    k as usize,
                ),
            r@.len() == degree(self.edges@, i),
    {
        let mut r: Vec<usize> = Vec::new();
        let mut k: usize = 0;
        while k < self.edges.len()
            invariant
                k <= self.edges@.len(),
                forall|m: int| 0 <= m < r@.len() ==> #[trigger] r@[m] < k,
                forall|m1: int, m2: int| 0 <= m1 < m2 < r@.len() ==> #[trigger] r@[m1] < #[trigger] r@[m2],
                forall|m: int| 0 <= m < r@.len() ==> touches(self.edges@[#[trigger] r@[m] as int], i),
                forall|j: int| 0 <= j < k && touches(#[trigger] self.edges@[j], i) ==> r@.contains(j as usize),
                r@.len() == degree(self.edges@.subrange(0, k as int), i),
            decreases self.edges@.len() - k,
        {
            let e = self.edges[k];
            let ghost pre = r@;
            assert(self.edges@.subrange(0, k + 1).drop_last() == self.edges@.subrange(0, k as int));
            if e.0 == i || e.1 == i {
                r.push(k);
                assert forall|j: int| 0 <= j < k + 1 && touches(#[trigger] self.edges@[j], i) implies r@.contains(j as usize) by {
                    if j < k {
                        assert(pre.contains(j as usize));
                        let m = choose|m: int| 0 <= m < pre.len() && pre[m] == j as usize;
                        assert(r@[m] == pre[m]);
                    } else {
                        assert(r@[pre.len() as int] == k);
                    }
                }
            }
            k += 1;
        }
        assert(self.edges@.subrange(0, k as int) == self.edges@);
        r
    }

    /// Joins `a` and `b` unless they are the same node or already joined.
    /// Returns whether an edge was added.
    pub fn add_edge(&mut self, a: usize, b: usize) -> (added: bool)
        requires
            old(self).wf(),
            a < old(self).nodes@.len(),
            b < old(self).nodes@.len(),
        ensures
            final(self).wf(),
            final(self).nodes@ == old(self).nodes@,
            added == (a != b && !has_edge(old(self).edges@, a, b)),
            added ==> final(self).edges@ == old(self).edges@.push((a, b)),
            !added ==> final(self).edges@ == old(self).edges@,
            forall|x: usize, y: usize|
                #[trigger] has_edge(final(self).edges@, x, y) == (has_edge(old(self).edges@, x, y) || (a
                    != b && same_edge((a, b), x, y))),
    {
        if a == b {
            return false;
        }
        let ghost pre = self.edges@;
        let added = push_if_absent(&mut self.edges, a, b);
        proof {
            let es = self.edges@;
            assert forall|k: int| 0 <= k < es.len() implies (#[trigger] es[k]).0 < self.nodes@.len()
                && es[k].1 < self.nodes@.len() && es[k].0 != es[k].1 by {
                if k < pre.len() {
                    assert(es[k] == pre[k]);
                }
            }
        }
        added
    }

    /// Removes the edge at index `k`; later edges move down by one.
    pub fn remove_edge(&mut self, k: usize)
        requires
            old(self).wf(),
            k < old(self).edges@.len(),
        ensures
            final(self).wf(),
            final(self).nodes@ == old(self).nodes@,
            final(self).edges@ == old(self).edges@.remove(k as int),
    {
        let ghost pre = self.edges@;
        self.edges.remove(k);
        proof {
            let es = self.edges@;
            assert forall|j: int| 0 <= j < es.len() implies #[trigger] es[j] == pre[if j < k { j } else { j + 1 }] by {}
            assert forall|j1: int, j2: int| 0 <= j1 < j2 < es.len() implies !same_edge(
                #[trigger] es[j1],
                #[trigger] es[j2].0,
                es[j2].1,
            ) by {
                let i1 = if j1 < k { j1 } else { j1 + 1 };
                let i2 = if j2 < k { j2 } else { j2 + 1 };
                assert(es[j1] == pre[i1] && es[j2] == pre[i2]);
            }
            assert forall|j: int| 0 <= j < es.len() implies (#[trigger] es[j]).0 < self.nodes@.len()
                && es[j].1 < self.nodes@.len() && es[j].0 != es[j].1 by {
                let i1 = if j < k { j } else { j + 1 };
                assert(es[j] == pre[i1]);
            }
        }
    }

    /// Removes the edges at the listed indices; the remaining edges keep their order.
    pub fn remove_edges(&mut self, marked: &Vec<usize>)
        requires
            old(self).wf(),
        ensures
            final(self).wf(),
            final(self).nodes@ == old(self).nodes@,
            final(self).edges@ == unmarked(old(self).edges@, marked@),
    {
        let ghost old_edges = self.edges@;
        let mut res: Vec<Edge> = Vec::new();
        let mut k: usize = 0;
        while k < self.edges.len()
            invariant
                k <= self.edges@.len(),
                self.edges@ == old_edges,
                res@ == unmarked(old_edges.subrange(0, k as int), marked@),
            decreases self.edges@.len() - k,
        {
            assert(old_edges.subrange(0, k + 1).drop_last() == old_edges.subrange(0, k as int));
            assert(old_edges.subrange(0, k + 1).last() == old_edges[k as int]);
            if !listed(marked, k) {
                res.push(self.edges[k]);
            }
            k += 1;
        }
        assert(old_edges.subrange(0, k as int) == old_edges);
        proof {
            lemma_unmarked_wf(old_edges, marked@, self.nodes@.len() as int);
        }
        self.edges = res;
    }

    /// Deletes node `i` and every edge touching it; edge endpoints above `i`
    /// move down by one. Returns the indices the deleted edges had, in
    /// increasing order.
    pub fn remove_node(&mut self, i: usize) -> (removed: Vec<usize>)
        requires
            old(self).wf(),
            i < old(self).nodes@.len(),
        ensures
            final(self).wf(),
            final(self).nodes@ == old(self).nodes@.remove(i as int),
            final(self).edges@ == kept(old(self).edges@, i),
            is_index_list(removed@, old(self).edges@.len() as int),
            forall|k: int|
                0 <= k < old(self).edges@.len() ==> (touches(#[trigger] old(self).edges@[k], i)
                    <==> removed@.contains(k as usize)),
            removed@.len() == degree(old(self).edges@, i),
    {
        let removed = self.connected_edges(i);
        let ghost old_edges = self.edges@;
        let mut res: Vec<Edge> = Vec::new();
        let mut k: usize = 0;
        while k < self.edges.len()
            invariant
                k <= self.edges@.len(),
                self.edges@ == old_edges,
                res@ == kept(old_edges.subrange(0, k as int), i),
            decreases self.edges@.len() - k,
        {
            assert(old_edges.subrange(0, k + 1).drop_last() == old_edges.subrange(0, k as int));
            assert(old_edges.subrange(0, k + 1).last() == old_edges[k as int]);
            let e = self.edges[k];
            if e.0 != i && e.1 != i {
                let a = if e.0 > i { e.0 - 1 } else { e.0 };
                let b = if e.1 > i { e.1 - 1 } else { e.1 };
                res.push((a, b));
            }
            k += 1;
        }
        assert(old_edges.subrange(0, k as int) == old_edges);
        proof {
            lemma_kept_wf(old_edges, i, self.nodes@.len() as int);
            assert forall|k: int| 0 <= k < old_edges.len() && removed@.contains(k as usize) implies touches(
                #[trigger] old_edges[k],
                i,
            ) by {
                let m = choose|m: int| 0 <= m < removed@.len() && removed@[m] == k as usize;
                assert(touches(old_edges[removed@[m] as int], i));
            }
        }
        self.edges = res;
        let ghost pre_nodes = self.nodes@;
        self.nodes.remove(i);
        proof {
            let ns = self.nodes@;
            assert forall|k: int| 0 <= k < ns.len() implies (#[trigger] ns[k]).in_range() by {
                assert(ns[k] == pre_nodes[if k < i { k } else { k + 1 }]);
            }
        }
        removed
    }

    /// Splits the listed edges at node `mid`. The edges not listed stay, in
    /// their order; then, for each listed edge `(s, e)` from the last listed
    /// to the first, `(s, mid)` and `(mid, e)` are appended unless the same
    /// two nodes are already joined.
    #[verifier::rlimit(40)]
    pub fn split_edges(&mut self, mid: usize, split: &Vec<usize>)
        requires
            old(self).wf(),
            mid < old(self).nodes@.len(),
            forall|m: int| 0 <= m < split@.len() ==> #[trigger] split@[m] < old(self).edges@.len(),
            forall|m: int|
                0 <= m < split@.len() ==> !touches(old(self).edges@[#[trigger] split@[m] as int], mid),
        ensures
            final(self).wf(),
            final(self).nodes@ == old(self).nodes@,
            final(self).edges@ == split_result(old(self).edges@, split@, mid),
            forall|a: usize, b: usize|
                #[trigger] has_edge(final(self).edges@, a, b) <==> split_has_edge(
                    old(self).edges@,
                    split@,
                    mid,
                    a,
                    b,
                ),
    {
        let ghost old_edges = self.edges@;
        let ghost n = self.nodes@.len();
        let mut res: Vec<Edge> = Vec::new();
        let mut k: usize = 0;
        while k < self.edges.len()
            invariant
                k <= self.edges@.len(),
                self.edges@ == old_edges,
                res@ == unmarked(old_edges.subrange(0, k as int), split@),
            decreases self.edges@.len() - k,
        {
            assert(old_edges.subrange(0, k + 1).drop_last() == old_edges.subrange(0, k as int));
            assert(old_edges.subrange(0, k + 1).last() == old_edges[k as int]);
            if !listed(split, k) {
                res.push(self.edges[k]);
            }
            k += 1;
        }
        assert(old_edges.subrange(0, k as int) == old_edges);
        proof {
            lemma_unmarked_wf(old_edges, split@, n as int);
            lemma_unmarked_has_edge(old_edges, split@);
        }
        let mut m: usize = split.len();
        while m > 0
            invariant
                m <= split@.len(),
                self.edges@ == old_edges,
                self.wf(),
                edges_distinct(res@),
                edges_valid(res@, n as int),
                n == self.nodes@.len(),
                mid < n,
                forall|q: int| 0 <= q < split@.len() ==> #[trigger] split@[q] < old_edges.len(),
                forall|q: int|
                    0 <= q < split@.len() ==> !touches(old_edges[#[trigger] split@[q] as int], mid),
                res@ == split_from(old_edges, split@, mid, m as int),
                forall|a: usize, b: usize|
                    #[trigger] has_edge(res@, a, b) <==> (exists|j: int|
                        0 <= j < old_edges.len() && !split@.contains(j as usize) && same_edge(
                            #[trigger] old_edges[j],
                            a,
                            b,
                        )) || (exists|q: int|
                        m <= q < split@.len() && (same_edge(
                            (old_edges[#[trigger] split@[q] as int].0, mid),
                            a,
                            b,
                        ) || same_edge((mid, old_edges[split@[q] as int].1), a, b))),
            decreases m,
        {
            m -= 1;
            let e = self.edges[split[m]];
            assert(e == old_edges[split@[m as int] as int]);
            assert(!touches(old_edges[split@[m as int] as int], mid));
            let ghost pre0 = res@;
            push_if_absent(&mut res, e.0, mid);
            let ghost pre1 = res@;
            push_if_absent(&mut res, mid, e.1);
            proof {
                assert(pre1 == with_edge(pre0, e.0, mid));
                assert(res@ == with_edge(pre1, mid, e.1));
                assert forall|j: int| 0 <= j < res@.len() implies (#[trigger] res@[j]).0 < n
                    && res@[j].1 < n && res@[j].0 != res@[j].1 by {
                    if j < pre1.len() {
                        assert(res@[j] == pre1[j]);
                        if j < pre0.len() {
                            assert(pre1[j] == pre0[j]);
                        }
                    }
                }
                assert forall|a: usize, b: usize|
                    #[trigger] has_edge(res@, a, b) <==> (exists|j: int|
                        0 <= j < old_edges.len() && !split@.contains(j as usize) && same_edge(
                            #[trigger] old_edges[j],
                            a,
                            b,
                        )) || (exists|q: int|
                        m <= q < split@.len() && (same_edge(
                            (old_edges[#[trigger] split@[q] as int].0, mid),
                            a,
                            b,
                        ) || same_edge((mid, old_edges[split@[q] as int].1), a, b))) by {
                    assert(has_edge(pre1, a, b) <==> has_edge(pre0, a, b) || same_edge((e.0, mid), a, b));
                    if exists|q: int|
                        m <= q < split@.len() && (same_edge(
                            (old_edges[#[trigger] split@[q] as int].0, mid),
                            a,
                            b,
                        ) || same_edge((mid, old_edges[split@[q] as int].1), a, b)) {
                        let q = choose|q: int|
                            m <= q < split@.len() && (same_edge(
                                (old_edges[#[trigger] split@[q] as int].0, mid),
                                a,
                                b,
                            ) || same_edge((mid, old_edges[split@[q] as int].1), a, b));
                        if q > m {
                            assert(m + 1 <= q < split@.len());
                        }
                    }
                }
            }
        }
        self.edges = res;
    }

    /// Edge drawing with the toggle rule: removes the edge joining `a` and `b`
    /// if there is one, and adds it otherwise. Joining a node to itself does
    /// nothing. Returns whether an edge was added.
    pub fn toggle_edge(&mut self, a: usize, b: usize) -> (added: bool)
        requires
            old(self).wf(),
            a < old(self).nodes@.len(),
            b < old(self).nodes@.len(),
        ensures
            final(self).wf(),
            final(self).nodes@ == old(self).nodes@,
            added == (a != b && !has_edge(old(self).edges@, a, b)),
            added ==> final(self).edges@ == old(self).edges@.push((a, b)),
            toggled_list(old(self).edges@, a, b, final(self).edges@),
            toggled(old(self).edges@, final(self).edges@, a, b),
    {
        if a == b {
            return false;
        }
        match self.find_edge(a, b) {
            Some(k) => {
                let ghost pre = self.edges@;
                self.remove_edge(k);
                proof {
                    let es = self.edges@;
                    assert forall|x: usize, y: usize|
                        #[trigger] has_edge(es, x, y) == if same_edge((a, b), x, y) {
                            !has_edge(pre, x, y)
                        } else {
                            has_edge(pre, x, y)
                        } by {
                        if has_edge(es, x, y) {
                            let j = choose|j: int| 0 <= j < es.len() && same_edge(#[trigger] es[j], x, y);
                            let i1 = if j < k { j } else { j + 1 };
                            assert(es[j] == pre[i1]);
                            if same_edge((a, b), x, y) {
                                assert(same_edge(pre[k as int], pre[i1].0, pre[i1].1));
                                if i1 < k {
                                    assert(!same_edge(pre[i1], pre[k as int].0, pre[k as int].1));
                                }
                            }
                        }
                        if has_edge(pre, x, y) && !same_edge((a, b), x, y) {
                            let j = choose|j: int| 0 <= j < pre.len() && same_edge(#[trigger] pre[j], x, y);
                            assert(j != k);
                            let i1 = if j < k { j } else { j - 1 };
                            assert(es[i1] == pre[j]);
                        }
                        if same_edge((a, b), x, y) {
                            assert(same_edge(pre[k as int], x, y));
                        }
                    }
                }
                false
            },
            None => {
                let ghost pre = self.edges@;
                let added = self.add_edge(a, b);
                proof {
                    let es = self.edges@;
                    assert forall|x: usize, y: usize|
                        #[trigger] has_edge(es, x, y) == if same_edge((a, b), x, y) {
                            !has_edge(pre, x, y)
                        } else {
                            has_edge(pre, x, y)
                        } by {
                        if same_edge((a, b), x, y) {
                            assert(es[pre.len() as int] == (a, b));
                            if has_edge(pre, x, y) {
                                let j = choose|j: int| 0 <= j < pre.len() && same_edge(#[trigger] pre[j], x, y);
                                assert(same_edge(pre[j], a, b));
                            }
                        } else {
                            if has_edge(pre, x, y) {
                                let j = choose|j: int| 0 <= j < pre.len() && same_edge(#[trigger] pre[j], x, y);
                                assert(es[j] == pre[j]);
                            }
                            if has_edge(es, x, y) {
                                let j = choose|j: int| 0 <= j < es.len() && same_edge(#[trigger] es[j], x, y);
                                assert(j < pre.len());
                                assert(es[j] == pre[j]);
                            }
                        }
                    }
                }
                added
            },
        }
    }
}

} // verus!
