//! The interactive graph editor: hover and drag detection from the cursor,
//! and the state machine that turns clicks into graph edits.
use vstd::prelude::*;

use crate::geometry::{
    clamp_coord, cross, cross_at, dist_sq, distance_sq, dot, dot_at, is_nearest, nearest_node,
    Point, COORD_LIMIT,
};
use crate::graph::{
    has_edge, is_first_edge, is_index_list, kept, split_result, toggled_list, touches, unmarked, Edge,
    SpatialGraph,
};

verus! {

/// A node is hovered when the cursor is closer than 0.13 field units to it:
/// the squared radius in fixed-point units.
pub const HOVER_RADIUS_SQ: u128 = 169_000_000;

/// An edge is hovered when the cross product of its endpoints taken from the
/// cursor is below 0.1 square field units in magnitude (in fixed-point units).
pub const EDGE_HOVER_AREA: i128 = 1_000_000_000;

/// A press becomes a drag once the cursor is more than 0.1 field units from
/// where it was pressed: the squared distance in fixed-point units.
pub const DRAG_DISTANCE_SQ: u128 = 100_000_000;

/// A press becomes a drag once it has been held this long, in microseconds.
pub const DRAG_DELAY_US: u64 = 300_000;

/// `r` is the node under the cursor at `pos`: the nearest node closer than
/// the hover radius (the lowest index among equally near ones), or `None`.
pub open spec fn is_hovered_node(nodes: Seq<Point>, pos: Point, r: Option<usize>) -> bool {
    match r {
        Some(i) => is_nearest(nodes, pos, i as int) && dist_sq(nodes[i as int], pos) < HOVER_RADIUS_SQ,
        None => forall|j: int| 0 <= j < nodes.len() ==> dist_sq(#[trigger] nodes[j], pos) >= HOVER_RADIUS_SQ,
    }
}

/// Whether the cursor at `pos` lies near the segment of edge `e`: almost on
/// the line through its endpoints, and between them.
pub open spec fn near_edge(nodes: Seq<Point>, e: Edge, pos: Point) -> bool {
    let a = nodes[e.0 as int];
    let b = nodes[e.1 as int];
    -EDGE_HOVER_AREA < cross_at(a, b, pos) < EDGE_HOVER_AREA && dot_at(a, b, pos) < 0
}

/// `r` lists, in increasing order, exactly the edges near the cursor at `pos`.
pub open spec fn is_hovered_edges(nodes: Seq<Point>, edges: Seq<Edge>, pos: Point, r: Seq<usize>) -> bool {
    &&& is_index_list(r, edges.len() as int)
    &&& forall|m: int| 0 <= m < r.len() ==> near_edge(nodes, edges[#[trigger] r[m] as int], pos)
    &&& forall|k: int| 0 <= k < edges.len() && near_edge(nodes, #[trigger] edges[k], pos) ==> r.contains(k as usize)
}

/// The node under the cursor at `pos` (see `is_hovered_node`).
pub open spec fn hovered_node_at(nodes: Seq<Point>, pos: Point) -> Option<usize> {
    choose|r: Option<usize>| is_hovered_node(nodes, pos, r)
}

/// Exactly one answer satisfies `is_hovered_node`.
pub proof fn lemma_hovered_node_unique(nodes: Seq<Point>, pos: Point, r: Option<usize>)
    requires
        is_hovered_node(nodes, pos, r),
    ensures
        hovered_node_at(nodes, pos) == r,
{
    let c = hovered_node_at(nodes, pos);
    assert(is_hovered_node(nodes, pos, c));
    match (r, c) {
        (Some(i), Some(j)) => {
            crate::geometry::lemma_nearest_unique(nodes, pos, i as int, j as int);
        },
        (Some(i), None) => {
            assert(dist_sq(nodes[i as int], pos) >= HOVER_RADIUS_SQ);
        },
        (None, Some(j)) => {
            assert(dist_sq(nodes[j as int], pos) >= HOVER_RADIUS_SQ);
        },
        (None, None) => {},
    }
}

/// The edit state after the drag bookkeeping of one tick, with `d` the
/// updated drag detector: a drag that starts over a node grabs that node
/// (keeping its offset from the press), and a drag that ends returns to
/// `Normal`.
pub open spec fn drag_state(state: EditState, d: MouseDragDetector, nodes: Seq<Point>, pos: Point) -> EditState {
    let dragging = d.is_dragging(pos);
    let was = state is DraggingNode;
    if dragging && !was {
        let click = match d.click_pos {
            Some(p) => p,
            None => pos,
        };
        match hovered_node_at(nodes, click) {
            Some(i) => EditState::DraggingNode(
                i,
                Point { x: (nodes[i as int].x - click.x) as i64, y: (nodes[i as int].y - click.y) as i64 },
            ),
            None => state,
        }
    } else if !dragging && was {
        EditState::Normal
    } else {
        state
    }
}

/// `d` lists exactly the entries of `a` missing from `b`.
pub open spec fn is_difference(a: Seq<usize>, b: Seq<usize>, d: Seq<usize>) -> bool {
    &&& forall|m: int| 0 <= m < d.len() ==> a.contains(#[trigger] d[m]) && !b.contains(d[m])
    &&& forall|x: usize| a.contains(x) && !b.contains(x) ==> #[trigger] d.contains(x)
}

/// Hovering favours nodes: with the cursor exactly on node `i`, a node at
/// that very position is hovered (and a hovered node leaves no edge
/// hovered); when nodes `i` and `j` are both within the hover radius and `i`
/// is strictly closer, `j` is not the one hovered.
pub proof fn lemma_hover_prefers_nodes(nodes: Seq<Point>, pos: Point, r: Option<usize>, i: usize, j: usize)
    requires
        is_hovered_node(nodes, pos, r),
        i < nodes.len(),
        j < nodes.len(),
    ensures
        nodes[i as int] == pos ==> (r matches Some(k) && nodes[k as int] == pos),
        dist_sq(nodes[i as int], pos) < HOVER_RADIUS_SQ && dist_sq(nodes[i as int], pos) < dist_sq(nodes[j as int], pos)
            ==> (r is Some && r != Some(j)),
{
    if nodes[i as int] == pos {
        assert(dist_sq(nodes[i as int], pos) == 0);
        match r {
            Some(k) => {
                assert(dist_sq(nodes[k as int], pos) <= dist_sq(nodes[i as int], pos));
                crate::geometry::lemma_zero_distance(nodes[k as int], pos);
            },
            None => {
                assert(dist_sq(nodes[i as int], pos) >= HOVER_RADIUS_SQ);
            },
        }
    }
    if dist_sq(nodes[i as int], pos) < HOVER_RADIUS_SQ && dist_sq(nodes[i as int], pos) < dist_sq(nodes[j as int], pos) {
        match r {
            Some(k) => {
                assert(dist_sq(nodes[k as int], pos) <= dist_sq(nodes[i as int], pos));
            },
            None => {
                assert(dist_sq(nodes[i as int], pos) >= HOVER_RADIUS_SQ);
            },
        }
    }
}

/// The node under the cursor, if any.
pub fn find_hovered_node(nodes: &Vec<Point>, pos: Point) -> (r: Option<usize>)
    requires
        pos.in_range(),
        forall|k: int| 0 <= k < nodes@.len() ==> (#[trigger] nodes@[k]).in_range(),
    ensures
        is_hovered_node(nodes@, pos, r),
        r == hovered_node_at(nodes@, pos),
{
    if nodes.len() == 0 {
        proof {
            lemma_hovered_node_unique(nodes@, pos, None);
        }
        return None;
    }
    let c = nearest_node(nodes, pos);
    if distance_sq(nodes[c], pos) < HOVER_RADIUS_SQ {
        proof {
            lemma_hovered_node_unique(nodes@, pos, Some(c));
        }
        Some(c)
    } else {
        assert forall|j: int| 0 <= j < nodes@.len() implies dist_sq(#[trigger] nodes@[j], pos)
            >= HOVER_RADIUS_SQ by {}
        proof {
            lemma_hovered_node_unique(nodes@, pos, None);
        }
        None
    }
}

/// Whether the cursor lies near the segment of `e`.
fn edge_hovered(graph: &SpatialGraph, e: Edge, pos: Point) -> (r: bool)
    requires
        graph.wf(),
        e.0 < graph.nodes@.len(),
        e.1 < graph.nodes@.len(),
        pos.in_range(),
    ensures
        r == near_edge(graph.nodes@, e, pos),
{
    let a = graph.nodes[e.0];
    let b = graph.nodes[e.1];
    let c = cross(a, b, pos);
    -EDGE_HOVER_AREA < c && c < EDGE_HOVER_AREA && dot(a, b, pos) < 0
}

/// The edges near the cursor, in increasing order of index.
pub fn find_hovered_edges(graph: &SpatialGraph, pos: Point) -> (r: Vec<usize>)
    requires
        graph.wf(),
        pos.in_range(),
    ensures
        is_hovered_edges(graph.nodes@, graph.edges@, pos, r@),
{
    let mut r: Vec<usize> = Vec::new();
    let mut k: usize = 0;
    while k < graph.edges.len()
        invariant
            k <= graph.edges@.len(),
            graph.wf(),
            pos.in_range(),
            forall|m: int| 0 <= m < r@.len() ==> #[trigger] r@[m] < k,
            forall|m1: int, m2: int| 0 <= m1 < m2 < r@.len() ==> #[trigger] r@[m1] < #[trigger] r@[m2],
            forall|m: int| 0 <= m < r@.len() ==> near_edge(graph.nodes@, graph.edges@[#[trigger] r@[m] as int], pos),
            forall|j: int| 0 <= j < k && near_edge(graph.nodes@, #[trigger] graph.edges@[j], pos) ==> r@.contains(j as usize),
        decreases graph.edges@.len() - k,
    {
        let e = graph.edges[k];
        let ghost pre = r@;
        if edge_hovered(graph, e, pos) {
            r.push(k);
            assert forall|j: int| 0 <= j < k + 1 && near_edge(graph.nodes@, #[trigger] graph.edges@[j], pos) implies r@.contains(j as usize) by {
                if j < k {
                    let m = choose|m: int| 0 <= m < pre.len() && pre[m] == j as usize;
                    assert(r@[m] == pre[m]);
                } else {
                    assert(r@[pre.len() as int] == k);
                }
            }
        }
        k += 1;
    }
    r
}

/// The entries of `a` that are not in `b`, in the order of `a`.
fn index_diff(a: &Vec<usize>, b: &Vec<usize>) -> (r: Vec<usize>)
    ensures
        is_difference(a@, b@, r@),
{
    let mut r: Vec<usize> = Vec::new();
    let mut k: usize = 0;
    while k < a.len()
        invariant
            k <= a@.len(),
            forall|m: int| 0 <= m < r@.len() ==> a@.contains(#[trigger] r@[m]) && !b@.contains(r@[m]),
            forall|j: int| 0 <= j < k && !b@.contains(#[trigger] a@[j]) ==> r@.contains(a@[j]),
        decreases a@.len() - k,
    {
        let v = a[k];
        let ghost pre = r@;
        let mut found = false;
        let mut q: usize = 0;
        while q < b.len()
            invariant
                q <= b@.len(),
                found == exists|p: int| 0 <= p < q && b@[p] == v,
            decreases b@.len() - q,
        {
            if b[q] == v {
                found = true;
            }
            q += 1;
        }
        if !found {
            r.push(v);
            assert(a@[k as int] == v);
            assert forall|j: int| 0 <= j < k + 1 && !b@.contains(#[trigger] a@[j]) implies r@.contains(a@[j]) by {
                if j < k {
                    let m = choose|m: int| 0 <= m < pre.len() && pre[m] == a@[j];
                    assert(r@[m] == pre[m]);
                } else {
                    assert(r@[pre.len() as int] == v);
                }
            }
        }
        k += 1;
    }
    proof {
        assert forall|x: usize| a@.contains(x) && !b@.contains(x) implies #[trigger] r@.contains(x) by {
            let j = choose|j: int| 0 <= j < a@.len() && a@[j] == x;
        }
    }
    r
}

/// Tells a click from a drag: where the left button went down, and how long
/// it has been held (a one-shot timer that runs only while the button is held).
#[derive(Clone, Copy, Debug, PartialEq, Eq, Structural)]
pub struct MouseDragDetector {
    pub elapsed_us: u64,
    pub paused: bool,
    pub click_pos: Option<Point>,
}

/// The cursor and buttons as sampled for one tick.
#[derive(Clone, Copy, Debug, PartialEq, Eq, Structural)]
pub struct MouseInput {
    /// Cursor position in world coordinates.
    pub pos: Point,
    /// The left button is down.
    pub left_pressed: bool,
    /// The left button went down this tick.
    pub left_just_pressed: bool,
    /// The right button went down this tick.
    pub right_just_pressed: bool,
    /// Time since the previous tick, in microseconds.
    pub delta_us: u64,
}

/// The drag detector after one tick: the timer advances unless paused and
/// stops at its duration; a left press records where it happened and starts
/// the timer; with the left button up the press is forgotten and the timer
/// paused and reset.
pub open spec fn drag_after(d: MouseDragDetector, input: MouseInput) -> MouseDragDetector {
    let ticked: u64 = if d.paused {
        d.elapsed_us
    } else if d.elapsed_us + input.delta_us >= DRAG_DELAY_US {
        DRAG_DELAY_US
    } else {
        (d.elapsed_us + input.delta_us) as u64
    };
    if input.left_just_pressed {
        MouseDragDetector { elapsed_us: ticked, paused: false, click_pos: Some(input.pos) }
    } else if !input.left_pressed {
        MouseDragDetector { elapsed_us: 0, paused: true, click_pos: None }
    } else {
        MouseDragDetector { elapsed_us: ticked, paused: d.paused, click_pos: d.click_pos }
    }
}

impl Default for MouseDragDetector {
    fn default() -> (r: MouseDragDetector)
        ensures
            r == (MouseDragDetector { elapsed_us: 0, paused: false, click_pos: None }),
    {
        MouseDragDetector::new()
    }
}

impl MouseDragDetector {
    /// A detector with no press recorded and its timer at zero.
    pub fn new() -> (r: MouseDragDetector)
        ensures
            r == (MouseDragDetector { elapsed_us: 0, paused: false, click_pos: None }),
    {
        MouseDragDetector { elapsed_us: 0, paused: false, click_pos: None }
    }

    /// The recorded press, if any, lies within the coordinate range.
    pub open spec fn wf(self) -> bool {
        self.click_pos matches Some(p) ==> p.in_range()
    }

    /// Whether the press has been held for the whole drag delay.
    pub open spec fn finished(self) -> bool {
        self.elapsed_us >= DRAG_DELAY_US
    }

    /// Whether a drag is under way with the cursor at `pos`.
    pub open spec fn is_dragging(self, pos: Point) -> bool {
        (self.click_pos matches Some(p) && dist_sq(p, pos) > DRAG_DISTANCE_SQ) || self.finished()
    }

    /// Whether a drag is under way with the cursor at `pos`: the cursor has
    /// moved far enough from the press, or the press has been held long enough.
    pub fn dragging(&self, pos: Point) -> (r: bool)
        requires
            self.wf(),
            pos.in_range(),
        ensures
            r == self.is_dragging(pos),
    {
        let moved = match self.click_pos {
            Some(p) => distance_sq(p, pos) > DRAG_DISTANCE_SQ,
            None => false,
        };
        moved || self.elapsed_us >= DRAG_DELAY_US
    }

    /// Advances the detector by one tick of input.
    pub fn update(&mut self, input: &MouseInput)
        ensures
            *final(self) == drag_after(*old(self), *input),
    {
        if !self.paused {
            if self.elapsed_us >= DRAG_DELAY_US || DRAG_DELAY_US - self.elapsed_us <= input.delta_us {
                self.elapsed_us = DRAG_DELAY_US;
            } else {
                self.elapsed_us = self.elapsed_us + input.delta_us;
            }
        }
        if input.left_just_pressed {
            self.click_pos = Some(input.pos);
            self.paused = false;
        } else if !input.left_pressed {
            self.click_pos = None;
            self.paused = true;
            self.elapsed_us = 0;
        }
    }
}

/// The line drawn while an edge is being made: from its origin node to the
/// hovered node or the cursor; `deletion` when finishing it would remove an
/// existing edge.
#[derive(Clone, Copy, Debug, PartialEq, Eq, Structural)]
pub struct EdgePreview {
    pub from: Point,
    pub to: Point,
    pub deletion: bool,
}

/// The editor's state machine.
#[derive(Clone, Copy, Debug, PartialEq, Eq, Structural)]
pub enum EditState {
    /// Nothing in progress.
    Normal,
    /// An edge is being drawn from the node, with the preview line last drawn.
    MakingEdge(usize, Option<EdgePreview>),
    /// The node is being dragged; it sits at the cursor plus the offset.
    DraggingNode(usize, Point),
}

/// What the cursor is over, and what was last highlighted for it.
#[derive(Debug)]
pub struct Hovered {
    pub node: Option<usize>,
    pub highlighted_node: Option<usize>,
    pub edges: Vec<usize>,
    pub highlighted_edges: Vec<usize>,
}

/// Highlighting to redraw after a hover update: a node that lost or gained
/// the highlight, and edges that gained or lost it.
#[derive(Debug)]
pub struct HoverChanges {
    pub node_off: Option<usize>,
    pub node_on: Option<usize>,
    pub edges_on: Vec<usize>,
    pub edges_off: Vec<usize>,
}

/// What an editing step did to the graph, for redrawing.
#[derive(Debug)]
pub enum EditOutcome {
    /// The graph is as it was.
    Unchanged,
    /// A node was appended at this index, and the edges at the listed
    /// indices were split at it: they are gone, the other edges keep their
    /// order, and the new edges are appended after them.
    NodeAdded(usize, Vec<usize>),
    /// The node at this index was deleted, with the edges at the listed
    /// indices; later nodes and edges move down.
    NodeRemoved(usize, Vec<usize>),
    /// The edges at the listed indices were deleted; later edges move down.
    EdgesRemoved(Vec<usize>),
    /// An edge was appended.
    EdgeAdded,
    /// The edge at this index was deleted; later edges move down.
    EdgeRemoved(usize),
    /// The node moved; the listed edges touch it.
    Moved(usize, Vec<usize>),
}

/// The graph editor: its state machine, hover bookkeeping and drag detector.
#[derive(Debug)]
pub struct GraphEditor {
    pub state: EditState,
    pub hovered: Hovered,
    pub drag: MouseDragDetector,
}

/// Where a dragged node goes: the cursor plus the grab offset, kept within range.
pub open spec fn drag_target(pos: Point, offset: Point) -> Point {
    Point { x: clamp_coord(pos.x + offset.x) as i64, y: clamp_coord(pos.y + offset.y) as i64 }
}

/// The preview line while drawing from node `s` with `node` hovered.
pub open spec fn preview(nodes: Seq<Point>, edges: Seq<Edge>, s: usize, node: Option<usize>, pos: Point) -> EdgePreview {
    EdgePreview {
        from: nodes[s as int],
        to: match node {
            Some(h) => nodes[h as int],
            None => pos,
        },
        deletion: match node {
            Some(h) => has_edge(edges, s, h),
            None => false,
        },
    }
}

/// The indices held by an edit state lie below `n`, and a grab offset is no
/// larger than the distance between two positions.
pub open spec fn state_ok(state: EditState, n: int) -> bool {
    match state {
        EditState::Normal => true,
        EditState::MakingEdge(i, _) => i < n,
        EditState::DraggingNode(i, off) => i < n && -2 * COORD_LIMIT <= off.x <= 2 * COORD_LIMIT
            && -2 * COORD_LIMIT <= off.y <= 2 * COORD_LIMIT,
    }
}

/// One editing step, as a relation between the graph and state before it
/// (`nodes`, `edges`, `state`, with `node` and `hovered_edges` under the
/// cursor) and after it (`nodes2`, `edges2`, `state2`).
pub open spec fn edit_step(
    state: EditState,
    node: Option<usize>,
    hovered_edges: Seq<usize>,
    input: MouseInput,
    nodes: Seq<Point>,
    edges: Seq<Edge>,
    nodes2: Seq<Point>,
    edges2: Seq<Edge>,
    state2: EditState,
) -> bool {
    let n = nodes.len() as usize;
    let pos = input.pos;
    let left = input.left_just_pressed;
    let right = input.right_just_pressed;
    let same = nodes2 == nodes && edges2 == edges;
    match state {
        EditState::Normal => match node {
            Some(i) => if left {
                same && state2 == EditState::MakingEdge(i, None)
            } else if right {
                nodes2 == nodes.remove(i as int) && edges2 == kept(edges, i) && state2 == EditState::Normal
            } else {
                same && state2 == state
            },
            None => if left {
                &&& nodes2 == nodes.push(pos)
                &&& edges2 == split_result(edges, hovered_edges, n)
                &&& state2 == EditState::MakingEdge(n, None)
            } else if right {
                nodes2 == nodes && edges2 == unmarked(edges, hovered_edges) && state2 == EditState::Normal
            } else {
                same && state2 == state
            },
        },
        EditState::MakingEdge(s, _) => if left {
            match node {
                Some(e) => nodes2 == nodes && toggled_list(edges, s, e, edges2) && state2 == EditState::Normal,
                None => {
                    &&& nodes2 == nodes.push(pos)
                    &&& edges2 == split_result(edges.push((s, n)), hovered_edges, n)
                    &&& state2 == EditState::Normal
                },
            }
        } else if right {
            same && state2 == EditState::Normal
        } else {
            same && state2 == EditState::MakingEdge(s, Some(preview(nodes, edges, s, node, pos)))
        },
        EditState::DraggingNode(i, off) => nodes2 == nodes.update(i as int, drag_target(pos, off))
            && edges2 == edges && state2 == state,
    }
}

/// `es` lists, in increasing order, exactly the edges that touch node `i`.
pub open spec fn is_touching_list(edges: Seq<Edge>, i: usize, es: Seq<usize>) -> bool {
    &&& is_index_list(es, edges.len() as int)
    &&& forall|m: int| 0 <= m < es.len() ==> touches(edges[#[trigger] es[m] as int], i)
    &&& forall|k: int| 0 <= k < edges.len() && touches(#[trigger] edges[k], i) ==> es.contains(k as usize)
}

/// The report of an editing step (see `edit_step`) made with the graph of
/// `nodes` and `edges` (`edges2` after the step): which nodes and edges
/// appeared, disappeared or moved.
pub open spec fn reports(
    state: EditState,
    node: Option<usize>,
    hovered_edges: Seq<usize>,
    input: MouseInput,
    nodes: Seq<Point>,
    edges: Seq<Edge>,
    edges2: Seq<Edge>,
    outcome: EditOutcome,
) -> bool {
    let left = input.left_just_pressed;
    let right = input.right_just_pressed;
    match state {
        EditState::Normal => match node {
            Some(i) => if !left && right {
                outcome matches EditOutcome::NodeRemoved(j, es) && j == i && is_touching_list(edges, i, es@)
            } else {
                outcome is Unchanged
            },
            None => if left {
                outcome matches EditOutcome::NodeAdded(j, es) && j == nodes.len() && es@ == hovered_edges
            } else if right {
                outcome matches EditOutcome::EdgesRemoved(es) && es@ == hovered_edges
            } else {
                outcome is Unchanged
            },
        },
        EditState::MakingEdge(s, _) => if left {
            match node {
                Some(e) => if s == e {
                    outcome is Unchanged
                } else if has_edge(edges, s, e) {
                    outcome matches EditOutcome::EdgeRemoved(k) && is_first_edge(edges, s, e, Some(k))
                } else {
                    outcome is EdgeAdded
                },
                None => outcome matches EditOutcome::NodeAdded(j, es) && j == nodes.len() && es@
                    == hovered_edges,
            }
        } else {
            outcome is Unchanged
        },
        EditState::DraggingNode(i, _) => outcome matches EditOutcome::Moved(j, es) && j == i
            && is_touching_list(edges2, i, es@),
    }
}

fn same_index(a: Option<usize>, b: Option<usize>) -> (r: bool)
    ensures
        r == (a == b),
{
    match (a, b) {
        (Some(x), Some(y)) => x == y,
        (None, None) => true,
        _ => false,
    }
}

fn copy_indices(v: &Vec<usize>) -> (r: Vec<usize>)
    ensures
        r@ == v@,
{
    let mut r: Vec<usize> = Vec::new();
    let mut k: usize = 0;
    while k < v.len()
        invariant
            k <= v@.len(),
            r@ == v@.subrange(0, k as int),
        decreases v@.len() - k,
    {
        r.push(v[k]);
        assert(r@ =~= v@.subrange(0, k + 1));
        k += 1;
    }
    assert(r@ =~= v@);
    r
}

fn index_list_within(v: &Vec<usize>, n: usize) -> (r: bool)
    ensures
        r == is_index_list(v@, n as int),
{
    let mut k: usize = 0;
    while k < v.len()
        invariant
            k <= v@.len(),
            forall|m: int| 0 <= m < k ==> #[trigger] v@[m] < n,
            forall|m1: int, m2: int| 0 <= m1 < m2 < k ==> #[trigger] v@[m1] < #[trigger] v@[m2],
        decreases v@.len() - k,
    {
        if v[k] >= n {
            assert(!(v@[k as int] < n));
            return false;
        }
        if k > 0 && v[k - 1] >= v[k] {
            assert(!(v@[k - 1] < v@[k as int]));
            return false;
        }
        assert forall|m1: int, m2: int| 0 <= m1 < m2 < k + 1 implies #[trigger] v@[m1] < #[trigger] v@[m2] by {
            if m2 == k && m1 < k - 1 {
                assert(v@[m1] < v@[k - 1]);
            }
        }
        k += 1;
    }
    true
}

impl GraphEditor {
    /// An idle editor with nothing hovered.
    pub fn new() -> (r: GraphEditor)
        ensures
            r.state == EditState::Normal,
            r.hovered.node is None,
            r.hovered.highlighted_node is None,
            r.hovered.edges@.len() == 0,
            r.hovered.highlighted_edges@.len() == 0,
            r.drag == (MouseDragDetector { elapsed_us: 0, paused: false, click_pos: None }),
    {
        GraphEditor {
            state: EditState::Normal,
            hovered: Hovered {
                node: None,
                highlighted_node: None,
                edges: Vec::new(),
                highlighted_edges: Vec::new(),
            },
            drag: MouseDragDetector::new(),
        }
    }

    /// The editor's state and recorded press fit a graph of `n` nodes.
    pub open spec fn wf(&self, n: int) -> bool {
        state_ok(self.state, n) && self.drag.wf()
    }

    /// The hover information fits `graph`, as a hover update on it leaves it.
    pub open spec fn hover_fits(&self, graph: &SpatialGraph) -> bool {
        &&& self.hovered.node matches Some(i) ==> i < graph.nodes@.len()
        &&& is_index_list(self.hovered.edges@, graph.edges@.len() as int)
    }

    /// Hover and drag bookkeeping for one tick: advances the drag detector,
    /// starts or ends a node drag, and recomputes what is under the cursor.
    /// Edges count as hovered only when no node is and no node is being
    /// dragged. Returns the highlighting to redraw; the highlighted node is
    /// left alone during a drag.
    pub fn update_mouse_state(&mut self, graph: &SpatialGraph, input: &MouseInput) -> (changes: HoverChanges)
        requires
            graph.wf(),
            input.pos.in_range(),
            old(self).wf(graph.nodes@.len() as int),
        ensures
            final(self).wf(graph.nodes@.len() as int),
            final(self).hover_fits(graph),
            final(self).drag == drag_after(old(self).drag, *input),
            final(self).state == drag_state(old(self).state, final(self).drag, graph.nodes@, input.pos),
            final(self).hovered.node == hovered_node_at(graph.nodes@, input.pos),
            final(self).drag.is_dragging(input.pos) ==> final(self).hovered.highlighted_node
                == old(self).hovered.highlighted_node && changes.node_off is None && changes.node_on is None,
            !final(self).drag.is_dragging(input.pos) ==> final(self).hovered.highlighted_node
                == final(self).hovered.node,
            !final(self).drag.is_dragging(input.pos) && old(self).hovered.highlighted_node
                == final(self).hovered.node ==> changes.node_off is None && changes.node_on is None,
            !final(self).drag.is_dragging(input.pos) && old(self).hovered.highlighted_node
                != final(self).hovered.node ==> changes.node_off == old(self).hovered.highlighted_node
                && changes.node_on == final(self).hovered.node,
            final(self).hovered.node is None && !(final(self).state is DraggingNode) ==> is_hovered_edges(
                graph.nodes@,
                graph.edges@,
                input.pos,
                final(self).hovered.edges@,
            ),
            final(self).hovered.node is Some || final(self).state is DraggingNode
                ==> final(self).hovered.edges@.len() == 0,
            final(self).hovered.highlighted_edges@ == final(self).hovered.edges@,
            is_difference(final(self).hovered.edges@, old(self).hovered.highlighted_edges@, changes.edges_on@),
            is_difference(old(self).hovered.highlighted_edges@, final(self).hovered.edges@, changes.edges_off@),
    {
        self.drag.update(input);
        let pos = input.pos;
        let dragging = self.drag.dragging(pos);
        let was_dragging = match self.state {
            EditState::DraggingNode(_, _) => true,
            _ => false,
        };
        if dragging && !was_dragging {
            let click = match self.drag.click_pos {
                Some(p) => p,
                None => pos,
            };
            match find_hovered_node(&graph.nodes, click) {
                Some(i) => {
                    let p = graph.nodes[i];
                    self.state = EditState::DraggingNode(i, Point { x: p.x - click.x, y: p.y - click.y });
                },
                None => {},
            }
        } else if !dragging && was_dragging {
            self.state = EditState::Normal;
        }
        let node = find_hovered_node(&graph.nodes, pos);
        self.hovered.node = node;
        let mut node_off: Option<usize> = None;
        let mut node_on: Option<usize> = None;
        if !dragging {
            if !same_index(node, self.hovered.highlighted_node) {
                node_off = self.hovered.highlighted_node;
                node_on = node;
            }
            self.hovered.highlighted_node = node;
        }
        let now_dragging = match self.state {
            EditState::DraggingNode(_, _) => true,
            _ => false,
        };
        let edges = if node.is_none() && !now_dragging {
            find_hovered_edges(graph, pos)
        } else {
            Vec::new()
        };
        let edges_on = index_diff(&edges, &self.hovered.highlighted_edges);
        let edges_off = index_diff(&self.hovered.highlighted_edges, &edges);
        self.hovered.highlighted_edges = copy_indices(&edges);
        self.hovered.edges = edges;
        HoverChanges { node_off, node_on, edges_on, edges_off }
    }

    /// One editing step, run after the hover update of the same tick. Clicks
    /// act on the node or edges under the cursor (see `edit_step` for every
    /// case): a left click on a node starts an edge from it, on empty space
    /// it creates a node (splitting the hovered edges at it) and starts an
    /// edge from that; a right click deletes the hovered node or the hovered
    /// edges. While an edge is drawn, a left click on a node toggles the edge,
    /// on empty space it ends the edge at a new node, a right click cancels,
    /// and otherwise the preview follows the cursor. A dragged node follows
    /// the cursor.
    pub fn mouse_interaction(&mut self, graph: &mut SpatialGraph, input: &MouseInput) -> (outcome: EditOutcome)
        requires
            old(graph).wf(),
            input.pos.in_range(),
            old(self).wf(old(graph).nodes@.len() as int),
            old(self).hover_fits(old(graph)),
        ensures
            final(graph).wf(),
            final(self).wf(final(graph).nodes@.len() as int),
            final(self).drag == old(self).drag,
            final(self).hovered.node == old(self).hovered.node,
            final(self).hovered.highlighted_node == old(self).hovered.highlighted_node,
            final(self).hovered.edges@ == old(self).hovered.edges@,
            final(self).hovered.highlighted_edges@ == old(self).hovered.highlighted_edges@,
            edit_step(
                old(self).state,
                old(self).hovered.node,
                old(self).hovered.edges@,
                *input,
                old(graph).nodes@,
                old(graph).edges@,
                final(graph).nodes@,
                final(graph).edges@,
                final(self).state,
            ),
            reports(
                old(self).state,
                old(self).hovered.node,
                old(self).hovered.edges@,
                *input,
                old(graph).nodes@,
                old(graph).edges@,
                final(graph).edges@,
                outcome,
            ),
    {
        let left = input.left_just_pressed;
        let right = input.right_just_pressed;
        let pos = input.pos;
        match self.state {
            EditState::Normal => match self.hovered.node {
                Some(i) => {
                    if left {
                        self.state = EditState::MakingEdge(i, None);
                        EditOutcome::Unchanged
                    } else if right {
                        let removed = graph.remove_node(i);
                        EditOutcome::NodeRemoved(i, removed)
                    } else {
                        EditOutcome::Unchanged
                    }
                },
                None => {
                    if left {
                        let n = graph.add_node(pos);
                        graph.split_edges(n, &self.hovered.edges);
                        self.state = EditState::MakingEdge(n, None);
                        EditOutcome::NodeAdded(n, copy_indices(&self.hovered.edges))
                    } else if right {
                        graph.remove_edges(&self.hovered.edges);
                        EditOutcome::EdgesRemoved(copy_indices(&self.hovered.edges))
                    } else {
                        EditOutcome::Unchanged
                    }
                },
            },
            EditState::MakingEdge(s, _) => {
                if left {
                    self.state = EditState::Normal;
                    match self.hovered.node {
                        Some(e) => {
                            if s == e {
                                EditOutcome::Unchanged
                            } else {
                                match graph.find_edge(s, e) {
                                    Some(k) => {
                                        graph.remove_edge(k);
                                        EditOutcome::EdgeRemoved(k)
                                    },
                                    None => {
                                        graph.add_edge(s, e);
                                        EditOutcome::EdgeAdded
                                    },
                                }
                            }
                        },
                        None => {
                            let n = graph.add_node(pos);
                            assert(!has_edge(graph.edges@, s, n)) by {
                                if has_edge(graph.edges@, s, n) {
                                    let k = choose|k: int|
                                        0 <= k < graph.edges@.len() && crate::graph::same_edge(
                                            #[trigger] graph.edges@[k],
                                            s,
                                            n,
                                        );
                                }
                            }
                            graph.add_edge(s, n);
                            graph.split_edges(n, &self.hovered.edges);
                            EditOutcome::NodeAdded(n, copy_indices(&self.hovered.edges))
                        },
                    }
                } else if right {
                    self.state = EditState::Normal;
                    EditOutcome::Unchanged
                } else {
                    let (to, deletion) = match self.hovered.node {
                        Some(h) => (graph.nodes[h], graph.find_edge(s, h).is_some()),
                        None => (pos, false),
                    };
                    self.state = EditState::MakingEdge(s, Some(EdgePreview { from: graph.nodes[s], to, deletion }));
                    EditOutcome::Unchanged
                }
            },
            EditState::DraggingNode(i, off) => {
                let target = Point::clamped(pos.x + off.x, pos.y + off.y);
                graph.move_node(i, target);
                let es = graph.connected_edges(i);
                EditOutcome::Moved(i, es)
            },
        }
    }

    /// Leaving edit mode: drops any edge in progress, returns to `Normal`,
    /// and hands back the highlighted node and edges to be drawn plainly again.
    pub fn on_exit_edit_mode(&mut self) -> (changes: HoverChanges)
        ensures
            final(self).state == EditState::Normal,
            final(self).drag == old(self).drag,
            final(self).hovered.node == old(self).hovered.node,
            final(self).hovered.edges@ == old(self).hovered.edges@,
            final(self).hovered.highlighted_node is None,
            final(self).hovered.highlighted_edges@.len() == 0,
            changes.node_off == old(self).hovered.highlighted_node,
            changes.node_on is None,
            changes.edges_off@ == old(self).hovered.highlighted_edges@,
            changes.edges_on@.len() == 0,
    {
        let node_off = self.hovered.highlighted_node;
        self.hovered.highlighted_node = None;
        let edges_off = copy_indices(&self.hovered.highlighted_edges);
        self.hovered.highlighted_edges = Vec::new();
        self.state = EditState::Normal;
        HoverChanges { node_off, node_on: None, edges_on: Vec::new(), edges_off }
    }

    /// Whether an editing step may run on `graph` now.
    pub fn ready_for(&self, graph: &SpatialGraph) -> (r: bool)
        ensures
            r == (self.wf(graph.nodes@.len() as int) && self.hover_fits(graph)),
    {
        let n = graph.nodes.len();
        let state_fits = match self.state {
            EditState::Normal => true,
            EditState::MakingEdge(i, _) => i < n,
            EditState::DraggingNode(i, off) => i < n && -2 * COORD_LIMIT <= off.x && off.x <= 2 * COORD_LIMIT
                && -2 * COORD_LIMIT <= off.y && off.y <= 2 * COORD_LIMIT,
        };
        let click_fits = match self.drag.click_pos {
            Some(p) => -COORD_LIMIT <= p.x && p.x <= COORD_LIMIT && -COORD_LIMIT <= p.y && p.y <= COORD_LIMIT,
            None => true,
        };
        let node_fits = match self.hovered.node {
            Some(i) => i < n,
            None => true,
        };
        let edges_fit = index_list_within(&self.hovered.edges, graph.edges.len());
        state_fits && click_fits && node_fits && edges_fit
    }
}

} // verus!
