//! The autonomous route: named field waypoints, and the path that chains
//! planned paths from the start waypoint through the route's waypoints.
use vstd::prelude::*;

use crate::geometry::{clamp_coord, Point};
use crate::graph::SpatialGraph;
use crate::planner::{compute_path, is_plan, plannable, planned};

verus! {

/// Name of the waypoint every route starts from.
pub const START_WAYPOINT: &'static str = "robostart";

/// An autonomous route: the names of the waypoints to visit, in order.
#[derive(Debug)]
pub struct Auto {
    pub wpts: Vec<String>,
}

/// Named waypoints of the field.
#[derive(Debug)]
pub struct Waypoints {
    pub entries: Vec<(String, Point)>,
}

/// The position of the first waypoint named `name`, if any.
pub open spec fn lookup(entries: Seq<(String, Point)>, name: Seq<char>) -> Option<Point>
    decreases entries.len(),
{
    if entries.len() == 0 {
        None
    } else if entries[0].0@ == name {
        Some(entries[0].1)
    } else {
        lookup(entries.drop_first(), name)
    }
}

/// A point given in the field's frame (x forward, y left as drawn on the
/// field plan) moved into the world frame whose origin is at `origin`.
pub open spec fn world_of(p: Point, origin: Point) -> Point {
    Point { x: clamp_coord(origin.x - p.y) as i64, y: clamp_coord(origin.y + p.x) as i64 }
}

/// Every waypoint lies within the coordinate range.
pub open spec fn entries_in_range(entries: Seq<(String, Point)>) -> bool {
    forall|k: int| 0 <= k < entries.len() ==> (#[trigger] entries[k]).1.in_range()
}

/// No two waypoints share a name.
pub open spec fn names_unique(entries: Seq<(String, Point)>) -> bool {
    forall|i: int, j: int| 0 <= i < j < entries.len() ==> (#[trigger] entries[i]).0@ != (#[trigger] entries[j]).0@
}

/// Where leg `k` of the route starts: the start waypoint for the first leg,
/// otherwise the waypoint the previous leg went to.
pub open spec fn leg_start(entries: Seq<(String, Point)>, names: Seq<String>, k: int) -> Point {
    if k == 0 {
        lookup(entries, START_WAYPOINT@)->Some_0
    } else {
        lookup(entries, names[k - 1]@)->Some_0
    }
}

/// Where leg `k` of the route goes.
pub open spec fn leg_end(entries: Seq<(String, Point)>, names: Seq<String>, k: int) -> Point {
    lookup(entries, names[k]@)->Some_0
}

/// The legs of a route one after the other.
pub open spec fn joined(legs: Seq<Seq<Point>>) -> Seq<Point>
    decreases legs.len(),
{
    if legs.len() == 0 {
        seq![]
    } else {
        joined(legs.drop_last()) + legs.last()
    }
}

impl Waypoints {
    /// The waypoint invariant: names are unique and positions in range.
    pub open spec fn wf(&self) -> bool {
        names_unique(self.entries@) && entries_in_range(self.entries@)
    }

    /// Named waypoints from a list of entries, or `None` when two entries
    /// share a name or a position is out of range.
    pub fn from_entries(entries: Vec<(String, Point)>) -> (r: Option<Waypoints>)
        ensures
            r is Some <==> names_unique(entries@) && entries_in_range(entries@),
            r matches Some(w) ==> w.entries@ == entries@,
    {
        let mut i: usize = 0;
        while i < entries.len()
            invariant
                i <= entries@.len(),
                forall|a: int, b: int| 0 <= a < b < entries@.len() && a < i ==> (#[trigger] entries@[a]).0@ != (#[trigger] entries@[b]).0@,
                forall|a: int| 0 <= a < i ==> (#[trigger] entries@[a]).1.in_range(),
            decreases entries@.len() - i,
        {
            let p = entries[i].1;
            if p.x < -crate::geometry::COORD_LIMIT || p.x > crate::geometry::COORD_LIMIT
                || p.y < -crate::geometry::COORD_LIMIT || p.y > crate::geometry::COORD_LIMIT {
                assert(!entries@[i as int].1.in_range());
                return None;
            }
            let mut j: usize = i + 1;
            while j < entries.len()
                invariant
                    i < j <= entries@.len(),
                    forall|b: int| i < b < j ==> entries@[i as int].0@ != (#[trigger] entries@[b]).0@,
                decreases entries@.len() - j,
            {
                if entries[i].0 == entries[j].0 {
                    assert(entries@[i as int].0@ == entries@[j as int].0@);
                    return None;
                }
                j += 1;
            }
            assert forall|a: int, b: int| 0 <= a < b < entries@.len() && a < i + 1 implies (#[trigger] entries@[a]).0@
                != (#[trigger] entries@[b]).0@ by {
                if a == i {
                    assert(entries@[i as int].0@ != entries@[b].0@);
                }
            }
            i += 1;
        }
        Some(Waypoints { entries })
    }

    /// The position of the first waypoint named `name`, if any.
    pub fn get(&self, name: &String) -> (r: Option<Point>)
        ensures
            r == lookup(self.entries@, name@),
    {
        let mut k: usize = 0;
        assert(self.entries@.subrange(0, self.entries@.len() as int) == self.entries@);
        while k < self.entries.len()
            invariant
                k <= self.entries@.len(),
                lookup(self.entries@, name@) == lookup(
                    self.entries@.subrange(k as int, self.entries@.len() as int),
                    name@,
                ),
            decreases self.entries@.len() - k,
        {
            let ghost rest = self.entries@.subrange(k as int, self.entries@.len() as int);
            assert(rest[0] == self.entries@[k as int]);
            assert(rest.drop_first() == self.entries@.subrange(k + 1, self.entries@.len() as int));
            if self.entries[k].0 == *name {
                return Some(self.entries[k].1);
            }
            k += 1;
        }
        None
    }

    /// The waypoints moved from the field's frame into the world frame.
    pub fn to_world(&self, origin: Point) -> (r: Waypoints)
        requires
            origin.in_range(),
            self.wf(),
        ensures
            r.wf(),
            r.entries@.len() == self.entries@.len(),
            forall|k: int|
                0 <= k < r.entries@.len() ==> (#[trigger] r.entries@[k]).0 == self.entries@[k].0
                    && r.entries@[k].1 == world_of(self.entries@[k].1, origin),
            entries_in_range(r.entries@),
    {
        let mut out: Vec<(String, Point)> = Vec::new();
        let mut k: usize = 0;
        while k < self.entries.len()
            invariant
                k <= self.entries@.len(),
                origin.in_range(),
                self.wf(),
                out@.len() == k,
                forall|j: int|
                    0 <= j < k ==> (#[trigger] out@[j]).0 == self.entries@[j].0 && out@[j].1 == world_of(
                        self.entries@[j].1,
                        origin,
                    ) && out@[j].1.in_range(),
            decreases self.entries@.len() - k,
        {
            let p = self.entries[k].1;
            assert(self.entries@[k as int].1.in_range());
            let name = self.entries[k].0.clone();
            let q = Point::clamped(origin.x - p.y, origin.y + p.x);
            out.push((name, q));
            k += 1;
        }
        let r = Waypoints { entries: out };
        assert forall|i: int, j: int| 0 <= i < j < r.entries@.len() implies (#[trigger] r.entries@[i]).0@
            != (#[trigger] r.entries@[j]).0@ by {
            assert(r.entries@[i].0 == self.entries@[i].0 && r.entries@[j].0 == self.entries@[j].0);
            assert(self.entries@[i].0@ != self.entries@[j].0@);
        }
        r
    }
}

/// Builds the autonomous route's path: starting at the start waypoint, a
/// planned path to each waypoint of the route in turn, each leg starting
/// where the previous one ended. Returns `None` exactly when some leg cannot
/// be planned.
pub fn gen_auto_path(auto: &Auto, wpts: &Waypoints, graph: &SpatialGraph) -> (r: Option<Vec<Point>>)
    requires
        graph.wf(),
        auto.wpts@.len() > 0 ==> graph.nodes@.len() > 0,
        graph.nodes@.len() + 2 <= usize::MAX,
        wpts.wf(),
        lookup(wpts.entries@, START_WAYPOINT@) is Some,
        forall|k: int| 0 <= k < auto.wpts@.len() ==> lookup(wpts.entries@, (#[trigger] auto.wpts@[k])@) is Some,
    ensures
        r is Some <==> forall|k: int|
            0 <= k < auto.wpts@.len() ==> #[trigger] plannable(
                graph.nodes@,
                graph.edges@,
                leg_start(wpts.entries@, auto.wpts@, k),
                leg_end(wpts.entries@, auto.wpts@, k),
            ),
        r matches Some(path) ==> exists|legs: Seq<Seq<Point>>|
            {
                &&& legs.len() == auto.wpts@.len()
                &&& forall|k: int|
                    0 <= k < legs.len() ==> is_plan(
                        graph.nodes@,
                        graph.edges@,
                        leg_start(wpts.entries@, auto.wpts@, k),
                        leg_end(wpts.entries@, auto.wpts@, k),
                        #[trigger] legs[k],
                    )
                &&& forall|k: int|
                    0 <= k < legs.len() ==> planned(
                        graph.nodes@,
                        graph.edges@,
                        leg_start(wpts.entries@, auto.wpts@, k),
                        leg_end(wpts.entries@, auto.wpts@, k),
                    ) == Some(#[trigger] legs[k])
                &&& path@ == seq![leg_start(wpts.entries@, auto.wpts@, 0)] + joined(legs)
            },
{
    let ghost entries = wpts.entries@;
    assert(entries_in_range(entries));
    let ghost names = auto.wpts@;
    let start_name = START_WAYPOINT.to_owned();
    let start = wpts.get(&start_name).unwrap();
    proof {
        lemma_lookup_in_range(entries, START_WAYPOINT@);
    }
    let mut path: Vec<Point> = Vec::new();
    path.push(start);
    let mut last = start;
    let ghost mut legs: Seq<Seq<Point>> = seq![];
    let mut k: usize = 0;
    while k < auto.wpts.len()
        invariant
            k <= names.len(),
            names == auto.wpts@,
            entries == wpts.entries@,
            graph.wf(),
            names.len() > 0 ==> graph.nodes@.len() > 0,
            graph.nodes@.len() + 2 <= usize::MAX,
            entries_in_range(entries),
            lookup(entries, START_WAYPOINT@) is Some,
            forall|j: int| 0 <= j < names.len() ==> lookup(entries, (#[trigger] names[j])@) is Some,
            start == leg_start(entries, names, 0),
            last == leg_start(entries, names, k as int),
            last.in_range(),
            legs.len() == k,
            forall|j: int|
                0 <= j < k ==> is_plan(
                    graph.nodes@,
                    graph.edges@,
                    leg_start(entries, names, j),
                    leg_end(entries, names, j),
                    #[trigger] legs[j],
                ),
            forall|j: int|
                0 <= j < k ==> planned(
                    graph.nodes@,
                    graph.edges@,
                    leg_start(entries, names, j),
                    leg_end(entries, names, j),
                ) == Some(#[trigger] legs[j]),
            forall|j: int|
                0 <= j < k ==> #[trigger] plannable(
                    graph.nodes@,
                    graph.edges@,
                    leg_start(entries, names, j),
                    leg_end(entries, names, j),
                ),
            path@ == seq![start] + joined(legs),
        decreases names.len() - k,
    {
        assert(lookup(entries, names[k as int]@) is Some);
        let cur = wpts.get(&auto.wpts[k]).unwrap();
        proof {
            lemma_lookup_in_range(entries, names[k as int]@);
        }
        match compute_path(last, cur, graph) {
            None => {
                assert(!plannable(
                    graph.nodes@,
                    graph.edges@,
                    leg_start(entries, names, k as int),
                    leg_end(entries, names, k as int),
                ));
                return None;
            },
            Some(mut sub) => {
                let ghost leg = sub@;
                path.append(&mut sub);
                proof {
                    let next = legs.push(leg);
                    assert(next.drop_last() == legs);
                    assert(joined(next) == joined(legs) + leg);
                    assert(path@ == seq![start] + joined(next));
                    assert forall|j: int| 0 <= j < k + 1 implies is_plan(
                        graph.nodes@,
                        graph.edges@,
                        leg_start(entries, names, j),
                        leg_end(entries, names, j),
                        #[trigger] next[j],
                    ) by {
                        if j < k {
                            assert(next[j] == legs[j]);
                        }
                    }
                    assert forall|j: int| 0 <= j < k + 1 implies planned(
                        graph.nodes@,
                        graph.edges@,
                        leg_start(entries, names, j),
                        leg_end(entries, names, j),
                    ) == Some(#[trigger] next[j]) by {
                        if j < k {
                            assert(next[j] == legs[j]);
                        }
                    }
                    legs = next;
                }
                last = cur;
            },
        }
        k += 1;
    }
    Some(path)
}

proof fn lemma_lookup_in_range(entries: Seq<(String, Point)>, name: Seq<char>)
    requires
        entries_in_range(entries),
    ensures
        lookup(entries, name) matches Some(p) ==> p.in_range(),
    decreases entries.len(),
{
    if entries.len() > 0 {
        assert(entries[0].1.in_range());
        let rest = entries.drop_first();
        assert forall|k: int| 0 <= k < rest.len() implies (#[trigger] rest[k]).1.in_range() by {
            assert(rest[k] == entries[k + 1]);
        }
        lemma_lookup_in_range(rest, name);
    }
}

} // verus!
