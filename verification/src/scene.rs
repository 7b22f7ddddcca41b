//! The obstacle course: every polygon's edges in one list, and the goal.

use vstd::prelude::*;
use crate::crossing::{chained, lemma_chained_concat, Segment};
use crate::geometry::Point;
use crate::polygon::{inside, lemma_closed_loop_chained, point_in_polygon, Polygon};

verus! {

/// All obstacle edges, polygon after polygon, and the goal. Never changes
/// once built.
#[derive(Debug)]
pub struct Scene {
    segments: Vec<Segment>,
    goal: Point,
}

/// The edges of the first `n` polygons, one polygon after the other.
pub open spec fn edges_of(polygons: Seq<Polygon>, n: int) -> Seq<Segment>
    decreases n,
{
    if n <= 0 {
        Seq::empty()
    } else {
        edges_of(polygons, n - 1) + polygons[n - 1]@
    }
}

/// `point` lies inside none of the polygons.
pub open spec fn outside_all(point: Point, polygons: Seq<Polygon>) -> bool {
    forall|i: int| 0 <= i < polygons.len() ==> !inside(point, #[trigger] polygons[i]@)
}

/// Every polygon is well formed.
pub open spec fn all_wf(polygons: Seq<Polygon>) -> bool {
    forall|i: int| 0 <= i < polygons.len() ==> (#[trigger] polygons[i]).wf()
}

/// The edges of well-formed polygons form closed chains.
pub proof fn lemma_edges_chained(polygons: Seq<Polygon>, n: int)
    requires
        all_wf(polygons),
        n <= polygons.len(),
    ensures
        chained(edges_of(polygons, n)),
    decreases n,
{
    if n > 0 {
        lemma_edges_chained(polygons, n - 1);
        assert(polygons[n - 1].wf());
        lemma_closed_loop_chained(polygons[n - 1]@);
        lemma_chained_concat(edges_of(polygons, n - 1), polygons[n - 1]@);
    }
}

impl Scene {
    /// The obstacle edges in order.
    pub closed spec fn segments(&self) -> Seq<Segment> {
        self.segments@
    }

    /// The goal.
    pub closed spec fn goal(&self) -> Point {
        self.goal
    }

    /// The goal lies on the grid, every segment is well formed, and the
    /// segments form closed chains.
    pub open spec fn wf(&self) -> bool {
        &&& self.goal().in_bounds()
        &&& forall|i: int| 0 <= i < self.segments().len() ==> (#[trigger] self.segments()[i]).wf()
        &&& chained(self.segments())
    }

    /// The scene with these obstacles and this goal, or `None` when the
    /// goal lies off the grid.
    pub fn new(polygons: &Vec<Polygon>, goal: Point) -> (made: Option<Scene>)
        requires
            all_wf(polygons@),
        ensures
            made is Some <==> goal.in_bounds(),
            made matches Some(s) ==> s.wf() && s.goal() == goal && s.segments() == edges_of(
                polygons@,
                polygons@.len() as int,
            ),
    {
        if !goal.is_in_bounds() {
            return None;
        }
        let mut segments: Vec<Segment> = Vec::new();
        let mut i: usize = 0;
        while i < polygons.len()
            invariant
                0 <= i <= polygons@.len(),
                all_wf(polygons@),
                segments@ == edges_of(polygons@, i as int),
                forall|k: int| 0 <= k < segments@.len() ==> (#[trigger] segments@[k]).wf(),
            decreases polygons@.len() - i,
        {
            let edges = polygons[i].edges();
            assert(polygons@[i as int].wf());
            let ghost before = segments@;
            let mut j: usize = 0;
            while j < edges.len()
                invariant
                    0 <= j <= edges@.len(),
                    forall|k: int| 0 <= k < edges@.len() ==> (#[trigger] edges@[k]).wf(),
                    segments@ == before + edges@.take(j as int),
                    forall|k: int| 0 <= k < before.len() ==> (#[trigger] before[k]).wf(),
                decreases edges@.len() - j,
            {
                segments.push(edges[j]);
                assert(edges@.take(j as int + 1) =~= edges@.take(j as int).push(
                    edges@[j as int],
                ));
                assert(segments@ =~= before + edges@.take(j as int + 1));
                j += 1;
            }
            assert(edges@.take(j as int) =~= edges@);
            i += 1;
        }
        proof {
            lemma_edges_chained(polygons@, polygons@.len() as int);
        }
        Some(Scene { segments, goal })
    }

    /// The scene without obstacles.
    pub fn open_field(goal: Point) -> (made: Option<Scene>)
        ensures
            made is Some <==> goal.in_bounds(),
            made matches Some(s) ==> s.wf() && s.goal() == goal && s.segments().len() == 0,
    {
        if !goal.is_in_bounds() {
            return None;
        }
        Some(Scene { segments: Vec::new(), goal })
    }

    /// The obstacle edges in order.
    pub fn get_segments(&self) -> (segments: &Vec<Segment>)
        ensures
            segments@ == self.segments(),
    {
        &self.segments
    }

    /// The goal.
    pub fn get_goal(&self) -> (goal: Point)
        ensures
            goal == self.goal(),
    {
        self.goal
    }
}

/// Whether `point` lies outside every polygon, which makes it usable as a
/// start or a goal.
pub fn is_free_point(point: &Point, polygons: &Vec<Polygon>) -> (free: bool)
    requires
        point.in_bounds(),
        all_wf(polygons@),
    ensures
        free == outside_all(*point, polygons@),
{
    let mut i: usize = 0;
    while i < polygons.len()
        invariant
            0 <= i <= polygons@.len(),
            point.in_bounds(),
            all_wf(polygons@),
            forall|k: int| 0 <= k < i ==> !inside(*point, #[trigger] polygons@[k]@),
        decreases polygons@.len() - i,
    {
        assert(polygons@[i as int].wf());
        if point_in_polygon(point, &polygons[i]) {
            return false;
        }
        i += 1;
    }
    true
}

} // verus!
