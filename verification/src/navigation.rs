//! The agent: where it stands, between which walls, and how it moves.

use vstd::prelude::*;
use crate::crossing::{chained, has_links, linked, meets, Segment};
use crate::geometry::{dist, dist_sq, distance, distance_squared, Point, Vector};
use crate::scene::Scene;
use crate::visibility::{
    contains_point, find_closest_point, is_legal_ray, legal_ray, look_toward, tidy, visible,
    visible_points,
};

verus! {

/// The agent has reached the goal when it stands less than this many grid
/// units from it.
pub const GOAL_TOLERANCE: u64 = 10;

/// Segment `k` leaves `position`.
pub open spec fn leaves(segments: Seq<Segment>, position: Point, k: int) -> bool {
    0 <= k < segments.len() && segments[k].origin == position
}

/// Segment `k` arrives at `position` from elsewhere.
pub open spec fn arrives(segments: Seq<Segment>, position: Point, k: int) -> bool {
    0 <= k < segments.len() && segments[k].target == position && segments[k].origin != position
}

/// `position` is the vertex between the walls `pair`: the first is the one
/// and only segment that leaves it, the second the one and only segment
/// that arrives at it.
pub open spec fn stands_between(
    segments: Seq<Segment>,
    position: Point,
    pair: (usize, usize),
) -> bool {
    &&& leaves(segments, position, pair.0 as int)
    &&& arrives(segments, position, pair.1 as int)
    &&& forall|k: int| #[trigger] leaves(segments, position, k) ==> k == pair.0
    &&& forall|k: int| #[trigger] arrives(segments, position, k) ==> k == pair.1
}

/// The walls an agent at `position` stands between: the two segments that
/// meet there when exactly two do, one leaving and one arriving; `None` in
/// open space and wherever more or fewer segments meet.
pub open spec fn standing_walls(segments: Seq<Segment>, position: Point) -> Option<
    (usize, usize),
> {
    if exists|pair: (usize, usize)| stands_between(segments, position, pair) {
        Some(choose|pair: (usize, usize)| stands_between(segments, position, pair))
    } else {
        None
    }
}

/// An agent that stands between two walls stands where exactly two
/// segments meet: the two walls are different segments, and no other
/// segment has an end there.
pub proof fn lemma_walls_are_all_that_meet(segments: Seq<Segment>, position: Point)
    ensures
        standing_walls(segments, position) matches Some(pair) ==> {
            &&& pair.0 != pair.1
            &&& stands_between(segments, position, pair)
            &&& forall|k: int| #[trigger]
                meets(segments, position, k) <==> k == pair.0 || k == pair.1
        },
        standing_walls(segments, position) is None ==> forall|pair: (usize, usize)|
            !stands_between(segments, position, pair),
{
    if let Some(pair) = standing_walls(segments, position) {
        assert forall|k: int| #[trigger] meets(segments, position, k) implies k == pair.0 || k
            == pair.1 by {
            if segments[k].origin == position {
                assert(leaves(segments, position, k));
            } else {
                assert(arrives(segments, position, k));
            }
        }
    }
}

/// Exactly two segments have an end at `position`.
pub open spec fn two_meet(segments: Seq<Segment>, position: Point) -> bool {
    exists|i: int, j: int|
        i != j && meets(segments, position, i) && meets(segments, position, j) && forall|k: int| #[trigger]
            meets(segments, position, k) ==> k == i || k == j
}

/// Among closed chains an agent stands between two walls just where
/// exactly two segments meet.
pub proof fn lemma_walls_where_two_meet(segments: Seq<Segment>, position: Point)
    requires
        chained(segments),
        segments.len() <= usize::MAX,
    ensures
        standing_walls(segments, position) is Some <==> two_meet(segments, position),
{
    lemma_walls_are_all_that_meet(segments, position);
    if let Some(pair) = standing_walls(segments, position) {
        assert(meets(segments, position, pair.0 as int));
        assert(meets(segments, position, pair.1 as int));
    }
    if two_meet(segments, position) {
        let (i, j) = choose|i: int, j: int|
            i != j && meets(segments, position, i) && meets(segments, position, j) && forall|
                k: int,
            | #[trigger] meets(segments, position, k) ==> k == i || k == j;
        assert(has_links(segments, i));
        assert(has_links(segments, j));
        let (after_i, before_i) = choose|next: int, previous: int|
            linked(segments, i, next, previous);
        let (after_j, before_j) = choose|next: int, previous: int|
            linked(segments, j, next, previous);
        if segments[i].target == position {
            assert(meets(segments, position, after_i));
        }
        if segments[i].origin == position {
            assert(meets(segments, position, before_i));
        }
        if segments[j].target == position {
            assert(meets(segments, position, after_j));
        }
        if segments[j].origin == position {
            assert(meets(segments, position, before_j));
        }
        let pair = if segments[i].origin == position {
            (i as usize, j as usize)
        } else {
            (j as usize, i as usize)
        };
        assert forall|k: int| #[trigger] leaves(segments, position, k) implies k == pair.0 by {
            assert(meets(segments, position, k));
        }
        assert forall|k: int| #[trigger] arrives(segments, position, k) implies k == pair.1 by {
            assert(meets(segments, position, k));
        }
        assert(stands_between(segments, position, pair));
    }
}

/// `position` lies within `GOAL_TOLERANCE` of `goal`.
pub open spec fn at_goal(position: Point, goal: Point) -> bool {
    dist_sq(position, goal) < GOAL_TOLERANCE * GOAL_TOLERANCE
}

/// Computes `standing_walls`.
pub fn find_standing_walls(segments: &Vec<Segment>, position: &Point) -> (walls: Option<
    (usize, usize),
>)
    ensures
        walls == standing_walls(segments@, *position),
        walls matches Some(pair) ==> pair.0 < segments@.len() && pair.1 < segments@.len(),
{
    let mut leaving: Option<usize> = None;
    let mut arriving: Option<usize> = None;
    let mut k: usize = 0;
    while k < segments.len()
        invariant
            0 <= k <= segments@.len(),
            match leaving {
                Some(i) => i < k && leaves(segments@, *position, i as int) && forall|j: int|
                    j < k && #[trigger] leaves(segments@, *position, j) ==> j == i,
                None => forall|j: int| j < k ==> !leaves(segments@, *position, j),
            },
            match arriving {
                Some(i) => i < k && arrives(segments@, *position, i as int) && forall|j: int|
                    j < k && #[trigger] arrives(segments@, *position, j) ==> j == i,
                None => forall|j: int| j < k ==> !arrives(segments@, *position, j),
            },
        decreases segments@.len() - k,
    {
        let segment = &segments[k];
        if segment.origin.x == position.x && segment.origin.y == position.y {
            assert(leaves(segments@, *position, k as int));
            match leaving {
                Some(i) => {
                    assert(leaves(segments@, *position, i as int));
                    assert(forall|pair: (usize, usize)|
                        !stands_between(segments@, *position, pair));
                    return None;
                },
                None => {
                    leaving = Some(k);
                },
            }
        } else if segment.target.x == position.x && segment.target.y == position.y {
            assert(arrives(segments@, *position, k as int));
            match arriving {
                Some(i) => {
                    assert(arrives(segments@, *position, i as int));
                    assert(forall|pair: (usize, usize)|
                        !stands_between(segments@, *position, pair));
                    return None;
                },
                None => {
                    arriving = Some(k);
                },
            }
        }
        k += 1;
    }
    match (leaving, arriving) {
        (Some(i), Some(j)) => {
            assert(stands_between(segments@, *position, (i, j)));
            Some((i, j))
        },
        _ => {
            assert(forall|pair: (usize, usize)| !stands_between(segments@, *position, pair));
            None
        },
    }
}

/// An agent in a scene.
#[derive(Debug)]
pub struct Navigator {
    scene: Scene,
    position: Point,
    walls: Option<(usize, usize)>,
    start: Point,
}

impl Navigator {
    /// The scene the agent moves in.
    pub closed spec fn scene(&self) -> Scene {
        self.scene
    }

    /// Where the agent stands.
    pub closed spec fn position(&self) -> Point {
        self.position
    }

    /// The walls the agent stands between, if it stands on a vertex.
    pub closed spec fn walls(&self) -> Option<(usize, usize)> {
        self.walls
    }

    /// Where the agent set out from.
    pub closed spec fn start(&self) -> Point {
        self.start
    }

    /// The scene is well formed and the agent and its start are on the
    /// grid.
    pub open spec fn wf(&self) -> bool {
        &&& self.scene().wf()
        &&& self.position().in_bounds()
        &&& self.start().in_bounds()
    }

    /// What the agent sees from where it stands.
    pub open spec fn view(&self) -> Seq<Point> {
        visible(self.scene().segments(), self.scene().goal(), self.position(), self.walls())
    }

    /// An agent that stands at `start`, in open space; `None` when `start`
    /// lies off the grid.
    pub fn new(scene: Scene, start: Point) -> (made: Option<Navigator>)
        requires
            scene.wf(),
        ensures
            made is Some <==> start.in_bounds(),
            made matches Some(n) ==> n.wf() && n.scene() == scene && n.position() == start
                && n.start() == start && n.walls() is None,
    {
        if !start.is_in_bounds() {
            return None;
        }
        Some(Navigator { scene, position: start, walls: None, start })
    }

    /// The scene the agent moves in.
    pub fn get_scene(&self) -> (scene: &Scene)
        ensures
            *scene == self.scene(),
    {
        &self.scene
    }

    /// Where the agent stands.
    pub fn get_agent_pos(&self) -> (position: Point)
        ensures
            position == self.position(),
    {
        self.position
    }

    /// The walls the agent stands between, if it stands on a vertex.
    pub fn get_agent_walls(&self) -> (walls: Option<(usize, usize)>)
        ensures
            walls == self.walls(),
    {
        self.walls
    }

    /// The goal.
    pub fn get_goal_pos(&self) -> (goal: Point)
        ensures
            goal == self.scene().goal(),
    {
        self.scene.get_goal()
    }

    /// Whether the agent may look along `to_check` from where it stands.
    pub fn is_legal_ray(&self, to_check: &Vector) -> (legal: bool)
        requires
            self.wf(),
            to_check.in_bounds(),
        ensures
            legal == legal_ray(self.scene().segments(), self.walls(), *to_check),
    {
        is_legal_ray(self.scene.get_segments(), self.walls, to_check)
    }

    /// Looks toward `point` and adds what that look shows to `result`.
    pub fn find_closest_point(&self, point: &Point, result: &mut Vec<Point>)
        requires
            self.wf(),
            point.in_bounds(),
        ensures
            final(result)@ == look_toward(
                self.scene().segments(),
                self.scene().goal(),
                self.position(),
                self.walls(),
                *point,
                old(result)@,
            ),
    {
        let goal = self.scene.get_goal();
        find_closest_point(
            self.scene.get_segments(),
            &goal,
            &self.position,
            self.walls,
            point,
            result,
        )
    }

    /// The points the agent can walk to in one straight move.
    pub fn get_agent_view(&self) -> (seen: Vec<Point>)
        requires
            self.wf(),
        ensures
            seen@ == self.view(),
            tidy(seen@, self.position()),
    {
        visible_points(&self.position, self.walls, &self.scene)
    }

    /// Moves the agent to `target` and returns the distance walked.
    ///
    /// The agent then stands between two walls if exactly two segments
    /// meet at `target`, and in open space otherwise. `target` is meant to
    /// be one of the points of the agent's current view; the move is made
    /// whether it is or not.
    pub fn move_agent(&mut self, target: Point) -> (distance: u64)
        requires
            old(self).wf(),
            target.in_bounds(),
        ensures
            final(self).wf(),
            final(self).scene() == old(self).scene(),
            final(self).start() == old(self).start(),
            final(self).position() == target,
            final(self).walls() == standing_walls(old(self).scene().segments(), target),
            final(self).walls() is Some <==> two_meet(old(self).scene().segments(), target),
            distance == dist(old(self).position(), target),
    {
        let walked = distance(&self.position, &target);
        let segments = self.scene.get_segments();
        proof {
            assert(segments@.len() == segments.len());
            lemma_walls_where_two_meet(segments@, target);
        }
        self.walls = find_standing_walls(segments, &target);
        self.position = target;
        walked
    }

    /// Moves the agent to `target` if that is one of the points it sees,
    /// and returns the distance walked; otherwise leaves the agent where it
    /// is and returns `None`.
    pub fn checked_move(&mut self, target: Point) -> (distance: Option<u64>)
        requires
            old(self).wf(),
        ensures
            final(self).wf(),
            final(self).scene() == old(self).scene(),
            final(self).start() == old(self).start(),
            distance is Some <==> old(self).view().contains(target),
            match distance {
                Some(walked) => {
                    &&& final(self).position() == target
                    &&& final(self).walls() == standing_walls(
                        old(self).scene().segments(),
                        target,
                    )
                    &&& walked == dist(old(self).position(), target)
                },
                None => {
                    &&& final(self).position() == old(self).position()
                    &&& final(self).walls() == old(self).walls()
                },
            },
    {
        let seen = self.get_agent_view();
        if contains_point(&seen, &target) {
            Some(self.move_agent(target))
        } else {
            None
        }
    }

    /// Whether the agent stands at the goal.
    pub fn reached_goal(&self) -> (reached: bool)
        requires
            self.wf(),
        ensures
            reached == at_goal(self.position(), self.scene().goal()),
    {
        let goal = self.scene.get_goal();
        distance_squared(&self.position, &goal) < GOAL_TOLERANCE * GOAL_TOLERANCE
    }

    /// Puts the agent back where it set out from, in open space.
    pub fn reset_agent_pos(&mut self)
        requires
            old(self).wf(),
        ensures
            final(self).wf(),
            final(self).scene() == old(self).scene(),
            final(self).start() == old(self).start(),
            final(self).position() == old(self).start(),
            final(self).walls() is None,
    {
        self.position = self.start;
        self.walls = None;
    }
}

} // verus!
