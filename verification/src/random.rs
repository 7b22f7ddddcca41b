//! Random scenery: where obstacles go, and free points for start and goal.
//!
//! Chance decides the numbers; everything the rest of the library relies
//! on holds whatever numbers come up.

use rand::rngs::ThreadRng;
use rand::Rng;
use vstd::prelude::*;
use crate::geometry::Point;
use crate::polygon::{all_in_bounds, loop_through, Polygon};
use crate::navigation::Navigator;
use crate::scene::{all_wf, edges_of, is_free_point, outside_all, Scene};

verus! {

/// The thread-local generator of the `rand` crate. Nothing is known of its
/// state.
#[verifier::external_type_specification]
#[verifier::external_body]
pub struct ExThreadRng(ThreadRng);

/// Obstacle centres, starts and goals lie within this distance of the
/// vertical axis.
pub const MAP_HALF_WIDTH: i64 = 500_000;

/// Obstacle centres, starts and goals lie within this distance of the
/// horizontal axis.
pub const MAP_HALF_HEIGHT: i64 = 500_000;

/// Fewest vertices of a random obstacle.
pub const SHAPE_MIN_VERTICES: i64 = 3;

/// Most vertices of a random obstacle.
pub const SHAPE_MAX_VERTICES: i64 = 6;

/// Smallest radius of a random obstacle.
pub const RADIUS_MIN: i64 = 100_000;

/// The radius of a random obstacle stays below this.
pub const RADIUS_END: i64 = 200_000;

/// The turn of a random obstacle is drawn in this many steps.
pub const PHASE_STEPS: i64 = 1_000_000;

/// Calls `Rng::gen_range` of the `rand` crate on the half-open range from
/// `low` to `high`. The crate samples a value of the range, of which
/// nothing more is known; it panics on an empty range, which `requires`
/// rules out.
#[verifier::external_body]
fn random_in_range(rng: &mut ThreadRng, low: i64, high: i64) -> (drawn: i64)
    requires
        low < high,
    ensures
        low <= drawn < high,
{
    rng.gen_range(low..high)
}

/// `p` lies within the map.
pub open spec fn on_map(p: Point) -> bool {
    &&& -MAP_HALF_WIDTH <= p.x < MAP_HALF_WIDTH
    &&& -MAP_HALF_HEIGHT <= p.y < MAP_HALF_HEIGHT
}

/// Draws points on the map until one lies outside every obstacle, for at
/// most `max_attempts` draws; on a clear map the first draw always serves.
pub fn pick_point(map: &Vec<Polygon>, rng: &mut ThreadRng, max_attempts: u32) -> (picked: Option<
    Point,
>)
    requires
        all_wf(map@),
    ensures
        picked matches Some(p) ==> on_map(p) && p.in_bounds() && outside_all(p, map@),
        max_attempts == 0 ==> picked is None,
        max_attempts > 0 && map_is_clear(map@) ==> picked is Some,
{
    let mut attempts: u32 = 0;
    while attempts < max_attempts
        invariant
            attempts <= max_attempts,
            all_wf(map@),
            map_is_clear(map@) ==> attempts == 0,
        decreases max_attempts - attempts,
    {
        let x = random_in_range(rng, -MAP_HALF_WIDTH, MAP_HALF_WIDTH);
        let y = random_in_range(rng, -MAP_HALF_HEIGHT, MAP_HALF_HEIGHT);
        assert(on_map(Point { x, y }));
        match free_point_at(x, y, map) {
            Some(point) => {
                return Some(point);
            },
            None => {},
        }
        attempts += 1;
    }
    None
}

/// The numbers that chance contributes to one obstacle: how many vertices
/// it has, how far they lie from its centre, how far the first vertex is
/// turned (in steps of one `PHASE_STEPS`-th of the angle between two
/// vertices), and where the centre is.
#[derive(Clone, Copy, Debug, PartialEq, Eq, Structural)]
pub struct ShapePlan {
    pub vertices: usize,
    pub radius: i64,
    pub phase: i64,
    pub center: Point,
}

impl ShapePlan {
    /// Every number of the plan lies in its range.
    pub open spec fn wf(self) -> bool {
        &&& SHAPE_MIN_VERTICES <= self.vertices <= SHAPE_MAX_VERTICES
        &&& RADIUS_MIN <= self.radius < RADIUS_END
        &&& 0 <= self.phase < PHASE_STEPS
        &&& on_map(self.center)
    }

    /// Draws a plan.
    pub fn draw(rng: &mut ThreadRng) -> (plan: ShapePlan)
        ensures
            plan.wf(),
    {
        let vertices = random_in_range(rng, SHAPE_MIN_VERTICES, SHAPE_MAX_VERTICES + 1);
        let radius = random_in_range(rng, RADIUS_MIN, RADIUS_END);
        let phase = random_in_range(rng, 0, PHASE_STEPS);
        let x = random_in_range(rng, -MAP_HALF_WIDTH, MAP_HALF_WIDTH);
        let y = random_in_range(rng, -MAP_HALF_HEIGHT, MAP_HALF_HEIGHT);
        ShapePlan { vertices: vertices as usize, radius, phase, center: Point { x, y } }
    }

    /// Whether `p` can be a vertex of the planned obstacle: it lies no
    /// farther from the centre than the radius, along either axis.
    pub open spec fn reaches(self, p: Point) -> bool {
        &&& self.center.x - self.radius <= p.x <= self.center.x + self.radius
        &&& self.center.y - self.radius <= p.y <= self.center.y + self.radius
    }

    /// Every one of `vertices` can be a vertex of the planned obstacle.
    pub open spec fn fits(self, vertices: Seq<Point>) -> bool {
        &&& vertices.len() == self.vertices
        &&& forall|i: int| 0 <= i < vertices.len() ==> self.reaches(#[trigger] vertices[i])
    }

    /// The obstacle through `vertices`, or `None` when they are not as
    /// many as planned or one lies farther out than planned.
    pub fn build(&self, vertices: &Vec<Point>) -> (made: Option<Polygon>)
        requires
            self.wf(),
        ensures
            made is Some <==> self.fits(vertices@),
            made matches Some(p) ==> p.wf() && p@ == loop_through(vertices@)
                && SHAPE_MIN_VERTICES <= p@.len() <= SHAPE_MAX_VERTICES,
    {
        if vertices.len() != self.vertices {
            return None;
        }
        let mut i: usize = 0;
        while i < vertices.len()
            invariant
                0 <= i <= vertices@.len(),
                self.wf(),
                forall|k: int| 0 <= k < i ==> self.reaches(#[trigger] vertices@[k]),
            decreases vertices@.len() - i,
        {
            let p = &vertices[i];
            let inside = self.center.x - self.radius <= p.x && p.x <= self.center.x
                + self.radius && self.center.y - self.radius <= p.y && p.y <= self.center.y
                + self.radius;
            if !inside {
                return None;
            }
            i += 1;
        }
        assert(all_in_bounds(vertices@)) by {
            assert forall|k: int| 0 <= k < vertices@.len() implies (
            #[trigger] vertices@[k]).in_bounds() by {
                assert(self.reaches(vertices@[k]));
            }
        }
        Polygon::from_vertices(vertices)
    }
}

/// Sets an agent and a goal down among the obstacles `map`: draws a free
/// point for the agent and then one for the goal, each within
/// `max_attempts` draws, and builds the scene around them.
///
/// Where the points land is left to chance. On a map that no obstacle
/// reaches both are found as soon as one draw each is allowed.
pub fn init(map: &Vec<Polygon>, rng: &mut ThreadRng, max_attempts: u32) -> (made: Option<
    Navigator,
>)
    requires
        all_wf(map@),
    ensures
        made matches Some(agent) ==> {
            &&& placed(agent, map@, agent.position(), agent.scene().goal())
            &&& on_map(agent.position())
            &&& on_map(agent.scene().goal())
            &&& outside_all(agent.position(), map@)
            &&& outside_all(agent.scene().goal(), map@)
        },
        max_attempts == 0 ==> made is None,
        max_attempts > 0 && map_is_clear(map@) ==> made is Some,
{
    let agent_pos = match pick_point(map, rng, max_attempts) {
        Some(p) => p,
        None => {
            return None;
        },
    };
    let goal_pos = match pick_point(map, rng, max_attempts) {
        Some(p) => p,
        None => {
            return None;
        },
    };
    place(map, agent_pos, goal_pos)
}

/// No point of the map lies inside an obstacle.
pub open spec fn map_is_clear(map: Seq<Polygon>) -> bool {
    forall|p: Point| #[trigger] on_map(p) ==> outside_all(p, map)
}

/// A map without obstacles is clear.
pub proof fn lemma_empty_map_is_clear(map: Seq<Polygon>)
    requires
        map.len() == 0,
    ensures
        map_is_clear(map),
{
}

/// What becomes of a draw: the point with the drawn coordinates if it lies
/// on the map and outside every obstacle, and nothing otherwise.
pub fn free_point_at(x: i64, y: i64, map: &Vec<Polygon>) -> (point: Option<Point>)
    requires
        all_wf(map@),
    ensures
        point == if on_map(Point { x, y }) && outside_all(Point { x, y }, map@) {
            Some(Point { x, y })
        } else {
            None::<Point>
        },
{
    let drawn = Point { x, y };
    let within = -MAP_HALF_WIDTH <= x && x < MAP_HALF_WIDTH && -MAP_HALF_HEIGHT <= y && y
        < MAP_HALF_HEIGHT;
    if within && is_free_point(&drawn, map) {
        Some(drawn)
    } else {
        None
    }
}

/// `agent` stands at `agent_pos`, where it set out, in open space, in the
/// scene of the obstacles `map` with its goal at `goal_pos`.
pub open spec fn placed(
    agent: Navigator,
    map: Seq<Polygon>,
    agent_pos: Point,
    goal_pos: Point,
) -> bool {
    &&& agent.wf()
    &&& agent.scene().segments() == edges_of(map, map.len() as int)
    &&& agent.scene().goal() == goal_pos
    &&& agent.position() == agent_pos
    &&& agent.start() == agent_pos
    &&& agent.walls() is None
}

/// Builds the scene of the obstacles `map` with its goal at `goal_pos` and
/// sets an agent down at `agent_pos`; `None` when either point lies off
/// the grid.
pub fn place(map: &Vec<Polygon>, agent_pos: Point, goal_pos: Point) -> (made: Option<Navigator>)
    requires
        all_wf(map@),
    ensures
        made is Some <==> agent_pos.in_bounds() && goal_pos.in_bounds(),
        made matches Some(agent) ==> placed(agent, map@, agent_pos, goal_pos),
{
    match Scene::new(map, goal_pos) {
        Some(scene) => Navigator::new(scene, agent_pos),
        None => None,
    }
}

} // verus!
