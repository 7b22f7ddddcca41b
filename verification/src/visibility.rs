//! What an agent can see from where it stands.
//!
//! A look toward a point resolves to the nearest place where the line of
//! sight meets an obstacle edge. Only a look that resolves at a vertex (or,
//! unobstructed, at the goal) yields a place to walk to. Edges that run
//! parallel to the line of sight cannot block it; their ends are offered
//! separately when they lie nearer than the place the look resolved to.

use vstd::prelude::*;
use crate::crossing::{
    crossing_of, intersect, lemma_crossing_solves, meets, parallel, Crossing, Segment,
    CROSS_LIMIT,
};
use crate::fraction::{fraction_less, fraction_lt};
use crate::geometry::{
    cross, cross_product, dist_sq, distance_squared, lemma_norm_sq_bound, lemma_product_bound,
    norm_squared, Point, Vector,
};
use crate::polygon::all_in_bounds;
use crate::scene::Scene;

verus! {

/// `ray` points strictly into the wedge of less than half a turn that lies
/// between `a` and `b`.
pub open spec fn strictly_between(a: Vector, b: Vector, ray: Vector) -> bool {
    ||| cross(a, b) > 0 && cross(a, ray) > 0 && cross(ray, b) > 0
    ||| cross(a, b) < 0 && cross(a, ray) < 0 && cross(ray, b) < 0
}

/// The two edge directions that leave the vertex between the standing
/// walls `(leaving, arriving)`: along the first wall, and back along the
/// second.
pub open spec fn wall_directions(segments: Seq<Segment>, walls: (usize, usize)) -> (
    Vector,
    Vector,
) {
    (segments[walls.0 as int].direction, segments[walls.1 as int].direction.reversed())
}

/// Whether an agent standing between `walls` may look along `ray`.
///
/// The two walls leave the agent's vertex in two directions. The wedge of
/// less than half a turn between them is the obstacle's own body; a ray
/// strictly inside it is illegal. Every other ray is legal, the two wall
/// directions included. Without walls, or with walls that name no segment,
/// every ray is legal.
pub open spec fn legal_ray(
    segments: Seq<Segment>,
    walls: Option<(usize, usize)>,
    ray: Vector,
) -> bool {
    match walls {
        Some(pair) => pair.0 < segments.len() && pair.1 < segments.len() ==> {
            let (first, second) = wall_directions(segments, pair);
            !strictly_between(first, second, ray)
        },
        None => true,
    }
}

/// Every segment is well formed.
pub open spec fn segments_wf(segments: Seq<Segment>) -> bool {
    forall|i: int| 0 <= i < segments.len() ==> (#[trigger] segments[i]).wf()
}

/// Decides `legal_ray`.
pub fn is_legal_ray(segments: &Vec<Segment>, walls: Option<(usize, usize)>, ray: &Vector) -> (legal:
    bool)
    requires
        segments_wf(segments@),
        ray.in_bounds(),
    ensures
        legal == legal_ray(segments@, walls, *ray),
{
    match walls {
        Some((leaving, arriving)) => {
            if leaving >= segments.len() || arriving >= segments.len() {
                return true;
            }
            assert(segments@[leaving as int].wf());
            assert(segments@[arriving as int].wf());
            let first = segments[leaving].direction;
            let second = segments[arriving].direction.reverse();
            let turn = cross_product(&first, &second);
            let left = cross_product(&first, ray);
            let right = cross_product(ray, &second);
            !(turn > 0 && left > 0 && right > 0 || turn < 0 && left < 0 && right < 0)
        },
        None => true,
    }
}

/// The crossing of the ray with segment `k`, for a `k` whose segment is not
/// parallel to the ray.
pub open spec fn crossing_at(
    segments: Seq<Segment>,
    agent: Point,
    ray: Vector,
    k: int,
) -> Crossing {
    crossing_of(agent, ray, segments[k]).unwrap()
}

/// Segment `k` stops the ray: the ray meets it strictly ahead of the agent.
/// A `seeded` look already resolves at the ray's tip, so only segments met
/// no later than the tip count.
pub open spec fn hit(
    segments: Seq<Segment>,
    agent: Point,
    ray: Vector,
    seeded: bool,
    k: int,
) -> bool {
    &&& 0 <= k < segments.len()
    &&& crossing_of(agent, ray, segments[k]) matches Some(c)
    &&& c.ahead()
    &&& c.on_segment()
    &&& seeded ==> c.within_ray()
}

/// Among the first `n` segments, `w` is the one that stops the ray first;
/// of several that stop it at the same place, the last one.
pub open spec fn nearest_among(
    segments: Seq<Segment>,
    agent: Point,
    ray: Vector,
    seeded: bool,
    n: int,
    w: int,
) -> bool {
    &&& w < n
    &&& hit(segments, agent, ray, seeded, w)
    &&& forall|j: int|
        j < n && #[trigger] hit(segments, agent, ray, seeded, j) ==> if j <= w {
            crossing_at(segments, agent, ray, w).no_farther_than(
                crossing_at(segments, agent, ray, j),
            )
        } else {
            crossing_at(segments, agent, ray, w).nearer_than(crossing_at(segments, agent, ray, j))
        }
}

/// Of all segments, `w` is the one that stops the ray first.
pub open spec fn nearest(
    segments: Seq<Segment>,
    agent: Point,
    ray: Vector,
    seeded: bool,
    w: int,
) -> bool {
    nearest_among(segments, agent, ray, seeded, segments.len() as int, w)
}

/// "No farther than" carries over from crossing to crossing.
pub proof fn lemma_no_farther_chain(x: Crossing, y: Crossing, z: Crossing)
    requires
        x.scale > 0,
        y.scale > 0,
        z.scale > 0,
        x.no_farther_than(y),
    ensures
        y.no_farther_than(z) ==> x.no_farther_than(z),
        y.nearer_than(z) ==> x.nearer_than(z),
{
    let xa = x.along_ray as int;
    let xs = x.scale as int;
    let ya = y.along_ray as int;
    let ys = y.scale as int;
    let za = z.along_ray as int;
    let zs = z.scale as int;
    assert((xa * ys) * zs <= (ya * xs) * zs) by (nonlinear_arith)
        requires
            xa * ys <= ya * xs,
            zs > 0,
    ;
    if y.no_farther_than(z) {
        assert((ya * zs) * xs <= (za * ys) * xs) by (nonlinear_arith)
            requires
                ya * zs <= za * ys,
                xs > 0,
        ;
        assert(xa * zs <= za * xs) by (nonlinear_arith)
            requires
                (xa * ys) * zs <= (ya * xs) * zs,
                (ya * zs) * xs <= (za * ys) * xs,
                ys > 0,
        ;
    }
    if y.nearer_than(z) {
        assert((ya * zs) * xs < (za * ys) * xs) by (nonlinear_arith)
            requires
                ya * zs < za * ys,
                xs > 0,
        ;
        assert(xa * zs < za * xs) by (nonlinear_arith)
            requires
                (xa * ys) * zs <= (ya * xs) * zs,
                (ya * zs) * xs < (za * ys) * xs,
                ys > 0,
        ;
    }
}

/// At most one segment is the nearest.
pub proof fn lemma_nearest_unique(
    segments: Seq<Segment>,
    agent: Point,
    ray: Vector,
    seeded: bool,
    v: int,
    w: int,
)
    requires
        nearest(segments, agent, ray, seeded, v),
        nearest(segments, agent, ray, seeded, w),
    ensures
        v == w,
{
}

/// Finds the segment that stops the ray first, with its crossing.
pub fn nearest_hit(segments: &Vec<Segment>, agent: &Point, ray: &Vector, seeded: bool) -> (found:
    Option<(usize, Crossing)>)
    requires
        segments_wf(segments@),
        agent.in_bounds(),
        ray.in_bounds(),
    ensures
        match found {
            Some((w, c)) => nearest(segments@, *agent, *ray, seeded, w as int) && c
                == crossing_at(segments@, *agent, *ray, w as int) && c.wf(),
            None => forall|j: int| !hit(segments@, *agent, *ray, seeded, j),
        },
{
    let mut best: Option<(usize, Crossing)> = None;
    let mut k: usize = 0;
    while k < segments.len()
        invariant
            0 <= k <= segments@.len(),
            segments_wf(segments@),
            agent.in_bounds(),
            ray.in_bounds(),
            match best {
                Some((w, c)) => nearest_among(segments@, *agent, *ray, seeded, k as int, w as int)
                    && c == crossing_at(segments@, *agent, *ray, w as int) && c.wf(),
                None => forall|j: int| j < k ==> !hit(segments@, *agent, *ray, seeded, j),
            },
        decreases segments@.len() - k,
    {
        assert(segments@[k as int].wf());
        let stops: Option<Crossing> = match intersect(agent, ray, &segments[k]) {
            Some(c) => if c.is_ahead() && c.is_on_segment() && (!seeded || c.is_within_ray()) {
                Some(c)
            } else {
                None
            },
            None => None,
        };
        assert(stops is Some <==> hit(segments@, *agent, *ray, seeded, k as int));
        match stops {
            Some(c) => {
                let takes_over = match best {
                    Some((_, b)) => c.is_no_farther_than(&b),
                    None => true,
                };
                if takes_over {
                    proof {
                        assert forall|j: int|
                            j < k + 1 && #[trigger] hit(
                                segments@,
                                *agent,
                                *ray,
                                seeded,
                                j,
                            ) implies crossing_at(
                            segments@,
                            *agent,
                            *ray,
                            k as int,
                        ).no_farther_than(crossing_at(segments@, *agent, *ray, j)) by {
                            if j < k {
                                let (w, b) = best.unwrap();
                                assert(segments@[j].wf());
                                lemma_crossing_solves(*agent, *ray, segments@[j]);
                                lemma_no_farther_chain(
                                    c,
                                    b,
                                    crossing_at(segments@, *agent, *ray, j),
                                );
                            }
                        }
                    }
                    best = Some((k, c));
                }
            },
            None => {},
        }
        k += 1;
    }
    best
}

/// Where a look resolved: at `along_ray / scale` ray lengths from the agent,
/// and at which vertex, if at one.
#[derive(Clone, Copy, Debug, PartialEq, Eq, Structural)]
pub struct Sighting {
    pub along_ray: i64,
    pub scale: i64,
    pub vertex: Option<Point>,
}

impl Sighting {
    /// Both numbers of the fraction are positive and within `CROSS_LIMIT`,
    /// and the vertex, if any, lies on the grid.
    pub open spec fn wf(self) -> bool {
        &&& 0 < self.along_ray <= CROSS_LIMIT
        &&& 0 < self.scale <= CROSS_LIMIT
        &&& self.vertex matches Some(v) ==> v.in_bounds()
    }
}

/// The end of `segment` that a crossing lies at, if it lies at one.
pub open spec fn vertex_at(segment: Segment, c: Crossing) -> Option<Point> {
    if c.along_segment == 0 {
        Some(segment.origin)
    } else if c.along_segment == c.scale {
        Some(segment.target)
    } else {
        None
    }
}

/// The sighting that segment `w` gives when it is the one to stop the ray.
pub open spec fn sighting_by(
    segments: Seq<Segment>,
    agent: Point,
    ray: Vector,
    w: int,
) -> Sighting {
    let c = crossing_at(segments, agent, ray, w);
    Sighting { along_ray: c.along_ray, scale: c.scale, vertex: vertex_at(segments[w], c) }
}

/// Where a look from `agent` toward `target` resolves.
///
/// It resolves where the nearest segment stops it. A `seeded` look, one
/// toward the goal, resolves at the goal itself unless a segment stops it
/// there or earlier. An unseeded look that nothing stops does not resolve.
pub open spec fn sighting(
    segments: Seq<Segment>,
    agent: Point,
    target: Point,
    seeded: bool,
) -> Option<Sighting> {
    let ray = target.minus(agent);
    if exists|w: int| nearest(segments, agent, ray, seeded, w) {
        let w = choose|w: int| nearest(segments, agent, ray, seeded, w);
        Some(sighting_by(segments, agent, ray, w))
    } else if seeded {
        Some(Sighting { along_ray: 1, scale: 1, vertex: Some(target) })
    } else {
        None
    }
}

/// Computes `sighting`.
pub fn resolve(segments: &Vec<Segment>, agent: &Point, target: &Point, seeded: bool) -> (seen:
    Option<Sighting>)
    requires
        segments_wf(segments@),
        agent.in_bounds(),
        target.in_bounds(),
    ensures
        seen == sighting(segments@, *agent, *target, seeded),
        seen matches Some(s) ==> s.wf(),
{
    let ray = target.displacement_from(agent);
    match nearest_hit(segments, agent, &ray, seeded) {
        Some((w, c)) => {
            proof {
                let chosen = choose|v: int| nearest(segments@, *agent, ray, seeded, v);
                lemma_nearest_unique(segments@, *agent, ray, seeded, chosen, w as int);
                assert(segments@[w as int].wf());
            }
            let segment = &segments[w];
            let vertex = if c.along_segment == 0 {
                Some(segment.origin)
            } else if c.along_segment == c.scale {
                Some(segment.target)
            } else {
                None
            };
            Some(Sighting { along_ray: c.along_ray, scale: c.scale, vertex })
        },
        None => {
            if seeded {
                Some(Sighting { along_ray: 1, scale: 1, vertex: Some(*target) })
            } else {
                None
            }
        },
    }
}

/// `e` lies strictly nearer to the agent than the place the look along
/// `ray` resolved to.
pub open spec fn closer_than(agent: Point, e: Point, ray: Vector, s: Sighting) -> bool {
    fraction_lt(dist_sq(agent, e), ray.norm_sq(), s.along_ray * s.along_ray, s.scale * s.scale)
}

/// Whether the end `e` of an edge parallel to the line of sight is offered:
/// it is not where the agent stands, and it lies nearer than the place the
/// look resolved to, if the look resolved at all.
pub open spec fn admits(agent: Point, ray: Vector, limit: Option<Sighting>, e: Point) -> bool {
    e != agent && match limit {
        Some(s) => closer_than(agent, e, ray, s),
        None => true,
    }
}

/// Decides `admits`.
pub fn is_admitted(agent: &Point, ray: &Vector, limit: &Option<Sighting>, e: &Point) -> (ok: bool)
    requires
        agent.in_bounds(),
        e.in_bounds(),
        ray.in_bounds(),
        !ray.is_zero(),
        limit matches Some(s) ==> s.wf(),
    ensures
        ok == admits(*agent, *ray, *limit, *e),
{
    if e.x == agent.x && e.y == agent.y {
        return false;
    }
    match limit {
        Some(s) => {
            proof {
                lemma_norm_sq_bound(*ray);
                lemma_product_bound(
                    s.along_ray as int,
                    s.along_ray as int,
                    CROSS_LIMIT as int,
                    CROSS_LIMIT as int,
                );
                lemma_product_bound(
                    s.scale as int,
                    s.scale as int,
                    CROSS_LIMIT as int,
                    CROSS_LIMIT as int,
                );
                assert(s.scale * s.scale > 0) by (nonlinear_arith)
                    requires
                        s.scale > 0,
                ;
                assert(s.along_ray * s.along_ray > 0) by (nonlinear_arith)
                    requires
                        s.along_ray > 0,
                ;
            }
            let away: u128 = distance_squared(agent, e) as u128;
            let length: u128 = norm_squared(ray) as u128;
            let reach: u128 = (s.along_ray as u128) * (s.along_ray as u128);
            let unit: u128 = (s.scale as u128) * (s.scale as u128);
            fraction_less(away, length, reach, unit)
        },
        None => true,
    }
}

/// `acc` with `e` added at the end unless it is already there.
pub open spec fn push_new(acc: Seq<Point>, e: Point) -> Seq<Point> {
    if acc.contains(e) {
        acc
    } else {
        acc.push(e)
    }
}

/// `acc` with `e` added if `wanted` and new.
pub open spec fn offer(acc: Seq<Point>, wanted: bool, e: Point) -> Seq<Point> {
    if wanted {
        push_new(acc, e)
    } else {
        acc
    }
}

/// `acc` after the ends of those of the first `n` segments that are
/// parallel to `ray` have been offered: of each such segment first the
/// target, then the origin.
pub open spec fn with_deferred(
    segments: Seq<Segment>,
    agent: Point,
    ray: Vector,
    limit: Option<Sighting>,
    acc: Seq<Point>,
    n: int,
) -> Seq<Point>
    decreases n,
{
    if n <= 0 {
        acc
    } else {
        let before = with_deferred(segments, agent, ray, limit, acc, n - 1);
        let segment = segments[n - 1];
        if parallel(ray, segment) {
            let with_target = offer(
                before,
                admits(agent, ray, limit, segment.target),
                segment.target,
            );
            offer(with_target, admits(agent, ray, limit, segment.origin), segment.origin)
        } else {
            before
        }
    }
}

/// What one look from `agent` toward `target` adds to the points seen so
/// far.
///
/// Nothing, when `target` is where the agent stands or the ray toward it is
/// illegal. Otherwise the admitted ends of the edges parallel to the ray,
/// and then the vertex at which the look resolved, if it resolved at one.
pub open spec fn look_toward(
    segments: Seq<Segment>,
    goal: Point,
    agent: Point,
    walls: Option<(usize, usize)>,
    target: Point,
    acc: Seq<Point>,
) -> Seq<Point> {
    let ray = target.minus(agent);
    if target == agent || !legal_ray(segments, walls, ray) {
        acc
    } else {
        let limit = sighting(segments, agent, target, target == goal);
        let offered = with_deferred(segments, agent, ray, limit, acc, segments.len() as int);
        match limit {
            Some(s) => match s.vertex {
                Some(v) => push_new(offered, v),
                None => offered,
            },
            None => offered,
        }
    }
}

/// Whether `list` holds `p`.
pub fn contains_point(list: &Vec<Point>, p: &Point) -> (found: bool)
    ensures
        found == list@.contains(*p),
{
    let mut i: usize = 0;
    while i < list.len()
        invariant
            0 <= i <= list@.len(),
            forall|k: int| 0 <= k < i ==> list@[k] != *p,
        decreases list@.len() - i,
    {
        if list[i].x == p.x && list[i].y == p.y {
            return true;
        }
        i += 1;
    }
    false
}

/// Adds `p` to `list` unless it is already there.
pub fn push_new_point(list: &mut Vec<Point>, p: Point)
    ensures
        final(list)@ == push_new(old(list)@, p),
{
    if !contains_point(list, &p) {
        list.push(p);
    }
}

/// Offers the ends of every edge parallel to `ray`.
pub fn offer_deferred(
    segments: &Vec<Segment>,
    agent: &Point,
    ray: &Vector,
    limit: &Option<Sighting>,
    result: &mut Vec<Point>,
)
    requires
        segments_wf(segments@),
        agent.in_bounds(),
        ray.in_bounds(),
        !ray.is_zero(),
        limit matches Some(s) ==> s.wf(),
    ensures
        final(result)@ == with_deferred(
            segments@,
            *agent,
            *ray,
            *limit,
            old(result)@,
            segments@.len() as int,
        ),
{
    let ghost start = result@;
    let mut k: usize = 0;
    while k < segments.len()
        invariant
            0 <= k <= segments@.len(),
            segments_wf(segments@),
            agent.in_bounds(),
            ray.in_bounds(),
            !ray.is_zero(),
            limit matches Some(s) ==> s.wf(),
            result@ == with_deferred(segments@, *agent, *ray, *limit, start, k as int),
        decreases segments@.len() - k,
    {
        assert(segments@[k as int].wf());
        let segment = &segments[k];
        if intersect(agent, ray, segment).is_none() {
            if is_admitted(agent, ray, limit, &segment.target) {
                push_new_point(result, segment.target);
            }
            if is_admitted(agent, ray, limit, &segment.origin) {
                push_new_point(result, segment.origin);
            }
        }
        k += 1;
    }
}

/// Looks from `agent` toward `point` and adds what that look shows to
/// `result`.
pub fn find_closest_point(
    segments: &Vec<Segment>,
    goal: &Point,
    agent: &Point,
    walls: Option<(usize, usize)>,
    point: &Point,
    result: &mut Vec<Point>,
)
    requires
        segments_wf(segments@),
        goal.in_bounds(),
        agent.in_bounds(),
        point.in_bounds(),
    ensures
        final(result)@ == look_toward(segments@, *goal, *agent, walls, *point, old(result)@),
{
    if point.x == agent.x && point.y == agent.y {
        return ;
    }
    let ray = point.displacement_from(agent);
    if !is_legal_ray(segments, walls, &ray) {
        return ;
    }
    let seeded = point.x == goal.x && point.y == goal.y;
    let limit = resolve(segments, agent, point, seeded);
    offer_deferred(segments, agent, &ray, &limit, result);
    match limit {
        Some(s) => match s.vertex {
            Some(v) => {
                push_new_point(result, v);
            },
            None => {},
        },
        None => {},
    }
}

/// The `k`-th point an agent looks toward: first the goal, then the origin
/// of every segment in order.
pub open spec fn candidate(segments: Seq<Segment>, goal: Point, k: int) -> Point {
    if k == 0 {
        goal
    } else {
        segments[k - 1].origin
    }
}

/// The points seen after looking toward the first `n` candidates.
pub open spec fn seen_after(
    segments: Seq<Segment>,
    goal: Point,
    agent: Point,
    walls: Option<(usize, usize)>,
    n: int,
) -> Seq<Point>
    decreases n,
{
    if n <= 0 {
        Seq::empty()
    } else {
        look_toward(
            segments,
            goal,
            agent,
            walls,
            candidate(segments, goal, n - 1),
            seen_after(segments, goal, agent, walls, n - 1),
        )
    }
}

/// Everything an agent at `agent` between `walls` can walk to in one
/// straight move, in the order in which it comes into view.
pub open spec fn visible(
    segments: Seq<Segment>,
    goal: Point,
    agent: Point,
    walls: Option<(usize, usize)>,
) -> Seq<Point> {
    seen_after(segments, goal, agent, walls, segments.len() as int + 1)
}

/// Computes `visible` for a scene.
pub fn visible_points(agent: &Point, walls: Option<(usize, usize)>, scene: &Scene) -> (seen: Vec<
    Point,
>)
    requires
        scene.wf(),
        agent.in_bounds(),
    ensures
        seen@ == visible(scene.segments(), scene.goal(), *agent, walls),
        tidy(seen@, *agent),
        at_landmarks(seen@, scene.segments(), scene.goal()),
{
    proof {
        lemma_seen_at_landmarks(
            scene.segments(),
            scene.goal(),
            *agent,
            walls,
            scene.segments().len() as int + 1,
        );
        lemma_seen_tidy(
            scene.segments(),
            scene.goal(),
            *agent,
            walls,
            scene.segments().len() as int + 1,
        );
    }
    let segments = scene.get_segments();
    let goal = scene.get_goal();
    let mut seen: Vec<Point> = Vec::new();
    find_closest_point(segments, &goal, agent, walls, &goal, &mut seen);
    assert(seen@ == seen_after(segments@, goal, *agent, walls, 1)) by {
        assert(seen_after(segments@, goal, *agent, walls, 0) =~= Seq::<Point>::empty());
        assert(candidate(segments@, goal, 0) == goal);
    }
    let mut k: usize = 0;
    while k < segments.len()
        invariant
            0 <= k <= segments@.len(),
            segments@ == scene.segments(),
            goal == scene.goal(),
            scene.wf(),
            agent.in_bounds(),
            seen@ == seen_after(segments@, goal, *agent, walls, k + 1),
        decreases segments@.len() - k,
    {
        assert(segments@[k as int].wf());
        let origin = segments[k].origin;
        find_closest_point(segments, &goal, agent, walls, &origin, &mut seen);
        k += 1;
    }
    seen
}

/// A list of seen points is tidy when no point occurs twice, every point
/// lies on the grid and none is where the agent stands.
pub open spec fn tidy(acc: Seq<Point>, agent: Point) -> bool {
    &&& acc.no_duplicates()
    &&& all_in_bounds(acc)
    &&& !acc.contains(agent)
}

/// Adding a grid point other than the agent's keeps a list tidy.
pub proof fn lemma_push_new_tidy(acc: Seq<Point>, e: Point, agent: Point)
    requires
        tidy(acc, agent),
        e.in_bounds(),
        e != agent,
    ensures
        tidy(push_new(acc, e), agent),
{
}

/// Offering the ends of parallel edges keeps a list tidy.
pub proof fn lemma_with_deferred_tidy(
    segments: Seq<Segment>,
    agent: Point,
    ray: Vector,
    limit: Option<Sighting>,
    acc: Seq<Point>,
    n: int,
)
    requires
        segments_wf(segments),
        n <= segments.len(),
        tidy(acc, agent),
    ensures
        tidy(with_deferred(segments, agent, ray, limit, acc, n), agent),
    decreases n,
{
    if n > 0 {
        lemma_with_deferred_tidy(segments, agent, ray, limit, acc, n - 1);
        let before = with_deferred(segments, agent, ray, limit, acc, n - 1);
        let segment = segments[n - 1];
        assert(segment.wf());
        if parallel(ray, segment) {
            if admits(agent, ray, limit, segment.target) {
                lemma_push_new_tidy(before, segment.target, agent);
            }
            let with_target = offer(
                before,
                admits(agent, ray, limit, segment.target),
                segment.target,
            );
            if admits(agent, ray, limit, segment.origin) {
                lemma_push_new_tidy(with_target, segment.origin, agent);
            }
        }
    }
}

/// A crossing strictly ahead of the agent does not lie where the agent
/// stands.
pub proof fn lemma_vertex_ahead(agent: Point, ray: Vector, segment: Segment)
    requires
        agent.in_bounds(),
        ray.in_bounds(),
        segment.wf(),
        crossing_of(agent, ray, segment) matches Some(c) && c.ahead(),
    ensures
        vertex_at(segment, crossing_of(agent, ray, segment).unwrap()) matches Some(v)
            ==> v.in_bounds() && v != agent,
{
    lemma_crossing_solves(agent, ray, segment);
    let c = crossing_of(agent, ray, segment).unwrap();
    let along = c.along_ray as int;
    let scale = c.scale as int;
    let rx = ray.dx as int;
    let ry = ray.dy as int;
    assert(!(rx == 0 && ry == 0)) by {
        if rx == 0 && ry == 0 {
            assert(cross(segment.direction, ray) == 0) by (nonlinear_arith)
                requires
                    ray.dx == 0,
                    ray.dy == 0,
            ;
        }
    }
    if c.along_segment == 0 {
        assert(c.along_segment * segment.direction.dx == 0 && c.along_segment
            * segment.direction.dy == 0) by (nonlinear_arith)
            requires
                c.along_segment == 0,
        ;
        if segment.origin == agent {
            assert(rx == 0 && ry == 0) by (nonlinear_arith)
                requires
                    along > 0,
                    along * rx == 0,
                    along * ry == 0,
            ;
        }
    } else if c.along_segment == c.scale {
        let ox = segment.origin.x as int;
        let oy = segment.origin.y as int;
        let dx = segment.direction.dx as int;
        let dy = segment.direction.dy as int;
        assert(scale * ox + scale * dx == scale * (ox + dx) && scale * oy + scale * dy == scale * (
        oy + dy)) by (nonlinear_arith);
        if segment.target == agent {
            assert(rx == 0 && ry == 0) by (nonlinear_arith)
                requires
                    along > 0,
                    along * rx == 0,
                    along * ry == 0,
            ;
        }
    }
}

/// One look keeps the list of seen points tidy.
pub proof fn lemma_look_toward_tidy(
    segments: Seq<Segment>,
    goal: Point,
    agent: Point,
    walls: Option<(usize, usize)>,
    target: Point,
    acc: Seq<Point>,
)
    requires
        segments_wf(segments),
        agent.in_bounds(),
        target.in_bounds(),
        tidy(acc, agent),
    ensures
        tidy(look_toward(segments, goal, agent, walls, target, acc), agent),
{
    let ray = target.minus(agent);
    if target != agent && legal_ray(segments, walls, ray) {
        let seeded = target == goal;
        let limit = sighting(segments, agent, target, seeded);
        let offered = with_deferred(segments, agent, ray, limit, acc, segments.len() as int);
        lemma_with_deferred_tidy(segments, agent, ray, limit, acc, segments.len() as int);
        if exists|w: int| nearest(segments, agent, ray, seeded, w) {
            let w = choose|w: int| nearest(segments, agent, ray, seeded, w);
            assert(segments[w].wf());
            lemma_vertex_ahead(agent, ray, segments[w]);
            if limit.unwrap().vertex is Some {
                lemma_push_new_tidy(offered, limit.unwrap().vertex.unwrap(), agent);
            }
        } else if seeded {
            lemma_push_new_tidy(offered, target, agent);
        }
    }
}

/// Whatever is seen is tidy: no point twice, every point on the grid, and
/// never the place where the agent stands.
pub proof fn lemma_seen_tidy(
    segments: Seq<Segment>,
    goal: Point,
    agent: Point,
    walls: Option<(usize, usize)>,
    n: int,
)
    requires
        segments_wf(segments),
        goal.in_bounds(),
        agent.in_bounds(),
        n <= segments.len() + 1,
    ensures
        tidy(seen_after(segments, goal, agent, walls, n), agent),
    decreases n,
{
    if n > 0 {
        lemma_seen_tidy(segments, goal, agent, walls, n - 1);
        if n > 1 {
            assert(segments[n - 2].wf());
        }
        lemma_look_toward_tidy(
            segments,
            goal,
            agent,
            walls,
            candidate(segments, goal, n - 1),
            seen_after(segments, goal, agent, walls, n - 1),
        );
    }
}

/// Without obstacles an agent sees the goal and nothing else, and not even
/// the goal when it stands on it.
pub proof fn lemma_open_field_view(goal: Point, agent: Point, walls: Option<(usize, usize)>)
    ensures
        visible(Seq::empty(), goal, agent, walls) == if agent == goal {
            Seq::<Point>::empty()
        } else {
            seq![goal]
        },
{
    let segments = Seq::<Segment>::empty();
    let none = Seq::<Point>::empty();
    assert(seen_after(segments, goal, agent, walls, 0) =~= none);
    assert(candidate(segments, goal, 0) == goal);
    assert(visible(segments, goal, agent, walls) == look_toward(
        segments,
        goal,
        agent,
        walls,
        goal,
        none,
    ));
    if agent != goal {
        let ray = goal.minus(agent);
        assert(legal_ray(segments, walls, ray));
        assert(forall|w: int| !nearest(segments, agent, ray, true, w));
        let limit = sighting(segments, agent, goal, true);
        assert(limit == Some(Sighting { along_ray: 1, scale: 1, vertex: Some(goal) }));
        assert(with_deferred(segments, agent, ray, limit, none, 0) =~= none);
        assert(push_new(none, goal) =~= seq![goal]);
    }
}

/// An agent on a vertex may look exactly along either of its two walls.
pub proof fn lemma_wall_directions_legal(segments: Seq<Segment>, walls: (usize, usize))
    ensures
        legal_ray(segments, Some(walls), wall_directions(segments, walls).0),
        legal_ray(segments, Some(walls), wall_directions(segments, walls).1),
{
    let (first, second) = wall_directions(segments, walls);
    assert(cross(first, first) == 0) by (nonlinear_arith);
    assert(cross(second, second) == 0) by (nonlinear_arith);
}

/// `p` is a place an agent can walk to: the goal, or an end of a segment.
pub open spec fn landmark(segments: Seq<Segment>, goal: Point, p: Point) -> bool {
    p == goal || exists|k: int| meets(segments, p, k)
}

/// Every point of `acc` is the goal or an end of a segment.
pub open spec fn at_landmarks(acc: Seq<Point>, segments: Seq<Segment>, goal: Point) -> bool {
    forall|i: int| 0 <= i < acc.len() ==> landmark(segments, goal, #[trigger] acc[i])
}

/// Offering the ends of parallel edges adds nothing but ends of segments.
pub proof fn lemma_with_deferred_at_landmarks(
    segments: Seq<Segment>,
    goal: Point,
    agent: Point,
    ray: Vector,
    limit: Option<Sighting>,
    acc: Seq<Point>,
    n: int,
)
    requires
        n <= segments.len(),
        at_landmarks(acc, segments, goal),
    ensures
        at_landmarks(with_deferred(segments, agent, ray, limit, acc, n), segments, goal),
    decreases n,
{
    if n > 0 {
        lemma_with_deferred_at_landmarks(segments, goal, agent, ray, limit, acc, n - 1);
        let segment = segments[n - 1];
        assert(meets(segments, segment.target, n - 1));
        assert(meets(segments, segment.origin, n - 1));
    }
}

/// One look adds nothing but the goal and ends of segments: a look never
/// resolves in the middle of an edge.
pub proof fn lemma_look_toward_at_landmarks(
    segments: Seq<Segment>,
    goal: Point,
    agent: Point,
    walls: Option<(usize, usize)>,
    target: Point,
    acc: Seq<Point>,
)
    requires
        at_landmarks(acc, segments, goal),
    ensures
        at_landmarks(look_toward(segments, goal, agent, walls, target, acc), segments, goal),
{
    let ray = target.minus(agent);
    if target != agent && legal_ray(segments, walls, ray) {
        let seeded = target == goal;
        let limit = sighting(segments, agent, target, seeded);
        lemma_with_deferred_at_landmarks(
            segments,
            goal,
            agent,
            ray,
            limit,
            acc,
            segments.len() as int,
        );
        if exists|w: int| nearest(segments, agent, ray, seeded, w) {
            let w = choose|w: int| nearest(segments, agent, ray, seeded, w);
            assert(meets(segments, segments[w].origin, w));
            assert(meets(segments, segments[w].target, w));
        }
    }
}

/// Whatever is seen is the goal or a vertex.
pub proof fn lemma_seen_at_landmarks(
    segments: Seq<Segment>,
    goal: Point,
    agent: Point,
    walls: Option<(usize, usize)>,
    n: int,
)
    ensures
        at_landmarks(seen_after(segments, goal, agent, walls, n), segments, goal),
    decreases n,
{
    if n > 0 {
        lemma_seen_at_landmarks(segments, goal, agent, walls, n - 1);
        lemma_look_toward_at_landmarks(
            segments,
            goal,
            agent,
            walls,
            candidate(segments, goal, n - 1),
            seen_after(segments, goal, agent, walls, n - 1),
        );
    }
}

} // verus!
