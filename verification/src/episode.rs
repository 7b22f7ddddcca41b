//! Whole episodes: an agent walks until it reaches the goal or gives up.

use vstd::prelude::*;
use vstd::seq_lib::seq_to_set_is_finite;
use vstd::set_lib::lemma_len_subset;
use crate::crossing::{meets, Segment};
use crate::geometry::{dist, lemma_dist_bound, lemma_dist_sq_bound, Point, DIST_MAX};
use crate::navigation::{at_goal, standing_walls, Navigator};
use crate::search::{
    backed_up, first_best, hill_choice, hill_climbing_search, lowest, lrta_choice, ltra, seeded,
    CostTable, SearchError,
};
use crate::visibility::{
    at_landmarks, contains_point, landmark, lemma_open_field_view, lemma_seen_at_landmarks,
    visible,
};

verus! {

/// What reaching the goal adds to the score.
pub const COMPLETION_BONUS: i128 = 1_000_000;

/// How an episode went.
#[derive(Debug)]
pub struct Episode {
    /// Every point the agent stood at, the start first.
    pub path: Vec<Point>,
    /// The completion bonus, if the goal was reached, less the length of
    /// the path.
    pub score: i128,
    /// Why the agent gave up, or `None` when it reached the goal.
    pub failure: Option<SearchError>,
}

/// The length of a path: the sum of the distances between neighbours.
pub open spec fn walked(path: Seq<Point>) -> int
    decreases path.len(),
{
    if path.len() < 2 {
        0
    } else {
        walked(path.drop_last()) + dist(path[path.len() - 2], path[path.len() - 1])
    }
}

/// The score of an episode with this path and this ending.
pub open spec fn score_of(path: Seq<Point>, failure: Option<SearchError>) -> int {
    if failure is None {
        COMPLETION_BONUS - walked(path)
    } else {
        -walked(path)
    }
}

/// The moves of a hill-climbing agent and the way they end.
///
/// The agent stands at `position` between `walls`, has already chosen the
/// points in `remembered`, and may take `fuel` more steps. Each step goes
/// to the greedy choice among the visible points. The run ends at the goal,
/// or when the choice is a point chosen before, or when nothing is
/// visible, or when the steps run out.
pub open spec fn hill_run(
    segments: Seq<Segment>,
    goal: Point,
    position: Point,
    walls: Option<(usize, usize)>,
    remembered: Seq<Point>,
    fuel: nat,
) -> (Seq<Point>, Option<SearchError>)
    decreases fuel,
{
    if fuel == 0 {
        (Seq::empty(), Some(SearchError::StepLimit))
    } else {
        match hill_choice(visible(segments, goal, position, walls), position, goal) {
            None => (Seq::empty(), Some(SearchError::Unreachable)),
            Some(target) => if remembered.contains(target) {
                (Seq::empty(), Some(SearchError::Stuck))
            } else if at_goal(target, goal) {
                (seq![target], None)
            } else {
                let rest = hill_run(
                    segments,
                    goal,
                    target,
                    standing_walls(segments, target),
                    remembered.push(target),
                    (fuel - 1) as nat,
                );
                (seq![target] + rest.0, rest.1)
            },
        }
    }
}

/// The moves of a learning agent and the way they end.
///
/// The agent stands at `position` between `walls`, has learned `table`,
/// and may take `fuel` more steps. Each step seeds the table for the
/// visible points, goes to the one with the lowest estimate and backs the
/// estimate for the place it leaves up. The run ends at the goal, or when
/// nothing is visible, or when the steps run out.
pub open spec fn lrta_run(
    segments: Seq<Segment>,
    goal: Point,
    position: Point,
    walls: Option<(usize, usize)>,
    table: Map<Point, u64>,
    fuel: nat,
) -> (Seq<Point>, Option<SearchError>)
    decreases fuel,
{
    let children = visible(segments, goal, position, walls);
    if fuel == 0 {
        (Seq::empty(), Some(SearchError::StepLimit))
    } else if children.len() == 0 {
        (Seq::empty(), Some(SearchError::Unreachable))
    } else {
        let learned = seeded(table, children, position, goal);
        let target = lrta_choice(learned, children);
        if at_goal(target, goal) {
            (seq![target], None)
        } else {
            let rest = lrta_run(
                segments,
                goal,
                target,
                standing_walls(segments, target),
                backed_up(learned, position, target),
                (fuel - 1) as nat,
            );
            (seq![target] + rest.0, rest.1)
        }
    }
}

/// Walking on to one more point adds the distance to it.
pub proof fn lemma_walked_push(path: Seq<Point>, next: Point)
    requires
        path.len() > 0,
    ensures
        walked(path.push(next)) == walked(path) + dist(path.last(), next),
{
    let longer = path.push(next);
    assert(longer.drop_last() =~= path);
}

/// Runs greedy hill climbing from where the agent stands, for at most
/// `max_steps` steps.
pub fn hill_climbing_algorithm(map: &mut Navigator, max_steps: u32) -> (episode: Episode)
    requires
        old(map).wf(),
    ensures
        final(map).wf(),
        final(map).scene() == old(map).scene(),
        final(map).start() == old(map).start(),
        ({
            let run = hill_run(
                old(map).scene().segments(),
                old(map).scene().goal(),
                old(map).position(),
                old(map).walls(),
                Seq::empty(),
                max_steps as nat,
            );
            &&& episode.path@ == seq![old(map).position()] + run.0
            &&& episode.failure == run.1
        }),
        episode.score == score_of(episode.path@, episode.failure),
        final(map).position() == episode.path@.last(),
{
    let ghost segments = map.scene().segments();
    let ghost goal = map.scene().goal();
    let ghost whole = hill_run(
        segments,
        goal,
        map.position(),
        map.walls(),
        Seq::empty(),
        max_steps as nat,
    );
    let ghost first = map.position();
    let ghost scene = map.scene();
    let ghost start = map.start();
    let mut score: i128 = 0;
    let mut path: Vec<Point> = Vec::new();
    path.push(map.get_agent_pos());
    let mut remember: Vec<Point> = Vec::new();
    let mut steps: u32 = 0;
    let ghost mut done: Seq<Point> = Seq::empty();
    assert(path@ =~= seq![first] + done);
    loop
        invariant
            map.wf(),
            map.scene() == scene,
            map.start() == start,
            scene == old(map).scene(),
            start == old(map).start(),
            first == old(map).position(),
            whole == hill_run(
                segments,
                goal,
                first,
                old(map).walls(),
                Seq::empty(),
                max_steps as nat,
            ),
            scene.segments() == segments,
            scene.goal() == goal,
            steps <= max_steps,
            path@ == seq![first] + done,
            map.position() == path@.last(),
            score == -walked(path@),
            -(steps * DIST_MAX) <= score <= 0,
            ({
                let rest = hill_run(
                    segments,
                    goal,
                    map.position(),
                    map.walls(),
                    remember@,
                    (max_steps - steps) as nat,
                );
                whole == (done + rest.0, rest.1)
            }),
        decreases max_steps - steps,
    {
        if steps == max_steps {
            assert(done + Seq::<Point>::empty() =~= done);
            return Episode { path, score, failure: Some(SearchError::StepLimit) };
        }
        let position = map.get_agent_pos();
        let goal_pos = map.get_goal_pos();
        let children = map.get_agent_view();
        let target = match hill_climbing_search(&children, &position, &goal_pos) {
            Some(target) => target,
            None => {
                assert(done + Seq::<Point>::empty() =~= done);
                return Episode { path, score, failure: Some(SearchError::Unreachable) };
            },
        };
        if contains_point(&remember, &target) {
            assert(done + Seq::<Point>::empty() =~= done);
            return Episode { path, score, failure: Some(SearchError::Stuck) };
        }
        remember.push(target);
        proof {
            lemma_walked_push(path@, target);
            lemma_dist_bound(position, target);
        }
        let step = map.move_agent(target);
        score = score - step as i128;
        path.push(target);
        steps = steps + 1;
        proof {
            assert(steps * DIST_MAX == (steps - 1) * DIST_MAX + DIST_MAX) by (nonlinear_arith);
            let ghost before = done;
            done = done.push(target);
            assert(path@ =~= seq![first] + done);
            let rest = hill_run(
                segments,
                goal,
                map.position(),
                map.walls(),
                remember@,
                (max_steps - steps) as nat,
            );
            if !at_goal(target, goal) {
                assert(before + (seq![target] + rest.0) =~= done + rest.0);
            } else {
                assert(before + seq![target] =~= done);
            }
        }
        if map.reached_goal() {
            score = score + COMPLETION_BONUS;
            return Episode { path, score, failure: None };
        }
    }
}

/// Runs the learning search from where the agent stands, with an empty
/// cost table, for at most `max_steps` steps.
pub fn ltra_algorithm(map: &mut Navigator, max_steps: u32) -> (episode: Episode)
    requires
        old(map).wf(),
    ensures
        final(map).wf(),
        final(map).scene() == old(map).scene(),
        final(map).start() == old(map).start(),
        ({
            let run = lrta_run(
                old(map).scene().segments(),
                old(map).scene().goal(),
                old(map).position(),
                old(map).walls(),
                Map::empty(),
                max_steps as nat,
            );
            &&& episode.path@ == seq![old(map).position()] + run.0
            &&& episode.failure == run.1
        }),
        episode.score == score_of(episode.path@, episode.failure),
        final(map).position() == episode.path@.last(),
{
    let ghost segments = map.scene().segments();
    let ghost goal = map.scene().goal();
    let ghost whole = lrta_run(
        segments,
        goal,
        map.position(),
        map.walls(),
        Map::empty(),
        max_steps as nat,
    );
    let ghost first = map.position();
    let ghost scene = map.scene();
    let ghost start = map.start();
    let mut cost_table = CostTable::new();
    let mut score: i128 = 0;
    let mut path: Vec<Point> = Vec::new();
    path.push(map.get_agent_pos());
    let mut steps: u32 = 0;
    let ghost mut done: Seq<Point> = Seq::empty();
    assert(path@ =~= seq![first] + done);
    loop
        invariant
            map.wf(),
            map.scene() == scene,
            map.start() == start,
            scene == old(map).scene(),
            start == old(map).start(),
            first == old(map).position(),
            whole == lrta_run(
                segments,
                goal,
                first,
                old(map).walls(),
                Map::empty(),
                max_steps as nat,
            ),
            scene.segments() == segments,
            scene.goal() == goal,
            steps <= max_steps,
            cost_table.wf(),
            cost_table.backups() == steps,
            path@ == seq![first] + done,
            map.position() == path@.last(),
            score == -walked(path@),
            -(steps * DIST_MAX) <= score <= 0,
            ({
                let rest = lrta_run(
                    segments,
                    goal,
                    map.position(),
                    map.walls(),
                    cost_table@,
                    (max_steps - steps) as nat,
                );
                whole == (done + rest.0, rest.1)
            }),
        decreases max_steps - steps,
    {
        if steps == max_steps {
            assert(done + Seq::<Point>::empty() =~= done);
            return Episode { path, score, failure: Some(SearchError::StepLimit) };
        }
        let position = map.get_agent_pos();
        let goal_pos = map.get_goal_pos();
        let children = map.get_agent_view();
        let target = match ltra(&children, &position, &goal_pos, &mut cost_table) {
            Ok(target) => target,
            Err(_) => {
                assert(done + Seq::<Point>::empty() =~= done);
                return Episode { path, score, failure: Some(SearchError::Unreachable) };
            },
        };
        proof {
            lemma_walked_push(path@, target);
            lemma_dist_bound(position, target);
        }
        let step = map.move_agent(target);
        score = score - step as i128;
        path.push(target);
        steps = steps + 1;
        proof {
            assert(steps * DIST_MAX == (steps - 1) * DIST_MAX + DIST_MAX) by (nonlinear_arith);
            let ghost before = done;
            done = done.push(target);
            assert(path@ =~= seq![first] + done);
            let rest = lrta_run(
                segments,
                goal,
                map.position(),
                map.walls(),
                cost_table@,
                (max_steps - steps) as nat,
            );
            if !at_goal(target, goal) {
                assert(before + (seq![target] + rest.0) =~= done + rest.0);
            } else {
                assert(before + seq![target] =~= done);
            }
        }
        if map.reached_goal() {
            score = score + COMPLETION_BONUS;
            return Episode { path, score, failure: None };
        }
    }
}

/// Hill climbing that swings between two points gives up at the third
/// step.
///
/// From where it stands the agent chooses `b`, from `b` it chooses `a`,
/// and from `a` it chooses `b` again; neither is at the goal. Then the
/// agent walks to `b` and to `a` and no farther, and the run ends as
/// stuck, provided it was allowed three steps.
pub proof fn lemma_oscillation_stuck(
    segments: Seq<Segment>,
    goal: Point,
    position: Point,
    walls: Option<(usize, usize)>,
    a: Point,
    b: Point,
    fuel: nat,
)
    requires
        fuel >= 3,
        a != b,
        !at_goal(a, goal),
        !at_goal(b, goal),
        hill_choice(visible(segments, goal, position, walls), position, goal) == Some(b),
        hill_choice(visible(segments, goal, b, standing_walls(segments, b)), b, goal) == Some(a),
        hill_choice(visible(segments, goal, a, standing_walls(segments, a)), a, goal) == Some(b),
    ensures
        hill_run(segments, goal, position, walls, Seq::empty(), fuel) == (
            seq![b, a],
            Some(SearchError::Stuck),
        ),
{
    let none = Seq::<Point>::empty();
    let third = hill_run(
        segments,
        goal,
        a,
        standing_walls(segments, a),
        none.push(b).push(a),
        (fuel - 2) as nat,
    );
    assert(none.push(b).push(a)[0] == b);
    assert(none.push(b).push(a).contains(b));
    assert(third == (none, Some(SearchError::Stuck)));
    let second = hill_run(
        segments,
        goal,
        b,
        standing_walls(segments, b),
        none.push(b),
        (fuel - 1) as nat,
    );
    assert(!none.push(b).contains(a));
    assert(second == (seq![a] + third.0, third.1));
    assert(seq![a] + none =~= seq![a]);
    let first = hill_run(segments, goal, position, walls, none, fuel);
    assert(!none.contains(b));
    assert(first == (seq![b] + second.0, second.1));
    assert(seq![b] + seq![a] =~= seq![b, a]);
}

/// A run of hill climbing never walks to the same point twice: every
/// point it walks to is new among those chosen before.
pub proof fn lemma_hill_run_fresh(
    segments: Seq<Segment>,
    goal: Point,
    position: Point,
    walls: Option<(usize, usize)>,
    remembered: Seq<Point>,
    fuel: nat,
)
    ensures
        ({
            let moves = hill_run(segments, goal, position, walls, remembered, fuel).0;
            &&& moves.len() <= fuel
            &&& moves.no_duplicates()
            &&& forall|i: int| 0 <= i < moves.len() ==> !remembered.contains(#[trigger] moves[i])
        }),
    decreases fuel,
{
    if fuel > 0 {
        match hill_choice(visible(segments, goal, position, walls), position, goal) {
            None => {},
            Some(target) => {
                if !remembered.contains(target) && !at_goal(target, goal) {
                    let longer = remembered.push(target);
                    lemma_hill_run_fresh(
                        segments,
                        goal,
                        target,
                        standing_walls(segments, target),
                        longer,
                        (fuel - 1) as nat,
                    );
                    let rest = hill_run(
                        segments,
                        goal,
                        target,
                        standing_walls(segments, target),
                        longer,
                        (fuel - 1) as nat,
                    ).0;
                    let moves = seq![target] + rest;
                    assert(longer[remembered.len() as int] == target);
                    assert(longer.contains(target));
                    assert forall|i: int| 0 <= i < moves.len() implies !remembered.contains(
                        #[trigger] moves[i],
                    ) by {
                        if i > 0 {
                            assert(moves[i] == rest[i - 1]);
                            if remembered.contains(rest[i - 1]) {
                                let k = choose|k: int|
                                    0 <= k < remembered.len() && remembered[k] == rest[i - 1];
                                assert(longer[k] == rest[i - 1]);
                                assert(longer.contains(rest[i - 1]));
                            }
                        }
                    }
                    assert forall|i: int, j: int|
                        0 <= i < moves.len() && 0 <= j < moves.len() && i != j implies moves[i]
                        != moves[j] by {
                        if i > 0 && j > 0 {
                            assert(moves[i] == rest[i - 1] && moves[j] == rest[j - 1]);
                        } else if i == 0 {
                            assert(moves[j] == rest[j - 1]);
                            assert(!longer.contains(rest[j - 1]));
                        } else {
                            assert(moves[i] == rest[i - 1]);
                            assert(!longer.contains(rest[i - 1]));
                        }
                    }
                }
            },
        }
    }
}

/// Without obstacles both strategies walk straight to the goal.
///
/// An agent that does not stand on the goal and may take at least one
/// step makes exactly one move, to the goal, and scores the completion
/// bonus less the distance from start to goal.
pub proof fn lemma_open_field_run(
    goal: Point,
    position: Point,
    walls: Option<(usize, usize)>,
    fuel: nat,
)
    requires
        fuel >= 1,
        position != goal,
        position.in_bounds(),
        goal.in_bounds(),
    ensures
        hill_run(Seq::empty(), goal, position, walls, Seq::empty(), fuel) == (
            seq![goal],
            None::<SearchError>,
        ),
        lrta_run(Seq::empty(), goal, position, walls, Map::empty(), fuel) == (
            seq![goal],
            None::<SearchError>,
        ),
        score_of(seq![position, goal], None) == COMPLETION_BONUS - dist(position, goal),
{
    let segments = Seq::<Segment>::empty();
    let children = visible(segments, goal, position, walls);
    lemma_open_field_view(goal, position, walls);
    assert(children == seq![goal]);
    assert(children[0] == goal);
    lemma_dist_sq_bound(goal, goal);
    assert(at_goal(goal, goal));
    assert(first_best(children, position, goal, 0));
    let picked = choose|b: int| first_best(children, position, goal, b);
    assert(picked == 0);
    assert(hill_choice(children, position, goal) == Some(goal));
    assert(!Seq::<Point>::empty().contains(goal));
    let learned = seeded(Map::empty(), children, position, goal);
    assert(lowest(learned, children, 0));
    let low = choose|b: int| lowest(learned, children, b);
    assert(low == 0);
    assert(lrta_choice(learned, children) == goal);
    let path = seq![position, goal];
    assert(path.drop_last() =~= seq![position]);
    assert(walked(seq![position]) == 0);
    assert(walked(path) == walked(path.drop_last()) + dist(path[0], path[1]));
}

/// The places an agent can ever walk to: the goal and both ends of every
/// segment.
pub open spec fn landmarks(segments: Seq<Segment>, goal: Point) -> Seq<Point> {
    seq![goal] + Seq::new(segments.len(), |k: int| segments[k].origin) + Seq::new(
        segments.len(),
        |k: int| segments[k].target,
    )
}

/// The list of landmarks holds every landmark.
pub proof fn lemma_landmarks_hold(segments: Seq<Segment>, goal: Point, p: Point)
    requires
        landmark(segments, goal, p),
    ensures
        landmarks(segments, goal).contains(p),
        landmarks(segments, goal).len() == 2 * segments.len() + 1,
{
    let all = landmarks(segments, goal);
    let n = segments.len() as int;
    if p == goal {
        assert(all[0] == p);
    } else {
        let k = choose|k: int| meets(segments, p, k);
        if segments[k].origin == p {
            assert(all[1 + k] == p);
        } else {
            assert(all[1 + n + k] == p);
        }
    }
}

/// Hill climbing walks to nothing but the goal and vertices.
pub proof fn lemma_hill_run_at_landmarks(
    segments: Seq<Segment>,
    goal: Point,
    position: Point,
    walls: Option<(usize, usize)>,
    remembered: Seq<Point>,
    fuel: nat,
)
    ensures
        at_landmarks(
            hill_run(segments, goal, position, walls, remembered, fuel).0,
            segments,
            goal,
        ),
    decreases fuel,
{
    if fuel > 0 {
        let children = visible(segments, goal, position, walls);
        lemma_seen_at_landmarks(segments, goal, position, walls, segments.len() as int + 1);
        match hill_choice(children, position, goal) {
            None => {},
            Some(target) => {
                let b = choose|b: int| first_best(children, position, goal, b);
                assert(target == children[b]);
                assert(landmark(segments, goal, target));
                if !remembered.contains(target) && !at_goal(target, goal) {
                    lemma_hill_run_at_landmarks(
                        segments,
                        goal,
                        target,
                        standing_walls(segments, target),
                        remembered.push(target),
                        (fuel - 1) as nat,
                    );
                }
            },
        }
    }
}

/// A run that ends because the steps ran out has used every one of them.
pub proof fn lemma_step_limit_uses_all_steps(
    segments: Seq<Segment>,
    goal: Point,
    position: Point,
    walls: Option<(usize, usize)>,
    remembered: Seq<Point>,
    fuel: nat,
)
    ensures
        ({
            let run = hill_run(segments, goal, position, walls, remembered, fuel);
            run.1 == Some(SearchError::StepLimit) ==> run.0.len() == fuel
        }),
    decreases fuel,
{
    if fuel > 0 {
        match hill_choice(visible(segments, goal, position, walls), position, goal) {
            None => {},
            Some(target) => {
                if !remembered.contains(target) && !at_goal(target, goal) {
                    lemma_step_limit_uses_all_steps(
                        segments,
                        goal,
                        target,
                        standing_walls(segments, target),
                        remembered.push(target),
                        (fuel - 1) as nat,
                    );
                }
            },
        }
    }
}

/// Hill climbing ends by itself.
///
/// An agent that is allowed more steps than there are landmarks (the goal
/// and two ends for every segment) never runs out of steps: it reaches the
/// goal, gets stuck or sees nothing.
pub proof fn lemma_hill_climbing_ends(
    segments: Seq<Segment>,
    goal: Point,
    position: Point,
    walls: Option<(usize, usize)>,
    fuel: nat,
)
    requires
        fuel > 2 * segments.len() + 1,
    ensures
        hill_run(segments, goal, position, walls, Seq::empty(), fuel).1 != Some(
            SearchError::StepLimit,
        ),
{
    let run = hill_run(segments, goal, position, walls, Seq::empty(), fuel);
    let moves = run.0;
    let all = landmarks(segments, goal);
    lemma_hill_run_fresh(segments, goal, position, walls, Seq::empty(), fuel);
    lemma_hill_run_at_landmarks(segments, goal, position, walls, Seq::empty(), fuel);
    lemma_step_limit_uses_all_steps(segments, goal, position, walls, Seq::empty(), fuel);
    assert(all.len() == 2 * segments.len() + 1);
    assert forall|p: Point| moves.to_set().contains(p) implies all.to_set().contains(p) by {
        let i = choose|i: int| 0 <= i < moves.len() && moves[i] == p;
        assert(landmark(segments, goal, moves[i]));
        lemma_landmarks_hold(segments, goal, p);
    }
    seq_to_set_is_finite(all);
    lemma_len_subset(moves.to_set(), all.to_set());
    moves.unique_seq_to_set();
    all.lemma_cardinality_of_set();
}

} // verus!
