//! The two strategies that pick the next point to walk to.

use std::collections::HashMap;
use vstd::prelude::*;
use crate::geometry::{dist, distance, lemma_dist_bound, Point, COORD_LIMIT, DIST_MAX};
use crate::polygon::all_in_bounds;

verus! {

broadcast use vstd::std_specs::hash::group_hash_axioms;

/// Why a search gave up.
#[derive(Clone, Copy, Debug, PartialEq, Eq, Structural)]
pub enum SearchError {
    /// Hill climbing chose a point it had chosen before.
    Stuck,
    /// Nothing can be seen from where the agent stands.
    Unreachable,
    /// The episode used up the steps it was allowed.
    StepLimit,
}

/// How promising it looks to walk from `current` to `p`: the length of that
/// walk plus twice what is then left to the goal.
pub open spec fn heuristic(current: Point, p: Point, goal: Point) -> int {
    dist(current, p) + 2 * dist(p, goal)
}

/// No heuristic value is greater than this.
pub const HEURISTIC_MAX: u64 = 8_485_281_372;

/// Computes `heuristic`.
pub fn estimate(current: &Point, p: &Point, goal: &Point) -> (f: u64)
    requires
        current.in_bounds(),
        p.in_bounds(),
        goal.in_bounds(),
    ensures
        f == heuristic(*current, *p, *goal),
        f <= HEURISTIC_MAX,
{
    distance(current, p) + 2 * distance(p, goal)
}

/// Child `i` may be chosen: it is not where the agent stands.
pub open spec fn eligible(children: Seq<Point>, current: Point, i: int) -> bool {
    0 <= i < children.len() && children[i] != current
}

/// Child `b` is the eligible child with the lowest heuristic value, and the
/// first of those.
pub open spec fn first_best(children: Seq<Point>, current: Point, goal: Point, b: int) -> bool {
    &&& eligible(children, current, b)
    &&& forall|j: int| #[trigger]
        eligible(children, current, j) ==> if j < b {
            heuristic(current, children[b], goal) < heuristic(current, children[j], goal)
        } else {
            heuristic(current, children[b], goal) <= heuristic(current, children[j], goal)
        }
}

/// The point hill climbing walks to next, if any child is eligible.
pub open spec fn hill_choice(children: Seq<Point>, current: Point, goal: Point) -> Option<Point> {
    if exists|b: int| first_best(children, current, goal, b) {
        Some(children[choose|b: int| first_best(children, current, goal, b)])
    } else {
        None
    }
}

/// Greedy choice: the child with the lowest heuristic value, the first of
/// several equally good ones; `None` when there is no child other than the
/// place where the agent stands.
pub fn hill_climbing_search(children: &Vec<Point>, curr_pos: &Point, goal_pos: &Point) -> (choice:
    Option<Point>)
    requires
        all_in_bounds(children@),
        curr_pos.in_bounds(),
        goal_pos.in_bounds(),
    ensures
        choice == hill_choice(children@, *curr_pos, *goal_pos),
        choice matches Some(c) ==> children@.contains(c) && c != *curr_pos,
        choice is None <==> forall|j: int| !eligible(children@, *curr_pos, j),
{
    let mut best: Option<(usize, u64)> = None;
    let mut i: usize = 0;
    while i < children.len()
        invariant
            0 <= i <= children@.len(),
            all_in_bounds(children@),
            curr_pos.in_bounds(),
            goal_pos.in_bounds(),
            match best {
                Some((b, f)) => b < i && eligible(children@, *curr_pos, b as int) && f
                    == heuristic(*curr_pos, children@[b as int], *goal_pos) && forall|j: int|
                    j < i && #[trigger] eligible(children@, *curr_pos, j) ==> if j < b {
                        f < heuristic(*curr_pos, children@[j], *goal_pos)
                    } else {
                        f <= heuristic(*curr_pos, children@[j], *goal_pos)
                    },
                None => forall|j: int| j < i ==> !eligible(children@, *curr_pos, j),
            },
        decreases children@.len() - i,
    {
        let child = &children[i];
        assert(children@[i as int].in_bounds());
        if !(child.x == curr_pos.x && child.y == curr_pos.y) {
            let f = estimate(curr_pos, child, goal_pos);
            let better = match best {
                Some((_, lowest)) => f < lowest,
                None => true,
            };
            if better {
                best = Some((i, f));
            }
        }
        i += 1;
    }
    match best {
        Some((b, _)) => {
            proof {
                assert(first_best(children@, *curr_pos, *goal_pos, b as int));
                let chosen = choose|c: int| first_best(children@, *curr_pos, *goal_pos, c);
                lemma_first_best_unique(children@, *curr_pos, *goal_pos, chosen, b as int);
            }
            Some(children[b])
        },
        None => None,
    }
}

/// At most one child is the first best.
pub proof fn lemma_first_best_unique(
    children: Seq<Point>,
    current: Point,
    goal: Point,
    a: int,
    b: int,
)
    requires
        first_best(children, current, goal, a),
        first_best(children, current, goal, b),
    ensures
        a == b,
{
}

/// Number of keys per row of the grid.
pub const KEY_WIDTH: u64 = 2_000_000_001;

/// The number under which a grid point is filed in the cost table.
pub open spec fn key_of(p: Point) -> int {
    (p.x + COORD_LIMIT) * KEY_WIDTH + (p.y + COORD_LIMIT)
}

/// Different grid points are filed under different numbers.
pub proof fn lemma_key_injective(p: Point, q: Point)
    requires
        p.in_bounds(),
        q.in_bounds(),
        key_of(p) == key_of(q),
    ensures
        p == q,
{
    let a = p.x + COORD_LIMIT;
    let b = q.x + COORD_LIMIT;
    let w = KEY_WIDTH as int;
    assert(a == b) by (nonlinear_arith)
        requires
            a * w + (p.y + COORD_LIMIT) == b * w + (q.y + COORD_LIMIT),
            0 <= p.y + COORD_LIMIT < w,
            0 <= q.y + COORD_LIMIT < w,
            w > 0,
    {
        if a < b {
            assert(b * w >= a * w + w);
        } else if b < a {
            assert(a * w >= b * w + w);
        }
    }
}

/// The number under which a grid point is filed fits in a `u64`.
pub proof fn lemma_key_bound(p: Point)
    requires
        p.in_bounds(),
    ensures
        0 <= key_of(p) <= 4_000_000_004_000_000_000,
{
    let a = p.x + COORD_LIMIT;
    let w = KEY_WIDTH as int;
    assert(0 <= a * w <= 2_000_000_000 * w) by (nonlinear_arith)
        requires
            0 <= a <= 2_000_000_000,
            w > 0,
    ;
}

/// How often a cost table can take a backup.
pub const MAX_BACKUPS: u64 = 4_294_967_295;

/// Learned estimates of the cost to the goal, by grid point. Entries are
/// created on first sight and updated on every visit; none is ever removed.
#[derive(Debug)]
pub struct CostTable {
    entries: HashMap<u64, u64>,
    backups: u64,
}

impl CostTable {
    /// The estimates by point.
    pub closed spec fn view(&self) -> Map<Point, u64> {
        Map::new(
            |p: Point| p.in_bounds() && self.entries@.contains_key(key_of(p) as u64),
            |p: Point| self.entries@[key_of(p) as u64],
        )
    }

    /// How many backups the table has taken.
    pub closed spec fn backups(&self) -> nat {
        self.backups as nat
    }

    /// No estimate is greater than the greatest heuristic value plus the
    /// greatest distance once for every backup taken.
    pub open spec fn wf(&self) -> bool {
        &&& self.backups() <= MAX_BACKUPS
        &&& forall|p: Point| #[trigger]
            self@.contains_key(p) ==> p.in_bounds() && self@[p] <= HEURISTIC_MAX + self.backups()
                * DIST_MAX
    }

    /// The table can take one more backup.
    pub open spec fn has_headroom(&self) -> bool {
        self.backups() < MAX_BACKUPS
    }

    /// The empty table.
    pub fn new() -> (table: CostTable)
        ensures
            table.wf(),
            table@ == Map::<Point, u64>::empty(),
            table.backups() == 0,
    {
        let table = CostTable { entries: HashMap::new(), backups: 0 };
        assert(table@ =~= Map::<Point, u64>::empty());
        table
    }

    /// Whether one more backup can be taken.
    pub fn can_back_up(&self) -> (ok: bool)
        ensures
            ok == self.has_headroom(),
    {
        self.backups < MAX_BACKUPS
    }

    /// The estimate for `p`, if there is one.
    pub fn get(&self, p: &Point) -> (cost: Option<u64>)
        requires
            p.in_bounds(),
        ensures
            cost == if self@.contains_key(*p) {
                Some(self@[*p])
            } else {
                None::<u64>
            },
    {
        proof {
            lemma_key_bound(*p);
        }
        let key: u64 = ((p.x + COORD_LIMIT) as u64) * KEY_WIDTH + ((p.y + COORD_LIMIT) as u64);
        match self.entries.get(&key) {
            Some(v) => Some(*v),
            None => None,
        }
    }

    /// Sets the estimate for `p`.
    fn set(&mut self, p: &Point, cost: u64)
        requires
            p.in_bounds(),
        ensures
            final(self)@ == old(self)@.insert(*p, cost),
            final(self).backups() == old(self).backups(),
    {
        proof {
            lemma_key_bound(*p);
        }
        let key: u64 = ((p.x + COORD_LIMIT) as u64) * KEY_WIDTH + ((p.y + COORD_LIMIT) as u64);
        self.entries.insert(key, cost);
        proof {
            assert forall|q: Point| q.in_bounds() && q != *p implies key_of(q) as u64
                != key by {
                lemma_key_bound(q);
                if key_of(q) == key_of(*p) {
                    lemma_key_injective(q, *p);
                }
            }
            assert(self@ =~= old(self)@.insert(*p, cost));
        }
    }
}

/// `table` after every child without an estimate has been given its
/// heuristic value as seen from `current`.
pub open spec fn seeded(
    table: Map<Point, u64>,
    children: Seq<Point>,
    current: Point,
    goal: Point,
) -> Map<Point, u64> {
    Map::new(
        |p: Point| table.contains_key(p) || children.contains(p),
        |p: Point|
            if table.contains_key(p) {
                table[p]
            } else {
                heuristic(current, p, goal) as u64
            },
    )
}

/// Among the first `n` children, child `b` has the lowest estimate in
/// `table`, and is the first of those.
pub open spec fn lowest_among(
    table: Map<Point, u64>,
    children: Seq<Point>,
    n: int,
    b: int,
) -> bool {
    &&& 0 <= b < n
    &&& forall|j: int|
        0 <= j < n ==> if j < b {
            table[children[b]] < table[#[trigger] children[j]]
        } else {
            table[children[b]] <= table[children[j]]
        }
}

/// Child `b` has the lowest estimate of all children, and is the first of
/// those.
pub open spec fn lowest(table: Map<Point, u64>, children: Seq<Point>, b: int) -> bool {
    lowest_among(table, children, children.len() as int, b)
}

/// The child the learning search walks to: the one with the lowest
/// estimate, the first of several equally low ones.
pub open spec fn lrta_choice(table: Map<Point, u64>, children: Seq<Point>) -> Point {
    children[choose|b: int| lowest(table, children, b)]
}

/// `table` after the estimate for `current` has been replaced by that of
/// `chosen` plus the walk there.
pub open spec fn backed_up(table: Map<Point, u64>, current: Point, chosen: Point) -> Map<
    Point,
    u64,
> {
    table.insert(current, (table[chosen] + dist(current, chosen)) as u64)
}

/// At most one child is the first with the lowest estimate.
pub proof fn lemma_lowest_unique(table: Map<Point, u64>, children: Seq<Point>, a: int, b: int)
    requires
        lowest(table, children, a),
        lowest(table, children, b),
    ensures
        a == b,
{
    if a < b {
        assert(table[children[b]] < table[children[a]]);
        assert(table[children[a]] <= table[children[b]]);
    } else if b < a {
        assert(table[children[a]] < table[children[b]]);
        assert(table[children[b]] <= table[children[a]]);
    }
}

impl CostTable {
    /// The estimate for a point that has one.
    fn known(&self, p: &Point) -> (cost: u64)
        requires
            p.in_bounds(),
            self@.contains_key(*p),
        ensures
            cost == self@[*p],
    {
        match self.get(p) {
            Some(cost) => cost,
            None => 0,
        }
    }
}

/// One step of the learning search.
///
/// Gives every child that has no estimate yet its heuristic value, picks
/// the child with the lowest estimate, and backs the estimate for
/// `curr_pos` up to that of the chosen child plus the walk to it. Without
/// children there is nowhere to go: the table stays as it is.
pub fn ltra(
    children: &Vec<Point>,
    curr_pos: &Point,
    goal_pos: &Point,
    cost_table: &mut CostTable,
) -> (choice: Result<Point, SearchError>)
    requires
        all_in_bounds(children@),
        curr_pos.in_bounds(),
        goal_pos.in_bounds(),
        old(cost_table).wf(),
        old(cost_table).has_headroom(),
    ensures
        final(cost_table).wf(),
        children@.len() == 0 ==> choice == Err::<Point, SearchError>(SearchError::Unreachable)
            && final(cost_table)@ == old(cost_table)@ && final(cost_table).backups() == old(
            cost_table,
        ).backups(),
        children@.len() > 0 ==> {
            let learned = seeded(old(cost_table)@, children@, *curr_pos, *goal_pos);
            let chosen = lrta_choice(learned, children@);
            &&& choice == Ok::<Point, SearchError>(chosen)
            &&& children@.contains(chosen)
            &&& final(cost_table)@ == backed_up(learned, *curr_pos, chosen)
            &&& final(cost_table).backups() == old(cost_table).backups() + 1
        },
{
    let n = children.len();
    if n == 0 {
        return Err(SearchError::Unreachable);
    }
    let ghost before = cost_table@;
    let ghost taken = cost_table.backups();
    let mut i: usize = 0;
    while i < n
        invariant
            0 <= i <= n,
            n == children@.len(),
            all_in_bounds(children@),
            curr_pos.in_bounds(),
            goal_pos.in_bounds(),
            cost_table.wf(),
            cost_table.backups() == taken,
            taken < MAX_BACKUPS,
            cost_table@ == seeded(before, children@.take(i as int), *curr_pos, *goal_pos),
        decreases n - i,
    {
        let child = &children[i];
        assert(children@[i as int].in_bounds());
        let ghost so_far = cost_table@;
        if cost_table.get(child).is_none() {
            let f = estimate(curr_pos, child, goal_pos);
            cost_table.set(child, f);
        }
        proof {
            let shorter = children@.take(i as int);
            let longer = children@.take(i as int + 1);
            assert(longer =~= shorter.push(*child));
            assert forall|p: Point| longer.contains(p) <==> shorter.contains(p) || p
                == *child by {
                if shorter.contains(p) {
                    let k = choose|k: int| 0 <= k < shorter.len() && shorter[k] == p;
                    assert(longer[k] == p);
                }
                if p == *child {
                    assert(longer[i as int] == p);
                }
            }
            assert(cost_table@ =~= seeded(before, longer, *curr_pos, *goal_pos));
        }
        i += 1;
    }
    assert(children@.take(n as int) =~= children@);
    let ghost learned = cost_table@;
    assert(forall|j: int| 0 <= j < n ==> learned.contains_key(#[trigger] children@[j]));
    let mut best: usize = 0;
    assert(children@[0].in_bounds());
    let mut lowest_cost: u64 = cost_table.known(&children[0]);
    let mut j: usize = 1;
    while j < n
        invariant
            1 <= j <= n,
            n == children@.len(),
            all_in_bounds(children@),
            cost_table@ == learned,
            forall|k: int| 0 <= k < n ==> learned.contains_key(#[trigger] children@[k]),
            lowest_among(learned, children@, j as int, best as int),
            lowest_cost == learned[children@[best as int]],
        decreases n - j,
    {
        assert(children@[j as int].in_bounds());
        let cost = cost_table.known(&children[j]);
        if cost < lowest_cost {
            best = j;
            lowest_cost = cost;
        }
        j += 1;
    }
    let chosen = children[best];
    proof {
        assert(lowest(learned, children@, best as int));
        let picked = choose|b: int| lowest(learned, children@, b);
        lemma_lowest_unique(learned, children@, picked, best as int);
        assert(children@[best as int].in_bounds());
        lemma_dist_bound(*curr_pos, chosen);
        assert(learned.contains_key(chosen));
        assert(taken * DIST_MAX <= (MAX_BACKUPS - 1) * DIST_MAX) by (nonlinear_arith)
            requires
                taken <= MAX_BACKUPS - 1,
        ;
    }
    let walk = distance(curr_pos, &chosen);
    cost_table.backups = cost_table.backups + 1;
    cost_table.set(curr_pos, lowest_cost + walk);
    proof {
        assert((taken + 1) * DIST_MAX == taken * DIST_MAX + DIST_MAX) by (nonlinear_arith);
    }
    Ok(chosen)
}

/// The estimate that a step at `current` backs up when it finds `table`
/// and sees `children`.
pub open spec fn backup_value(
    table: Map<Point, u64>,
    children: Seq<Point>,
    current: Point,
    goal: Point,
) -> int {
    let learned = seeded(table, children, current, goal);
    let chosen = lrta_choice(learned, children);
    learned[chosen] + dist(current, chosen)
}

/// The lowest estimate among the children, once all have one.
pub open spec fn lowest_estimate(
    table: Map<Point, u64>,
    children: Seq<Point>,
    current: Point,
    goal: Point,
) -> int {
    let learned = seeded(table, children, current, goal);
    learned[lrta_choice(learned, children)] as int
}

/// The walk from `current` to the child that a step there chooses.
pub open spec fn chosen_walk(
    table: Map<Point, u64>,
    children: Seq<Point>,
    current: Point,
    goal: Point,
) -> int {
    dist(current, lrta_choice(seeded(table, children, current, goal), children))
}

/// Some child has the lowest estimate.
pub proof fn lemma_lowest_exists(table: Map<Point, u64>, children: Seq<Point>, n: int)
    requires
        0 < n <= children.len(),
    ensures
        exists|b: int| lowest_among(table, children, n, b),
    decreases n,
{
    if n == 1 {
        assert(lowest_among(table, children, 1, 0));
    } else {
        let m = n - 1;
        lemma_lowest_exists(table, children, m);
        let b = choose|b: int| lowest_among(table, children, m, b);
        if table[children[m]] < table[children[b]] {
            assert(lowest_among(table, children, n, m));
        } else {
            assert(lowest_among(table, children, n, b));
        }
    }
}

/// Learning never makes a revisited place look better than its children
/// allow.
///
/// An agent comes back to `current` and sees the same `children`. If no
/// child's estimate is lower in the `later` table than it was in the
/// `earlier` one, the lowest estimate among the children is no lower
/// either. If moreover the child chosen now is no nearer than the child
/// chosen then, the estimate backed up for `current` is no lower than the
/// one backed up then.
pub proof fn lemma_backup_monotone(
    earlier: Map<Point, u64>,
    later: Map<Point, u64>,
    children: Seq<Point>,
    current: Point,
    goal: Point,
)
    requires
        children.len() > 0,
        forall|i: int|
            0 <= i < children.len() ==> seeded(
                earlier,
                children,
                current,
                goal,
            )[#[trigger] children[i]] <= seeded(later, children, current, goal)[children[i]],
    ensures
        lowest_estimate(earlier, children, current, goal) <= lowest_estimate(
            later,
            children,
            current,
            goal,
        ),
        chosen_walk(earlier, children, current, goal) <= chosen_walk(
            later,
            children,
            current,
            goal,
        ) ==> backup_value(earlier, children, current, goal) <= backup_value(
            later,
            children,
            current,
            goal,
        ),
{
    let old_table = seeded(earlier, children, current, goal);
    let new_table = seeded(later, children, current, goal);
    let n = children.len() as int;
    lemma_lowest_exists(old_table, children, n);
    lemma_lowest_exists(new_table, children, n);
    let old_witness = choose|b: int| lowest_among(old_table, children, n, b);
    let new_witness = choose|b: int| lowest_among(new_table, children, n, b);
    assert(lowest(old_table, children, old_witness));
    assert(lowest(new_table, children, new_witness));
    let a = choose|b: int| lowest(old_table, children, b);
    let b = choose|b: int| lowest(new_table, children, b);
    assert(old_table[children[a]] <= old_table[children[b]]);
    assert(old_table[children[b]] <= new_table[children[b]]);
}

/// A step of the learning search changes no estimate but that of the
/// place it leaves, and gives estimates only to children that had none.
pub proof fn lemma_step_keeps_others(
    table: Map<Point, u64>,
    children: Seq<Point>,
    current: Point,
    goal: Point,
    p: Point,
)
    requires
        p != current,
        table.contains_key(p),
    ensures
        ({
            let learned = seeded(table, children, current, goal);
            backed_up(learned, current, lrta_choice(learned, children))[p] == table[p]
        }),
{
}

} // verus!
