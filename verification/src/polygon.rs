//! Closed polygons and the parity test that tells inside from outside.

use vstd::prelude::*;
use crate::crossing::{chained, crossing_of, has_links, intersect, linked, Segment};
use crate::geometry::{cross, lemma_cross_bound, Point, Vector};

verus! {

/// A closed loop of directed segments: every segment starts where the one
/// before it ends, and the first starts where the last ends.
#[derive(Debug)]
pub struct Polygon {
    edges: Vec<Segment>,
}

/// Every segment is well formed and starts where its predecessor ends, the
/// first one where the last ends.
pub open spec fn closed_loop(edges: Seq<Segment>) -> bool {
    &&& forall|i: int| 0 <= i < edges.len() ==> (#[trigger] edges[i]).wf()
    &&& forall|i: int| 0 < i < edges.len() ==> (#[trigger] edges[i]).origin == edges[i - 1].target
    &&& edges.len() > 0 ==> edges[0].origin == edges[edges.len() - 1].target
}

/// The vertex at which edge `i` of the polygon over `vertices` starts: the
/// vertex before `vertices[i]`, going round.
pub open spec fn vertex_before(vertices: Seq<Point>, i: int) -> Point {
    if i == 0 {
        vertices[vertices.len() - 1]
    } else {
        vertices[i - 1]
    }
}

/// The edges of the polygon that visits `vertices` in order: edge `i` ends
/// at `vertices[i]`.
pub open spec fn loop_through(vertices: Seq<Point>) -> Seq<Segment> {
    Seq::new(
        vertices.len(),
        |i: int| Segment::spanning(vertex_before(vertices, i), vertices[i]),
    )
}

/// Every point lies on the grid.
pub open spec fn all_in_bounds(points: Seq<Point>) -> bool {
    forall|i: int| 0 <= i < points.len() ==> (#[trigger] points[i]).in_bounds()
}

/// Smallest number of vertices a polygon may have.
pub const MIN_VERTICES: usize = 3;

impl Polygon {
    /// The edges in order.
    pub closed spec fn view(&self) -> Seq<Segment> {
        self.edges@
    }

    /// At least three edges, which form a closed loop.
    pub open spec fn wf(&self) -> bool {
        &&& self@.len() >= MIN_VERTICES
        &&& closed_loop(self@)
    }

    /// The polygon through `vertices`, or `None` when there are fewer than
    /// three of them or one lies off the grid.
    pub fn from_vertices(vertices: &Vec<Point>) -> (made: Option<Polygon>)
        ensures
            made is Some <==> vertices@.len() >= MIN_VERTICES && all_in_bounds(vertices@),
            made matches Some(p) ==> p.wf() && p@ == loop_through(vertices@),
    {
        let n = vertices.len();
        if n < MIN_VERTICES {
            return None;
        }
        let mut edges: Vec<Segment> = Vec::new();
        let mut previous: Point = vertices[n - 1];
        if !previous.is_in_bounds() {
            return None;
        }
        let mut i: usize = 0;
        while i < n
            invariant
                n == vertices@.len(),
                n >= MIN_VERTICES,
                0 <= i <= n,
                edges@.len() == i,
                previous == vertex_before(vertices@, i as int),
                previous.in_bounds(),
                vertices@[n - 1].in_bounds(),
                forall|k: int| 0 <= k < i ==> (#[trigger] vertices@[k]).in_bounds(),
                forall|k: int| 0 <= k < i ==> #[trigger] edges@[k] == loop_through(vertices@)[k],
            decreases n - i,
        {
            let next: Point = vertices[i];
            if !next.is_in_bounds() {
                return None;
            }
            edges.push(Segment::between(previous, next));
            previous = next;
            i += 1;
        }
        assert(edges@ =~= loop_through(vertices@));
        let made = Polygon { edges };
        proof {
            lemma_loop_through_closed(vertices@);
        }
        Some(made)
    }

    /// The edges in order.
    pub fn edges(&self) -> (edges: &Vec<Segment>)
        ensures
            edges@ == self@,
    {
        &self.edges
    }

    /// Number of edges, which is also the number of vertices.
    pub fn len(&self) -> (n: usize)
        ensures
            n == self@.len(),
    {
        self.edges.len()
    }
}

/// The loop through in-bounds vertices is closed.
pub proof fn lemma_loop_through_closed(vertices: Seq<Point>)
    requires
        all_in_bounds(vertices),
    ensures
        closed_loop(loop_through(vertices)),
        loop_through(vertices).len() == vertices.len(),
{
    let edges = loop_through(vertices);
    assert forall|i: int| 0 <= i < edges.len() implies (#[trigger] edges[i]).wf() by {
        assert(vertices[i].in_bounds());
        assert(vertex_before(vertices, i).in_bounds());
    }
}

/// In a closed loop of at least three edges every edge has a successor and
/// a predecessor, both different from it and from each other.
pub proof fn lemma_closed_loop_chained(edges: Seq<Segment>)
    requires
        edges.len() >= MIN_VERTICES,
        closed_loop(edges),
    ensures
        chained(edges),
{
    let n = edges.len() as int;
    assert forall|k: int| 0 <= k < n implies #[trigger] has_links(edges, k) by {
        let next = if k == n - 1 {
            0
        } else {
            k + 1
        };
        let previous = if k == 0 {
            n - 1
        } else {
            k - 1
        };
        if k < n - 1 {
            assert(edges[k + 1].origin == edges[k].target);
        }
        assert(linked(edges, k, next, previous));
    }
}

/// The ray from `point` along `dir` meets `segment` itself, not merely its
/// line, at or beyond `point`.
pub open spec fn blocks(point: Point, dir: Vector, segment: Segment) -> bool {
    crossing_of(point, dir, segment) matches Some(c) && c.not_behind() && c.on_segment()
}

/// How many of `edges` the ray from `point` along `dir` meets.
pub open spec fn crossings(point: Point, dir: Vector, edges: Seq<Segment>) -> nat
    decreases edges.len(),
{
    if edges.len() == 0 {
        0
    } else {
        crossings(point, dir, edges.drop_last()) + if blocks(point, dir, edges.last()) {
            1nat
        } else {
            0nat
        }
    }
}

/// The direction of the ray that the parity test casts.
pub open spec fn up() -> Vector {
    Vector { dx: 0, dy: 1 }
}

/// `point` counts as inside when the upward ray from it meets an odd
/// number of the polygon's edges.
pub open spec fn inside(point: Point, edges: Seq<Segment>) -> bool {
    crossings(point, up(), edges) % 2 == 1
}

/// Whether the ray from `point` along `ray` meets an odd number of the
/// polygon's edges.
pub fn crossing_parity(point: &Point, ray: &Vector, polygon: &Polygon) -> (odd: bool)
    requires
        point.in_bounds(),
        ray.in_bounds(),
        polygon.wf(),
    ensures
        odd == (crossings(*point, *ray, polygon@) % 2 == 1),
{
    let edges = polygon.edges();
    let mut odd: bool = false;
    let mut i: usize = 0;
    while i < edges.len()
        invariant
            0 <= i <= edges@.len(),
            edges@ == polygon@,
            polygon.wf(),
            point.in_bounds(),
            ray.in_bounds(),
            odd == (crossings(*point, *ray, edges@.take(i as int)) % 2 == 1),
        decreases edges@.len() - i,
    {
        let edge = &edges[i];
        assert(edges@[i as int].wf());
        let met = match intersect(point, ray, edge) {
            Some(c) => c.is_not_behind() && c.is_on_segment(),
            None => false,
        };
        proof {
            let next = edges@.take(i as int + 1);
            assert(next.drop_last() =~= edges@.take(i as int));
            assert(next.last() == edges@[i as int]);
        }
        if met {
            odd = !odd;
        }
        i += 1;
    }
    assert(edges@.take(i as int) =~= edges@);
    odd
}

/// Ray-casting parity test: whether `point` lies inside `polygon`.
pub fn point_in_polygon(point: &Point, polygon: &Polygon) -> (is_inside: bool)
    requires
        point.in_bounds(),
        polygon.wf(),
    ensures
        is_inside == inside(*point, polygon@),
{
    crossing_parity(point, &Vector { dx: 0, dy: 1 }, polygon)
}

/// The direction of a ray to the right.
pub open spec fn rightward() -> Vector {
    Vector { dx: 1, dy: 0 }
}

/// `v` lies on the upward ray from `p`.
pub open spec fn on_up_ray(p: Point, v: Point) -> bool {
    v.x == p.x && v.y >= p.y
}

/// `v` lies on the rightward ray from `p`.
pub open spec fn on_right_ray(p: Point, v: Point) -> bool {
    v.y == p.y && v.x >= p.x
}

/// `p` lies on the segment, ends included.
pub open spec fn touches(p: Point, s: Segment) -> bool {
    &&& cross(s.direction, s.origin.minus(p)) == 0
    &&& (s.origin.x <= p.x <= s.target.x || s.target.x <= p.x <= s.origin.x)
    &&& (s.origin.y <= p.y <= s.target.y || s.target.y <= p.y <= s.origin.y)
}

/// Neither ray from `p` passes through an end of `s`, and `p` does not lie
/// on `s`.
pub open spec fn clear_of(p: Point, s: Segment) -> bool {
    &&& !touches(p, s)
    &&& !on_up_ray(p, s.origin)
    &&& !on_right_ray(p, s.origin)
    &&& !on_up_ray(p, s.target)
    &&& !on_right_ray(p, s.target)
}

/// `p` lies on no edge, and neither the upward nor the rightward ray from
/// it passes through a vertex.
pub open spec fn well_clear(p: Point, edges: Seq<Segment>) -> bool {
    forall|i: int| 0 <= i < edges.len() ==> clear_of(p, #[trigger] edges[i])
}

/// `v` lies above and to the right of `p`.
pub open spec fn in_quadrant(p: Point, v: Point) -> bool {
    v.x > p.x && v.y > p.y
}

/// The sign of a product is the product of the signs.
pub proof fn lemma_product_sign(a: int, b: int)
    by (nonlinear_arith)
    ensures
        (a > 0 && b > 0) || (a < 0 && b < 0) ==> a * b > 0,
        (a > 0 && b < 0) || (a < 0 && b > 0) ==> a * b < 0,
        a == 0 || b == 0 ==> a * b == 0,
{
}

/// One edge is met by exactly one of the two rays just when exactly one of
/// its ends lies in the quadrant between them.
pub proof fn lemma_edge_parity(p: Point, s: Segment)
    requires
        p.in_bounds(),
        s.wf(),
        clear_of(p, s),
    ensures
        (blocks(p, up(), s) != blocks(p, rightward(), s)) == (in_quadrant(p, s.origin)
            != in_quadrant(p, s.target)),
{
    let offset = s.origin.minus(p);
    let ox = s.origin.x - p.x;
    let oy = s.origin.y - p.y;
    let tx = s.target.x - p.x;
    let ty = s.target.y - p.y;
    let lx = s.direction.dx as int;
    let ly = s.direction.dy as int;
    assert(offset.dx == ox && offset.dy == oy);
    assert(lx == tx - ox && ly == ty - oy);
    lemma_cross_bound(s.direction, offset);
    lemma_cross_bound(s.direction, up());
    lemma_cross_bound(s.direction, rightward());
    lemma_cross_bound(up(), offset);
    lemma_cross_bound(rightward(), offset);
    let c = cross(s.direction, offset);
    let a = tx * oy;
    let b = ty * ox;
    assert(c == a - b) by (nonlinear_arith)
        requires
            c == lx * oy - ly * ox,
            lx == tx - ox,
            ly == ty - oy,
            a == tx * oy,
            b == ty * ox,
    ;
    lemma_product_sign(tx, oy);
    lemma_product_sign(ty, ox);
    assert(cross(s.direction, up()) == lx);
    assert(cross(s.direction, rightward()) == -ly);
    assert(cross(up(), offset) == -ox);
    assert(cross(rightward(), offset) == oy);
    let meets_up = (lx > 0 && c >= 0 && ox <= 0 <= tx) || (lx < 0 && c <= 0 && tx <= 0 <= ox);
    let meets_right = (ly < 0 && c >= 0 && ty <= 0 <= oy) || (ly > 0 && c <= 0 && oy <= 0 <= ty);
    assert(blocks(p, up(), s) == meets_up);
    assert(blocks(p, rightward(), s) == meets_right);
    assert(touches(p, s) == (c == 0 && (ox <= 0 <= tx || tx <= 0 <= ox) && (oy <= 0 <= ty || ty
        <= 0 <= oy)));
}

/// One more edge adds one crossing when the ray meets it.
pub proof fn lemma_crossings_take(p: Point, dir: Vector, edges: Seq<Segment>, k: int)
    requires
        1 <= k <= edges.len(),
    ensures
        crossings(p, dir, edges.take(k)) == crossings(p, dir, edges.take(k - 1)) + if blocks(
            p,
            dir,
            edges[k - 1],
        ) {
            1nat
        } else {
            0nat
        },
{
    let longer = edges.take(k);
    assert(longer.drop_last() =~= edges.take(k - 1));
    assert(longer.last() == edges[k - 1]);
}

/// Adding to two counts flips the parity of their sum just when exactly
/// one of them grows by one.
pub proof fn lemma_parity_step(first: nat, second: nat, one: bool, other: bool)
    ensures
        ((first + if one {
            1nat
        } else {
            0nat
        } + second + if other {
            1nat
        } else {
            0nat
        }) % 2 == 1) == (((first + second) % 2 == 1) != (one != other)),
{
}

/// Round the first `k` edges of a closed loop, the two rays together meet
/// an odd number of edges just when exactly one of the loop's start and
/// the end of edge `k - 1` lies in the quadrant between the rays.
pub proof fn lemma_parity_chain(p: Point, edges: Seq<Segment>, k: int)
    requires
        p.in_bounds(),
        closed_loop(edges),
        well_clear(p, edges),
        1 <= k <= edges.len(),
    ensures
        ((crossings(p, up(), edges.take(k)) + crossings(p, rightward(), edges.take(k))) % 2 == 1)
            == (in_quadrant(p, edges[0].origin) != in_quadrant(p, edges[k - 1].target)),
    decreases k,
{
    let edge = edges[k - 1];
    let high = crossings(p, up(), edges.take(k - 1));
    let wide = crossings(p, rightward(), edges.take(k - 1));
    lemma_crossings_take(p, up(), edges, k);
    lemma_crossings_take(p, rightward(), edges, k);
    lemma_parity_step(high, wide, blocks(p, up(), edge), blocks(p, rightward(), edge));
    assert(edge.wf());
    assert(clear_of(p, edge));
    lemma_edge_parity(p, edge);
    if k == 1 {
        assert(edges.take(0).len() == 0);
    } else {
        lemma_parity_chain(p, edges, k - 1);
        assert(edge.origin == edges[k - 2].target);
    }
}

/// The parity test does not depend on which way the ray points, up or to
/// the right, for a point that lies on no edge of a closed polygon and has
/// no vertex straight above it or straight to its right.
pub proof fn lemma_parity_same_for_both_rays(p: Point, edges: Seq<Segment>)
    requires
        p.in_bounds(),
        closed_loop(edges),
        well_clear(p, edges),
    ensures
        inside(p, edges) == (crossings(p, rightward(), edges) % 2 == 1),
{
    if edges.len() > 0 {
        let n = edges.len() as int;
        lemma_parity_chain(p, edges, n);
        assert(edges.take(n) =~= edges);
        assert(edges[0].origin == edges[n - 1].target);
    }
}

} // verus!
