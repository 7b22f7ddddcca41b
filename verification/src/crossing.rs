//! Directed segments and the exact crossing of a ray with a segment.

use vstd::prelude::*;
use crate::geometry::{
    cross, cross_product, lemma_cross_bound, lemma_product_bound, Point, Vector,
};

verus! {

/// A directed boundary piece from `origin` to `target`.
#[derive(Clone, Copy, Debug, PartialEq, Eq, Structural)]
pub struct Segment {
    pub origin: Point,
    pub direction: Vector,
    pub target: Point,
}

impl Segment {
    /// Both ends lie on the grid and `target` is `origin` moved by `direction`.
    pub open spec fn wf(self) -> bool {
        &&& self.origin.in_bounds()
        &&& self.target.in_bounds()
        &&& self.direction.dx == self.target.x - self.origin.x
        &&& self.direction.dy == self.target.y - self.origin.y
    }

    /// The segment that leads from `origin` to `target`.
    pub open spec fn spanning(origin: Point, target: Point) -> Segment {
        Segment { origin, direction: target.minus(origin), target }
    }

    /// The segment that leads from `origin` to `target`.
    pub fn between(origin: Point, target: Point) -> (s: Segment)
        requires
            origin.in_bounds(),
            target.in_bounds(),
        ensures
            s == Segment::spanning(origin, target),
            s.wf(),
    {
        Segment { origin, direction: target.displacement_from(&origin), target }
    }

    /// Decides `wf`.
    pub fn is_wf(&self) -> (ok: bool)
        ensures
            ok == self.wf(),
    {
        self.origin.is_in_bounds() && self.target.is_in_bounds() && self.direction.dx
            == self.target.x - self.origin.x && self.direction.dy == self.target.y
            - self.origin.y
    }
}

/// Segment `k` has an end at `position`.
pub open spec fn meets(segments: Seq<Segment>, position: Point, k: int) -> bool {
    0 <= k < segments.len() && (segments[k].origin == position || segments[k].target == position)
}

/// Segment `k` is a link of a closed chain: segment `next`, another one,
/// starts where it ends, and segment `previous`, yet another one, ends
/// where it starts.
pub open spec fn linked(segments: Seq<Segment>, k: int, next: int, previous: int) -> bool {
    &&& 0 <= next < segments.len()
    &&& 0 <= previous < segments.len()
    &&& next != k
    &&& previous != k
    &&& next != previous
    &&& segments[next].origin == segments[k].target
    &&& segments[previous].target == segments[k].origin
}

/// Segment `k` is a link of a closed chain.
pub open spec fn has_links(segments: Seq<Segment>, k: int) -> bool {
    exists|next: int, previous: int| linked(segments, k, next, previous)
}

/// Every segment is a link of a closed chain of at least three.
pub open spec fn chained(segments: Seq<Segment>) -> bool {
    forall|k: int| 0 <= k < segments.len() ==> #[trigger] has_links(segments, k)
}

/// Two lists of chains, one after the other, are a list of chains.
pub proof fn lemma_chained_concat(first: Seq<Segment>, second: Seq<Segment>)
    requires
        chained(first),
        chained(second),
    ensures
        chained(first + second),
{
    let both = first + second;
    let shift = first.len() as int;
    assert forall|k: int| 0 <= k < both.len() implies #[trigger] has_links(both, k) by {
        if k < shift {
            assert(has_links(first, k));
            let (next, previous) = choose|next: int, previous: int|
                linked(first, k, next, previous);
            assert(linked(both, k, next, previous));
        } else {
            let local = k - shift;
            assert(has_links(second, local));
            let (next, previous) = choose|next: int, previous: int|
                linked(second, local, next, previous);
            assert(linked(both, k, next + shift, previous + shift));
        }
    }
}

/// Where a ray meets the line through a segment, as two fractions over the
/// common positive denominator `scale`.
///
/// `along_ray / scale` is how far along the ray the meeting point lies, in
/// ray lengths. `along_segment / scale` is where it lies on the segment's
/// line: 0 at the origin, 1 at the target.
#[derive(Clone, Copy, Debug, PartialEq, Eq, Structural)]
pub struct Crossing {
    pub along_ray: i64,
    pub along_segment: i64,
    pub scale: i64,
}

/// Bound on the three numbers of a crossing between in-bounds operands.
pub const CROSS_LIMIT: i64 = 8_000_000_000_000_000_000;

impl Crossing {
    /// The denominator is positive and all three numbers stay within
    /// `CROSS_LIMIT`.
    pub open spec fn wf(self) -> bool {
        &&& 0 < self.scale <= CROSS_LIMIT
        &&& -CROSS_LIMIT <= self.along_ray <= CROSS_LIMIT
        &&& -CROSS_LIMIT <= self.along_segment <= CROSS_LIMIT
    }

    /// The meeting point lies strictly ahead of the ray's origin.
    pub open spec fn ahead(self) -> bool {
        self.along_ray > 0
    }

    /// The meeting point does not lie behind the ray's origin.
    pub open spec fn not_behind(self) -> bool {
        self.along_ray >= 0
    }

    /// The meeting point is no farther than the ray's own tip.
    pub open spec fn within_ray(self) -> bool {
        self.along_ray <= self.scale
    }

    /// The meeting point lies on the segment, ends included.
    pub open spec fn on_segment(self) -> bool {
        0 <= self.along_segment <= self.scale
    }

    /// The meeting point is one of the segment's two ends.
    pub open spec fn at_endpoint(self) -> bool {
        self.along_segment == 0 || self.along_segment == self.scale
    }

    /// `self` lies strictly nearer to the ray's origin than `other`.
    pub open spec fn nearer_than(self, other: Crossing) -> bool {
        self.along_ray * other.scale < other.along_ray * self.scale
    }

    /// `self` lies no farther from the ray's origin than `other`.
    pub open spec fn no_farther_than(self, other: Crossing) -> bool {
        self.along_ray * other.scale <= other.along_ray * self.scale
    }

    /// Decides `ahead`.
    pub fn is_ahead(&self) -> (b: bool)
        ensures
            b == self.ahead(),
    {
        self.along_ray > 0
    }

    /// Decides `not_behind`.
    pub fn is_not_behind(&self) -> (b: bool)
        ensures
            b == self.not_behind(),
    {
        self.along_ray >= 0
    }

    /// Decides `within_ray`.
    pub fn is_within_ray(&self) -> (b: bool)
        ensures
            b == self.within_ray(),
    {
        self.along_ray <= self.scale
    }

    /// Decides `on_segment`.
    pub fn is_on_segment(&self) -> (b: bool)
        ensures
            b == self.on_segment(),
    {
        0 <= self.along_segment && self.along_segment <= self.scale
    }

    /// Decides `at_endpoint`.
    pub fn is_at_endpoint(&self) -> (b: bool)
        ensures
            b == self.at_endpoint(),
    {
        self.along_segment == 0 || self.along_segment == self.scale
    }

    /// Decides `no_farther_than`.
    pub fn is_no_farther_than(&self, other: &Crossing) -> (b: bool)
        requires
            self.wf(),
            other.wf(),
        ensures
            b == self.no_farther_than(*other),
    {
        proof {
            lemma_product_bound(
                self.along_ray as int,
                other.scale as int,
                CROSS_LIMIT as int,
                CROSS_LIMIT as int,
            );
            lemma_product_bound(
                other.along_ray as int,
                self.scale as int,
                CROSS_LIMIT as int,
                CROSS_LIMIT as int,
            );
        }
        let left: i128 = (self.along_ray as i128) * (other.scale as i128);
        let right: i128 = (other.along_ray as i128) * (self.scale as i128);
        left <= right
    }
}

/// Where the ray from `ray_origin` along `ray_dir` meets the line through
/// `segment`; `None` when the two are parallel or either has no direction.
pub open spec fn crossing_of(ray_origin: Point, ray_dir: Vector, segment: Segment) -> Option<
    Crossing,
> {
    let offset = segment.origin.minus(ray_origin);
    let scale = cross(segment.direction, ray_dir);
    let along_ray = cross(segment.direction, offset);
    let along_segment = cross(ray_dir, offset);
    if scale == 0 {
        None
    } else if scale > 0 {
        Some(
            Crossing {
                along_ray: along_ray as i64,
                along_segment: along_segment as i64,
                scale: scale as i64,
            },
        )
    } else {
        Some(
            Crossing {
                along_ray: (-along_ray) as i64,
                along_segment: (-along_segment) as i64,
                scale: (-scale) as i64,
            },
        )
    }
}

/// The ray and the segment's line have no single meeting point.
pub open spec fn parallel(ray_dir: Vector, segment: Segment) -> bool {
    cross(segment.direction, ray_dir) == 0
}

/// The numbers of a crossing place one and the same point on the ray and on
/// the segment's line: `ray_origin + (along_ray / scale) * ray_dir` equals
/// `segment.origin + (along_segment / scale) * segment.direction`.
pub proof fn lemma_crossing_solves(ray_origin: Point, ray_dir: Vector, segment: Segment)
    requires
        ray_origin.in_bounds(),
        ray_dir.in_bounds(),
        segment.wf(),
        !parallel(ray_dir, segment),
    ensures
        crossing_of(ray_origin, ray_dir, segment) matches Some(c) && c.wf() && c.scale
            * ray_origin.x + c.along_ray * ray_dir.dx == c.scale * segment.origin.x
            + c.along_segment * segment.direction.dx && c.scale * ray_origin.y + c.along_ray
            * ray_dir.dy == c.scale * segment.origin.y + c.along_segment
            * segment.direction.dy,
{
    let offset = segment.origin.minus(ray_origin);
    lemma_cross_bound(segment.direction, ray_dir);
    lemma_cross_bound(segment.direction, offset);
    lemma_cross_bound(ray_dir, offset);
    let lx = segment.direction.dx as int;
    let ly = segment.direction.dy as int;
    let rx = ray_dir.dx as int;
    let ry = ray_dir.dy as int;
    let wx = offset.dx as int;
    let wy = offset.dy as int;
    let scale = lx * ry - ly * rx;
    let n1 = lx * wy - ly * wx;
    let n2 = rx * wy - ry * wx;
    assert(n1 * rx == scale * wx + n2 * lx) by (nonlinear_arith)
        requires
            scale == lx * ry - ly * rx,
            n1 == lx * wy - ly * wx,
            n2 == rx * wy - ry * wx,
    ;
    assert(n1 * ry == scale * wy + n2 * ly) by (nonlinear_arith)
        requires
            scale == lx * ry - ly * rx,
            n1 == lx * wy - ly * wx,
            n2 == rx * wy - ry * wx,
    ;
    let c = crossing_of(ray_origin, ray_dir, segment).unwrap();
    let ox = ray_origin.x as int;
    let oy = ray_origin.y as int;
    assert(scale * (ox + wx) == scale * ox + scale * wx) by (nonlinear_arith);
    assert(scale * (oy + wy) == scale * oy + scale * wy) by (nonlinear_arith);
    if scale < 0 {
        assert((-n1) * rx == -(n1 * rx)) by (nonlinear_arith);
        assert((-n1) * ry == -(n1 * ry)) by (nonlinear_arith);
        assert((-n2) * lx == -(n2 * lx)) by (nonlinear_arith);
        assert((-n2) * ly == -(n2 * ly)) by (nonlinear_arith);
        assert((-scale) * ox == -(scale * ox)) by (nonlinear_arith);
        assert((-scale) * oy == -(scale * oy)) by (nonlinear_arith);
        assert((-scale) * (ox + wx) == -(scale * (ox + wx))) by (nonlinear_arith);
        assert((-scale) * (oy + wy) == -(scale * (oy + wy))) by (nonlinear_arith);
    }
}

/// Computes `crossing_of`.
pub fn intersect(ray_origin: &Point, ray_dir: &Vector, segment: &Segment) -> (found: Option<
    Crossing,
>)
    requires
        ray_origin.in_bounds(),
        ray_dir.in_bounds(),
        segment.wf(),
    ensures
        found == crossing_of(*ray_origin, *ray_dir, *segment),
        found is None <==> parallel(*ray_dir, *segment),
        found matches Some(c) ==> c.wf(),
{
    let offset = segment.origin.displacement_from(ray_origin);
    proof {
        lemma_cross_bound(segment.direction, *ray_dir);
        lemma_cross_bound(segment.direction, offset);
        lemma_cross_bound(*ray_dir, offset);
    }
    let scale: i64 = cross_product(&segment.direction, ray_dir);
    if scale == 0 {
        return None;
    }
    let along_ray: i64 = cross_product(&segment.direction, &offset);
    let along_segment: i64 = cross_product(ray_dir, &offset);
    if scale > 0 {
        Some(Crossing { along_ray, along_segment, scale })
    } else {
        Some(Crossing { along_ray: -along_ray, along_segment: -along_segment, scale: -scale })
    }
}

} // verus!
