//! Axis-aligned bounding boxes and the slab test of a ray against one.

use vstd::prelude::*;
use crate::ray::Ray;
use crate::scalar::Scalar;
use crate::scalar::TWO_BITS;
use crate::scalar::ZERO_BITS;
use crate::utils::component_wise_range;
use crate::utils::high_corner;
use crate::utils::lemma_range_bounds;
use crate::utils::low_corner;
use crate::vector::Point3;

verus! {

/// The set of ray parameters at which a ray lies between the two planes of
/// one axis of a box.
#[derive(Clone, Copy, Debug)]
pub enum Interval {
    /// Every parameter: the ray runs parallel to the planes, between them.
    Infinite,
    /// The parameters from the first number to the second.
    Closed(Scalar, Scalar),
    /// No parameter.
    Empty,
}

impl Interval {
    /// The interval on one axis. `(a, b)` are the bounds of the box on this
    /// axis, `x` is the start of the ray and `slope` its direction on it.
    pub open spec fn on_axis(a: Scalar, b: Scalar, x: Scalar, slope: Scalar) -> Interval {
        if slope.same(Scalar { bits: ZERO_BITS }) {
            if a.at_most(x) && x.at_most(b) {
                Interval::Infinite
            } else {
                Interval::Empty
            }
        } else {
            let ta = a.minus(x).over(slope);
            let tb = b.minus(x).over(slope);
            Interval::Closed(ta.lower(tb), ta.upper(tb))
        }
    }

    /// The intersection of two intervals: from the greater of the lower
    /// bounds to the lesser of the upper bounds, if that is an interval.
    pub open spec fn meet(self, other: Interval) -> Interval {
        match self {
            Interval::Infinite => other,
            Interval::Empty => Interval::Empty,
            Interval::Closed(a, b) => match other {
                Interval::Infinite => Interval::Closed(a, b),
                Interval::Empty => Interval::Empty,
                Interval::Closed(c, d) => {
                    if a.upper(c).at_most(b.lower(d)) {
                        Interval::Closed(a.upper(c), b.lower(d))
                    } else {
                        Interval::Empty
                    }
                },
            },
        }
    }

    /// The parameter at which a ray with this interval meets the box: the
    /// smallest bound that is not negative. That is the lower bound; the
    /// upper bound where the lower one lies behind the origin, the ray
    /// starting inside the box; and nothing where both bounds lie behind
    /// the origin, the box lying behind the ray. A ray without direction
    /// that lies in the box meets it at 0.
    pub open spec fn entry(self) -> Option<Scalar> {
        match self {
            Interval::Infinite => Some(Scalar { bits: ZERO_BITS }),
            Interval::Closed(t_min, t_max) => if !t_min.less(Scalar { bits: ZERO_BITS }) {
                Some(t_min)
            } else if !t_max.less(Scalar { bits: ZERO_BITS }) {
                Some(t_max)
            } else {
                None
            },
            Interval::Empty => None,
        }
    }

    /// The parameter at which a ray meets a box is never negative.
    pub proof fn lemma_entry_not_negative(self)
        ensures
            self.entry() matches Some(t) ==> !t.less(Scalar { bits: ZERO_BITS }),
    {
    }

    /// Whether the parameter `t` lies in the interval.
    pub open spec fn holds(self, t: Scalar) -> bool {
        match self {
            Interval::Infinite => true,
            Interval::Closed(a, b) => a.at_most(t) && t.at_most(b),
            Interval::Empty => false,
        }
    }

    /// Whether the bounds of the interval, if it has any, are numbers.
    pub open spec fn bounded_by_numbers(self) -> bool {
        match self {
            Interval::Closed(a, b) => !a.nan() && !b.nan(),
            _ => true,
        }
    }

    /// The intersection of two intervals holds exactly the parameters that
    /// both hold, and its bounds are numbers.
    pub proof fn lemma_meet_is_intersection(self, other: Interval, t: Scalar)
        requires
            self.bounded_by_numbers(),
            other.bounded_by_numbers(),
        ensures
            self.meet(other).holds(t) <==> self.holds(t) && other.holds(t),
            self.meet(other).bounded_by_numbers(),
    {
    }

    /// The parameter at which a ray meets the box lies in the interval,
    /// where the interval is not empty: it is the lower bound where that is
    /// not negative, and else the upper bound where that is not negative,
    /// the ray starting inside. Nothing is met where the interval is empty
    /// or lies behind the origin as a whole.
    pub proof fn lemma_entry(self)
        requires
            self.bounded_by_numbers(),
        ensures
            self matches Interval::Closed(a, b) ==> self.entry() == if !a.less(
                Scalar { bits: ZERO_BITS },
            ) {
                Some(a)
            } else if !b.less(Scalar { bits: ZERO_BITS }) {
                Some(b)
            } else {
                None::<Scalar>
            },
            self matches Interval::Closed(a, b) ==> (a.at_most(b) && self.entry().is_some()
                ==> self.holds(self.entry().unwrap())),
            self matches Interval::Closed(a, b) ==> (self.entry().is_none() <==> b.less(
                Scalar { bits: ZERO_BITS },
            ) && a.less(Scalar { bits: ZERO_BITS })),
            self is Empty ==> self.entry() is None,
    {
    }

    /// Construct the interval that a ray intersects some axis on a box.
    pub fn new(a: Scalar, b: Scalar, x: Scalar, slope: Scalar) -> (r: Interval)
        ensures
            r == Interval::on_axis(a, b, x, slope),
    {
        if slope.equals(Scalar::zero()) {
            if a.le(x) && x.le(b) {
                Interval::Infinite
            } else {
                Interval::Empty
            }
        } else {
            let ta = a.sub(x).div(slope);
            let tb = b.sub(x).div(slope);
            Interval::Closed(ta.min(tb), ta.max(tb))
        }
    }

    /// Return the intersection of the two intervals.
    pub fn intersect(self, other: Interval) -> (r: Interval)
        ensures
            r == self.meet(other),
    {
        match self {
            Interval::Infinite => other,
            Interval::Empty => Interval::Empty,
            Interval::Closed(a, b) => match other {
                Interval::Infinite => Interval::Closed(a, b),
                Interval::Empty => Interval::Empty,
                Interval::Closed(c, d) => {
                    let x = a.max(c);
                    let y = b.min(d);
                    if x.le(y) {
                        Interval::Closed(x, y)
                    } else {
                        Interval::Empty
                    }
                },
            },
        }
    }
}

/// Axis-aligned minimum bounding box.
#[derive(Clone, Copy, Debug, PartialEq, Eq, Structural)]
pub struct AABB {
    pub min: Point3,
    pub max: Point3,
}

/// The corners of the boxes, each box's low corner before its high one.
pub open spec fn corners(boxes: Seq<AABB>) -> Seq<Point3>
    decreases boxes.len(),
{
    if boxes.len() == 0 {
        Seq::empty()
    } else {
        corners(boxes.drop_last()).push(boxes.last().min).push(boxes.last().max)
    }
}

/// Every coordinate of every corner of valid boxes is a number.
pub proof fn lemma_corners_are_numbers(boxes: Seq<AABB>)
    requires
        forall|i: int| 0 <= i < boxes.len() ==> (#[trigger] boxes[i]).valid(),
    ensures
        corners(boxes).len() == 2 * boxes.len(),
        forall|k: int, axis: int|
            0 <= k < corners(boxes).len() ==> !(#[trigger] corners(boxes)[k].coordinate(
                axis,
            )).nan(),
    decreases boxes.len(),
{
    if boxes.len() > 0 {
        lemma_corners_are_numbers(boxes.drop_last());
        assert(boxes.last().valid());
        assert forall|k: int, axis: int| 0 <= k < corners(boxes).len() implies !(
        #[trigger] corners(boxes)[k].coordinate(axis)).nan() by {
            if k < 2 * (boxes.len() - 1) {
                assert(corners(boxes)[k] == corners(boxes.drop_last())[k]);
            }
        }
    }
}

/// The corners of box `i` stand at the places `2 * i` and `2 * i + 1`.
pub proof fn lemma_corners_of(boxes: Seq<AABB>, i: int)
    requires
        0 <= i < boxes.len(),
    ensures
        corners(boxes).len() == 2 * boxes.len(),
        corners(boxes)[2 * i] == boxes[i].min,
        corners(boxes)[2 * i + 1] == boxes[i].max,
    decreases boxes.len(),
{
    lemma_corners_len(boxes);
    lemma_corners_len(boxes.drop_last());
    if i < boxes.len() - 1 {
        lemma_corners_of(boxes.drop_last(), i);
        assert(boxes.drop_last()[i] == boxes[i]);
    }
}

/// Every box has two corners.
pub proof fn lemma_corners_len(boxes: Seq<AABB>)
    ensures
        corners(boxes).len() == 2 * boxes.len(),
    decreases boxes.len(),
{
    if boxes.len() > 0 {
        lemma_corners_len(boxes.drop_last());
    }
}

/// The boxes that are not the empty box, in their order.
pub open spec fn solid(boxes: Seq<AABB>) -> Seq<AABB>
    decreases boxes.len(),
{
    if boxes.len() == 0 {
        Seq::empty()
    } else if boxes.last().vacant() {
        solid(boxes.drop_last())
    } else {
        solid(boxes.drop_last()).push(boxes.last())
    }
}

/// What is left of valid boxes without the empty ones is valid and holds
/// no empty box.
pub proof fn lemma_solid_valid(boxes: Seq<AABB>)
    requires
        forall|i: int| 0 <= i < boxes.len() ==> (#[trigger] boxes[i]).valid(),
    ensures
        forall|j: int|
            0 <= j < solid(boxes).len() ==> (#[trigger] solid(boxes)[j]).valid() && !solid(
                boxes,
            )[j].vacant(),
    decreases boxes.len(),
{
    if boxes.len() > 0 {
        lemma_solid_valid(boxes.drop_last());
        assert(boxes.last().valid());
        assert forall|j: int| 0 <= j < solid(boxes).len() implies (#[trigger] solid(
            boxes,
        )[j]).valid() && !solid(boxes)[j].vacant() by {
            if j < solid(boxes.drop_last()).len() {
                assert(solid(boxes)[j] == solid(boxes.drop_last())[j]);
            }
        }
    }
}

/// A box that is not the empty box is among those that are left without
/// the empty ones.
pub proof fn lemma_solid_holds(boxes: Seq<AABB>, i: int) -> (j: int)
    requires
        0 <= i < boxes.len(),
        !boxes[i].vacant(),
    ensures
        0 <= j < solid(boxes).len(),
        solid(boxes)[j] == boxes[i],
    decreases boxes.len(),
{
    if i == boxes.len() - 1 {
        solid(boxes).len() - 1
    } else {
        let j = lemma_solid_holds(boxes.drop_last(), i);
        assert(boxes.drop_last()[i] == boxes[i]);
        j
    }
}

/// What is left of a joined list is what is left of its parts, joined.
pub proof fn lemma_solid_joined(a: Seq<AABB>, b: Seq<AABB>)
    ensures
        solid(a + b) == solid(a) + solid(b),
    decreases b.len(),
{
    if b.len() == 0 {
        assert(a + b =~= a);
        assert(solid(a) + solid(b) =~= solid(a));
    } else {
        lemma_solid_joined(a, b.drop_last());
        assert((a + b).drop_last() =~= a + b.drop_last());
        assert((a + b).last() == b.last());
        assert(solid(a + b) =~= solid(a) + solid(b));
    }
}

impl AABB {
    /// The low corner is not above the high corner on any axis (so every
    /// coordinate is a number).
    pub open spec fn valid(self) -> bool {
        &&& self.min.x.at_most(self.max.x)
        &&& self.min.y.at_most(self.max.y)
        &&& self.min.z.at_most(self.max.z)
    }

    /// The zero-volume box at the origin.
    pub open spec fn origin_box() -> AABB {
        let o = Scalar { bits: ZERO_BITS };
        AABB { min: Point3 { x: o, y: o, z: o }, max: Point3 { x: o, y: o, z: o } }
    }

    /// Whether this is the empty box: every coordinate of both corners is
    /// zero.
    pub open spec fn vacant(self) -> bool {
        let o = Scalar { bits: ZERO_BITS };
        &&& self.min.x.same(o) && self.min.y.same(o) && self.min.z.same(o)
        &&& self.max.x.same(o) && self.max.y.same(o) && self.max.z.same(o)
    }

    /// The smallest box around all the corners of the given boxes; the box
    /// at the origin if there are none.
    pub open spec fn around(boxes: Seq<AABB>) -> AABB {
        if boxes.len() == 0 {
            AABB::origin_box()
        } else {
            AABB { min: low_corner(corners(boxes)), max: high_corner(corners(boxes)) }
        }
    }

    /// The union of the boxes: the smallest box around those of them that
    /// are not the empty box; the empty box if there are none. The empty
    /// box is the identity of the union.
    pub open spec fn hull(boxes: Seq<AABB>) -> AABB {
        AABB::around(solid(boxes))
    }

    /// The empty box is the identity of the union: with or without it,
    /// wherever it stands among the boxes, their union is the same.
    pub proof fn lemma_empty_is_identity(before: Seq<AABB>, empty: AABB, after: Seq<AABB>)
        requires
            empty.vacant(),
        ensures
            AABB::hull(before + seq![empty] + after) == AABB::hull(before + after),
    {
        lemma_solid_joined(before + seq![empty], after);
        lemma_solid_joined(before, seq![empty]);
        lemma_solid_joined(before, after);
        assert(seq![empty].drop_last() =~= Seq::<AABB>::empty());
        assert(seq![empty].last() == empty);
        assert(solid(Seq::<AABB>::empty()) =~= Seq::<AABB>::empty());
        assert(solid(seq![empty]) =~= Seq::<AABB>::empty());
        assert(solid(before) + Seq::<AABB>::empty() =~= solid(before));
    }

    /// The set of parameters at which the ray is inside the box.
    pub open spec fn span(self, ray: Ray) -> Interval {
        let position = ray.at(Scalar { bits: ZERO_BITS });
        let direction = ray.heading();
        Interval::on_axis(self.min.x, self.max.x, position.x, direction.x).meet(
            Interval::on_axis(self.min.y, self.max.y, position.y, direction.y).meet(
                Interval::on_axis(self.min.z, self.max.z, position.z, direction.z),
            ),
        )
    }

    /// The parameter at which the ray meets the box, if it does.
    pub open spec fn crossing(self, ray: Ray) -> Option<Scalar> {
        self.span(ray).entry()
    }

    /// `2*dx*dy + 2*dx*dz + 2*dz*dy` over the extent `(dx, dy, dz)`.
    pub open spec fn area(self) -> Scalar {
        let diff = self.max.from(self.min);
        let two = Scalar { bits: TWO_BITS };
        two.times(diff.x).times(diff.y).plus(two.times(diff.x).times(diff.z)).plus(
            two.times(diff.z).times(diff.y),
        )
    }

    /// The union of a single box: the box itself, unless it is the empty
    /// box or reaches beyond the largest number.
    pub open spec fn alone(self) -> AABB {
        AABB::hull(seq![self])
    }

    /// Whether `inner` lies within this box on every axis.
    pub open spec fn encloses(self, inner: AABB) -> bool {
        &&& self.min.x.at_most(inner.min.x) && inner.max.x.at_most(self.max.x)
        &&& self.min.y.at_most(inner.min.y) && inner.max.y.at_most(self.max.y)
        &&& self.min.z.at_most(inner.min.z) && inner.max.z.at_most(self.max.z)
    }

    /// The union of valid boxes encloses each of them that is not the
    /// empty box.
    pub proof fn lemma_hull_encloses(boxes: Seq<AABB>, i: int)
        requires
            forall|k: int| 0 <= k < boxes.len() ==> (#[trigger] boxes[k]).valid(),
            0 <= i < boxes.len(),
            !boxes[i].vacant(),
        ensures
            AABB::hull(boxes).encloses(boxes[i]),
    {
        lemma_solid_valid(boxes);
        let j = lemma_solid_holds(boxes, i);
        AABB::lemma_around_encloses(solid(boxes), j);
    }

    /// The box around valid boxes encloses each of them.
    pub proof fn lemma_around_encloses(boxes: Seq<AABB>, i: int)
        requires
            forall|k: int| 0 <= k < boxes.len() ==> (#[trigger] boxes[k]).valid(),
            0 <= i < boxes.len(),
        ensures
            AABB::around(boxes).encloses(boxes[i]),
    {
        lemma_corners_are_numbers(boxes);
        lemma_corners_of(boxes, i);
        let points = corners(boxes);
        lemma_range_bounds(points, 0);
        lemma_range_bounds(points, 1);
        lemma_range_bounds(points, 2);
        assert(boxes[i].valid());
        assert(!points[2 * i].coordinate(0).nan() && !points[2 * i + 1].coordinate(0).nan());
        assert(!points[2 * i].coordinate(1).nan() && !points[2 * i + 1].coordinate(1).nan());
        assert(!points[2 * i].coordinate(2).nan() && !points[2 * i + 1].coordinate(2).nan());
    }

    /// A box that encloses a box encloses what that box encloses.
    pub proof fn lemma_encloses_transitive(self, middle: AABB, inner: AABB)
        requires
            self.encloses(middle),
            middle.encloses(inner),
        ensures
            self.encloses(inner),
    {
    }

    /// The union of valid boxes is valid.
    pub proof fn lemma_hull_valid(boxes: Seq<AABB>)
        requires
            forall|i: int| 0 <= i < boxes.len() ==> (#[trigger] boxes[i]).valid(),
        ensures
            AABB::hull(boxes).valid(),
    {
        lemma_solid_valid(boxes);
        AABB::lemma_around_valid(solid(boxes));
    }

    /// The box around valid boxes is valid.
    pub proof fn lemma_around_valid(boxes: Seq<AABB>)
        requires
            forall|i: int| 0 <= i < boxes.len() ==> (#[trigger] boxes[i]).valid(),
        ensures
            AABB::around(boxes).valid(),
    {
        if boxes.len() > 0 {
            lemma_corners_are_numbers(boxes);
            let points = corners(boxes);
            lemma_range_bounds(points, 0);
            lemma_range_bounds(points, 1);
            lemma_range_bounds(points, 2);
            assert(!points[0].coordinate(0).nan());
            assert(!points[0].coordinate(1).nan());
            assert(!points[0].coordinate(2).nan());
        }
    }

    /// The box with the given corners.
    pub fn new(min: Point3, max: Point3) -> (r: AABB)
        requires
            (AABB { min, max }).valid(),
        ensures
            r == (AABB { min, max }),
    {
        AABB { min, max }
    }

    /// The box with these corners, where the low corner is not above the
    /// high corner on any axis.
    pub fn checked(min: Point3, max: Point3) -> (r: Option<AABB>)
        ensures
            r == if (AABB { min, max }).valid() {
                Some(AABB { min, max })
            } else {
                None
            },
    {
        if min.x.le(max.x) && min.y.le(max.y) && min.z.le(max.z) {
            Some(AABB { min, max })
        } else {
            None
        }
    }

    /// A zero-volume bounding box, where `min == max == origin`.
    pub fn empty() -> (r: AABB)
        ensures
            r == AABB::origin_box(),
            r.valid(),
    {
        let o = Scalar::zero();
        AABB::new(Point3::new(o, o, o), Point3::new(o, o, o))
    }

    /// Returns `Some(t)` if `ray` intersects this bounding box at a point
    /// given by `ray.point_at(t)`. Otherwise returns `None`.
    pub fn intersect(&self, ray: &Ray) -> (r: Option<Scalar>)
        ensures
            r == self.crossing(*ray),
            r matches Some(t) ==> !t.less(Scalar { bits: ZERO_BITS }),
    {
        let position = ray.point_at(Scalar::zero());
        let direction = ray.get_direction();
        let x_interval = Interval::new(self.min.x, self.max.x, position.x, direction.x);
        let y_interval = Interval::new(self.min.y, self.max.y, position.y, direction.y);
        let z_interval = Interval::new(self.min.z, self.max.z, position.z, direction.z);
        let t_interval = x_interval.intersect(y_interval.intersect(z_interval));
        match t_interval {
            Interval::Infinite => Some(Scalar::zero()),
            Interval::Closed(t_min, t_max) => {
                if !t_min.lt(Scalar::zero()) {
                    Some(t_min)
                } else if !t_max.lt(Scalar::zero()) {
                    // The ray starts inside the box.
                    Some(t_max)
                } else {
                    // The box lies behind the ray.
                    None
                }
            },
            Interval::Empty => None,
        }
    }

    /// Whether this is the empty box.
    pub fn is_empty(&self) -> (r: bool)
        ensures
            r == self.vacant(),
    {
        let o = Scalar::zero();
        self.min.x.equals(o) && self.min.y.equals(o) && self.min.z.equals(o) && self.max.x.equals(
            o,
        ) && self.max.y.equals(o) && self.max.z.equals(o)
    }

    /// Return the union of all the bounding boxes; the empty box is its
    /// identity.
    pub fn union(aabbs: Vec<AABB>) -> (r: AABB)
        requires
            forall|i: int| 0 <= i < aabbs.len() ==> (#[trigger] aabbs[i]).valid(),
        ensures
            r == AABB::hull(aabbs@),
            r.valid(),
    {
        proof {
            AABB::lemma_hull_valid(aabbs@);
        }
        let mut points: Vec<Point3> = Vec::new();
        let mut i: usize = 0;
        while i < aabbs.len()
            invariant
                0 <= i <= aabbs.len(),
                points@ == corners(solid(aabbs@.take(i as int))),
                points.len() == 0 <==> solid(aabbs@.take(i as int)).len() == 0,
            decreases aabbs.len() - i,
        {
            proof {
                let next = aabbs@.take(i + 1);
                assert(next.drop_last() == aabbs@.take(i as int));
                assert(next.last() == aabbs@[i as int]);
                let kept = solid(next);
                if !aabbs@[i as int].vacant() {
                    assert(kept.drop_last() =~= solid(aabbs@.take(i as int)));
                    assert(kept.last() == aabbs@[i as int]);
                }
            }
            if !aabbs[i].is_empty() {
                points.push(aabbs[i].min);
                points.push(aabbs[i].max);
            }
            i = i + 1;
        }
        proof {
            assert(aabbs@.take(aabbs.len() as int) == aabbs@);
        }
        if points.len() == 0 {
            AABB::empty()
        } else {
            let (min, max) = component_wise_range(&points);
            AABB::new(min, max)
        }
    }

    /// The smallest box around two boxes.
    pub fn union_pair(a: AABB, b: AABB) -> (r: AABB)
        requires
            a.valid(),
            b.valid(),
        ensures
            r == AABB::hull(seq![a, b]),
            r.valid(),
    {
        let mut both: Vec<AABB> = Vec::new();
        both.push(a);
        both.push(b);
        assert(both@ == seq![a, b]);
        AABB::union(both)
    }

    /// The area of the six faces.
    pub fn surface_area(&self) -> (r: Scalar)
        ensures
            r == self.area(),
    {
        let diff = self.max.sub(self.min);
        let two = Scalar::from_bits(TWO_BITS);
        two.mul(diff.x).mul(diff.y).add(two.mul(diff.x).mul(diff.z)).add(
            two.mul(diff.z).mul(diff.y),
        )
    }
}

impl Default for AABB {
    fn default() -> (r: AABB)
        ensures
            r == AABB::origin_box(),
    {
        AABB::empty()
    }
}

} // verus!
