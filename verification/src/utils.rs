//! Small numeric helpers: clamping, mirror and refraction directions, and
//! the coordinate-wise range of a set of points.

use vstd::prelude::*;
use crate::scalar::Scalar;
use crate::scalar::MAX_BITS;
use crate::scalar::MIN_BITS;
use crate::scalar::ONE_BITS;
use crate::scalar::TWO_BITS;
use crate::scalar::ZERO_BITS;
use crate::vector::Matrix4;
use crate::vector::Point3;
use crate::vector::Vector3;

verus! {

/// Clamps a value `x` to be in the range `[low, high]`.
pub fn clamp(x: Scalar, low: Scalar, high: Scalar) -> (r: Scalar)
    ensures
        r == x.clamped(low, high),
{
    if x.lt(low) {
        low
    } else if x.gt(high) {
        high
    } else {
        x
    }
}

/// The direction of `v` mirrored at a surface with the given normal:
/// `v - (2 * (v . n)) * n`, brought to unit length.
pub open spec fn reflected(v: Vector3, normal: Vector3) -> Vector3 {
    v.difference(normal.scaled(Scalar { bits: TWO_BITS }.times(v.dot_product(normal)))).unit()
}

/// The direction of `v` mirrored at a surface with the given normal.
pub fn reflect(v: Vector3, normal: Vector3) -> (r: Vector3)
    ensures
        r == reflected(v, normal),
{
    let two = Scalar::from_bits(TWO_BITS);
    v.sub(normal.scale(two.mul(v.dot(normal)))).normalize()
}

/// The ratio of refraction indices that a ray meets: `1 / index` when it
/// enters the surface (it runs against the normal), `index / 1` when it
/// leaves.
pub open spec fn index_ratio(v: Vector3, normal: Vector3, refraction_index: Scalar) -> Scalar {
    if v.dot_product(normal).at_most(Scalar { bits: ZERO_BITS }) {
        Scalar { bits: ONE_BITS }.over(refraction_index)
    } else {
        refraction_index.over(Scalar { bits: ONE_BITS })
    }
}

/// The direction of `v` bent at a surface by Snell's law. With `n` the index
/// ratio and `c` the cosine of the angle of incidence, the cosine of the
/// angle of refraction is `sqrt(1 - n*n * (1 - c*c))`, and the direction is
/// `v * n + (n * c - cos_out) * normal`, brought to unit length. Under total
/// internal reflection the root is taken of a negative number.
pub open spec fn refracted(v: Vector3, normal: Vector3, refraction_index: Scalar) -> Vector3 {
    let one = Scalar { bits: ONE_BITS };
    let n = index_ratio(v, normal, refraction_index);
    let cos_in = v.dot_product(normal).absolute();
    let cos_out = one.minus(n.times(n).times(one.minus(cos_in.times(cos_in)))).root();
    v.scaled(n).sum(normal.scaled(n.times(cos_in).minus(cos_out))).unit()
}

/// The direction of `v` bent at a surface by Snell's law.
pub fn refract(v: Vector3, normal: Vector3, refraction_index: Scalar) -> (r: Vector3)
    ensures
        r == refracted(v, normal, refraction_index),
{
    let one = Scalar::one();
    let n = if v.dot(normal).le(Scalar::zero()) {
        one.div(refraction_index)
    } else {
        refraction_index.div(one)
    };
    let cos_theta_in = v.dot(normal).abs();
    let cos_theta_out = one.sub(n.mul(n).mul(one.sub(cos_theta_in.mul(cos_theta_in)))).sqrt();
    v.scale(n).add(normal.scale(n.mul(cos_theta_in).sub(cos_theta_out))).normalize()
}

/// The smallest coordinate on `axis` among the points, starting from the
/// largest finite number and taking the points in order.
pub open spec fn lowest(points: Seq<Point3>, axis: int) -> Scalar
    decreases points.len(),
{
    if points.len() == 0 {
        Scalar { bits: MAX_BITS }
    } else {
        lowest(points.drop_last(), axis).lower(points.last().coordinate(axis))
    }
}

/// The largest coordinate on `axis` among the points, starting from the
/// smallest finite number and taking the points in order.
pub open spec fn highest(points: Seq<Point3>, axis: int) -> Scalar
    decreases points.len(),
{
    if points.len() == 0 {
        Scalar { bits: MIN_BITS }
    } else {
        highest(points.drop_last(), axis).upper(points.last().coordinate(axis))
    }
}

/// The corner of smallest coordinates of the points.
pub open spec fn low_corner(points: Seq<Point3>) -> Point3 {
    Point3 { x: lowest(points, 0), y: lowest(points, 1), z: lowest(points, 2) }
}

/// The corner of largest coordinates of the points.
pub open spec fn high_corner(points: Seq<Point3>) -> Point3 {
    Point3 { x: highest(points, 0), y: highest(points, 1), z: highest(points, 2) }
}

/// The range bounds every point that is a number on the axis, and its ends
/// are numbers.
pub proof fn lemma_range_bounds(points: Seq<Point3>, axis: int)
    ensures
        !lowest(points, axis).nan(),
        !highest(points, axis).nan(),
        forall|i: int|
            0 <= i < points.len() && !(#[trigger] points[i]).coordinate(axis).nan() ==> lowest(
                points,
                axis,
            ).at_most(points[i].coordinate(axis)) && points[i].coordinate(axis).at_most(
                highest(points, axis),
            ),
    decreases points.len(),
{
    if points.len() > 0 {
        lemma_range_bounds(points.drop_last(), axis);
        assert forall|i: int|
            0 <= i < points.len() && !(#[trigger] points[i]).coordinate(axis).nan() implies lowest(
            points,
            axis,
        ).at_most(points[i].coordinate(axis)) && points[i].coordinate(axis).at_most(
            highest(points, axis),
        ) by {
            if i < points.len() - 1 {
                assert(points.drop_last()[i] == points[i]);
            }
        }
    }
}

/// Returns the (min, max) of each dimension for the collection of points.
pub fn component_wise_range(points: &Vec<Point3>) -> (r: (Point3, Point3))
    requires
        points.len() > 0,
    ensures
        r.0 == low_corner(points@),
        r.1 == high_corner(points@),
{
    let top = Scalar::from_bits(MAX_BITS);
    let bottom = Scalar::from_bits(MIN_BITS);
    let mut min = Point3::new(top, top, top);
    let mut max = Point3::new(bottom, bottom, bottom);
    let mut i: usize = 0;
    while i < points.len()
        invariant
            0 <= i <= points.len(),
            min == low_corner(points@.take(i as int)),
            max == high_corner(points@.take(i as int)),
        decreases points.len() - i,
    {
        let p = points[i];
        proof {
            let next = points@.take(i + 1);
            assert(next.drop_last() == points@.take(i as int));
            assert(next.last() == points@[i as int]);
        }
        min = Point3::new(min.x.min(p.x), min.y.min(p.y), min.z.min(p.z));
        max = Point3::new(max.x.max(p.x), max.y.max(p.y), max.z.max(p.z));
        i = i + 1;
    }
    proof {
        assert(points@.take(points.len() as int) == points@);
    }
    (min, max)
}

/// How much a matrix stretches the unit vector of each axis.
pub open spec fn axis_scaling(mat: Matrix4) -> Vector3 {
    let o = Scalar { bits: ZERO_BITS };
    let i = Scalar { bits: ONE_BITS };
    Vector3 {
        x: mat.vector_image(Vector3 { x: i, y: o, z: o }).length(),
        y: mat.vector_image(Vector3 { x: o, y: i, z: o }).length(),
        z: mat.vector_image(Vector3 { x: o, y: o, z: i }).length(),
    }
}

/// Get the scaling factor that a matrix `mat` has on the unit vectors.
/// Returns a triple representing how much x, y, and z are scaled.
pub fn get_axis_scaling(mat: &Matrix4) -> (r: Vector3)
    ensures
        r == axis_scaling(*mat),
{
    let o = Scalar::zero();
    let i = Scalar::one();
    Vector3::new(
        mat.transform_vector(Vector3::new(i, o, o)).magnitude(),
        mat.transform_vector(Vector3::new(o, i, o)).magnitude(),
        mat.transform_vector(Vector3::new(o, o, i)).magnitude(),
    )
}

} // verus!
