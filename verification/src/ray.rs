//! Rays: an origin and a direction of unit length.

use vstd::prelude::*;
use crate::scalar::Scalar;
use crate::scalar::ZERO_BITS;
use crate::vector::Matrix4;
use crate::vector::Point3;
use crate::vector::Vector3;

verus! {

/// A half-line in space. The direction is brought to unit length when the
/// ray is made.
#[derive(Clone, Copy, Debug, PartialEq, Eq, Structural)]
pub struct Ray {
    pub position: Point3,
    pub direction: Vector3,
}

impl Ray {
    /// Where the ray starts.
    pub open spec fn origin(self) -> Point3 {
        self.position
    }

    /// The direction of the ray.
    pub open spec fn heading(self) -> Vector3 {
        self.direction
    }

    /// The ray from `position` along `direction` brought to unit length.
    pub open spec fn made(position: Point3, direction: Vector3) -> Ray {
        Ray { position, direction: direction.unit() }
    }

    /// The position at parameter `t`: the origin moved by `t` times the heading.
    pub open spec fn at(self, t: Scalar) -> Point3 {
        self.origin().moved(self.heading().scaled(t))
    }

    /// The parameter of the point of the ray's line that is closest to `point`.
    pub open spec fn parameter_of(self, point: Point3) -> Scalar {
        point.from(self.origin()).dot_product(self.heading())
    }

    /// The ray moved forward by `epsilon` along its heading.
    pub open spec fn advanced(self, epsilon: Scalar) -> Ray {
        Ray::made(self.at(epsilon), self.heading())
    }

    /// The image of the ray under a matrix.
    pub open spec fn image(self, transform: Matrix4) -> Ray {
        Ray::made(transform.point_image(self.origin()), transform.vector_image(self.heading()))
    }

    /// Whether the position at parameter zero and the direction are
    /// finite on every axis.
    pub open spec fn steady(self) -> bool {
        let position = self.at(Scalar { bits: ZERO_BITS });
        let direction = self.heading();
        &&& position.x.finite() && position.y.finite() && position.z.finite()
        &&& direction.x.finite() && direction.y.finite() && direction.z.finite()
    }

    /// The ray from `position` along `direction`, which is brought to unit
    /// length.
    pub fn new(position: Point3, direction: Vector3) -> (r: Ray)
        ensures
            r == Ray::made(position, direction),
            r.origin() == position,
            r.heading() == direction.unit(),
    {
        Ray { position, direction: direction.normalize() }
    }

    /// The image of the ray under a matrix, its direction brought to unit
    /// length again.
    pub fn transform_using(&self, transform: &Matrix4) -> (r: Ray)
        ensures
            r == self.image(*transform),
    {
        Ray::new(
            transform.transform_point(self.position),
            transform.transform_vector(self.direction),
        )
    }

    /// The coordinates of the position at parameter `t`.
    pub fn get_point_on_ray(&self, t: Scalar) -> (p: (Scalar, Scalar, Scalar))
        ensures
            p == (self.at(t).x, self.at(t).y, self.at(t).z),
    {
        let p = self.position.add_vector(self.direction.scale(t));
        (p.x, p.y, p.z)
    }

    /// The position at parameter `t`.
    pub fn point_at(&self, t: Scalar) -> (p: Point3)
        ensures
            p == self.at(t),
    {
        self.position.add_vector(self.direction.scale(t))
    }

    /// The `t` that makes `point_at(t)` the closest to `point`.
    pub fn get_t(&self, point: Point3) -> (t: Scalar)
        ensures
            t == self.parameter_of(point),
    {
        point.sub(self.position).dot(self.direction)
    }

    /// Whether the position at parameter zero and the direction are
    /// finite on every axis.
    pub fn is_steady(&self) -> (r: bool)
        ensures
            r == self.steady(),
    {
        let position = self.point_at(Scalar::zero());
        position.x.is_finite() && position.y.is_finite() && position.z.is_finite()
            && self.direction.x.is_finite() && self.direction.y.is_finite()
            && self.direction.z.is_finite()
    }

    pub fn get_position(&self) -> (p: Point3)
        ensures
            p == self.origin(),
    {
        self.position
    }

    pub fn get_direction(&self) -> (d: Vector3)
        ensures
            d == self.heading(),
    {
        self.direction
    }

    /// Move the ray forward by `epsilon` units, so that the new ray does not
    /// meet a surface at its own origin.
    pub fn offset(self, epsilon: Scalar) -> (r: Ray)
        ensures
            r == self.advanced(epsilon),
    {
        let position = self.position.add_vector(self.direction.scale(epsilon));
        Ray::new(position, self.direction)
    }
}

} // verus!
