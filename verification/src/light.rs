//! Lights, and whether a light reaches a point of the scene.

use vstd::prelude::*;
use crate::bvh::Bvh;
use crate::color::Color;
use crate::math::Math;
use crate::ray::Ray;
use crate::scalar::Scalar;
use crate::scalar::ONE_BITS;
use crate::scalar::ZERO_BITS;
use crate::utils::clamp;
use crate::vector::Point3;
use crate::vector::Vector3;

verus! {

/// The pattern of `1e-4`, the distance by which a ray is moved off the
/// surface it starts on, and the tolerance of the shadow test.
pub const EPSILON_BITS: u32 = 0x38d1_b717;

/// The pattern of `5.0`, the intensity of a point light at unit distance.
pub const INTENSITY_BITS: u32 = 0x40a0_0000;

/// The pattern of `0.001`, which keeps the falloff finite at the light.
pub const SOFTENING_BITS: u32 = 0x3a83_126f;

/// The pattern of `8.0`, the width in degrees of the rim of a cone over
/// which its light fades.
pub const FALLOFF_RANGE_BITS: u32 = 0x4100_0000;

/// The pattern of pi over 180, which turns degrees into radians.
pub const RADIANS_PER_DEGREE_BITS: u32 = 0x3c8e_fa35;

/// The pattern of 180 over pi, which turns radians into degrees.
pub const DEGREES_PER_RADIAN_BITS: u32 = 0x4265_2ee1;

/// Ambient light has no position or direction. Point lights illuminate
/// from a single position. Directional lights represent parallel rays
/// coming from infinitely far away. Cone lights are a point source in a
/// certain direction, but only illuminate within an angle of the
/// direction.
#[derive(Clone, Copy, Debug, PartialEq, Eq, Structural)]
pub enum LightType {
    Ambient,
    /// The position of the light.
    Point(Point3),
    /// The direction of the parallel light rays.
    Directional(Vector3),
    /// The position of the light, the direction of its axis and the angle
    /// of the cone in degrees.
    Cone(Point3, Vector3, Scalar),
}

/// A light.
#[derive(Clone, Copy, Debug, PartialEq, Eq, Structural)]
pub struct Light {
    pub color: Color,
    pub light_type: LightType,
}

/// The intensity of a point light at `position`, as it arrives at `point`:
/// `5 / (0.001 + d^2)` at distance `d`.
pub open spec fn falloff(position: Point3, point: Point3) -> Scalar {
    Scalar { bits: INTENSITY_BITS }.over(
        Scalar { bits: SOFTENING_BITS }.plus(position.from(point).length_squared()),
    )
}

/// Whether nothing stands between the light at `light_position` and
/// `point`: the ray from the light along `light_direction` meets nothing,
/// or the first surface it meets is not nearer to the light than the point
/// by more than `1e-4`.
pub open spec fn unobstructed(
    point: Point3,
    light_position: Point3,
    light_direction: Vector3,
    bvh: Bvh,
) -> bool {
    match bvh.nearest(Ray::made(light_position, light_direction)) {
        Some((_, shadow_t)) => !shadow_t.plus(Scalar { bits: EPSILON_BITS }).less(
            point.separation(light_position),
        ),
        None => true,
    }
}

/// Whether the light at `light_position` shines on `point`: nothing stands
/// between them on the ray from the light towards the point.
pub open spec fn unshadowed(point: Point3, light_position: Point3, bvh: Bvh) -> bool {
    unobstructed(point, light_position, point.from(light_position), bvh)
}

/// The ray from `point` against the direction of a directional light,
/// moved forward by `1e-4` so that it does not meet the surface it starts
/// on.
pub open spec fn ray_to_sky(point: Point3, direction: Vector3) -> Ray {
    Ray::made(point, direction.opposite()).advanced(Scalar { bits: EPSILON_BITS })
}

/// The angle between two directions in radians: the arc tangent of the
/// length of their cross product over their dot product.
pub open spec fn angle_between<
    P: Fn(Scalar, Scalar) -> Scalar,
    C: Fn(Scalar) -> Scalar,
    A: Fn(Scalar, Scalar) -> Scalar,
>(a: Vector3, b: Vector3, math: Math<P, C, A>) -> Scalar {
    math.arc_tangent(a.cross_product(b).length(), a.dot_product(b))
}

/// How much of the light of a cone arrives in the direction of `point`:
/// the angle that is left to the edge of the cone, over the eight degrees
/// of the rim, kept between 0 and 1.
pub open spec fn cone_falloff<
    P: Fn(Scalar, Scalar) -> Scalar,
    C: Fn(Scalar) -> Scalar,
    A: Fn(Scalar, Scalar) -> Scalar,
>(position: Point3, direction: Vector3, angle: Scalar, point: Point3, math: Math<P, C, A>)
    -> Scalar {
    let angle_to_point = angle_between(direction, point.from(position), math).times(
        Scalar { bits: DEGREES_PER_RADIAN_BITS },
    );
    angle.minus(angle_to_point).over(Scalar { bits: FALLOFF_RANGE_BITS }).clamped(
        Scalar { bits: ZERO_BITS },
        Scalar { bits: ONE_BITS },
    )
}

/// The angle in radians between two directions.
pub fn angle<
    P: Fn(Scalar, Scalar) -> Scalar,
    C: Fn(Scalar) -> Scalar,
    A: Fn(Scalar, Scalar) -> Scalar,
>(a: Vector3, b: Vector3, math: &Math<P, C, A>) -> (r: Scalar)
    requires
        math.functional(),
    ensures
        r == angle_between(a, b, *math),
{
    math.arctan2(a.cross(b).magnitude(), a.dot(b))
}

impl Light {
    /// Whether the light reaches the point. Ambient light always does; a
    /// point light does where the point is not in shadow; a directional
    /// light does where nothing lies between the point and the sky; a cone
    /// light does where the point lies within the angle of the cone and is
    /// not in shadow.
    pub open spec fn reaches<
        P: Fn(Scalar, Scalar) -> Scalar,
        C: Fn(Scalar) -> Scalar,
        A: Fn(Scalar, Scalar) -> Scalar,
    >(self, point: Point3, bvh: Bvh, math: Math<P, C, A>) -> bool {
        match self.light_type {
            LightType::Ambient => true,
            LightType::Point(light_position) => unshadowed(point, light_position, bvh),
            LightType::Directional(direction) => bvh.nearest(ray_to_sky(point, direction)).is_none(),
            LightType::Cone(light_position, direction, angle) => {
                &&& !angle.times(Scalar { bits: RADIANS_PER_DEGREE_BITS }).less(
                    angle_between(direction, point.from(light_position), math),
                )
                &&& unshadowed(point, light_position, bvh)
            },
        }
    }

    /// The intensity of the light as it arrives at `point`: of a point
    /// light `5 / (0.001 + d^2)` at distance `d`; of a cone light its share
    /// in the direction of the point, times 5, over `0.001 + d^2`. Ambient
    /// and directional light have no falloff.
    pub open spec fn falloff_at<
        P: Fn(Scalar, Scalar) -> Scalar,
        C: Fn(Scalar) -> Scalar,
        A: Fn(Scalar, Scalar) -> Scalar,
    >(self, point: Point3, math: Math<P, C, A>) -> Scalar {
        match self.light_type {
            LightType::Point(position) => falloff(position, point),
            LightType::Cone(position, direction, angle) => cone_falloff(
                position,
                direction,
                angle,
                point,
                math,
            ).times(Scalar { bits: INTENSITY_BITS }).over(
                Scalar { bits: SOFTENING_BITS }.plus(position.from(point).length_squared()),
            ),
            _ => Scalar { bits: ONE_BITS },
        }
    }

    pub fn new_point(position: Point3, color: Color) -> (r: Light)
        ensures
            r == (Light { color, light_type: LightType::Point(position) }),
    {
        Light { color, light_type: LightType::Point(position) }
    }

    pub fn new_ambient(color: Color) -> (r: Light)
        ensures
            r == (Light { color, light_type: LightType::Ambient }),
    {
        Light { color, light_type: LightType::Ambient }
    }

    /// The light that shines along `direction`, which is brought to unit
    /// length.
    pub fn new_directional(direction: Vector3, color: Color) -> (r: Light)
        ensures
            r == (Light { color, light_type: LightType::Directional(direction.unit()) }),
    {
        Light { color, light_type: LightType::Directional(direction.normalize()) }
    }

    /// The light at `position` that shines along `direction`, which is
    /// brought to unit length, within `angle` degrees of it.
    pub fn new_cone(position: Point3, direction: Vector3, angle: Scalar, color: Color) -> (r: Light)
        ensures
            r == (Light { color, light_type: LightType::Cone(position, direction.unit(), angle) }),
    {
        Light { color, light_type: LightType::Cone(position, direction.normalize(), angle) }
    }

    /// The intensity of a point light or a cone light as it arrives at
    /// `point`.
    pub fn get_falloff_at<
        P: Fn(Scalar, Scalar) -> Scalar,
        C: Fn(Scalar) -> Scalar,
        A: Fn(Scalar, Scalar) -> Scalar,
    >(&self, point: Point3, math: &Math<P, C, A>) -> (r: Scalar)
        requires
            self.light_type is Point || self.light_type is Cone,
            math.functional(),
        ensures
            r == self.falloff_at(point, *math),
    {
        match self.light_type {
            LightType::Point(position) => {
                let distance_sqrd = position.sub(point).magnitude2();
                Scalar::from_bits(INTENSITY_BITS).div(
                    Scalar::from_bits(SOFTENING_BITS).add(distance_sqrd),
                )
            },
            LightType::Cone(position, direction, angle_of_cone) => {
                let cone_falloff = {
                    let falloff_range = Scalar::from_bits(FALLOFF_RANGE_BITS);
                    let angle_to_point = angle(direction, point.sub(position), math).mul(
                        Scalar::from_bits(DEGREES_PER_RADIAN_BITS),
                    );
                    let angle_delta = angle_of_cone.sub(angle_to_point);
                    clamp(angle_delta.div(falloff_range), Scalar::zero(), Scalar::one())
                };
                let distance_sqrd = position.sub(point).magnitude2();
                cone_falloff.mul(Scalar::from_bits(INTENSITY_BITS)).div(
                    Scalar::from_bits(SOFTENING_BITS).add(distance_sqrd),
                )
            },
            _ => vstd::pervasive::unreached(),
        }
    }

    /// Whether the light at `light_position`, shining along
    /// `light_direction`, is seen from `point`: true where the point is lit,
    /// false where it is in shadow.
    pub fn in_shadow(
        point: Point3,
        light_position: Point3,
        light_direction: Vector3,
        bvh: &Bvh,
    ) -> (r: bool)
        ensures
            r == unobstructed(point, light_position, light_direction, *bvh),
    {
        let light_ray = Ray::new(light_position, light_direction);
        let light_to_point_t = point.distance(light_position);
        match bvh.closest_index(&light_ray) {
            Some((_, shadow_t)) => {
                let epsilon = Scalar::from_bits(EPSILON_BITS);
                let is_in_shadow = shadow_t.add(epsilon).lt(light_to_point_t);
                !is_in_shadow
            },
            // Nothing is met at all: nothing casts a shadow.
            None => true,
        }
    }

    /// Whether the light reaches the point.
    pub fn reaches_point<
        P: Fn(Scalar, Scalar) -> Scalar,
        C: Fn(Scalar) -> Scalar,
        A: Fn(Scalar, Scalar) -> Scalar,
    >(&self, point: Point3, bvh: &Bvh, math: &Math<P, C, A>) -> (r: bool)
        requires
            math.functional(),
        ensures
            r == self.reaches(point, *bvh, *math),
    {
        match self.light_type {
            LightType::Ambient => true,
            LightType::Point(light_position) => {
                let light_direction = point.sub(light_position);
                Light::in_shadow(point, light_position, light_direction, bvh)
            },
            LightType::Directional(direction) => {
                // Checks whether a ray starting from the point, going in
                // the opposite direction of the light, hits another object.
                let object_to_light = Ray::new(point, direction.neg());
                let object_to_light = object_to_light.offset(Scalar::from_bits(EPSILON_BITS));
                bvh.closest_index(&object_to_light).is_none()
            },
            LightType::Cone(light_position, direction, angle_of_cone) => {
                let light_direction = point.sub(light_position);
                let widest = angle_of_cone.mul(Scalar::from_bits(RADIANS_PER_DEGREE_BITS));
                if angle(direction, light_direction, math).gt(widest) {
                    false
                } else {
                    Light::in_shadow(point, light_position, light_direction, bvh)
                }
            },
        }
    }
}

} // verus!
