//! The primitives of a scene: spheres, triangles and quads, each with a
//! transformation into the world and a material.

use vstd::prelude::*;
use crate::color::Color;
use crate::light::Light;
use crate::material::Material;
use crate::math::Math;
use crate::world::World;
use crate::ray::Ray;
use crate::scalar::Scalar;
use crate::scalar::ZERO_BITS;
use crate::utils::component_wise_range;
use crate::utils::high_corner;
use crate::utils::low_corner;
use crate::vector::Matrix4;
use crate::vector::Point2;
use crate::vector::Point3;
use crate::vector::Vector3;

verus! {

/// The pattern of pi.
pub const PI_BITS: u32 = 0x4049_0fdb;

/// The pattern of twice pi.
pub const TWO_PI_BITS: u32 = 0x40c9_0fdb;

/// The shape of a primitive, in its own space.
#[derive(Clone, Copy, Debug, PartialEq, Eq, Structural)]
pub enum ObjectType {
    /// A centre and a radius.
    Sphere(Point3, Scalar),
    /// Three corners, counter-clockwise as seen from the front.
    Triangle(Point3, Point3, Point3),
    /// Four corners, counter-clockwise as seen from the front.
    Quad(Point3, Point3, Point3, Point3),
}

/// A primitive.
#[derive(Debug)]
pub struct Object {
    pub object_type: ObjectType,
    pub object_to_world: Matrix4,
    pub world_to_object: Matrix4,
    pub material: Material,
}

/// The unit normal of the plane through `a`, `b` and `d`.
pub open spec fn plane_normal(a: Point3, b: Point3, d: Point3) -> Vector3 {
    b.from(a).cross_product(d.from(a)).unit()
}

/// Whether `p` lies on the inner side of the edge from `from` to `to`, as
/// seen along `normal`: the sign bit of `((to - from) x (p - from)) . normal`
/// is clear.
pub open spec fn inside_edge(from: Point3, to: Point3, p: Point3, normal: Vector3) -> bool {
    !to.from(from).cross_product(p.from(from)).dot_product(normal).negative()
}

/// The smaller of the two parameters at which a line meets a sphere, among
/// those with a clear sign bit; of the two, the first unless it is greater.
pub open spec fn nearer_root(first: Scalar, second: Scalar) -> Option<Scalar> {
    if !first.negative() && !second.negative() {
        if second.less(first) {
            Some(second)
        } else {
            Some(first)
        }
    } else if !first.negative() {
        Some(first)
    } else if !second.negative() {
        Some(second)
    } else {
        None
    }
}

/// The parameter at which a ray in the space of a sphere meets it.
pub open spec fn sphere_hit(center: Point3, radius: Scalar, ray: Ray) -> Option<Scalar> {
    let position = ray.at(Scalar { bits: ZERO_BITS });
    let t = center.from(position).dot_product(ray.heading());
    let radius_sqrd = radius.times(radius);
    let dist_to_center_sqrd = center.from(ray.at(t)).length_squared();
    if dist_to_center_sqrd.at_most(radius_sqrd) {
        let delta = radius_sqrd.minus(dist_to_center_sqrd).root();
        nearer_root(t.minus(delta), t.plus(delta))
    } else {
        None
    }
}

/// The parameter at which a ray meets the plane of a polygon from its
/// front, if the direction runs against the normal and the parameter is
/// positive.
pub open spec fn plane_hit(a: Point3, normal: Vector3, ray: Ray) -> Option<Scalar> {
    let position = ray.at(Scalar { bits: ZERO_BITS });
    let facing = ray.heading().dot_product(normal);
    let t = a.from(position).dot_product(normal).over(facing);
    if facing.less(Scalar { bits: ZERO_BITS }) && (Scalar { bits: ZERO_BITS }).less(t) {
        Some(t)
    } else {
        None
    }
}

/// The parameter at which a ray in the space of a triangle meets it.
pub open spec fn triangle_hit(a: Point3, b: Point3, c: Point3, ray: Ray) -> Option<Scalar> {
    let normal = plane_normal(a, b, c);
    match plane_hit(a, normal, ray) {
        Some(t) => {
            let p = ray.at(t);
            if inside_edge(a, b, p, normal) && inside_edge(b, c, p, normal) && inside_edge(
                c,
                a,
                p,
                normal,
            ) {
                Some(t)
            } else {
                None
            }
        },
        None => None,
    }
}

/// The parameter at which a ray in the space of a quad meets it.
pub open spec fn quad_hit(a: Point3, b: Point3, c: Point3, d: Point3, ray: Ray) -> Option<
    Scalar,
> {
    let normal = plane_normal(a, b, d);
    match plane_hit(a, normal, ray) {
        Some(t) => {
            let p = ray.at(t);
            if inside_edge(a, b, p, normal) && inside_edge(b, c, p, normal) && inside_edge(
                c,
                d,
                p,
                normal,
            ) && inside_edge(d, a, p, normal) {
                Some(t)
            } else {
                None
            }
        },
        None => None,
    }
}

/// The eight corners of the cube around a sphere: the centre moved by the
/// radius, down or up, on each axis.
pub open spec fn cube_corners(center: Point3, radius: Scalar) -> Seq<Point3> {
    let lo = center.moved_back(Vector3 { x: radius, y: radius, z: radius });
    let hi = center.moved(Vector3 { x: radius, y: radius, z: radius });
    seq![
        Point3 { x: lo.x, y: lo.y, z: lo.z },
        Point3 { x: hi.x, y: lo.y, z: lo.z },
        Point3 { x: lo.x, y: hi.y, z: lo.z },
        Point3 { x: hi.x, y: hi.y, z: lo.z },
        Point3 { x: lo.x, y: lo.y, z: hi.z },
        Point3 { x: hi.x, y: lo.y, z: hi.z },
        Point3 { x: lo.x, y: hi.y, z: hi.z },
        Point3 { x: hi.x, y: hi.y, z: hi.z },
    ]
}

/// How far along the edge from `a` to `b` the point `p` lies, the whole
/// edge being 1: `(b - a) . (p - a) / |b - a|^2`.
pub open spec fn along_edge(a: Point3, b: Point3, p: Point3) -> Scalar {
    b.from(a).dot_product(p.from(a)).over(b.from(a).length_squared())
}

impl Object {
    /// The parameter at which a ray in the space of the object meets its
    /// shape.
    pub open spec fn local_hit(self, local: Ray) -> Option<Scalar> {
        match self.object_type {
            ObjectType::Sphere(center, radius) => sphere_hit(center, radius, local),
            ObjectType::Quad(a, b, c, d) => quad_hit(a, b, c, d, local),
            ObjectType::Triangle(a, b, c) => triangle_hit(a, b, c, local),
        }
    }

    /// The parameter at which a world-space ray meets the object. The ray
    /// is taken into the space of the object and met with the shape there;
    /// the point found is taken back into the world, and its parameter on
    /// the world-space ray is the result. A parameter that is negative or
    /// not a number is no meeting.
    pub open spec fn hit(self, ray: Ray) -> Option<Scalar> {
        let local = ray.image(self.world_to_object);
        match self.local_hit(local) {
            Some(t) => {
                let world = ray.parameter_of(self.object_to_world.point_image(local.at(t)));
                if world.nan() || world.less(Scalar { bits: ZERO_BITS }) {
                    None
                } else {
                    Some(world)
                }
            },
            None => None,
        }
    }

    /// A ray meets an object ahead of its origin, at a parameter that is a
    /// number.
    pub proof fn lemma_hit_is_ahead(self, ray: Ray)
        ensures
            self.hit(ray) matches Some(t) ==> !t.nan() && !t.less(Scalar { bits: ZERO_BITS }),
    {
    }

    /// The unit normal of the object at a world-space point.
    pub open spec fn normal_at(self, point: Point3) -> Vector3 {
        let local = self.world_to_object.point_image(point);
        let normal = match self.object_type {
            ObjectType::Sphere(center, _) => local.from(center).unit(),
            ObjectType::Quad(a, b, _, d) => plane_normal(a, b, d),
            ObjectType::Triangle(a, b, c) => plane_normal(a, b, c),
        };
        self.object_to_world.vector_image(normal).unit()
    }

    /// The texture coordinates of a world-space point of the object. On a
    /// sphere they are the polar angle of the point over a full turn and
    /// its azimuth over a half turn; on a triangle and a quad, how far
    /// along the two edges that leave the first corner the point lies.
    pub open spec fn uv_at<
        P: Fn(Scalar, Scalar) -> Scalar,
        C: Fn(Scalar) -> Scalar,
        A: Fn(Scalar, Scalar) -> Scalar,
    >(self, point: Point3, math: Math<P, C, A>) -> Point2 {
        let local = self.world_to_object.point_image(point);
        match self.object_type {
            ObjectType::Sphere(center, _) => {
                let d = local.from(center).unit();
                Point2 {
                    x: math.arc_cosine(d.z).over(Scalar { bits: TWO_PI_BITS }),
                    y: math.arc_tangent(d.y, d.x).over(Scalar { bits: PI_BITS }),
                }
            },
            ObjectType::Quad(a, b, _, d) => Point2 {
                x: along_edge(a, b, local),
                y: along_edge(a, d, local),
            },
            ObjectType::Triangle(a, b, c) => Point2 {
                x: along_edge(a, b, local),
                y: along_edge(a, c, local),
            },
        }
    }

    /// The world-space corners of the box around the object: the range of
    /// the images of the corners; for a sphere, of the corners of the cube
    /// around it in its own space.
    pub open spec fn bounds(self) -> (Point3, Point3) {
        match self.object_type {
            ObjectType::Sphere(center, radius) => {
                let m = self.object_to_world;
                let points = cube_corners(center, radius).map_values(
                    |corner: Point3| m.point_image(corner),
                );
                (low_corner(points), high_corner(points))
            },
            ObjectType::Quad(a, b, c, d) => {
                let m = self.object_to_world;
                let points = seq![
                    m.point_image(a),
                    m.point_image(b),
                    m.point_image(c),
                    m.point_image(d),
                ];
                (low_corner(points), high_corner(points))
            },
            ObjectType::Triangle(a, b, c) => {
                let m = self.object_to_world;
                let points = seq![m.point_image(a), m.point_image(b), m.point_image(c)];
                (low_corner(points), high_corner(points))
            },
        }
    }

    pub fn new_sphere(center: Point3, radius: Scalar, material: Material) -> (r: Object)
        ensures
            r.object_type == ObjectType::Sphere(center, radius),
            r.object_to_world == Matrix4::unit_matrix(),
            r.world_to_object == Matrix4::unit_matrix(),
            r.material == material,
    {
        Object {
            object_type: ObjectType::Sphere(center, radius),
            object_to_world: Matrix4::identity(),
            world_to_object: Matrix4::identity(),
            material,
        }
    }

    pub fn new_quad(a: Point3, b: Point3, c: Point3, d: Point3, material: Material) -> (r: Object)
        ensures
            r.object_type == ObjectType::Quad(a, b, c, d),
            r.object_to_world == Matrix4::unit_matrix(),
            r.world_to_object == Matrix4::unit_matrix(),
            r.material == material,
    {
        Object {
            object_type: ObjectType::Quad(a, b, c, d),
            object_to_world: Matrix4::identity(),
            world_to_object: Matrix4::identity(),
            material,
        }
    }

    pub fn new_triangle(a: Point3, b: Point3, c: Point3, material: Material) -> (r: Object)
        ensures
            r.object_type == ObjectType::Triangle(a, b, c),
            r.object_to_world == Matrix4::unit_matrix(),
            r.world_to_object == Matrix4::unit_matrix(),
            r.material == material,
    {
        Object {
            object_type: ObjectType::Triangle(a, b, c),
            object_to_world: Matrix4::identity(),
            world_to_object: Matrix4::identity(),
            material,
        }
    }

    /// The object under the given transformation into the world, with the
    /// inverse of that transformation as the caller computed it.
    pub fn transform(self, object_to_world: Matrix4, world_to_object: Matrix4) -> (r: Object)
        ensures
            r.object_type == self.object_type,
            r.object_to_world == object_to_world,
            r.world_to_object == world_to_object,
            r.material == self.material,
    {
        Object {
            object_type: self.object_type,
            object_to_world,
            world_to_object,
            material: self.material,
        }
    }

    pub fn get_object_to_world(&self) -> (m: &Matrix4)
        ensures
            *m == self.object_to_world,
    {
        &self.object_to_world
    }

    pub fn get_world_to_object(&self) -> (m: &Matrix4)
        ensures
            *m == self.world_to_object,
    {
        &self.world_to_object
    }

    /// The parameter at which a ray in the space of the object meets its
    /// shape.
    fn get_local_intersection(&self, object_space_ray: &Ray) -> (r: Option<Scalar>)
        ensures
            r == self.local_hit(*object_space_ray),
    {
        let position = object_space_ray.point_at(Scalar::zero());
        let direction = object_space_ray.get_direction();
        match self.object_type {
            ObjectType::Sphere(center, radius) => {
                let t = center.sub(position).dot(direction);
                let closest_point_to_center = object_space_ray.point_at(t);
                let radius_sqrd = radius.mul(radius);
                let dist_to_center_sqrd = center.sub(closest_point_to_center).magnitude2();
                if dist_to_center_sqrd.le(radius_sqrd) {
                    let delta = radius_sqrd.sub(dist_to_center_sqrd).sqrt();
                    // Find the smallest positive t value.
                    let first = t.sub(delta);
                    let second = t.add(delta);
                    if first.is_sign_positive() && second.is_sign_positive() {
                        if first.gt(second) {
                            Some(second)
                        } else {
                            Some(first)
                        }
                    } else if first.is_sign_positive() {
                        Some(first)
                    } else if second.is_sign_positive() {
                        Some(second)
                    } else {
                        None
                    }
                } else {
                    None
                }
            },
            ObjectType::Quad(a, b, c, d) => {
                let normal = b.sub(a).cross(d.sub(a)).normalize();
                if direction.dot(normal).lt(Scalar::zero()) {
                    let t = a.sub(position).dot(normal).div(direction.dot(normal));
                    if t.gt(Scalar::zero()) {
                        let p = object_space_ray.point_at(t);
                        let inside_quad = b.sub(a).cross(p.sub(a)).dot(normal).is_sign_positive()
                            && c.sub(b).cross(p.sub(b)).dot(normal).is_sign_positive()
                            && d.sub(c).cross(p.sub(c)).dot(normal).is_sign_positive()
                            && a.sub(d).cross(p.sub(d)).dot(normal).is_sign_positive();
                        if inside_quad {
                            return Some(t);
                        }
                    }
                }
                None
            },
            ObjectType::Triangle(a, b, c) => {
                let normal = b.sub(a).cross(c.sub(a)).normalize();
                if direction.dot(normal).lt(Scalar::zero()) {
                    let t = a.sub(position).dot(normal).div(direction.dot(normal));
                    if t.gt(Scalar::zero()) {
                        let p = object_space_ray.point_at(t);
                        let inside_triangle = b.sub(a).cross(p.sub(a)).dot(
                            normal,
                        ).is_sign_positive() && c.sub(b).cross(p.sub(b)).dot(
                            normal,
                        ).is_sign_positive() && a.sub(c).cross(p.sub(c)).dot(
                            normal,
                        ).is_sign_positive();
                        if inside_triangle {
                            return Some(t);
                        }
                    }
                }
                None
            },
        }
    }

    /// If `ray` intersects this object, returns `t` such that the
    /// intersection point is at `ray.point_at(t)`; `t` is a number and not
    /// negative. Both `ray` and `t` are in world space coordinates.
    pub fn get_intersection(&self, ray: &Ray) -> (r: Option<Scalar>)
        ensures
            r == self.hit(*ray),
            r matches Some(t) ==> !t.nan() && !t.less(Scalar { bits: ZERO_BITS }),
    {
        let object_space_ray = ray.transform_using(self.get_world_to_object());
        match self.get_local_intersection(&object_space_ray) {
            Some(t) => {
                let object_space_point = object_space_ray.point_at(t);
                let point = self.get_object_to_world().transform_point(object_space_point);
                let world_t = ray.get_t(point);
                if world_t.is_nan() || world_t.lt(Scalar::zero()) {
                    None
                } else {
                    Some(world_t)
                }
            },
            None => None,
        }
    }

    /// Returns the color of the object at the point given by
    /// `incoming_ray.point_at(t)`.
    pub fn get_color<
    P: Fn(Scalar, Scalar) -> Scalar,
    C: Fn(Scalar) -> Scalar,
    A: Fn(Scalar, Scalar) -> Scalar,
>(
        &self,
        incoming_ray: &Ray,
        t: Scalar,
        lights: &Vec<Light>,
        world: &World,
        max_depth: u16,
        math: &Math<P, C, A>,
    ) -> (c: Color)
        requires
            math.functional(),
        ensures
            c == self.material.colored(
                *incoming_ray,
                t,
                *self,
                lights@,
                *world,
                max_depth as nat,
                *math,
            ),
        decreases max_depth + 1, 0nat, self.material.material_type, 2nat,
    {
        self.material.get_color(incoming_ray, t, self, lights, world, max_depth, math)
    }

    /// Returns the normal of the object at `point` in world space
    /// coordinates.
    pub fn get_normal(&self, point: Point3) -> (n: Vector3)
        ensures
            n == self.normal_at(point),
    {
        let point = self.get_world_to_object().transform_point(point);
        let normal = match self.object_type {
            ObjectType::Sphere(center, _) => point.sub(center).normalize(),
            ObjectType::Quad(a, b, _c, d) => b.sub(a).cross(d.sub(a)).normalize(),
            ObjectType::Triangle(a, b, c) => b.sub(a).cross(c.sub(a)).normalize(),
        };
        self.get_object_to_world().transform_vector(normal).normalize()
    }

    /// Returns the uv texture coordinates of the object at `point`, which
    /// is in world space coordinates.
    pub fn get_uv<
        P: Fn(Scalar, Scalar) -> Scalar,
        C: Fn(Scalar) -> Scalar,
        A: Fn(Scalar, Scalar) -> Scalar,
    >(&self, point: Point3, math: &Math<P, C, A>) -> (uv: Point2)
        requires
            math.functional(),
        ensures
            uv == self.uv_at(point, *math),
    {
        let point = self.get_world_to_object().transform_point(point);
        match self.object_type {
            ObjectType::Sphere(center, _) => {
                let d = point.sub(center).normalize();
                let theta = math.arccos(d.z);
                let phi = math.arctan2(d.y, d.x);
                Point2 {
                    x: theta.div(Scalar::from_bits(TWO_PI_BITS)),
                    y: phi.div(Scalar::from_bits(PI_BITS)),
                }
            },
            ObjectType::Quad(a, b, _c, d) => {
                let u = b.sub(a).dot(point.sub(a)).div(b.sub(a).magnitude2());
                let v = d.sub(a).dot(point.sub(a)).div(d.sub(a).magnitude2());
                Point2 { x: u, y: v }
            },
            ObjectType::Triangle(a, b, c) => {
                let u = b.sub(a).dot(point.sub(a)).div(b.sub(a).magnitude2());
                let v = c.sub(a).dot(point.sub(a)).div(c.sub(a).magnitude2());
                Point2 { x: u, y: v }
            },
        }
    }

    /// Return the axis-aligned minimum bounding box for this object in
    /// world space coordinates.
    pub fn get_bounding_box(&self) -> (r: (Point3, Point3))
        ensures
            r == self.bounds(),
    {
        let object_to_world = self.get_object_to_world();
        match self.object_type {
            ObjectType::Sphere(center, radius) => {
                // The images of the corners of the cube around the sphere
                // bound the image of the sphere.
                let radius = Vector3::new(radius, radius, radius);
                let lo = center.sub_vector(radius);
                let hi = center.add_vector(radius);
                let mut points: Vec<Point3> = Vec::new();
                points.push(object_to_world.transform_point(Point3::new(lo.x, lo.y, lo.z)));
                points.push(object_to_world.transform_point(Point3::new(hi.x, lo.y, lo.z)));
                points.push(object_to_world.transform_point(Point3::new(lo.x, hi.y, lo.z)));
                points.push(object_to_world.transform_point(Point3::new(hi.x, hi.y, lo.z)));
                points.push(object_to_world.transform_point(Point3::new(lo.x, lo.y, hi.z)));
                points.push(object_to_world.transform_point(Point3::new(hi.x, lo.y, hi.z)));
                points.push(object_to_world.transform_point(Point3::new(lo.x, hi.y, hi.z)));
                points.push(object_to_world.transform_point(Point3::new(hi.x, hi.y, hi.z)));
                assert(points@ =~= cube_corners(center, self.object_type->Sphere_1).map_values(
                    |corner: Point3| self.object_to_world.point_image(corner),
                ));
                component_wise_range(&points)
            },
            ObjectType::Quad(a, b, c, d) => {
                let mut points: Vec<Point3> = Vec::new();
                points.push(object_to_world.transform_point(a));
                points.push(object_to_world.transform_point(b));
                points.push(object_to_world.transform_point(c));
                points.push(object_to_world.transform_point(d));
                assert(points@ =~= seq![
                    self.object_to_world.point_image(a),
                    self.object_to_world.point_image(b),
                    self.object_to_world.point_image(c),
                    self.object_to_world.point_image(d),
                ]);
                component_wise_range(&points)
            },
            ObjectType::Triangle(a, b, c) => {
                let mut points: Vec<Point3> = Vec::new();
                points.push(object_to_world.transform_point(a));
                points.push(object_to_world.transform_point(b));
                points.push(object_to_world.transform_point(c));
                assert(points@ =~= seq![
                    self.object_to_world.point_image(a),
                    self.object_to_world.point_image(b),
                    self.object_to_world.point_image(c),
                ]);
                component_wise_range(&points)
            },
        }
    }
}

} // verus!
