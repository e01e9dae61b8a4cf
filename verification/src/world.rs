//! The scene as the tracer sees it, and the tracing of one ray through it.

use vstd::prelude::*;
use crate::bvh::all_boxes_valid;
use crate::bvh::BuildError;
use crate::bvh::Bvh;
use crate::camera::Camera;
use crate::color::Color;
use crate::light::unshadowed;
use crate::light::Light;
use crate::light::EPSILON_BITS;
use crate::light::LightType;
use crate::material::bounce;
use crate::material::MaterialType;
use crate::utils::reflected;
use crate::math::Math;
use crate::object::Object;
use crate::ray::Ray;
use crate::scalar::Scalar;
use crate::vector::Point3;

verus! {

/// A scene: the camera, the primitives in their hierarchy, the lights and
/// the colour of the background.
#[derive(Debug)]
pub struct World {
    pub camera: Camera,
    pub bvh: Bvh,
    pub lights: Vec<Light>,
    pub background_color: Color,
}

/// The lights that reach a point, in their order.
pub open spec fn lit<
    P: Fn(Scalar, Scalar) -> Scalar,
    C: Fn(Scalar) -> Scalar,
    A: Fn(Scalar, Scalar) -> Scalar,
>(lights: Seq<Light>, point: Point3, bvh: Bvh, math: Math<P, C, A>) -> Seq<Light>
    decreases lights.len(),
{
    if lights.len() == 0 {
        Seq::empty()
    } else if lights.last().reaches(point, bvh, math) {
        lit(lights.drop_last(), point, bvh, math).push(lights.last())
    } else {
        lit(lights.drop_last(), point, bvh, math)
    }
}

/// The colour that a ray brings back with `max_depth` bounces left: the
/// background colour where no bounce is left or the ray meets nothing;
/// else the colour of the nearest object it meets, lit by the lights that
/// reach the point of the meeting, with one bounce less left.
pub open spec fn traced<
    P: Fn(Scalar, Scalar) -> Scalar,
    C: Fn(Scalar) -> Scalar,
    A: Fn(Scalar, Scalar) -> Scalar,
>(world: World, ray: Ray, max_depth: nat, math: Math<P, C, A>) -> Color
    decreases max_depth, 1nat,
{
    if max_depth == 0 {
        world.background_color
    } else {
        match world.bvh.nearest(ray) {
            Some((index, t)) => {
                let object = world.bvh.objects()[index as int];
                object.material.colored(
                    ray,
                    t,
                    object,
                    lit(world.lights@, ray.at(t), world.bvh, math),
                    world,
                    (max_depth - 1) as nat,
                    math,
                )
            },
            None => world.background_color,
        }
    }
}

impl World {
    /// The scene of the given parts, with the hierarchy built by the
    /// surface area heuristic.
    pub fn new(camera: Camera, objects: Vec<Object>, lights: Vec<Light>, background_color: Color)
        -> (world: World)
        requires
            all_boxes_valid(objects@),
        ensures
            world.camera == camera,
            world.lights == lights,
            world.background_color == background_color,
            world.bvh.objects() == objects@,
            world.bvh.tree().count() == objects.len(),
    {
        let bvh = Bvh::new(objects);
        World { camera, bvh, lights, background_color }
    }

    /// The scene of the given parts, if the hierarchy can be built over
    /// the objects; the reason, if not.
    pub fn checked(
        camera: Camera,
        objects: Vec<Object>,
        lights: Vec<Light>,
        background_color: Color,
    ) -> (r: Result<World, BuildError>)
        ensures
            r.is_ok() <==> all_boxes_valid(objects@),
            match r {
                Ok(world) => {
                    &&& world.camera == camera
                    &&& world.lights == lights
                    &&& world.background_color == background_color
                    &&& world.bvh.objects() == objects@
                    &&& world.bvh.tree().count() == objects.len()
                },
                Err(error) => Bvh::refused(objects@, error),
            },
    {
        match Bvh::check_bounds(&objects) {
            Ok(_) => Ok(World::new(camera, objects, lights, background_color)),
            Err(error) => Err(error),
        }
    }

    /// The lights that reach a point.
    pub fn illuminating_lights<
        P: Fn(Scalar, Scalar) -> Scalar,
        C: Fn(Scalar) -> Scalar,
        A: Fn(Scalar, Scalar) -> Scalar,
    >(&self, point: Point3, math: &Math<P, C, A>) -> (r: Vec<Light>)
        requires
            math.functional(),
        ensures
            r@ == lit(self.lights@, point, self.bvh, *math),
    {
        let mut r: Vec<Light> = Vec::new();
        let mut k: usize = 0;
        while k < self.lights.len()
            invariant
                0 <= k <= self.lights.len(),
                math.functional(),
                r@ == lit(self.lights@.take(k as int), point, self.bvh, *math),
            decreases self.lights.len() - k,
        {
            proof {
                assert(self.lights@.take(k + 1).drop_last() == self.lights@.take(k as int));
                assert(self.lights@.take(k + 1).last() == self.lights@[k as int]);
            }
            if self.lights[k].reaches_point(point, &self.bvh, math) {
                r.push(self.lights[k]);
            }
            k = k + 1;
        }
        proof {
            assert(self.lights@.take(self.lights.len() as int) == self.lights@);
        }
        r
    }

    /// Trace a ray in the world and return the color it should produce.
    /// `max_depth` is the maximum number of bounces we should compute for
    /// this ray. `math` holds the power and arc functions that shading
    /// calls.
    pub fn trace_ray<
    P: Fn(Scalar, Scalar) -> Scalar,
    C: Fn(Scalar) -> Scalar,
    A: Fn(Scalar, Scalar) -> Scalar,
>(&self, ray: &Ray, max_depth: u16, math: &Math<P, C, A>) -> (c: Color)
        requires
            math.functional(),
        ensures
            c == traced(*self, *ray, max_depth as nat, *math),
            max_depth == 0 ==> c == self.background_color,
        decreases max_depth, 1nat,
    {
        if max_depth == 0 {
            self.background_color
        } else {
            match self.bvh.get_closest_intersection(ray) {
                Some((object, t)) => {
                    // Compute the color of the object that the ray first hits.
                    let intersection_point = ray.point_at(t);
                    let illuminating_lights = self.illuminating_lights(intersection_point, math);
                    object.get_color(
                        ray,
                        t,
                        &illuminating_lights,
                        self,
                        max_depth - 1,
                        math,
                    )
                },
                // If the ray hits nothing, return the background color.
                None => self.background_color,
            }
        }
    }
}

/// The lights that reach a point are exactly the lights of the scene that
/// reach it.
pub proof fn lemma_lit_members<
    P: Fn(Scalar, Scalar) -> Scalar,
    C: Fn(Scalar) -> Scalar,
    A: Fn(Scalar, Scalar) -> Scalar,
>(lights: Seq<Light>, point: Point3, bvh: Bvh, math: Math<P, C, A>)
    ensures
        forall|light: Light| #[trigger]
            lit(lights, point, bvh, math).contains(light) <==> lights.contains(light)
                && light.reaches(point, bvh, math),
    decreases lights.len(),
{
    if lights.len() > 0 {
        let rest = lights.drop_last();
        let last = lights.last();
        lemma_lit_members(rest, point, bvh, math);
        assert forall|light: Light| #[trigger]
            lit(lights, point, bvh, math).contains(light) <==> lights.contains(light)
                && light.reaches(point, bvh, math) by {
            let before = lit(rest, point, bvh, math);
            let now = lit(lights, point, bvh, math);
            if lights.contains(light) {
                let k = choose|k: int| 0 <= k < lights.len() && lights[k] == light;
                if k < rest.len() {
                    assert(rest[k] == light);
                    assert(rest.contains(light));
                }
            }
            if rest.contains(light) {
                let k = choose|k: int| 0 <= k < rest.len() && rest[k] == light;
                assert(lights[k] == light);
            }
            if before.contains(light) {
                let k = choose|k: int| 0 <= k < before.len() && before[k] == light;
                assert(now[k] == light);
            }
            if now.contains(light) {
                let k = choose|k: int| 0 <= k < now.len() && now[k] == light;
                if k < before.len() {
                    assert(before[k] == light);
                } else {
                    assert(light == last);
                    assert(lights[lights.len() - 1] == last);
                }
            }
            if last.reaches(point, bvh, math) {
                assert(now[now.len() - 1] == last);
                assert(lights[lights.len() - 1] == last);
            }
        }
    }
}

/// An ambient light of the scene is among the lights that reach a point,
/// whatever lies in the scene; a point light is among them exactly where
/// the point is not in its shadow.
pub proof fn lemma_light_reaches<
    P: Fn(Scalar, Scalar) -> Scalar,
    C: Fn(Scalar) -> Scalar,
    A: Fn(Scalar, Scalar) -> Scalar,
>(lights: Seq<Light>, light: Light, point: Point3, bvh: Bvh, math: Math<P, C, A>)
    requires
        lights.contains(light),
    ensures
        light.light_type is Ambient ==> lit(lights, point, bvh, math).contains(light),
        light.light_type matches LightType::Point(position) ==> (lit(
            lights,
            point,
            bvh,
            math,
        ).contains(light) <==> unshadowed(point, position, bvh)),
{
    lemma_lit_members(lights, point, bvh, math);
}

/// A point light of the scene whose ray toward a point meets nothing is
/// among the lights that reach the point. One whose ray meets a surface
/// is among them unless the surface lies nearer to the light than the
/// point does, by more than the tolerance.
pub proof fn lemma_shadow<
    P: Fn(Scalar, Scalar) -> Scalar,
    C: Fn(Scalar) -> Scalar,
    A: Fn(Scalar, Scalar) -> Scalar,
>(lights: Seq<Light>, light: Light, position: Point3, point: Point3, bvh: Bvh, math: Math<P, C, A>)
    requires
        lights.contains(light),
        light.light_type == LightType::Point(position),
    ensures
        match bvh.nearest(Ray::made(position, point.from(position))) {
            None => lit(lights, point, bvh, math).contains(light),
            Some((_, t)) => lit(lights, point, bvh, math).contains(light) <==> !t.plus(
                Scalar { bits: EPSILON_BITS },
            ).less(point.separation(position)),
        },
{
    lemma_lit_members(lights, point, bvh, math);
}

/// With no bounce left a ray brings back the background colour, whatever
/// it would meet.
pub proof fn lemma_no_bounce_left<
    P: Fn(Scalar, Scalar) -> Scalar,
    C: Fn(Scalar) -> Scalar,
    A: Fn(Scalar, Scalar) -> Scalar,
>(world: World, ray: Ray, math: Math<P, C, A>)
    ensures
        traced(world, ray, 0, math) == world.background_color,
{
}

/// A ray that meets nothing brings back the background colour.
pub proof fn lemma_miss_is_background<
    P: Fn(Scalar, Scalar) -> Scalar,
    C: Fn(Scalar) -> Scalar,
    A: Fn(Scalar, Scalar) -> Scalar,
>(world: World, ray: Ray, max_depth: nat, math: Math<P, C, A>)
    requires
        world.bvh.nearest(ray) is None,
    ensures
        traced(world, ray, max_depth, math) == world.background_color,
{
}

/// In a scene of nothing but mirrors every ray brings back the background
/// colour, however many bounces it is given: the bounces are used up, and
/// the tracing ends.
pub proof fn lemma_mirrors_end_in_background<
    P: Fn(Scalar, Scalar) -> Scalar,
    C: Fn(Scalar) -> Scalar,
    A: Fn(Scalar, Scalar) -> Scalar,
>(world: World, ray: Ray, max_depth: nat, math: Math<P, C, A>)
    requires
        world.bvh.well_formed(),
        all_mirrors(world),
    ensures
        traced(world, ray, max_depth, math) == world.background_color,
    decreases max_depth,
{
    if max_depth > 0 {
        match world.bvh.nearest(ray) {
            Some((index, t)) => {
                world.bvh.lemma_nearest_in_range(ray);
                let object = world.bvh.objects()[index as int];
                assert(object.material.material_type == MaterialType::Reflective);
                let point = ray.at(t);
                let next = bounce(point, reflected(ray.heading(), object.normal_at(point)));
                lemma_mirrors_end_in_background(
                    world,
                    next,
                    (max_depth - 1) as nat,
                    math,
                );
            },
            None => {},
        }
    }
}

/// Whether every object of the scene is a mirror.
pub open spec fn all_mirrors(world: World) -> bool {
    forall|i: int|
        0 <= i < world.bvh.objects().len() ==> (#[trigger] world.bvh.objects()[i]).material.material_type
            == MaterialType::Reflective
}

/// The ray that a mirror sends on where `ray` meets it; `ray` itself where
/// it meets nothing.
pub open spec fn mirrored(world: World, ray: Ray) -> Ray {
    match world.bvh.nearest(ray) {
        Some((index, t)) => bounce(
            ray.at(t),
            reflected(ray.heading(), world.bvh.objects()[index as int].normal_at(ray.at(t))),
        ),
        None => ray,
    }
}

/// The ray after `n` mirrors.
pub open spec fn nth_bounce(world: World, ray: Ray, n: nat) -> Ray
    decreases n,
{
    if n == 0 {
        ray
    } else {
        mirrored(world, nth_bounce(world, ray, (n - 1) as nat))
    }
}

/// Between mirrors that a ray never leaves, tracing with `max_depth`
/// bounces follows the ray over exactly `max_depth` mirrors: after `k` of
/// them, `max_depth - k` bounces are left, and after `max_depth` none.
pub proof fn lemma_mirrors_use_every_bounce<
    P: Fn(Scalar, Scalar) -> Scalar,
    C: Fn(Scalar) -> Scalar,
    A: Fn(Scalar, Scalar) -> Scalar,
>(world: World, ray: Ray, max_depth: nat, k: nat, math: Math<P, C, A>)
    requires
        world.bvh.well_formed(),
        all_mirrors(world),
        k <= max_depth,
        forall|j: nat| j < k ==> world.bvh.nearest(#[trigger] nth_bounce(world, ray, j)) is Some,
    ensures
        traced(world, ray, max_depth, math) == traced(
            world,
            nth_bounce(world, ray, k),
            (max_depth - k) as nat,
            math,
        ),
    decreases k,
{
    if k > 0 {
        lemma_mirrors_use_every_bounce(world, ray, max_depth, (k - 1) as nat, math);
        let before = nth_bounce(world, ray, (k - 1) as nat);
        assert(world.bvh.nearest(before) is Some);
        world.bvh.lemma_nearest_in_range(before);
        let (index, t) = world.bvh.nearest(before).unwrap();
        assert(world.bvh.objects()[index as int].material.material_type
            == MaterialType::Reflective);
    }
}

} // verus!
