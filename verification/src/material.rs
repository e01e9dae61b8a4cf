//! What a surface is made of: how it answers light, and where its own
//! colour comes from.

use std::sync::Arc;
use vstd::prelude::*;
use crate::color::Color;
use crate::light::Light;
use crate::light::LightType;
use crate::light::EPSILON_BITS;
use crate::light::INTENSITY_BITS;
use crate::light::SOFTENING_BITS;
use crate::math::Math;
use crate::object::Object;
use crate::ray::Ray;
use crate::scalar::Scalar;
use crate::scalar::HALF_BITS;
use crate::scalar::ONE_BITS;
use crate::scalar::ZERO_BITS;
use crate::utils::clamp;
use crate::utils::reflect;
use crate::utils::reflected;
use crate::utils::refract;
use crate::utils::refracted;
use crate::texture::texel;
use crate::texture::texture_height;
use crate::texture::texture_width;
use crate::texture::TextureImage;
use crate::vector::Point2;
use crate::vector::Point3;
use crate::vector::Vector3;
use crate::world::traced;
use crate::world::World;

verus! {

/// Where the colour of a surface comes from.
#[derive(Debug)]
pub enum TextureType {
    /// An image, shared with whoever else shows it.
    Texture(Arc<TextureImage>),
    /// One colour everywhere.
    Flat(Color),
    /// No texture: the surface is grey.
    NoTexture,
}

/// How a surface answers light.
#[derive(Debug)]
pub enum MaterialType {
    /// The sum of several answers, each with its weight. The weights need
    /// not add up to one.
    Composition(Vec<(MaterialType, Scalar)>),
    /// Diffuse and specular reflection of the lights that reach the point.
    Phong { diffuse: Scalar, specular: Scalar, shininess: Scalar },
    /// A mirror.
    Reflective,
    /// A transparent body with the given index of refraction.
    Refractive(Scalar),
    /// No material: the surface is grey.
    NoMaterial,
}

/// The material of an object.
#[derive(Debug)]
pub struct Material {
    pub material_type: MaterialType,
    pub texture_type: TextureType,
}

impl MaterialType {
    /// Whether two materials answer light alike: they are of the same
    /// kind with the same numbers, and compositions have like parts with
    /// the same weights in the same order.
    pub open spec fn alike(self, other: MaterialType) -> bool
        decreases self,
    {
        match self {
            MaterialType::Composition(materials) => match other {
                MaterialType::Composition(others) => {
                    &&& materials.len() == others.len()
                    &&& forall|k: int|
                        0 <= k < materials.len() ==> (#[trigger] materials[k]).0.alike(others[k].0)
                            && materials[k].1 == others[k].1
                },
                _ => false,
            },
            _ => self == other,
        }
    }

    /// A copy of the material.
    pub fn duplicate(&self) -> (r: MaterialType)
        ensures
            self.alike(r),
        decreases self,
    {
        match self {
            MaterialType::Composition(materials) => {
                let mut parts: Vec<(MaterialType, Scalar)> = Vec::new();
                let mut k: usize = 0;
                while k < materials.len()
                    invariant
                        0 <= k <= materials.len(),
                        *self == MaterialType::Composition(*materials),
                        decreases_to!(self => materials),
                        parts.len() == k,
                        forall|j: int|
                            0 <= j < k ==> (#[trigger] materials[j]).0.alike(parts[j].0)
                                && materials[j].1 == parts[j].1,
                    decreases materials.len() - k,
                {
                    let part = materials[k].0.duplicate();
                    parts.push((part, materials[k].1));
                    k = k + 1;
                }
                MaterialType::Composition(parts)
            },
            MaterialType::Phong { diffuse, specular, shininess } => MaterialType::Phong {
                diffuse: *diffuse,
                specular: *specular,
                shininess: *shininess,
            },
            MaterialType::Reflective => MaterialType::Reflective,
            MaterialType::Refractive(index) => MaterialType::Refractive(*index),
            MaterialType::NoMaterial => MaterialType::NoMaterial,
        }
    }
}

impl Clone for TextureType {
    fn clone(&self) -> (r: TextureType)
        ensures
            r == *self,
    {
        match self {
            TextureType::Texture(buf) => TextureType::Texture(Arc::clone(buf)),
            TextureType::Flat(color) => TextureType::Flat(*color),
            TextureType::NoTexture => TextureType::NoTexture,
        }
    }
}

impl Clone for MaterialType {
    fn clone(&self) -> (r: MaterialType)
        ensures
            self.alike(r),
    {
        self.duplicate()
    }
}

impl Clone for Material {
    fn clone(&self) -> (r: Material)
        ensures
            self.material_type.alike(r.material_type),
            r.texture_type == self.texture_type,
    {
        Material {
            material_type: self.material_type.duplicate(),
            texture_type: self.texture_type.clone(),
        }
    }
}

impl TextureType {
    pub fn new_flat(color: Color) -> (r: TextureType)
        ensures
            r == TextureType::Flat(color),
    {
        TextureType::Flat(color)
    }
}

impl MaterialType {
    pub fn new_phong(diffuse: Scalar, specular: Scalar, shininess: Scalar) -> (r: MaterialType)
        ensures
            r == (MaterialType::Phong { diffuse, specular, shininess }),
    {
        MaterialType::Phong { diffuse, specular, shininess }
    }
}

impl Material {
    pub fn new(material_type: MaterialType, texture_type: TextureType) -> (r: Material)
        ensures
            r == (Material { material_type, texture_type }),
    {
        Material { material_type, texture_type }
    }
}

/// The pattern of `255.0`, the brightest byte of a texel.
pub const TEXEL_MAX_BITS: u32 = 0x437f_0000;

/// The place of a texture coordinate on an axis of `size` texels: the
/// coordinate wrapped into `[0, 1)`, times the size, without its fraction,
/// kept between 0 and `size - 1`, as an integer.
pub open spec fn texel_index(coordinate: Scalar, size: u32) -> int {
    let zero = Scalar { bits: ZERO_BITS };
    let one = Scalar { bits: ONE_BITS };
    let extent = Scalar::of_count(size);
    coordinate.wrapped(one).times(extent).whole().clamped(zero, extent.minus(one)).truncated()
}

/// The colour of a texel: each byte divided by 255.
pub open spec fn texel_color(bytes: (u8, u8, u8)) -> Color {
    let full = Scalar { bits: TEXEL_MAX_BITS };
    Color::opaque(
        Scalar::of_count(bytes.0 as u32).over(full),
        Scalar::of_count(bytes.1 as u32).over(full),
        Scalar::of_count(bytes.2 as u32).over(full),
    )
}

/// The colour of an image at the texture coordinates `uv`: that of the
/// texel at the place of the coordinates; a grey of half intensity where
/// the image has no texel there.
pub open spec fn texture_color(image: TextureImage, uv: Point2) -> Color {
    let x = texel_index(uv.x, texture_width(image));
    let y = texel_index(uv.y, texture_height(image));
    if x < texture_width(image) && y < texture_height(image) {
        texel_color(texel(image, x as u32, y as u32))
    } else {
        Color::opaque_bits(HALF_BITS, HALF_BITS, HALF_BITS)
    }
}

/// The colour of the surface of an object at a point: that of the image
/// at the texture coordinates of the point, the colour itself for a flat
/// texture, a grey of half intensity without texture.
pub open spec fn surface_color<
    P: Fn(Scalar, Scalar) -> Scalar,
    C: Fn(Scalar) -> Scalar,
    A: Fn(Scalar, Scalar) -> Scalar,
>(texture_type: TextureType, object: Object, point: Point3, math: Math<P, C, A>) -> Color {
    match texture_type {
        TextureType::Texture(image) => texture_color(*image, object.uv_at(point, math)),
        TextureType::Flat(color) => color,
        TextureType::NoTexture => Color::opaque_bits(HALF_BITS, HALF_BITS, HALF_BITS),
    }
}

/// How strongly a surface answers light that arrives along
/// `light_direction`, seen against `incoming_direction`:
/// `diffuse * max(0, -l.n) + specular * max(0, -r.i) ^ shininess`, where
/// `r` is the light's direction mirrored at the surface and both cosines
/// are cut off at 1.
pub open spec fn phong_multiple<
    P: Fn(Scalar, Scalar) -> Scalar,
    C: Fn(Scalar) -> Scalar,
    A: Fn(Scalar, Scalar) -> Scalar,
>(
    light_direction: Vector3,
    normal: Vector3,
    incoming_direction: Vector3,
    diffuse: Scalar,
    specular: Scalar,
    shininess: Scalar,
    math: Math<P, C, A>,
) -> Scalar {
    let zero = Scalar { bits: ZERO_BITS };
    let one = Scalar { bits: ONE_BITS };
    let reflection_vector = reflected(light_direction, normal);
    let specular_intensity = reflection_vector.dot_product(incoming_direction).negated().clamped(
        zero,
        one,
    );
    let diffuse_intensity = light_direction.dot_product(normal).negated().clamped(zero, one);
    diffuse.times(diffuse_intensity).plus(
        specular.times(math.power(specular_intensity, shininess)),
    )
}

/// The colour of the light that one light sends back from a surface
/// point: the colour of an ambient light as it is; that of a point light
/// scaled by its falloff `5 / (0.001 + d^2)` and then by the answer of the
/// surface; that of a directional light scaled by the answer of the
/// surface; that of a cone light scaled by its falloff, which fades
/// towards the edge of the cone, and then by the answer of the surface.
pub open spec fn light_color<
    P: Fn(Scalar, Scalar) -> Scalar,
    C: Fn(Scalar) -> Scalar,
    A: Fn(Scalar, Scalar) -> Scalar,
>(
    light: Light,
    point: Point3,
    normal: Vector3,
    incoming_direction: Vector3,
    diffuse: Scalar,
    specular: Scalar,
    shininess: Scalar,
    math: Math<P, C, A>,
) -> Color {
    match light.light_type {
        LightType::Ambient => light.color,
        LightType::Point(position) => {
            let light_dir = point.from(position);
            let falloff = Scalar { bits: INTENSITY_BITS }.over(
                Scalar { bits: SOFTENING_BITS }.plus(light_dir.length_squared()),
            );
            light.color.scaled(falloff).scaled(
                phong_multiple(
                    light_dir.unit(),
                    normal,
                    incoming_direction,
                    diffuse,
                    specular,
                    shininess,
                    math,
                ),
            )
        },
        LightType::Directional(direction) => light.color.scaled(
            phong_multiple(
                direction,
                normal,
                incoming_direction,
                diffuse,
                specular,
                shininess,
                math,
            ),
        ),
        LightType::Cone(position, _, _) => light.color.scaled(light.falloff_at(point, math)).scaled(
            phong_multiple(
                point.from(position).unit(),
                normal,
                incoming_direction,
                diffuse,
                specular,
                shininess,
                math,
            ),
        ),
    }
}

/// The sum over the first `n` lights of the surface colour filtered by the
/// colour of each light, starting from transparent black; every sum is
/// saturated.
pub open spec fn phong_sum<
    P: Fn(Scalar, Scalar) -> Scalar,
    C: Fn(Scalar) -> Scalar,
    A: Fn(Scalar, Scalar) -> Scalar,
>(
    lights: Seq<Light>,
    n: nat,
    surface: Color,
    point: Point3,
    normal: Vector3,
    incoming_direction: Vector3,
    diffuse: Scalar,
    specular: Scalar,
    shininess: Scalar,
    math: Math<P, C, A>,
) -> Color
    decreases n,
{
    if n == 0 || n > lights.len() {
        Color::of(
            Scalar { bits: ZERO_BITS },
            Scalar { bits: ZERO_BITS },
            Scalar { bits: ZERO_BITS },
            Scalar { bits: ZERO_BITS },
        )
    } else {
        phong_sum(
            lights,
            (n - 1) as nat,
            surface,
            point,
            normal,
            incoming_direction,
            diffuse,
            specular,
            shininess,
            math,
        ).mixed(
            surface.filtered(
                light_color(
                    lights[n - 1],
                    point,
                    normal,
                    incoming_direction,
                    diffuse,
                    specular,
                    shininess,
                    math,
                ),
            ),
        )
    }
}

/// The number of parts of a composition; 0 for any other material.
pub open spec fn entries(material: MaterialType) -> nat {
    match material {
        MaterialType::Composition(materials) => materials.len() as nat,
        _ => 0,
    }
}

/// The ray that leaves a surface point in a given direction, moved off the
/// surface by `1e-4`.
pub open spec fn bounce(point: Point3, direction: Vector3) -> Ray {
    Ray::made(point, direction).advanced(Scalar { bits: EPSILON_BITS })
}

/// The colour of an object at the point where `incoming_ray` meets it at
/// parameter `t`, for a surface of the given material lit by `lights`,
/// with `max_depth` bounces left. Of a composition, `n` says how many of
/// its parts are summed.
///
/// A composition is the sum of its parts' colours, each scaled by its
/// weight, starting from transparent black. A mirror has the colour
/// traced along the ray mirrored at the surface, a refractive body that
/// traced along the refracted ray. A surface without material is grey.
pub open spec fn shaded<
    P: Fn(Scalar, Scalar) -> Scalar,
    C: Fn(Scalar) -> Scalar,
    A: Fn(Scalar, Scalar) -> Scalar,
>(
    material: MaterialType,
    n: nat,
    surface: Color,
    incoming_ray: Ray,
    t: Scalar,
    object: Object,
    lights: Seq<Light>,
    world: World,
    max_depth: nat,
    math: Math<P, C, A>,
) -> Color
    decreases max_depth + 1, 0nat, material, n,
{
    let point = incoming_ray.at(t);
    let normal = object.normal_at(point);
    match material {
        MaterialType::Composition(materials) => {
            if n == 0 || n > materials.len() {
                Color::of(
                    Scalar { bits: ZERO_BITS },
                    Scalar { bits: ZERO_BITS },
                    Scalar { bits: ZERO_BITS },
                    Scalar { bits: ZERO_BITS },
                )
            } else {
                shaded(
                    material,
                    (n - 1) as nat,
                    surface,
                    incoming_ray,
                    t,
                    object,
                    lights,
                    world,
                    max_depth,
                    math,
                ).mixed(
                    shaded(
                        materials[n - 1].0,
                        entries(materials[n - 1].0),
                        surface,
                        incoming_ray,
                        t,
                        object,
                        lights,
                        world,
                        max_depth,
                        math,
                    ).scaled(materials[n - 1].1),
                )
            }
        },
        MaterialType::Phong { diffuse, specular, shininess } => phong_sum(
            lights,
            lights.len(),
            surface,
            point,
            normal,
            incoming_ray.heading(),
            diffuse,
            specular,
            shininess,
            math,
        ),
        MaterialType::Reflective => traced(
            world,
            bounce(point, reflected(incoming_ray.heading(), normal)),
            max_depth,
            math,
        ),
        MaterialType::Refractive(refraction_index) => traced(
            world,
            bounce(point, refracted(incoming_ray.heading(), normal, refraction_index)),
            max_depth,
            math,
        ),
        MaterialType::NoMaterial => Color::opaque_bits(HALF_BITS, HALF_BITS, HALF_BITS),
    }
}

/// The place of a texture coordinate on an axis of `size` texels.
fn texel_place(coordinate: Scalar, size: u32) -> (r: u32)
    ensures
        r == texel_index(coordinate, size),
{
    let zero = Scalar::zero();
    let one = Scalar::one();
    let extent = Scalar::from_u32(size);
    clamp(coordinate.rem_euclid(one).mul(extent).trunc(), zero, extent.sub(one)).to_u32()
}

impl TextureType {
    /// The colour of the surface of `object` at a world-space point.
    pub fn sample<
        P: Fn(Scalar, Scalar) -> Scalar,
        C: Fn(Scalar) -> Scalar,
        A: Fn(Scalar, Scalar) -> Scalar,
    >(&self, object: &Object, intersection_point: Point3, math: &Math<P, C, A>) -> (c: Color)
        requires
            math.functional(),
        ensures
            c == surface_color(*self, *object, intersection_point, *math),
    {
        match self {
            TextureType::Texture(buf) => {
                let uv = object.get_uv(intersection_point, math);
                let x = texel_place(uv.x, buf.width());
                let y = texel_place(uv.y, buf.height());
                match buf.get_pixel(x, y) {
                    Some((r, g, b)) => {
                        let full = Scalar::from_bits(TEXEL_MAX_BITS);
                        Color::rgb(
                            Scalar::from_u32(r as u32).div(full),
                            Scalar::from_u32(g as u32).div(full),
                            Scalar::from_u32(b as u32).div(full),
                        )
                    },
                    None => Color::mid_gray(),
                }
            },
            TextureType::Flat(color) => *color,
            TextureType::NoTexture => Color::mid_gray(),
        }
    }
}

impl MaterialType {
    /// How strongly a surface answers light that arrives along
    /// `light_direction`, seen against `incoming_direction`.
    pub fn get_phong_multiple<
        P: Fn(Scalar, Scalar) -> Scalar,
        C: Fn(Scalar) -> Scalar,
        A: Fn(Scalar, Scalar) -> Scalar,
    >(
        light_direction: Vector3,
        normal: Vector3,
        incoming_direction: Vector3,
        diffuse: Scalar,
        specular: Scalar,
        shininess: Scalar,
        math: &Math<P, C, A>,
    ) -> (r: Scalar)
        requires
            math.functional(),
        ensures
            r == phong_multiple(
                light_direction,
                normal,
                incoming_direction,
                diffuse,
                specular,
                shininess,
                *math,
            ),
    {
        let zero = Scalar::zero();
        let one = Scalar::one();
        let reflection_vector = reflect(light_direction, normal);
        let specular_intensity = clamp(reflection_vector.dot(incoming_direction).neg(), zero, one);
        let diffuse_intensity = clamp(light_direction.dot(normal).neg(), zero, one);
        diffuse.mul(diffuse_intensity).add(specular.mul(math.pow(specular_intensity, shininess)))
    }

    /// The colour of the light that one light sends back from a surface
    /// point.
    pub fn get_light_color<
        P: Fn(Scalar, Scalar) -> Scalar,
        C: Fn(Scalar) -> Scalar,
        A: Fn(Scalar, Scalar) -> Scalar,
    >(
        light: &Light,
        intersection_point: Point3,
        normal: Vector3,
        incoming_direction: Vector3,
        diffuse: Scalar,
        specular: Scalar,
        shininess: Scalar,
        math: &Math<P, C, A>,
    ) -> (c: Color)
        requires
            math.functional(),
        ensures
            c == light_color(
                *light,
                intersection_point,
                normal,
                incoming_direction,
                diffuse,
                specular,
                shininess,
                *math,
            ),
    {
        match light.light_type {
            LightType::Ambient => light.color,
            LightType::Point(position) => {
                let light_dir = intersection_point.sub(position);
                let falloff = Scalar::from_bits(INTENSITY_BITS).div(
                    Scalar::from_bits(SOFTENING_BITS).add(light_dir.magnitude2()),
                );
                let phong_multiple = MaterialType::get_phong_multiple(
                    light_dir.normalize(),
                    normal,
                    incoming_direction,
                    diffuse,
                    specular,
                    shininess,
                    math,
                );
                light.color.scale(falloff).scale(phong_multiple)
            },
            LightType::Directional(direction) => {
                let phong_multiple = MaterialType::get_phong_multiple(
                    direction,
                    normal,
                    incoming_direction,
                    diffuse,
                    specular,
                    shininess,
                    math,
                );
                light.color.scale(phong_multiple)
            },
            LightType::Cone(position, _, _) => {
                let light_dir = intersection_point.sub(position);
                let falloff = light.get_falloff_at(intersection_point, math);
                let phong_multiple = MaterialType::get_phong_multiple(
                    light_dir.normalize(),
                    normal,
                    incoming_direction,
                    diffuse,
                    specular,
                    shininess,
                    math,
                );
                light.color.scale(falloff).scale(phong_multiple)
            },
        }
    }

    /// Returns the color of `object` at the point given by
    /// `incoming_ray.point_at(t)`.
    pub fn get_color<
    P: Fn(Scalar, Scalar) -> Scalar,
    C: Fn(Scalar) -> Scalar,
    A: Fn(Scalar, Scalar) -> Scalar,
>(
        &self,
        surface_color: Color,
        incoming_ray: &Ray,
        t: Scalar,
        object: &Object,
        lights: &Vec<Light>,
        world: &World,
        max_depth: u16,
        math: &Math<P, C, A>,
    ) -> (c: Color)
        requires
            math.functional(),
        ensures
            c == shaded(
                *self,
                entries(*self),
                surface_color,
                *incoming_ray,
                t,
                *object,
                lights@,
                *world,
                max_depth as nat,
                *math,
            ),
        decreases max_depth + 1, 0nat, self, 0nat,
    {
        match self {
            MaterialType::Composition(materials) => {
                let mut sum = Color::clear();
                let mut k: usize = 0;
                while k < materials.len()
                    invariant
                        0 <= k <= materials.len(),
                        math.functional(),
                        *self == MaterialType::Composition(*materials),
                        sum == shaded(
                            *self,
                            k as nat,
                            surface_color,
                            *incoming_ray,
                            t,
                            *object,
                            lights@,
                            *world,
                            max_depth as nat,
                            *math,
                        ),
                    decreases materials.len() - k,
                {
                    let part = materials[k].0.get_color(
                        surface_color,
                        incoming_ray,
                        t,
                        object,
                        lights,
                        world,
                        max_depth,
                        math,
                    );
                    sum = sum.add(part.scale(materials[k].1));
                    k = k + 1;
                }
                sum
            },
            MaterialType::Phong { diffuse, specular, shininess } => {
                let intersection_point = incoming_ray.point_at(t);
                let normal = object.get_normal(intersection_point);
                let mut sum = Color::clear();
                let mut k: usize = 0;
                while k < lights.len()
                    invariant
                        0 <= k <= lights.len(),
                        math.functional(),
                        intersection_point == incoming_ray.at(t),
                        normal == object.normal_at(intersection_point),
                        sum == phong_sum(
                            lights@,
                            k as nat,
                            surface_color,
                            intersection_point,
                            normal,
                            incoming_ray.heading(),
                            *diffuse,
                            *specular,
                            *shininess,
                            *math,
                        ),
                    decreases lights.len() - k,
                {
                    let light_color = MaterialType::get_light_color(
                        &lights[k],
                        intersection_point,
                        normal,
                        incoming_ray.get_direction(),
                        *diffuse,
                        *specular,
                        *shininess,
                        math,
                    );
                    sum = sum.add(surface_color.mul(light_color));
                    k = k + 1;
                }
                sum
            },
            MaterialType::Reflective => {
                let intersection_point = incoming_ray.point_at(t);
                let normal = object.get_normal(intersection_point);
                let reflection_direction = reflect(incoming_ray.get_direction(), normal);
                let reflected_ray = Ray::new(intersection_point, reflection_direction);
                // We move the ray forward slightly so that we don't
                // intersect the same location.
                let reflected_ray = reflected_ray.offset(Scalar::from_bits(EPSILON_BITS));
                world.trace_ray(&reflected_ray, max_depth, math)
            },
            MaterialType::Refractive(refraction_index) => {
                let intersection_point = incoming_ray.point_at(t);
                let normal = object.get_normal(intersection_point);
                let refraction_direction = refract(
                    incoming_ray.get_direction(),
                    normal,
                    *refraction_index,
                );
                let refracted_ray = Ray::new(intersection_point, refraction_direction);
                // We move the ray forward slightly so that we don't
                // intersect the same location.
                let refracted_ray = refracted_ray.offset(Scalar::from_bits(EPSILON_BITS));
                world.trace_ray(&refracted_ray, max_depth, math)
            },
            MaterialType::NoMaterial => Color::mid_gray(),
        }
    }
}

impl Material {
    /// The colour of an object of this material at the point where the
    /// ray meets it.
    pub open spec fn colored<
    P: Fn(Scalar, Scalar) -> Scalar,
    C: Fn(Scalar) -> Scalar,
    A: Fn(Scalar, Scalar) -> Scalar,
>(
        self,
        incoming_ray: Ray,
        t: Scalar,
        object: Object,
        lights: Seq<Light>,
        world: World,
        max_depth: nat,
        math: Math<P, C, A>,
    ) -> Color
        decreases max_depth + 1, 0nat, self.material_type, entries(self.material_type) + 1,
    {
        shaded(
            self.material_type,
            entries(self.material_type),
            surface_color(self.texture_type, object, incoming_ray.at(t), math),
            incoming_ray,
            t,
            object,
            lights,
            world,
            max_depth,
            math,
        )
    }

    /// Returns the color of `object` at the point given by
    /// `incoming_ray.point_at(t)`.
    pub fn get_color<
    P: Fn(Scalar, Scalar) -> Scalar,
    C: Fn(Scalar) -> Scalar,
    A: Fn(Scalar, Scalar) -> Scalar,
>(
        &self,
        incoming_ray: &Ray,
        t: Scalar,
        object: &Object,
        lights: &Vec<Light>,
        world: &World,
        max_depth: u16,
        math: &Math<P, C, A>,
    ) -> (c: Color)
        requires
            math.functional(),
        ensures
            c == self.colored(
                *incoming_ray,
                t,
                *object,
                lights@,
                *world,
                max_depth as nat,
                *math,
            ),
        decreases max_depth + 1, 0nat, self.material_type, 1nat,
    {
        let intersection_point = incoming_ray.point_at(t);
        let surface_color = self.texture_type.sample(object, intersection_point, math);
        self.material_type.get_color(
            surface_color,
            incoming_ray,
            t,
            object,
            lights,
            world,
            max_depth,
            math,
        )
    }
}

} // verus!
