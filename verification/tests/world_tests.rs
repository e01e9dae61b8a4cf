use ray_tracer::bvh::BuildError;
use ray_tracer::camera::Camera;
use ray_tracer::color::Color;
use ray_tracer::light::Light;
use ray_tracer::material::{Material, MaterialType, TextureType};
use ray_tracer::math::Math;
use ray_tracer::object::Object;
use ray_tracer::ray::Ray;
use ray_tracer::render::{
    assemble, render, render_column, render_pixel, to_rgb_bytes, RenderError,
};
use ray_tracer::scalar::Scalar;
use ray_tracer::texture::TextureImage;
use ray_tracer::vector::{Matrix4, Point3, Vector3};
use ray_tracer::world::World;
use std::sync::Arc;

fn s(x: f32) -> Scalar {
    Scalar::from_bits(x.to_bits())
}

fn f(x: Scalar) -> f32 {
    f32::from_bits(x.to_bits())
}

fn p(x: f32, y: f32, z: f32) -> Point3 {
    Point3::new(s(x), s(y), s(z))
}

fn v(x: f32, y: f32, z: f32) -> Vector3 {
    Vector3::new(s(x), s(y), s(z))
}

fn ray(o: (f32, f32, f32), d: (f32, f32, f32)) -> Ray {
    Ray::new(p(o.0, o.1, o.2), v(d.0, d.1, d.2))
}

fn rgba(c: Color) -> (f32, f32, f32, f32) {
    let v = c.to_vec();
    (f(v.x), f(v.y), f(v.z), f(v.w))
}

fn powf(a: Scalar, b: Scalar) -> Scalar {
    s(f(a).powf(f(b)))
}

fn acos(x: Scalar) -> Scalar {
    s(f(x).acos())
}

fn atan2(y: Scalar, x: Scalar) -> Scalar {
    s(f(y).atan2(f(x)))
}

type Number1 = fn(Scalar) -> Scalar;
type Number2 = fn(Scalar, Scalar) -> Scalar;

fn math() -> Math<Number2, Number1, Number2> {
    Math::new(powf, acos, atan2)
}

/// Two by two texels: red and green above blue and white.
fn chessboard() -> TextureType {
    let bytes = vec![255, 0, 0, 0, 255, 0, 0, 0, 255, 255, 255, 255];
    TextureType::Texture(Arc::new(TextureImage::new(2, 2, bytes).unwrap()))
}

fn camera(width: u32, height: u32) -> Camera {
    Camera::new(width, height, Matrix4::identity())
}

fn material(kind: MaterialType, color: Color) -> Material {
    Material::new(kind, TextureType::new_flat(color))
}

fn wall(z: f32, facing_back: bool, m: Material) -> Object {
    // A square of side 20 in the plane of the given depth, facing the
    // camera (towards +z) or away from it.
    if facing_back {
        Object::new_quad(p(-10., -10., z), p(-10., 10., z), p(10., 10., z), p(10., -10., z), m)
    } else {
        Object::new_quad(p(-10., -10., z), p(10., -10., z), p(10., 10., z), p(-10., 10., z), m)
    }
}

fn sky() -> Color {
    Color::rgb(s(0.25), s(0.5), s(0.75))
}

#[test]
fn colors_saturate_when_made() {
    assert_eq!(rgba(Color::rgba(s(2.0), s(-1.0), s(0.5), s(7.0))), (1.0, 0.0, 0.5, 1.0));
    assert_eq!(rgba(Color::rgb(s(0.1), s(0.2), s(0.3))), (0.1, 0.2, 0.3, 1.0));
    assert_eq!(rgba(Color::white().add(Color::white())), (1.0, 1.0, 1.0, 1.0));
    assert_eq!(rgba(Color::grayscale(s(0.5)).scale(s(4.0))), (1.0, 1.0, 1.0, 1.0));
    assert_eq!(rgba(Color::grayscale(s(0.5)).scale(s(0.5))), (0.25, 0.25, 0.25, 0.5));
    assert_eq!(rgba(Color::grayscale(s(0.5)).div(s(2.0))), (0.25, 0.25, 0.25, 0.5));
    assert_eq!(rgba(Color::yellow().mul(Color::red())), (1.0, 0.0, 0.0, 1.0));
    assert_eq!(rgba(Color::clear()), (0.0, 0.0, 0.0, 0.0));
}

#[test]
fn colors_become_bytes() {
    assert_eq!(Color::white().get_rgb(), (255, 255, 255));
    assert_eq!(Color::black().get_rgb(), (0, 0, 0));
    assert_eq!(Color::rgb(s(0.5), s(0.2), s(1.0 / 255.0)).get_rgb(), (127, 51, 1));
    assert_eq!(Color::blue().get_rgb(), (0, 0, 255));
    assert_eq!(Color::green().get_rgb(), (0, 255, 0));
}

#[test]
fn truncation_to_integers() {
    for x in [0.0f32, 0.99, 1.0, 1.5, 11.999, 12.0, 254.9, 255.0, 256.0, 1e9, 4294967040.0, 5e9] {
        assert_eq!(s(x).to_u32(), x as u32);
    }
    for x in [-0.0f32, -1.0, -1e9, f32::NAN, f32::NEG_INFINITY] {
        assert_eq!(s(x).to_u32(), 0);
    }
    assert_eq!(s(f32::INFINITY).to_u32(), u32::MAX);
}

#[test]
fn no_bounce_left_gives_background() {
    let objects = vec![wall(-5.0, false, material(MaterialType::Reflective, Color::white()))];
    let world = World::new(camera(4, 4), objects, vec![], sky());
    let r = ray((0., 0., 0.), (0., 0., -1.));
    assert_eq!(world.trace_ray(&r, 0, &math()), sky());
}

#[test]
fn a_miss_gives_background() {
    let objects = vec![wall(-5.0, false, material(MaterialType::NoMaterial, Color::white()))];
    let world = World::new(camera(4, 4), objects, vec![], sky());
    let r = ray((0., 0., 0.), (0., 0., 1.));
    assert_eq!(world.trace_ray(&r, 5, &math()), sky());
    let r = ray((0., 0., 0.), (0., 0., -1.));
    assert_eq!(rgba(world.trace_ray(&r, 5, &math())), (0.5, 0.5, 0.5, 1.0));
}

#[test]
fn facing_mirrors_end_in_background() {
    for depth in 0u16..12 {
        let objects = vec![
            wall(-5.0, false, material(MaterialType::Reflective, Color::white())),
            wall(5.0, true, material(MaterialType::Reflective, Color::white())),
        ];
        let world = World::new(camera(4, 4), objects, vec![], sky());
        let r = ray((0., 0., 0.), (0.01, 0.02, -1.));
        assert!(world.bvh.closest_index(&r).is_some());
        assert_eq!(world.trace_ray(&r, depth, &math()), sky());
    }
}

#[test]
fn a_mirror_shows_what_is_behind_the_viewer() {
    let objects = vec![
        wall(-5.0, false, material(MaterialType::Reflective, Color::white())),
        wall(5.0, true, material(MaterialType::NoMaterial, Color::white())),
    ];
    let world = World::new(camera(4, 4), objects, vec![], sky());
    let r = ray((0., 0., 0.), (0., 0., -1.));
    // One bounce is used up at the mirror, the next finds the grey wall.
    assert_eq!(world.trace_ray(&r, 1, &math()), sky());
    assert_eq!(rgba(world.trace_ray(&r, 2, &math())), (0.5, 0.5, 0.5, 1.0));
}

#[test]
fn compositions_add_their_parts_by_weight() {
    let parts = vec![(MaterialType::NoMaterial, s(0.5)), (MaterialType::NoMaterial, s(0.25))];
    let objects = vec![wall(-5.0, false, material(MaterialType::Composition(parts), Color::red()))];
    let world = World::new(camera(4, 4), objects, vec![], sky());
    let r = ray((0., 0., 0.), (0., 0., -1.));
    assert_eq!(rgba(world.trace_ray(&r, 3, &math())), (0.375, 0.375, 0.375, 0.75));
    // Weights that add up to more than one saturate.
    let parts = vec![(MaterialType::NoMaterial, s(1.5)), (MaterialType::NoMaterial, s(1.0))];
    let objects = vec![wall(-5.0, false, material(MaterialType::Composition(parts), Color::red()))];
    let world = World::new(camera(4, 4), objects, vec![], sky());
    assert_eq!(rgba(world.trace_ray(&r, 3, &math())), (1.0, 1.0, 1.0, 1.0));
}

#[test]
fn ambient_light_always_reaches() {
    let objects = vec![wall(-5.0, false, material(MaterialType::NoMaterial, Color::white()))];
    let world = World::new(camera(4, 4), objects, vec![], sky());
    let ambient = Light::new_ambient(Color::white());
    assert!(ambient.reaches_point(p(0., 0., -5.), &world.bvh, &math()));
    assert!(ambient.reaches_point(p(100., 100., 100.), &world.bvh, &math()));
}

#[test]
fn an_occluder_casts_a_shadow() {
    let phong = || material(MaterialType::new_phong(s(1.0), s(0.0), s(1.0)), Color::white());
    // A floor at depth -5, and a small sphere between it and the light.
    let objects = vec![
        wall(-5.0, false, phong()),
        Object::new_sphere(p(0., 0., -3.), s(0.5), phong()),
    ];
    let lights = vec![
        Light::new_point(p(0., 0., 0.), Color::white()),
        Light::new_ambient(Color::grayscale(s(0.125))),
    ];
    let world = World::new(camera(4, 4), objects, lights, sky());
    let light = world.lights[0];
    // Directly behind the sphere the light does not arrive.
    assert!(!light.reaches_point(p(0., 0., -5.), &world.bvh, &math()));
    assert_eq!(world.illuminating_lights(p(0., 0., -5.), &math()).len(), 1);
    // To the side it does.
    assert!(light.reaches_point(p(3., 0., -5.), &world.bvh, &math()));
    assert_eq!(world.illuminating_lights(p(3., 0., -5.), &math()).len(), 2);
    // On the lit side of the sphere it does too.
    assert!(light.reaches_point(p(0., 0., -2.5), &world.bvh, &math()));
    // In the shadow only the ambient light colours the floor.
    let r = ray((0.25, 0., -4.), (0., 0., -1.));
    assert_eq!(rgba(world.trace_ray(&r, 3, &math())), (0.125, 0.125, 0.125, 1.0));
}

#[test]
fn a_directional_light_is_blocked_from_the_sky() {
    let plain = || material(MaterialType::NoMaterial, Color::white());
    let objects = vec![wall(-5.0, false, plain()), Object::new_sphere(p(0., 0., -3.), s(0.5), plain())];
    let world = World::new(camera(4, 4), objects, vec![], sky());
    let sun = Light::new_directional(v(0., 0., -2.), Color::white());
    assert!(!sun.reaches_point(p(0., 0., -5.), &world.bvh, &math()));
    assert!(sun.reaches_point(p(3., 0., -5.), &world.bvh, &math()));
}

#[test]
fn point_light_falloff() {
    let light = Light::new_point(p(0., 0., 0.), Color::white());
    assert_eq!(f(light.get_falloff_at(p(0., 3., 4.), &math())), 5.0 / (0.001 + 25.0));
}

#[test]
fn phong_lights_a_facing_surface() {
    let phong = material(MaterialType::new_phong(s(1.0), s(0.0), s(1.0)), Color::red());
    let objects = vec![wall(-5.0, false, phong)];
    let lights = vec![Light::new_directional(v(0., 0., -1.), Color::grayscale(s(0.5)))];
    let world = World::new(camera(4, 4), objects, lights, sky());
    let r = ray((0., 0., 0.), (0., 0., -1.));
    assert_eq!(rgba(world.trace_ray(&r, 3, &math())), (0.5, 0.0, 0.0, 1.0));
}

#[test]
fn textures_colour_a_surface() {
    let phong = Material::new(MaterialType::new_phong(s(1.0), s(0.0), s(1.0)), chessboard());
    // The unit square in the plane of depth -5; u runs along x, v along y.
    let square = Object::new_quad(p(0., 0., -5.), p(1., 0., -5.), p(1., 1., -5.), p(0., 1., -5.), phong);
    let lights = vec![Light::new_ambient(Color::white())];
    let world = World::new(camera(4, 4), vec![square], lights, sky());
    let look = |x: f32, y: f32| {
        rgba(world.trace_ray(&ray((x, y, 0.), (0., 0., -1.)), 3, &math()))
    };
    assert_eq!(look(0.25, 0.25), (1.0, 0.0, 0.0, 1.0));
    assert_eq!(look(0.75, 0.25), (0.0, 1.0, 0.0, 1.0));
    assert_eq!(look(0.25, 0.75), (0.0, 0.0, 1.0, 1.0));
    assert_eq!(look(0.75, 0.75), (1.0, 1.0, 1.0, 1.0));
}

#[test]
fn texture_coordinates() {
    let plain = || material(MaterialType::NoMaterial, Color::white());
    let quad = Object::new_quad(p(0., 0., 0.), p(2., 0., 0.), p(2., 4., 0.), p(0., 4., 0.), plain());
    let uv = quad.get_uv(p(0.5, 3.0, 0.), &math());
    assert_eq!((f(uv.x), f(uv.y)), (0.25, 0.75));
    let triangle = Object::new_triangle(p(0., 0., 0.), p(2., 0., 0.), p(0., 4., 0.), plain());
    let uv = triangle.get_uv(p(1.0, 1.0, 0.), &math());
    assert_eq!((f(uv.x), f(uv.y)), (0.5, 0.25));
    let sphere = Object::new_sphere(p(0., 0., 0.), s(2.0), plain());
    let uv = sphere.get_uv(p(0., 0., 2.), &math());
    assert_eq!((f(uv.x), f(uv.y)), (0.0, 0.0));
    let uv = sphere.get_uv(p(0., 2., 0.), &math());
    let (theta, phi) = (0.0f32.acos(), 1.0f32.atan2(0.0));
    assert_eq!(
        (f(uv.x), f(uv.y)),
        (theta / (2.0 * std::f32::consts::PI), phi / std::f32::consts::PI)
    );
}

#[test]
fn images_hold_their_texels() {
    let bytes: Vec<u8> = (0..24).collect();
    let image = TextureImage::new(4, 2, bytes).unwrap();
    assert_eq!((image.width(), image.height()), (4, 2));
    assert_eq!(image.get_pixel(0, 0), Some((0, 1, 2)));
    assert_eq!(image.get_pixel(3, 0), Some((9, 10, 11)));
    assert_eq!(image.get_pixel(1, 1), Some((15, 16, 17)));
    assert_eq!(image.get_pixel(4, 0), None);
    assert_eq!(image.get_pixel(0, 2), None);
    assert!(TextureImage::new(4, 2, vec![0; 23]).is_none());
    assert!(TextureImage::new(0, 0, vec![]).is_some());
}

#[test]
fn an_image_without_texels_is_grey() {
    let empty = TextureType::Texture(Arc::new(TextureImage::new(0, 0, vec![]).unwrap()));
    let phong = Material::new(MaterialType::new_phong(s(1.0), s(0.0), s(1.0)), empty);
    let lights = vec![Light::new_ambient(Color::white())];
    let world = World::new(camera(4, 4), vec![wall(-5.0, false, phong)], lights, sky());
    let r = ray((0.5, 0.5, 0.), (0., 0., -1.));
    assert_eq!(rgba(world.trace_ray(&r, 3, &math())), (0.5, 0.5, 0.5, 1.0));
}

#[test]
fn a_cone_light_shines_within_its_angle() {
    let plain = || material(MaterialType::NoMaterial, Color::white());
    let world = World::new(camera(4, 4), vec![wall(-5.0, false, plain())], vec![], sky());
    let cone = Light::new_cone(p(0., 0., 0.), v(0., 0., -3.), s(30.0), Color::white());
    // On the axis, and twenty degrees off it.
    assert!(cone.reaches_point(p(0., 0., -5.), &world.bvh, &math()));
    assert!(cone.reaches_point(p(5.0 * 20f32.to_radians().tan(), 0., -5.), &world.bvh, &math()));
    // Forty degrees off the axis.
    assert!(!cone.reaches_point(p(5.0 * 40f32.to_radians().tan(), 0., -5.), &world.bvh, &math()));
    // On the axis the whole light arrives, near the edge a part of it.
    assert_eq!(f(cone.get_falloff_at(p(0., 0., -5.), &math())), 5.0 / (0.001 + 25.0));
    let edge = p(5.0 * 26f32.to_radians().tan(), 0., -5.);
    let part = f(cone.get_falloff_at(edge, &math()));
    let whole = f(Light::new_point(p(0., 0., 0.), Color::white()).get_falloff_at(edge, &math()));
    assert!((part / whole - 0.5).abs() < 1e-3);
    // Beyond the edge nothing does.
    assert_eq!(f(cone.get_falloff_at(p(5.0 * 40f32.to_radians().tan(), 0., -5.), &math())), 0.0);
}

#[test]
fn world_refuses_objects_without_a_box() {
    let plain = || material(MaterialType::NoMaterial, Color::white());
    let objects = vec![wall(-5.0, false, plain()), Object::new_sphere(p(0., f32::NAN, 0.), s(2.0), plain())];
    match World::checked(camera(4, 4), objects, vec![], sky()) {
        Err(e) => assert_eq!(e, BuildError::InvalidBounds(1)),
        Ok(_) => panic!("the second object has no valid box"),
    }
    assert!(World::checked(camera(4, 4), vec![wall(-5.0, false, plain())], vec![], sky()).is_ok());
}

#[test]
fn camera_rays_run_from_the_image_plane() {
    let c = camera(4, 2);
    let r = c.generate_ray(2, 1, None);
    let o = r.get_position();
    assert_eq!((f(o.x), f(o.y), f(o.z)), (0.0, 0.0, -1.0));
    let d = r.get_direction();
    assert_eq!((f(d.x), f(d.y), f(d.z)), (0.0, 0.0, -1.0));
    let r = c.generate_ray(0, 0, None);
    let o = r.get_position();
    assert_eq!((f(o.x), f(o.y), f(o.z)), (-0.5, 0.5, -1.0));
    let r = c.generate_ray(0, 0, Some((s(0.5), s(1.0))));
    let o = r.get_position();
    assert_eq!((f(o.x), f(o.y), f(o.z)), (0.25 / 4.0 - 0.5, 0.5 - 0.5 / 2.0, -1.0));
}

fn scene() -> World {
    let mirror = material(MaterialType::Reflective, Color::white());
    let glass = material(
        MaterialType::Composition(vec![
            (MaterialType::Refractive(s(1.3)), s(0.8)),
            (MaterialType::new_phong(s(0.4), s(0.6), s(1.8)), s(0.2)),
        ]),
        Color::green(),
    );
    let floor = Material::new(MaterialType::new_phong(s(1.0), s(0.0), s(1.0)), chessboard());
    let objects = vec![
        Object::new_quad(p(-5., -1., 5.), p(5., -1., 5.), p(5., -1., -5.), p(-5., -1., -5.), floor),
        Object::new_sphere(p(-0.5, 0., -3.), s(1.0), mirror),
        Object::new_sphere(p(0.7, -0.25, -2.), s(0.5), glass),
        Object::new_triangle(
            p(-2., 0., -4.),
            p(-1., 0., -4.),
            p(-2., 2., -4.),
            material(MaterialType::new_phong(s(1.0), s(0.0), s(1.0)), Color::yellow()),
        ),
    ];
    let lights = vec![
        Light::new_point(p(2., 3., 0.5), Color::white()),
        Light::new_directional(v(-1., -1., -1.), Color::grayscale(s(0.5))),
        Light::new_cone(p(-1.5, 2., 0.), v(1., -1., -1.), s(50.0), Color::red()),
        Light::new_ambient(Color::grayscale(s(0.2))),
    ];
    World::new(camera(8, 6), objects, lights, Color::grayscale(s(0.2)))
}

fn draws(height: u32, samples: u16, seed: u32) -> Vec<Vec<(Scalar, Scalar)>> {
    let mut state = seed;
    let mut next = move || {
        state = state.wrapping_mul(1664525).wrapping_add(1013904223);
        s(((state >> 8) as f32) / 16777216.0)
    };
    (0..height).map(|_| (0..samples).map(|_| (next(), next())).collect()).collect()
}

#[test]
fn a_pixel_is_the_mean_of_its_samples() {
    let world = scene();
    let one = render_pixel(&world, 3, 4, 1, 4, &vec![], &math());
    let r = world.camera.generate_ray(3, 4, None);
    let traced = world.trace_ray(&r, 4, &math());
    assert_eq!(one, traced);
    // Two samples at the same place give the same mean.
    let same = vec![(s(0.0), s(0.0)), (s(0.0), s(0.0))];
    let two = render_pixel(&world, 3, 4, 2, 4, &same, &math());
    assert_eq!(two, traced);
}

#[test]
fn the_image_does_not_depend_on_the_order_of_arrival() {
    let world = scene();
    let (width, height) = (world.camera.width, world.camera.height);
    let column = |x: u32| render_column(&world, x, 3, 4, &draws(height, 3, x), &math());
    let in_order: Vec<(u32, Vec<Color>)> = (0..width).map(|x| (x, column(x))).collect();
    let shuffled: Vec<(u32, Vec<Color>)> =
        [5u32, 0, 7, 2, 1, 6, 3, 4].iter().map(|&x| (x, column(x))).collect();
    let a = assemble(width, height, &in_order).unwrap();
    let b = assemble(width, height, &shuffled).unwrap();
    assert_eq!(a, b);
    let all_draws: Vec<_> = (0..width).map(|x| draws(height, 3, x)).collect();
    assert_eq!(a, render(&world, 3, 4, &all_draws, &math()));
    assert_eq!(a.len(), 8);
    for x in 0..width {
        assert_eq!(a[x as usize], column(x));
        assert_eq!(a[x as usize].len(), 6);
    }
    // Not everything in the picture is background.
    let background = Color::grayscale(s(0.2));
    assert!(a.iter().any(|c| c.iter().any(|&px| px != background)));
}

#[test]
fn assembly_reports_what_is_wrong() {
    let col = |h: usize| vec![Color::black(); h];
    assert_eq!(assemble(2, 3, &vec![(0, col(3)), (1, col(3))]).unwrap().len(), 2);
    assert_eq!(assemble(0, 3, &vec![]).unwrap().len(), 0);
    assert_eq!(assemble(2, 3, &vec![(0, col(3))]), Err(RenderError::Incomplete(1)));
    assert_eq!(assemble(2, 3, &vec![]), Err(RenderError::Incomplete(0)));
    assert_eq!(assemble(2, 3, &vec![(0, col(3)), (2, col(3))]), Err(RenderError::UnknownColumn(2)));
    assert_eq!(assemble(2, 3, &vec![(1, col(3)), (0, col(2))]), Err(RenderError::WrongHeight(0)));
    assert_eq!(
        assemble(2, 3, &vec![(1, col(3)), (1, col(3))]),
        Err(RenderError::DuplicateColumn(1))
    );
    assert_eq!(
        assemble(2, 3, &vec![(1, col(3)), (1, col(3)), (5, col(3))]),
        Err(RenderError::DuplicateColumn(1))
    );
}

#[test]
fn the_image_becomes_bytes_row_by_row() {
    // Three columns of two rows.
    let pixels = vec![
        vec![Color::red(), Color::white()],
        vec![Color::green(), Color::black()],
        vec![Color::blue(), Color::grayscale(s(0.5))],
    ];
    let bytes = to_rgb_bytes(3, 2, &pixels);
    assert_eq!(
        bytes,
        vec![255, 0, 0, 0, 255, 0, 0, 0, 255, 255, 255, 255, 0, 0, 0, 127, 127, 127]
    );
    assert_eq!(to_rgb_bytes(0, 0, &vec![]), Vec::<u8>::new());
}

#[test]
fn a_light_in_an_empty_scene_reaches_every_point() {
    let world = World::new(camera(4, 4), vec![], vec![], sky());
    let light = Light::new_point(p(0., 5., 0.), Color::white());
    assert!(light.reaches_point(p(0., 0., 0.), &world.bvh, &math()));
    let cone = Light::new_cone(p(0., 5., 0.), v(0., -1., 0.), s(30.0), Color::white());
    assert!(cone.reaches_point(p(0., 0., 0.), &world.bvh, &math()));
    assert!(!cone.reaches_point(p(50., 0., 0.), &world.bvh, &math()));
}

#[test]
fn a_point_beside_all_surfaces_is_lit() {
    // The ray from the light to the point passes the sphere and meets
    // nothing.
    let plain = || material(MaterialType::NoMaterial, Color::white());
    let world =
        World::new(camera(4, 4), vec![Object::new_sphere(p(5., 0., 0.), s(1.0), plain())], vec![], sky());
    let light = Light::new_point(p(0., 5., 0.), Color::white());
    assert!(light.reaches_point(p(0., -5., 0.), &world.bvh, &math()));
    // Behind the sphere it is dark.
    let light = Light::new_point(p(0., 0., 0.), Color::white());
    assert!(!light.reaches_point(p(10., 0., 0.), &world.bvh, &math()));
}
