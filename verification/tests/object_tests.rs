use cgmath::SquareMatrix;
use ray_tracer::material::{Material, MaterialType, TextureType};
use ray_tracer::object::Object;
use ray_tracer::ray::Ray;
use ray_tracer::scalar::Scalar;
use ray_tracer::vector::{Matrix4, Point3, Vector3, Vector4};

fn s(x: f32) -> Scalar {
    Scalar::from_bits(x.to_bits())
}

fn f(x: Scalar) -> f32 {
    f32::from_bits(x.to_bits())
}

fn p(x: f32, y: f32, z: f32) -> Point3 {
    Point3::new(s(x), s(y), s(z))
}

fn v(x: f32, y: f32, z: f32) -> Vector3 {
    Vector3::new(s(x), s(y), s(z))
}

fn ray(o: (f32, f32, f32), d: (f32, f32, f32)) -> Ray {
    Ray::new(p(o.0, o.1, o.2), v(d.0, d.1, d.2))
}

fn plain() -> Material {
    Material::new(MaterialType::NoMaterial, TextureType::NoTexture)
}

fn distance(a: Point3, b: (f32, f32, f32)) -> f32 {
    let (dx, dy, dz) = (f(a.x) - b.0, f(a.y) - b.1, f(a.z) - b.2);
    (dx * dx + dy * dy + dz * dz).sqrt()
}

fn matrix(m: cgmath::Matrix4<f32>) -> Matrix4 {
    let col = |c: cgmath::Vector4<f32>| Vector4::new(s(c.x), s(c.y), s(c.z), s(c.w));
    Matrix4::from_cols(col(m.x), col(m.y), col(m.z), col(m.w))
}

#[test]
fn test_sphere() {
    let sphere = Object::new_sphere(p(1.0, 2.0, 3.0), s(0.25), plain());
    let r = ray((0.0, 0.0, 0.0), (-1.0, 0.0, 0.0));
    assert!(sphere.get_intersection(&r).is_none());
    let r = ray((0.0, 1.0, 0.0), (1.0, 1.0, 3.0));
    assert!(sphere.get_intersection(&r).is_some());
}

#[test]
fn test_quad() {
    let quad = Object::new_quad(
        p(-1.0, 0.0, 1.0),
        p(1.0, 0.0, 1.0),
        p(1.0, 0.0, -1.0),
        p(-1.0, 0.0, -1.0),
        plain(),
    );
    let r = ray((0.0, 1.0, 0.0), (0.0, -1.0, 0.5));
    assert!(quad.get_intersection(&r).is_some());
    let r = ray((0.0, 1.0, 0.0), (0.0, 1.0, 0.0));
    assert!(quad.get_intersection(&r).is_none());
    let r = ray((0.0, 1.0, 0.0), (0.0, 0.0, 1.0));
    assert!(quad.get_intersection(&r).is_none());
    let r = ray((0.0, -1.0, 0.0), (0.0, 1.0, 0.0));
    assert!(quad.get_intersection(&r).is_none());
}

#[test]
fn test_triangle() {
    let triangle =
        Object::new_triangle(p(0.0, 0.0, 0.0), p(1.0, 0.0, 0.0), p(0.0, 1.0, 0.0), plain());
    let r = ray((0.1, 0.1, 1.0), (0.0, 0.0, -1.0));
    assert!(triangle.get_intersection(&r).is_some());
    let r = ray((1.0, 1.0, -1.0), (0.0, 0.0, 1.0));
    assert!(triangle.get_intersection(&r).is_none());

    let triangle =
        Object::new_triangle(p(0.0, 0.0, 0.0), p(0.0, 1.0, 0.0), p(1.0, 0.0, 0.0), plain());
    let r = ray((0.1, 0.1, 1.0), (0.0, 0.0, -1.0));
    assert!(triangle.get_intersection(&r).is_none());
    let r = ray((1.0, 1.0, -1.0), (0.0, 0.0, 1.0));
    assert!(triangle.get_intersection(&r).is_none());
}

#[test]
fn test_sphere_bounding_box() {
    let epsilon = 1e-4;
    let sphere = Object::new_sphere(p(2.0, 0.0, 1.0), s(1.5), plain());
    let (a, b) = sphere.get_bounding_box();
    assert!(distance(a, (0.5, -1.5, -0.5)) < epsilon);
    assert!(distance(b, (3.5, 1.5, 2.5)) < epsilon);
}

#[test]
fn test_quad_bounding_box() {
    let epsilon = 1e-4;
    let quad = Object::new_quad(
        p(1.0, 1.0, 1.0),
        p(3.0, 1.0, 1.0),
        p(3.0, 1.0, 0.0),
        p(1.0, 1.0, 0.0),
        plain(),
    );
    let (a, b) = quad.get_bounding_box();
    assert!(distance(a, (1.0, 1.0, 0.0)) < epsilon);
    assert!(distance(b, (3.0, 1.0, 1.0)) < epsilon);
}

#[test]
fn sphere_hit_parameters_are_exact() {
    let sphere = Object::new_sphere(p(0.0, 0.0, 5.0), s(1.0), plain());
    let r = ray((0.0, 0.0, 0.0), (0.0, 0.0, 1.0));
    assert_eq!(sphere.get_intersection(&r).map(f), Some(4.0));
    // From inside, the far side is met.
    let r = ray((0.0, 0.0, 5.0), (0.0, 0.0, 1.0));
    assert_eq!(sphere.get_intersection(&r).map(f), Some(1.0));
    // Behind the ray.
    let r = ray((0.0, 0.0, 7.0), (0.0, 0.0, 1.0));
    assert_eq!(sphere.get_intersection(&r).map(f), None);
}

#[test]
fn normals_point_outwards() {
    let sphere = Object::new_sphere(p(0.0, 0.0, 5.0), s(1.0), plain());
    let n = sphere.get_normal(p(0.0, 0.0, 4.0));
    assert_eq!((f(n.x), f(n.y), f(n.z)), (0.0, 0.0, -1.0));
    let triangle =
        Object::new_triangle(p(0.0, 0.0, 0.0), p(1.0, 0.0, 0.0), p(0.0, 1.0, 0.0), plain());
    let n = triangle.get_normal(p(0.1, 0.1, 0.0));
    assert_eq!((f(n.x), f(n.y), f(n.z)), (0.0, 0.0, 1.0));
}

#[test]
fn transformed_sphere_is_met_where_it_stands() {
    let to_world = cgmath::Matrix4::from_translation(cgmath::Vector3::new(0.0f32, 3.0, 0.0));
    let to_object = to_world.invert().unwrap();
    let sphere = Object::new_sphere(p(0.0, 0.0, 5.0), s(1.0), plain())
        .transform(matrix(to_world), matrix(to_object));
    let r = ray((0.0, 3.0, 0.0), (0.0, 0.0, 1.0));
    assert_eq!(sphere.get_intersection(&r).map(f), Some(4.0));
    let r = ray((0.0, 0.0, 0.0), (0.0, 0.0, 1.0));
    assert_eq!(sphere.get_intersection(&r).map(f), None);
    let (a, b) = sphere.get_bounding_box();
    assert!(distance(a, (-1.0, 2.0, 4.0)) < 1e-6);
    assert!(distance(b, (1.0, 4.0, 6.0)) < 1e-6);
}

#[test]
fn materials_can_be_copied() {
    let parts = vec![
        (MaterialType::Reflective, s(0.4)),
        (MaterialType::new_phong(s(0.4), s(0.6), s(1.8)), s(0.6)),
    ];
    let m = Material::new(MaterialType::Composition(parts), TextureType::NoTexture);
    let copy = m.clone();
    match (&m.material_type, &copy.material_type) {
        (MaterialType::Composition(a), MaterialType::Composition(b)) => {
            assert_eq!(a.len(), b.len());
            assert_eq!(a[0].1, b[0].1);
            assert_eq!(a[1].1, b[1].1);
            assert!(matches!(b[0].0, MaterialType::Reflective));
            assert!(matches!(b[1].0, MaterialType::Phong { .. }));
        }
        _ => panic!("a copy of a composition is a composition"),
    }
}

#[test]
fn a_scaled_triangle_is_met_at_the_distance_in_the_world() {
    let to_world = cgmath::Matrix4::from_scale(2.0f32);
    let to_object = to_world.invert().unwrap();
    let triangle =
        Object::new_triangle(p(0.0, 0.0, 0.0), p(1.0, 0.0, 0.0), p(0.0, 1.0, 0.0), plain())
            .transform(matrix(to_world), matrix(to_object));
    let r = ray((0.5, 0.5, 2.0), (0.0, 0.0, -1.0));
    assert_eq!(triangle.get_intersection(&r).map(f), Some(2.0));
    let t = triangle.get_intersection(&r).unwrap();
    let (x, y, z) = r.get_point_on_ray(t);
    assert_eq!((f(x), f(y), f(z)), (0.5, 0.5, 0.0));
    let quad = Object::new_quad(
        p(0.0, 0.0, 0.0),
        p(1.0, 0.0, 0.0),
        p(1.0, 1.0, 0.0),
        p(0.0, 1.0, 0.0),
        plain(),
    )
    .transform(matrix(to_world), matrix(to_object));
    let r = ray((1.5, 1.5, 3.0), (0.0, 0.0, -1.0));
    assert_eq!(quad.get_intersection(&r).map(f), Some(3.0));
}

#[test]
fn the_box_of_a_scaled_sphere_bounds_it() {
    let to_world = cgmath::Matrix4::from_nonuniform_scale(2.0f32, 3.0, 0.5);
    let to_object = to_world.invert().unwrap();
    let sphere = Object::new_sphere(p(1.0, 1.0, 2.0), s(1.0), plain())
        .transform(matrix(to_world), matrix(to_object));
    let (a, b) = sphere.get_bounding_box();
    assert_eq!((f(a.x), f(a.y), f(a.z)), (0.0, 0.0, 0.5));
    assert_eq!((f(b.x), f(b.y), f(b.z)), (4.0, 6.0, 1.5));
    // A sphere of negative radius has the box of the same sphere.
    let inside_out = Object::new_sphere(p(1.0, 1.0, 2.0), s(-1.0), plain());
    let (a, b) = inside_out.get_bounding_box();
    assert_eq!((f(a.x), f(a.y), f(a.z)), (0.0, 0.0, 1.0));
    assert_eq!((f(b.x), f(b.y), f(b.z)), (2.0, 2.0, 3.0));
}
