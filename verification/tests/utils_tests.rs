use cgmath::{Deg, InnerSpace, Transform};
use ray_tracer::ray::Ray;
use ray_tracer::scalar::Scalar;
use ray_tracer::utils::{clamp, component_wise_range, get_axis_scaling, reflect, refract};
use ray_tracer::vector::{Matrix4, Point3, Vector3, Vector4};

fn s(x: f32) -> Scalar {
    Scalar::from_bits(x.to_bits())
}

fn f(x: Scalar) -> f32 {
    f32::from_bits(x.to_bits())
}

fn p(x: f32, y: f32, z: f32) -> Point3 {
    Point3::new(s(x), s(y), s(z))
}

fn v(x: f32, y: f32, z: f32) -> Vector3 {
    Vector3::new(s(x), s(y), s(z))
}

fn fv(a: Vector3) -> (f32, f32, f32) {
    (f(a.x), f(a.y), f(a.z))
}

fn fp(a: Point3) -> (f32, f32, f32) {
    (f(a.x), f(a.y), f(a.z))
}

fn cv(a: cgmath::Vector3<f32>) -> Vector3 {
    v(a.x, a.y, a.z)
}

fn matrix(m: cgmath::Matrix4<f32>) -> Matrix4 {
    let col = |c: cgmath::Vector4<f32>| Vector4::new(s(c.x), s(c.y), s(c.z), s(c.w));
    Matrix4::from_cols(col(m.x), col(m.y), col(m.z), col(m.w))
}

fn close(a: (f32, f32, f32), b: (f32, f32, f32), eps: f32) -> bool {
    (a.0 - b.0).abs() <= eps && (a.1 - b.1).abs() <= eps && (a.2 - b.2).abs() <= eps
}

#[test]
fn test_clamp() {
    assert_eq!(f(clamp(s(100.), s(0.), s(1.))), 1.0);
    assert_eq!(f(clamp(s(-100.), s(0.), s(1.))), 0.);
    assert_eq!(f(clamp(s(0.5), s(0.), s(1.))), 0.5);
}

#[test]
fn clamp_passes_nan_through() {
    assert!(f(clamp(s(f32::NAN), s(0.), s(1.))).is_nan());
}

#[test]
fn test_reflect() {
    let k = 2_f32.sqrt() / 2.0;
    let r = reflect(v(1.0, 0.0, 0.0), v(k * -1.0, k * 1.0, k * 0.0));
    let (x, y, z) = fv(r);
    assert!(((x - 0.0).powi(2) + (y - 1.0).powi(2) + (z - 0.0).powi(2)).sqrt() < 1e-5);
}

#[test]
fn test_component_wise_range() {
    let points = vec![p(-1., 0., 1.), p(0., -1., 0.), p(1., 0., 0.)];
    let range = component_wise_range(&points);
    assert_eq!((fp(range.0), fp(range.1)), ((-1., -1., 0.), (1., 0., 1.)));
}

#[test]
fn test_get_scaling() {
    let rotate = cgmath::Matrix4::from_angle_x(Deg(120.0f32))
        * cgmath::Matrix4::from_angle_y(Deg(90.0))
        * cgmath::Matrix4::from_angle_z(Deg(45.0));

    let translate = cgmath::Matrix4::from_translation(cgmath::Vector3::new(1.0, 0.5, -2.0));
    let transform = rotate * translate;
    assert!(close(fv(get_axis_scaling(&matrix(transform))), (1., 1., 1.), f32::EPSILON));

    let translate = cgmath::Matrix4::from_translation(cgmath::Vector3::new(1.0, 0.5, -2.0));
    let scale = cgmath::Matrix4::from_nonuniform_scale(1., 2., 3.);
    let transform = translate * rotate * scale * translate.inverse_transform().unwrap();
    assert!(close(fv(get_axis_scaling(&matrix(transform))), (1., 2., 3.), f32::EPSILON));

    let scale = cgmath::Matrix4::from_nonuniform_scale(10., -0.5, 1.);
    assert!(close(fv(get_axis_scaling(&matrix(scale))), (10., 0.5, 1.), f32::EPSILON));
}

#[test]
fn vectors_agree_with_cgmath_bit_for_bit() {
    let samples = [
        cgmath::Vector3::new(1.0f32, 2.0, 3.0),
        cgmath::Vector3::new(-0.3, 0.7, 0.11),
        cgmath::Vector3::new(1e-3, -2e5, 7.25),
        cgmath::Vector3::new(0.5, 0.5, 0.0),
    ];
    for a in samples.iter() {
        for b in samples.iter() {
            assert_eq!(f(cv(*a).dot(cv(*b))).to_bits(), a.dot(*b).to_bits());
            let c = a.cross(*b);
            assert_eq!(cv(*a).cross(cv(*b)), cv(c));
            assert_eq!(cv(*a).add(cv(*b)), cv(a + b));
            assert_eq!(cv(*a).sub(cv(*b)), cv(a - b));
        }
        assert_eq!(cv(*a).normalize(), cv(a.normalize()));
        assert_eq!(f(cv(*a).magnitude()).to_bits(), a.magnitude().to_bits());
        assert_eq!(cv(*a).scale(s(0.3)), cv(a * 0.3));
    }
}

#[test]
fn transforms_agree_with_cgmath_bit_for_bit() {
    let m = cgmath::Matrix4::from_translation(cgmath::Vector3::new(1.0f32, 0.5, -2.0))
        * cgmath::Matrix4::from_angle_x(Deg(33.0))
        * cgmath::Matrix4::from_nonuniform_scale(1.5, 2.0, 0.25);
    let lib = matrix(m);
    let a = cgmath::Point3::new(0.3f32, -1.7, 2.9);
    let q = m.transform_point(a);
    assert_eq!(lib.transform_point(p(a.x, a.y, a.z)), p(q.x, q.y, q.z));
    let d = cgmath::Vector3::new(0.3f32, -1.7, 2.9);
    assert_eq!(lib.transform_vector(cv(d)), cv(m.transform_vector(d)));
}

#[test]
fn rays_are_normalised_and_offset_moves_them() {
    let r = Ray::new(p(1.0, 2.0, 3.0), v(0.0, 3.0, 4.0));
    assert_eq!(fv(r.get_direction()), (0.0, 0.6, 0.8));
    let (x, y, z) = r.get_point_on_ray(s(5.0));
    assert_eq!((f(x), f(y), f(z)), (1.0, 5.0, 7.0));
    assert_eq!(f(r.get_t(p(1.0, 5.0, 7.0))), 5.0);
    let moved = r.offset(s(0.5));
    assert_eq!(fp(moved.get_position()), (1.0, 2.3, 3.4));
}

#[test]
fn refraction_straight_through_keeps_direction() {
    let r = refract(v(0.0, 0.0, 1.0), v(0.0, 0.0, -1.0), s(1.5));
    assert!(close(fv(r), (0.0, 0.0, 1.0), 1e-6));
    // Total internal reflection: the root of a negative number.
    let grazing = cgmath::Vector3::new(0.99f32, 0.0, 0.14106736).normalize();
    let r = refract(cv(grazing), v(0.0, 0.0, 1.0), s(1.5));
    assert!(f(r.x).is_nan() && f(r.z).is_nan());
}
