use ray_tracer::aabb::AABB;
use ray_tracer::bvh::Bvh;
use ray_tracer::bvh::BuildError;
use ray_tracer::material::{Material, MaterialType, TextureType};
use ray_tracer::object::Object;
use ray_tracer::ray::Ray;
use ray_tracer::scalar::Scalar;
use ray_tracer::split::{
    bvh_split, bvh_split_by_sah, bvh_split_by_x_axis, bvh_split_naive, centroids, SplitType,
};
use ray_tracer::vector::{Point3, Vector3};

fn s(x: f32) -> Scalar {
    Scalar::from_bits(x.to_bits())
}

fn f(x: Scalar) -> f32 {
    f32::from_bits(x.to_bits())
}

fn p(x: f32, y: f32, z: f32) -> Point3 {
    Point3::new(s(x), s(y), s(z))
}

fn v(x: f32, y: f32, z: f32) -> Vector3 {
    Vector3::new(s(x), s(y), s(z))
}

fn ray(o: (f32, f32, f32), d: (f32, f32, f32)) -> Ray {
    Ray::new(p(o.0, o.1, o.2), v(d.0, d.1, d.2))
}

fn hit(aabb: &AABB, ray: &Ray) -> Option<f32> {
    aabb.intersect(ray).map(f)
}

fn plain() -> Material {
    Material::new(MaterialType::NoMaterial, TextureType::NoTexture)
}

fn boxes(objects: &Vec<Object>) -> Vec<AABB> {
    objects
        .iter()
        .map(|o| {
            let (min, max) = o.get_bounding_box();
            AABB::new(min, max)
        })
        .collect()
}

fn three_objects() -> Vec<Object> {
    let triangle = Object::new_triangle(p(0.0, 0.0, 1.0), p(0.0, 1.0, 1.0), p(1.0, 0.0, 1.0), plain());
    let sphere = Object::new_sphere(p(0.0, 5.0, 1.0), s(0.5), plain());
    let quad = Object::new_quad(
        p(0.0, -5.0, 0.0),
        p(1.0, -5.0, 0.0),
        p(1.0, -5.0, -1.0),
        p(0.0, -5.0, -1.0),
        plain(),
    );
    vec![triangle, sphere, quad]
}

#[test]
fn test_aabb_surface_area() {
    let aabb = AABB::new(p(0., 0., 0.), p(1., 1., 2.));
    assert_eq!(f(aabb.surface_area()), 10.);
}

#[test]
fn test_aabb_intersect() {
    let aabb = AABB::new(p(-1.0, -1.0, 10.0), p(1.0, 1.0, 11.0));

    let r = ray((0.0, 0.0, 0.0), (0.0, 0.0, 1.0));
    assert!(aabb.intersect(&r).is_some());

    let r = ray((0.5, 0.0, 0.0), (0.0, 0.0, 1.0));
    assert!(aabb.intersect(&r).is_some());

    let r = ray((-10.1, -10.0, 0.0), (10.1, 10.2, 10.3));
    assert!(aabb.intersect(&r).is_some());

    let r = ray((0.0, 0.0, 10.5), (0.0, 0.0, 1.0));
    assert!(aabb.intersect(&r).is_some());

    let r = ray((0.0, 0.0, 10.5), (1.0, 1.0, 1.0));
    assert!(aabb.intersect(&r).is_some());

    let r = ray((1.5, 0.0, 0.0), (1.5, 0.0, 1.0));
    assert!(aabb.intersect(&r).is_none());

    let aabb = AABB::new(p(0., 0., 0.), p(1.0, 1.0, 1.0));

    let r = ray((-0.5, -0.5, -0.5), (0.5, 0.5, 0.5));
    assert!(aabb.intersect(&r).is_some());

    let r = ray((-0.5, -0.5, -0.5), (-0.5, 0.5, 0.5));
    assert!(aabb.intersect(&r).is_none());

    let r = ray((-1.0, 0.5, 0.5), (1.0, 0., 0.));
    assert_eq!(hit(&aabb, &r), Some(1.));

    let r = ray((-0.5, -0.5, 0.5), (0.5, 0.5, 0.));
    assert_eq!(hit(&aabb, &r), Some(1. / (2. as f32).sqrt()));

    // ray grazes a corner
    let r = ray((-1.0, -1.0, 0.), (1., 0.5, 0.));
    assert_eq!(hit(&aabb, &r), Some(f(r.get_t(p(1., 0., 0.)))));

    // ray starts in the middle and shoots out
    let r = ray((0.5, 0.5, 0.5), (1., 0., 0.));
    assert_eq!(hit(&aabb, &r), Some(0.5));
}

#[test]
fn aabb_axis_parallel_ray_outside_misses() {
    let aabb = AABB::new(p(0., 0., 0.), p(1.0, 1.0, 1.0));
    let r = ray((-1.0, 1.5, 0.5), (1.0, 0., 0.));
    assert_eq!(hit(&aabb, &r), None);
    let r = ray((0.5, 0.5, 2.0), (0.0, 1.0, 0.0));
    assert_eq!(hit(&aabb, &r), None);
}

#[test]
fn aabb_checked_rejects_inverted_and_nan() {
    assert!(AABB::checked(p(0., 0., 0.), p(1., 1., 1.)).is_some());
    assert!(AABB::checked(p(0., 0., 0.), p(0., 0., 0.)).is_some());
    assert!(AABB::checked(p(2., 0., 0.), p(1., 1., 1.)).is_none());
    assert!(AABB::checked(p(0., 0., f32::NAN), p(1., 1., 1.)).is_none());
}

#[test]
fn aabb_union_is_hull_and_empty_is_origin() {
    let e = AABB::union(vec![]);
    assert_eq!(e, AABB::empty());
    assert_eq!(f(e.surface_area()), 0.0);
    let u = AABB::union(vec![
        AABB::new(p(-1., 0., 2.), p(0., 1., 3.)),
        AABB::new(p(0.5, -2., 2.5), p(4., 0.5, 2.75)),
    ]);
    assert_eq!(u, AABB::new(p(-1., -2., 2.), p(4., 1., 3.)));
}

#[test]
fn test_bvh_intersect() {
    let bvh = Bvh::new(three_objects());

    let r = ray((-1.0, 0.0, 0.0), (-1.0, 0.0, 1.0));
    assert!(bvh.get_closest_intersection(&r).is_none());

    // Intersect triangle
    let r = ray((0.1, 0.1, 0.0), (0.0, 0.0, 1.0));
    assert!(bvh.get_closest_intersection(&r).is_some());

    let r = ray((-0.1, 0.1, 0.0), (0.0, 0.0, 1.0));
    assert!(bvh.get_closest_intersection(&r).is_none());

    // Intersect sphere
    let r = ray((0.0, 5.25, 0.0), (0.0, 0.0, 1.0));
    assert!(bvh.get_closest_intersection(&r).is_some());

    let r = ray((0.0, 5.55, 0.0), (0.0, 0.0, 1.0));
    assert!(bvh.get_closest_intersection(&r).is_none());

    // Intersect quad
    let r = ray((0.0, 0.0, 0.0), (0.0, -1.0, 0.0));
    assert!(bvh.get_closest_intersection(&r).is_some());

    let r = ray((0.0, 0.0, 0.0), (0.1, -5.0, -0.1));
    assert!(bvh.get_closest_intersection(&r).is_some());

    let r = ray((2.0, 0.0, 0.0), (0.0, -1.0, 0.0));
    assert!(bvh.get_closest_intersection(&r).is_none());
}

#[test]
fn bvh_finds_the_primitive_the_ray_goes_through() {
    let bvh = Bvh::new(three_objects());
    let r = ray((0.1, 0.1, 0.0), (0.0, 0.0, 1.0));
    assert_eq!(bvh.closest_index(&r).map(|h| (h.0, f(h.1))), Some((0, 1.0)));
    let r = ray((0.0, 5.25, 0.0), (0.0, 0.0, 1.0));
    assert_eq!(bvh.closest_index(&r).map(|h| h.0), Some(1));
    let r = ray((0.0, 0.0, 0.0), (0.0, -1.0, 0.0));
    assert_eq!(bvh.closest_index(&r).map(|h| (h.0, f(h.1))), Some((2, 5.0)));
}

fn mock_spheres() -> Vec<Object> {
    let mock_sphere = |c: (f32, f32, f32)| Object::new_sphere(p(c.0, c.1, c.2), s(1.0), plain());
    vec![
        mock_sphere((0., 0., 0.)),
        mock_sphere((1., 6., 1.)),
        mock_sphere((1., 7., 1.)),
        mock_sphere((1., 8., 1.)),
        mock_sphere((1., 9., 1.)),
    ]
}

#[test]
fn test_bvh_split() {
    let objects = mock_spheres();
    let boxes = boxes(&objects);
    let indices: Vec<usize> = (0..objects.len()).collect();

    let (left, right) = bvh_split_naive(indices.clone());
    assert_eq!(left.len(), 2);
    assert_eq!(right.len(), 3);

    let (left, right) = bvh_split_by_x_axis(&boxes, &indices);
    assert_eq!(left.len(), 2);
    assert_eq!(right.len(), 3);

    let (left, right) = bvh_split(&boxes, &indices, SplitType::Basic);
    assert_eq!(left.len(), 1);
    assert_eq!(right.len(), 4);

    let (left, right) = bvh_split(&boxes, &indices, SplitType::SAH);
    assert_eq!(left.len(), 1);
    assert_eq!(right.len(), 4);
}

#[test]
fn split_by_x_sorts_and_keeps_equals_in_order() {
    let centers = [(3., 0., 0.), (1., 5., 0.), (2., 0., 0.), (1., 0., 0.), (-4., 0., 0.)];
    let objects: Vec<Object> =
        centers.iter().map(|c| Object::new_sphere(p(c.0, c.1, c.2), s(1.0), plain())).collect();
    let boxes = boxes(&objects);
    let indices: Vec<usize> = (0..objects.len()).collect();
    let (left, right) = bvh_split_by_x_axis(&boxes, &indices);
    assert_eq!(left, vec![4, 1]);
    assert_eq!(right, vec![3, 2, 0]);
}

#[test]
fn split_keeps_order_and_sides() {
    let objects = mock_spheres();
    let boxes = boxes(&objects);
    let indices: Vec<usize> = vec![4, 0, 3, 1, 2];
    let (left, right) = bvh_split(&boxes, &indices, SplitType::SAH);
    assert_eq!(left, vec![0]);
    assert_eq!(right, vec![4, 3, 1, 2]);
    let (left, right) = bvh_split_naive(indices);
    assert_eq!(left, vec![4, 0]);
    assert_eq!(right, vec![3, 1, 2]);
}

fn grid_of_spheres(n: usize) -> Vec<Object> {
    let mut objects = Vec::new();
    let mut state: u32 = 12345;
    for _ in 0..n {
        let mut next = || {
            state = state.wrapping_mul(1664525).wrapping_add(1013904223);
            ((state >> 8) as f32) / 16777216.0
        };
        let c = p(next() * 40.0 - 20.0, next() * 40.0 - 20.0, next() * 40.0 - 20.0);
        objects.push(Object::new_sphere(c, s(0.25 + next()), plain()));
    }
    objects
}

#[test]
fn bvh_holds_every_primitive_once() {
    for n in [0usize, 1, 2, 3, 5, 17, 200] {
        for split in [SplitType::Basic, SplitType::SAH] {
            let bvh = Bvh::with_split(grid_of_spheres(n), split);
            assert_eq!(bvh.get_num_objects(), n);
            assert!(n <= 1 || bvh.get_depth() >= 1);
            assert!(bvh.get_depth() <= n);
        }
    }
}

#[test]
fn bvh_of_coinciding_primitives_terminates() {
    let objects: Vec<Object> =
        (0..9).map(|_| Object::new_sphere(p(1., 2., 3.), s(1.0), plain())).collect();
    let bvh = Bvh::new(objects);
    assert_eq!(bvh.get_num_objects(), 9);
    let r = ray((1.0, 2.0, -5.0), (0.0, 0.0, 1.0));
    assert_eq!(bvh.closest_index(&r).map(|h| (h.0, f(h.1))), Some((0, 7.0)));
}

#[test]
fn split_policies_agree_on_hits() {
    let basic = Bvh::with_split(grid_of_spheres(120), SplitType::Basic);
    let sah = Bvh::with_split(grid_of_spheres(120), SplitType::SAH);
    let flat = grid_of_spheres(120);
    let mut hits = 0;
    for i in 0..40 {
        for j in 0..40 {
            let r = ray((i as f32 - 20.0, j as f32 - 20.0, -50.0), (0.01, 0.02, 1.0));
            let a = basic.closest_index(&r).map(|h| f(h.1));
            let b = sah.closest_index(&r).map(|h| f(h.1));
            let mut c: Option<f32> = None;
            for o in flat.iter() {
                if let Some(t) = o.get_intersection(&r) {
                    if c.map_or(true, |best| f(t) < best) {
                        c = Some(f(t));
                    }
                }
            }
            assert_eq!(a, b);
            assert_eq!(a, c);
            if a.is_some() {
                hits += 1;
            }
        }
    }
    assert!(hits > 0);
}

#[test]
fn checked_build_names_the_first_bad_box() {
    let mut objects = three_objects();
    objects.push(Object::new_sphere(p(0.0, f32::NAN, 0.0), s(1.0), plain()));
    objects.push(Object::new_sphere(p(f32::NAN, 0.0, 0.0), s(1.0), plain()));
    match Bvh::checked(objects, SplitType::SAH) {
        Err(e) => assert_eq!(e, BuildError::InvalidBounds(3)),
        Ok(_) => panic!("a sphere without a place has no valid box"),
    }
    assert!(Bvh::checked(three_objects(), SplitType::Basic).is_ok());
}

#[test]
fn total_area_adds_up_the_boxes() {
    let bvh = Bvh::new(vec![Object::new_sphere(p(0.0, 0.0, 0.0), s(0.5), plain())]);
    assert_eq!(bvh.get_depth(), 0);
    assert_eq!(f(bvh.total_sa()), 6.0);
}

#[test]
fn centroids_are_the_means_of_the_corners() {
    let c = ray_tracer::split::centroid(&AABB::new(p(-1., 2., 0.5), p(3., 2., 1.5)));
    assert_eq!((f(c.x), f(c.y), f(c.z)), (1.0, 2.0, 1.0));
}

#[test]
fn the_surface_area_heuristic_splits_between_clusters() {
    // Six small spheres near x = 0 and two far away: the cheapest split
    // leaves the two alone, where the midpoint would do the same only by
    // chance of the range.
    let xs = [0.0f32, 0.1, 0.2, 0.3, 0.4, 0.5, 40.0, 100.0];
    let objects: Vec<Object> =
        xs.iter().map(|&x| Object::new_sphere(p(x, 0., 0.), s(0.25), plain())).collect();
    let boxes = boxes(&objects);
    let indices: Vec<usize> = (0..objects.len()).collect();
    let (left, right) = bvh_split(&boxes, &indices, SplitType::SAH);
    assert_eq!(left, vec![0, 1, 2, 3, 4, 5]);
    assert_eq!(right, vec![6, 7]);
    let (left, right) = bvh_split(&boxes, &indices, SplitType::Basic);
    assert_eq!(left, vec![0, 1, 2, 3, 4, 5, 6]);
    assert_eq!(right, vec![7]);
}

#[test]
fn small_sets_are_split_at_the_midpoint() {
    let xs = [0.0f32, 0.1, 0.2, 100.0];
    let objects: Vec<Object> =
        xs.iter().map(|&x| Object::new_sphere(p(0., x, 0.), s(0.25), plain())).collect();
    let boxes = boxes(&objects);
    let indices: Vec<usize> = (0..objects.len()).collect();
    let (left, right) = bvh_split(&boxes, &indices, SplitType::SAH);
    assert_eq!(left, vec![0, 1, 2]);
    assert_eq!(right, vec![3]);
}

#[test]
fn a_box_behind_the_ray_is_not_met() {
    let aabb = AABB::new(p(0., 0., 0.), p(1.0, 1.0, 1.0));
    let r = ray((2.0, 0.5, 0.5), (1.0, 0., 0.));
    assert_eq!(hit(&aabb, &r), None);
    // Turned round, the ray meets it at the nearer face.
    let r = ray((2.0, 0.5, 0.5), (-1.0, 0., 0.));
    assert_eq!(hit(&aabb, &r), Some(1.0));
    // From a face outwards the parameter is zero, not negative.
    let r = ray((1.0, 0.5, 0.5), (1.0, 0., 0.));
    assert_eq!(hit(&aabb, &r), Some(0.0));
}

#[test]
fn the_empty_box_is_the_identity_of_union() {
    let b = AABB::new(p(1., 1., 1.), p(2., 2., 2.));
    assert_eq!(AABB::union(vec![AABB::empty(), b]), b);
    assert_eq!(AABB::union(vec![b, AABB::empty()]), b);
    assert_eq!(AABB::union(vec![AABB::empty(), b, AABB::empty()]), b);
    assert_eq!(AABB::union(vec![AABB::empty(), AABB::empty()]), AABB::empty());
    assert_eq!(AABB::union_pair(AABB::empty(), b), b);
    assert!(AABB::empty().is_empty());
    assert!(!b.is_empty());
    let c = AABB::new(p(-3., 1.5, 0.), p(-2., 4., 0.5));
    assert_eq!(
        AABB::union(vec![b, AABB::empty(), c]),
        AABB::new(p(-3., 1., 0.), p(2., 4., 2.))
    );
}

#[test]
fn the_hierarchy_of_a_scene_away_from_the_origin_leaves_the_origin_out() {
    let objects: Vec<Object> = (0..7)
        .map(|i| Object::new_sphere(p(10.0 + 3.0 * i as f32, 20.0, 30.0), s(1.0), plain()))
        .collect();
    let bvh = Bvh::new(objects);
    // One box around all seven spheres: 20 by 2 by 2, and no more.
    let r = ray((0.0, 0.0, 0.0), (0.0, 0.0, 1.0));
    assert!(bvh.closest_index(&r).is_none());
    let boxes = boxes(&(0..7)
        .map(|i| Object::new_sphere(p(10.0 + 3.0 * i as f32, 20.0, 30.0), s(1.0), plain()))
        .collect());
    assert_eq!(AABB::union(boxes), AABB::new(p(9., 19., 29.), p(29., 21., 31.)));
}

#[test]
fn centroids_that_coincide_on_the_axis_are_split_at_the_midpoint() {
    // Six boxes of different sizes around one centre.
    let objects: Vec<Object> =
        (0..6).map(|i| Object::new_sphere(p(1., 2., 3.), s(1.0 + i as f32), plain())).collect();
    let boxes = boxes(&objects);
    let indices: Vec<usize> = (0..objects.len()).collect();
    let cs = centroids(&boxes, &indices);
    let global = AABB::new(p(1., 2., 3.), p(1., 2., 3.));
    for dim in 0..3 {
        let (left, right) = bvh_split_by_sah(&boxes, &indices, &cs, global, dim);
        assert_eq!(left, Vec::<usize>::new());
        assert_eq!(right, vec![0, 1, 2, 3, 4, 5]);
    }
    let (left, right) = bvh_split(&boxes, &indices, SplitType::SAH);
    assert_eq!((left.len(), right.len()), (0, 6));
}

#[test]
fn of_equally_near_primitives_the_earliest_is_found() {
    // The same triangle five times, and a nearer one last.
    let triangle = |z: f32| {
        Object::new_triangle(p(0.0, 0.0, z), p(0.0, 1.0, z), p(1.0, 0.0, z), plain())
    };
    for split in [SplitType::Basic, SplitType::SAH] {
        let mut objects: Vec<Object> = (0..5).map(|_| triangle(4.0)).collect();
        objects.push(Object::new_sphere(p(9.0, 9.0, 9.0), s(0.5), plain()));
        objects.push(triangle(2.0));
        objects.push(triangle(2.0));
        let bvh = Bvh::with_split(objects, split);
        let r = ray((0.1, 0.1, 0.0), (0.0, 0.0, 1.0));
        assert_eq!(bvh.closest_index(&r).map(|h| (h.0, f(h.1))), Some((6, 2.0)));
        let away = ray((0.1, 0.1, 3.0), (0.0, 0.0, 1.0));
        assert_eq!(bvh.closest_index(&away).map(|h| (h.0, f(h.1))), Some((0, 1.0)));
    }
}

#[test]
fn split_policies_find_the_same_primitive() {
    let basic = Bvh::with_split(grid_of_spheres(150), SplitType::Basic);
    let sah = Bvh::with_split(grid_of_spheres(150), SplitType::SAH);
    assert!(basic.is_plain());
    assert!(sah.is_plain());
    let mut hits = 0;
    for i in 0..30 {
        for j in 0..30 {
            let r = ray((i as f32 * 1.5 - 22.0, -60.0, j as f32 * 1.5 - 22.0), (0.03, 1.0, -0.02));
            assert!(r.is_steady());
            let a = basic.closest_index(&r).map(|h| (h.0, h.1.to_bits()));
            let b = sah.closest_index(&r).map(|h| (h.0, h.1.to_bits()));
            assert_eq!(a, b);
            if a.is_some() {
                hits += 1;
            }
        }
    }
    assert!(hits > 0);
}

#[test]
fn a_ray_that_crosses_a_box_crosses_the_boxes_around_it() {
    let inner = AABB::new(p(1.0, 1.0, 1.0), p(2.0, 1.5, 3.0));
    let outer = AABB::new(p(0.5, -1.0, 1.0), p(2.0, 4.0, 3.25));
    let mut crossed = 0;
    for i in 0..25 {
        for j in 0..25 {
            let r = ray(
                (-3.0, i as f32 * 0.25 - 1.0, j as f32 * 0.25 - 1.0),
                (1.0, 0.1 * (i as f32 - 12.0), 0.07 * (j as f32 - 12.0)),
            );
            assert!(r.is_steady());
            if inner.intersect(&r).is_some() {
                crossed += 1;
                assert!(outer.intersect(&r).is_some());
            }
        }
    }
    assert!(crossed > 0);
}

#[test]
fn an_empty_box_makes_a_scene_not_plain() {
    let dot = Object::new_sphere(p(0.0, 0.0, 0.0), s(0.0), plain());
    assert!(!Bvh::new(vec![dot]).is_plain());
    assert!(Bvh::new(three_objects()).is_plain());
    assert!(Bvh::new(vec![]).is_plain());
}

#[test]
fn a_ray_without_a_direction_is_not_steady() {
    assert!(!ray((0.0, 0.0, 0.0), (0.0, 0.0, 0.0)).is_steady());
    assert!(!ray((f32::INFINITY, 0.0, 0.0), (0.0, 0.0, 1.0)).is_steady());
    assert!(ray((1.0, -2.0, 3.0), (0.0, 0.0, 1.0)).is_steady());
}

#[test]
fn a_primitive_whose_box_is_the_empty_box_can_be_left_out() {
    // The union leaves the empty box out, so the boxes above a sphere of
    // no radius at the origin need not hold it: whether a ray through the
    // origin finds it depends on what it was grouped with.
    let spheres: [(f32, f32, f32, f32); 10] = [
        (0.0, 0.0, 0.0, 0.0),
        (-3.0, -8.0, 1.0, 1.5),
        (1.0, -5.0, 3.0, 1.0),
        (7.0, -7.0, 7.0, 1.0),
        (-4.0, -6.0, 4.0, 1.0),
        (-7.0, -4.0, -3.0, 1.0),
        (1.0, -6.0, 6.0, 1.5),
        (3.0, -8.0, -6.0, 1.5),
        (5.0, -2.0, -4.0, 1.5),
        (0.0, 3.0, -8.0, 1.5),
    ];
    let scene = || -> Vec<Object> {
        spheres.iter().map(|c| Object::new_sphere(p(c.0, c.1, c.2), s(c.3), plain())).collect()
    };
    let basic = Bvh::with_split(scene(), SplitType::Basic);
    let sah = Bvh::with_split(scene(), SplitType::SAH);
    assert!(!basic.is_plain());
    let r = ray((0.0, -7.0, 0.0), (0.0, 1.0, 0.0));
    assert!(r.is_steady());
    assert_eq!(basic.closest_index(&r).map(|h| (h.0, f(h.1))), Some((0, 7.0)));
    assert_eq!(sah.closest_index(&r).map(|h| (h.0, f(h.1))), None);
}

#[test]
fn a_ray_can_graze_a_sphere_beside_its_box() {
    // The ray runs one step above the top of the box. The rounded
    // discriminant of the sphere is not negative, so the sphere alone is
    // met; the hierarchy leaves it out with its box.
    let sphere = || Object::new_sphere(p(1.3295784, -1.0645895, -1.5031948), s(1.3729333), plain());
    let r = ray((-4.536639, 0.3083438, -1.5031948), (1.0, 0.0, 0.0));
    let (lo, hi) = sphere().get_bounding_box();
    assert!(f(hi.y) < 0.3083438);
    assert!(AABB::new(lo, hi).intersect(&r).is_none());
    assert!(sphere().get_intersection(&r).is_some());
    let bvh = Bvh::new(vec![sphere()]);
    assert!(bvh.is_plain());
    assert!(r.is_steady());
    assert!(bvh.closest_index(&r).is_none());
}
