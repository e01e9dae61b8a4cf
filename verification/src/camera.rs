//! The camera: where the rays of an image start.

use vstd::prelude::*;
use crate::ray::Ray;
use crate::scalar::Scalar;
use crate::scalar::HALF_BITS;
use crate::scalar::TWO_BITS;
use crate::scalar::ZERO_BITS;
use crate::vector::Matrix4;
use crate::vector::Point3;
use crate::vector::Vector3;

verus! {

/// The pattern of `-1.0`, the depth of the image plane in camera space.
pub const MINUS_ONE_BITS: u32 = 0xbf80_0000;

/// A pinhole camera with an image of `width` by `height` pixels.
#[derive(Clone, Copy, Debug)]
pub struct Camera {
    pub camera_to_world: Matrix4,
    pub width: u32,
    pub height: u32,
}

/// The offset of a sample within its pixel on both axes: nothing without
/// jitter, else half of each of the two draws.
pub open spec fn sample_offset(jitter: Option<(Scalar, Scalar)>) -> (Scalar, Scalar) {
    match jitter {
        None => (Scalar { bits: ZERO_BITS }, Scalar { bits: ZERO_BITS }),
        Some((u, v)) => (u.over(Scalar { bits: TWO_BITS }), v.over(Scalar { bits: TWO_BITS })),
    }
}

impl Camera {
    /// The matrix that takes camera space into the world.
    pub open spec fn placement(self) -> Matrix4 {
        self.camera_to_world
    }

    /// The ray through a pixel in camera space. Pixel (0, 0) is in the top
    /// left corner; the image spans from -0.5 to 0.5 on both axes, at
    /// depth -1: `x = (pixel_x + dx) / width - 0.5` and
    /// `y = 0.5 - (pixel_y + dy) / height`. The ray starts on the image
    /// plane and runs away from the eye.
    pub open spec fn pixel_ray(
        width: u32,
        height: u32,
        pixel_x: u32,
        pixel_y: u32,
        jitter: Option<(Scalar, Scalar)>,
    ) -> Ray {
        let (dx, dy) = sample_offset(jitter);
        let half = Scalar { bits: HALF_BITS };
        let x = Scalar::of_count(pixel_x).plus(dx).over(Scalar::of_count(width)).minus(half);
        let y = half.minus(Scalar::of_count(pixel_y).plus(dy).over(Scalar::of_count(height)));
        let dist = Scalar { bits: MINUS_ONE_BITS };
        Ray::made(Point3 { x, y, z: dist }, Vector3 { x, y, z: dist })
    }

    /// The world-space ray through a pixel.
    pub open spec fn ray_through(
        self,
        pixel_x: u32,
        pixel_y: u32,
        jitter: Option<(Scalar, Scalar)>,
    ) -> Ray {
        Camera::pixel_ray(self.width, self.height, pixel_x, pixel_y, jitter).image(
            self.placement(),
        )
    }

    /// The camera with the given image size and the given matrix from
    /// camera space into the world.
    pub fn new(width: u32, height: u32, camera_to_world: Matrix4) -> (r: Camera)
        ensures
            r.width == width,
            r.height == height,
            r.placement() == camera_to_world,
    {
        Camera { camera_to_world, width, height }
    }

    pub fn get_camera_to_world(&self) -> (m: Matrix4)
        ensures
            m == self.placement(),
    {
        self.camera_to_world
    }

    /// Generates a ray for the given pixel location. `jitter` is `None` if
    /// no randomness should be added, else two draws from `[0, 1)`, which
    /// move the sample within the pixel by half their size.
    pub fn generate_ray(&self, pixel_x: u32, pixel_y: u32, jitter: Option<(Scalar, Scalar)>) -> (r:
        Ray)
        ensures
            r == self.ray_through(pixel_x, pixel_y, jitter),
    {
        let two = Scalar::from_bits(TWO_BITS);
        let half = Scalar::from_bits(HALF_BITS);
        let (dx, dy) = match jitter {
            None => (Scalar::zero(), Scalar::zero()),
            Some((u, v)) => (u.div(two), v.div(two)),
        };
        let x = Scalar::from_u32(pixel_x).add(dx).div(Scalar::from_u32(self.width)).sub(half);
        let y = half.sub(Scalar::from_u32(pixel_y).add(dy).div(Scalar::from_u32(self.height)));
        let dist = Scalar::from_bits(MINUS_ONE_BITS);
        let position = Point3::new(x, y, dist);
        let direction = Vector3::new(x, y, dist);
        let ray = Ray::new(position, direction);
        // Transform the ray into world space.
        ray.transform_using(&self.camera_to_world)
    }
}

} // verus!
