//! Points and displacement vectors in three dimensions, over binary32
//! coordinates. Every operation is stated coordinate by coordinate, in the
//! order in which the roundings happen.

use vstd::prelude::*;
use crate::scalar::Scalar;
use crate::scalar::ONE_BITS;

verus! {

/// A displacement in space.
#[derive(Clone, Copy, Debug, PartialEq, Eq, Structural)]
pub struct Vector3 {
    pub x: Scalar,
    pub y: Scalar,
    pub z: Scalar,
}

/// A position in space.
#[derive(Clone, Copy, Debug, PartialEq, Eq, Structural)]
pub struct Point3 {
    pub x: Scalar,
    pub y: Scalar,
    pub z: Scalar,
}

impl Vector3 {
    /// The coordinate on `axis`: 0 is x, 1 is y, anything else is z.
    pub open spec fn coordinate(self, axis: int) -> Scalar {
        if axis == 0 {
            self.x
        } else if axis == 1 {
            self.y
        } else {
            self.z
        }
    }

    pub open spec fn sum(self, other: Vector3) -> Vector3 {
        Vector3 { x: self.x.plus(other.x), y: self.y.plus(other.y), z: self.z.plus(other.z) }
    }

    pub open spec fn difference(self, other: Vector3) -> Vector3 {
        Vector3 { x: self.x.minus(other.x), y: self.y.minus(other.y), z: self.z.minus(other.z) }
    }

    pub open spec fn scaled(self, factor: Scalar) -> Vector3 {
        Vector3 { x: self.x.times(factor), y: self.y.times(factor), z: self.z.times(factor) }
    }

    pub open spec fn opposite(self) -> Vector3 {
        Vector3 { x: self.x.negated(), y: self.y.negated(), z: self.z.negated() }
    }

    /// `(x*x' + y*y') + z*z'`.
    pub open spec fn dot_product(self, other: Vector3) -> Scalar {
        self.x.times(other.x).plus(self.y.times(other.y)).plus(self.z.times(other.z))
    }

    pub open spec fn cross_product(self, other: Vector3) -> Vector3 {
        Vector3 {
            x: self.y.times(other.z).minus(self.z.times(other.y)),
            y: self.z.times(other.x).minus(self.x.times(other.z)),
            z: self.x.times(other.y).minus(self.y.times(other.x)),
        }
    }

    pub open spec fn length_squared(self) -> Scalar {
        self.dot_product(self)
    }

    pub open spec fn length(self) -> Scalar {
        self.length_squared().root()
    }

    /// The vector scaled by the reciprocal of its length.
    pub open spec fn unit(self) -> Vector3 {
        self.scaled(Scalar { bits: ONE_BITS }.over(self.length()))
    }

    pub fn new(x: Scalar, y: Scalar, z: Scalar) -> (r: Vector3)
        ensures
            r == (Vector3 { x, y, z }),
    {
        Vector3 { x, y, z }
    }

    /// The coordinate on `axis`: 0 is x, 1 is y, anything else is z.
    pub fn get(self, axis: usize) -> (r: Scalar)
        ensures
            r == self.coordinate(axis as int),
    {
        if axis == 0 {
            self.x
        } else if axis == 1 {
            self.y
        } else {
            self.z
        }
    }

    pub fn add(self, other: Vector3) -> (r: Vector3)
        ensures
            r == self.sum(other),
    {
        Vector3 { x: self.x.add(other.x), y: self.y.add(other.y), z: self.z.add(other.z) }
    }

    pub fn sub(self, other: Vector3) -> (r: Vector3)
        ensures
            r == self.difference(other),
    {
        Vector3 { x: self.x.sub(other.x), y: self.y.sub(other.y), z: self.z.sub(other.z) }
    }

    pub fn scale(self, factor: Scalar) -> (r: Vector3)
        ensures
            r == self.scaled(factor),
    {
        Vector3 { x: self.x.mul(factor), y: self.y.mul(factor), z: self.z.mul(factor) }
    }

    pub fn neg(self) -> (r: Vector3)
        ensures
            r == self.opposite(),
    {
        Vector3 { x: self.x.neg(), y: self.y.neg(), z: self.z.neg() }
    }

    pub fn dot(self, other: Vector3) -> (r: Scalar)
        ensures
            r == self.dot_product(other),
    {
        self.x.mul(other.x).add(self.y.mul(other.y)).add(self.z.mul(other.z))
    }

    pub fn cross(self, other: Vector3) -> (r: Vector3)
        ensures
            r == self.cross_product(other),
    {
        Vector3 {
            x: self.y.mul(other.z).sub(self.z.mul(other.y)),
            y: self.z.mul(other.x).sub(self.x.mul(other.z)),
            z: self.x.mul(other.y).sub(self.y.mul(other.x)),
        }
    }

    pub fn magnitude2(self) -> (r: Scalar)
        ensures
            r == self.length_squared(),
    {
        self.dot(self)
    }

    pub fn magnitude(self) -> (r: Scalar)
        ensures
            r == self.length(),
    {
        self.magnitude2().sqrt()
    }

    pub fn normalize(self) -> (r: Vector3)
        ensures
            r == self.unit(),
    {
        self.scale(Scalar::one().div(self.magnitude()))
    }
}

impl Point3 {
    /// The coordinate on `axis`: 0 is x, 1 is y, anything else is z.
    pub open spec fn coordinate(self, axis: int) -> Scalar {
        if axis == 0 {
            self.x
        } else if axis == 1 {
            self.y
        } else {
            self.z
        }
    }

    /// The displacement from `other` to `self`.
    pub open spec fn from(self, other: Point3) -> Vector3 {
        Vector3 { x: self.x.minus(other.x), y: self.y.minus(other.y), z: self.z.minus(other.z) }
    }

    pub open spec fn moved(self, by: Vector3) -> Point3 {
        Point3 { x: self.x.plus(by.x), y: self.y.plus(by.y), z: self.z.plus(by.z) }
    }

    pub open spec fn moved_back(self, by: Vector3) -> Point3 {
        Point3 { x: self.x.minus(by.x), y: self.y.minus(by.y), z: self.z.minus(by.z) }
    }

    pub open spec fn as_vector(self) -> Vector3 {
        Vector3 { x: self.x, y: self.y, z: self.z }
    }

    /// The length of the displacement from `self` to `other`.
    pub open spec fn separation(self, other: Point3) -> Scalar {
        other.from(self).length()
    }

    pub fn new(x: Scalar, y: Scalar, z: Scalar) -> (r: Point3)
        ensures
            r == (Point3 { x, y, z }),
    {
        Point3 { x, y, z }
    }

    /// The coordinate on `axis`: 0 is x, 1 is y, anything else is z.
    pub fn get(self, axis: usize) -> (r: Scalar)
        ensures
            r == self.coordinate(axis as int),
    {
        if axis == 0 {
            self.x
        } else if axis == 1 {
            self.y
        } else {
            self.z
        }
    }

    /// The displacement from `other` to `self`.
    pub fn sub(self, other: Point3) -> (r: Vector3)
        ensures
            r == self.from(other),
    {
        Vector3 { x: self.x.sub(other.x), y: self.y.sub(other.y), z: self.z.sub(other.z) }
    }

    pub fn add_vector(self, by: Vector3) -> (r: Point3)
        ensures
            r == self.moved(by),
    {
        Point3 { x: self.x.add(by.x), y: self.y.add(by.y), z: self.z.add(by.z) }
    }

    pub fn sub_vector(self, by: Vector3) -> (r: Point3)
        ensures
            r == self.moved_back(by),
    {
        Point3 { x: self.x.sub(by.x), y: self.y.sub(by.y), z: self.z.sub(by.z) }
    }

    pub fn to_vec(self) -> (r: Vector3)
        ensures
            r == self.as_vector(),
    {
        Vector3 { x: self.x, y: self.y, z: self.z }
    }

    pub fn distance(self, other: Point3) -> (r: Scalar)
        ensures
            r == self.separation(other),
    {
        other.sub(self).magnitude()
    }
}

/// A position in the plane.
#[derive(Clone, Copy, Debug, PartialEq, Eq, Structural)]
pub struct Point2 {
    pub x: Scalar,
    pub y: Scalar,
}

/// Four homogeneous coordinates.
#[derive(Clone, Copy, Debug, PartialEq, Eq, Structural)]
pub struct Vector4 {
    pub x: Scalar,
    pub y: Scalar,
    pub z: Scalar,
    pub w: Scalar,
}

impl Vector4 {
    pub open spec fn sum(self, other: Vector4) -> Vector4 {
        Vector4 {
            x: self.x.plus(other.x),
            y: self.y.plus(other.y),
            z: self.z.plus(other.z),
            w: self.w.plus(other.w),
        }
    }

    pub open spec fn scaled(self, factor: Scalar) -> Vector4 {
        Vector4 {
            x: self.x.times(factor),
            y: self.y.times(factor),
            z: self.z.times(factor),
            w: self.w.times(factor),
        }
    }

    /// The first three coordinates.
    pub open spec fn spatial(self) -> Vector3 {
        Vector3 { x: self.x, y: self.y, z: self.z }
    }

    pub fn new(x: Scalar, y: Scalar, z: Scalar, w: Scalar) -> (r: Vector4)
        ensures
            r == (Vector4 { x, y, z, w }),
    {
        Vector4 { x, y, z, w }
    }

    pub fn add(self, other: Vector4) -> (r: Vector4)
        ensures
            r == self.sum(other),
    {
        Vector4 {
            x: self.x.add(other.x),
            y: self.y.add(other.y),
            z: self.z.add(other.z),
            w: self.w.add(other.w),
        }
    }

    pub fn scale(self, factor: Scalar) -> (r: Vector4)
        ensures
            r == self.scaled(factor),
    {
        Vector4 {
            x: self.x.mul(factor),
            y: self.y.mul(factor),
            z: self.z.mul(factor),
            w: self.w.mul(factor),
        }
    }

    pub fn truncate(self) -> (r: Vector3)
        ensures
            r == self.spatial(),
    {
        Vector3 { x: self.x, y: self.y, z: self.z }
    }
}

/// A 4x4 matrix, held by its columns.
#[derive(Clone, Copy, Debug, PartialEq, Eq, Structural)]
pub struct Matrix4 {
    pub x: Vector4,
    pub y: Vector4,
    pub z: Vector4,
    pub w: Vector4,
}

impl Matrix4 {
    /// The matrix applied to four homogeneous coordinates: the columns,
    /// each scaled by its coordinate, summed from the first to the last.
    pub open spec fn applied(self, v: Vector4) -> Vector4 {
        self.x.scaled(v.x).sum(self.y.scaled(v.y)).sum(self.z.scaled(v.z)).sum(self.w.scaled(v.w))
    }

    /// The matrix applied to a displacement (fourth coordinate 0).
    pub open spec fn vector_image(self, v: Vector3) -> Vector3 {
        self.applied(Vector4 { x: v.x, y: v.y, z: v.z, w: Scalar { bits: 0 } }).spatial()
    }

    /// The matrix applied to a position (fourth coordinate 1), divided
    /// through by the fourth coordinate of the image.
    pub open spec fn point_image(self, p: Point3) -> Point3 {
        let h = self.applied(Vector4 { x: p.x, y: p.y, z: p.z, w: Scalar { bits: ONE_BITS } });
        let e = h.spatial().scaled(Scalar { bits: ONE_BITS }.over(h.w));
        Point3 { x: e.x, y: e.y, z: e.z }
    }

    pub open spec fn unit_matrix() -> Matrix4 {
        let o = Scalar { bits: 0 };
        let i = Scalar { bits: ONE_BITS };
        Matrix4 {
            x: Vector4 { x: i, y: o, z: o, w: o },
            y: Vector4 { x: o, y: i, z: o, w: o },
            z: Vector4 { x: o, y: o, z: i, w: o },
            w: Vector4 { x: o, y: o, z: o, w: i },
        }
    }

    pub fn from_cols(x: Vector4, y: Vector4, z: Vector4, w: Vector4) -> (r: Matrix4)
        ensures
            r == (Matrix4 { x, y, z, w }),
    {
        Matrix4 { x, y, z, w }
    }

    pub fn identity() -> (r: Matrix4)
        ensures
            r == Matrix4::unit_matrix(),
    {
        let o = Scalar::zero();
        let i = Scalar::one();
        Matrix4 {
            x: Vector4 { x: i, y: o, z: o, w: o },
            y: Vector4 { x: o, y: i, z: o, w: o },
            z: Vector4 { x: o, y: o, z: i, w: o },
            w: Vector4 { x: o, y: o, z: o, w: i },
        }
    }

    pub fn apply(&self, v: Vector4) -> (r: Vector4)
        ensures
            r == self.applied(v),
    {
        self.x.scale(v.x).add(self.y.scale(v.y)).add(self.z.scale(v.z)).add(self.w.scale(v.w))
    }

    pub fn transform_vector(&self, v: Vector3) -> (r: Vector3)
        ensures
            r == self.vector_image(v),
    {
        self.apply(Vector4 { x: v.x, y: v.y, z: v.z, w: Scalar::zero() }).truncate()
    }

    pub fn transform_point(&self, p: Point3) -> (r: Point3)
        ensures
            r == self.point_image(p),
    {
        let h = self.apply(Vector4 { x: p.x, y: p.y, z: p.z, w: Scalar::one() });
        let e = h.truncate().scale(Scalar::one().div(h.w));
        Point3 { x: e.x, y: e.y, z: e.z }
    }
}

} // verus!
