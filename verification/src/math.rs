//! The functions that the library takes from its caller: powers and arc
//! functions on binary32 numbers.

use vstd::prelude::*;
use crate::scalar::Scalar;

verus! {

/// Whether a function of one number can be called on every number and
/// gives one result for each.
pub open spec fn functional_1<F: Fn(Scalar) -> Scalar>(f: F) -> bool {
    &&& forall|x: Scalar| call_requires(f, (x,))
    &&& forall|x: Scalar, r1: Scalar, r2: Scalar|
        call_ensures(f, (x,), r1) && call_ensures(f, (x,), r2) ==> r1 == r2
}

/// Whether a function of two numbers can be called on every pair of
/// numbers and gives one result for each.
pub open spec fn functional_2<F: Fn(Scalar, Scalar) -> Scalar>(f: F) -> bool {
    &&& forall|x: Scalar, y: Scalar| call_requires(f, (x, y))
    &&& forall|x: Scalar, y: Scalar, r1: Scalar, r2: Scalar|
        call_ensures(f, (x, y), r1) && call_ensures(f, (x, y), r2) ==> r1 == r2
}

/// What a function of one number gives for `x`.
pub open spec fn value_1<F: Fn(Scalar) -> Scalar>(f: F, x: Scalar) -> Scalar {
    choose|r: Scalar| call_ensures(f, (x,), r)
}

/// What a function of two numbers gives for `x` and `y`.
pub open spec fn value_2<F: Fn(Scalar, Scalar) -> Scalar>(f: F, x: Scalar, y: Scalar) -> Scalar {
    choose|r: Scalar| call_ensures(f, (x, y), r)
}

/// The three functions: `powf(base, exponent)`, `acos(x)` and
/// `atan2(y, x)`.
pub struct Math<P, C, A> {
    pub powf: P,
    pub acos: C,
    pub atan2: A,
}

impl<
    P: Fn(Scalar, Scalar) -> Scalar,
    C: Fn(Scalar) -> Scalar,
    A: Fn(Scalar, Scalar) -> Scalar,
> Math<P, C, A> {
    /// Whether each of the three can be called on everything and gives
    /// one result for each input.
    pub open spec fn functional(self) -> bool {
        functional_2(self.powf) && functional_1(self.acos) && functional_2(self.atan2)
    }

    /// `base` raised to `exponent`.
    pub open spec fn power(self, base: Scalar, exponent: Scalar) -> Scalar {
        value_2(self.powf, base, exponent)
    }

    /// The angle, in radians, whose cosine is `x`.
    pub open spec fn arc_cosine(self, x: Scalar) -> Scalar {
        value_1(self.acos, x)
    }

    /// The angle, in radians, of the direction `(x, y)` in the plane.
    pub open spec fn arc_tangent(self, y: Scalar, x: Scalar) -> Scalar {
        value_2(self.atan2, y, x)
    }

    /// The three functions as one.
    pub fn new(powf: P, acos: C, atan2: A) -> (r: Math<P, C, A>)
        ensures
            r.powf == powf,
            r.acos == acos,
            r.atan2 == atan2,
    {
        Math { powf, acos, atan2 }
    }

    /// `base` raised to `exponent`.
    pub fn pow(&self, base: Scalar, exponent: Scalar) -> (r: Scalar)
        requires
            self.functional(),
        ensures
            r == self.power(base, exponent),
    {
        (self.powf)(base, exponent)
    }

    /// The angle, in radians, whose cosine is `x`.
    pub fn arccos(&self, x: Scalar) -> (r: Scalar)
        requires
            self.functional(),
        ensures
            r == self.arc_cosine(x),
    {
        (self.acos)(x)
    }

    /// The angle, in radians, of the direction `(x, y)` in the plane.
    pub fn arctan2(&self, y: Scalar, x: Scalar) -> (r: Scalar)
        requires
            self.functional(),
        ensures
            r == self.arc_tangent(y, x),
    {
        (self.atan2)(y, x)
    }
}

} // verus!
