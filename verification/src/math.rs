//! The rounded arithmetic that the geometry is built on.
//!
//! [`Math`] lists the operations on numbers and on vectors of three numbers.
//! None of its methods carries a contract: nothing is taken for granted of an
//! implementation, and what is proved here holds of all of them.
//!
//! An [`Arithmetic`] is one way the operations can come out: a function for
//! each of them. [`computes`] says that an implementation comes out that way
//! at every call. The contracts of the geometry then fix each result, to the
//! last bit, as a formula over the arithmetic that is computed in.

use vstd::prelude::*;
use crate::scalar::Scalar;

verus! {

/// A vector in space.
pub type Vector = [Scalar; 3];

/// Arithmetic on single-precision numbers.
pub trait Math {
    /// `a + b`
    fn add(&self, a: Scalar, b: Scalar) -> Scalar;

    /// `a - b`
    fn sub(&self, a: Scalar, b: Scalar) -> Scalar;

    /// `a * b`
    fn mul(&self, a: Scalar, b: Scalar) -> Scalar;

    /// `a / b`
    fn div(&self, a: Scalar, b: Scalar) -> Scalar;

    /// The sine of an angle.
    fn sin(&self, a: Scalar) -> Scalar;

    /// The cosine of an angle.
    fn cos(&self, a: Scalar) -> Scalar;

    /// The exponential of a number.
    fn exp(&self, a: Scalar) -> Scalar;

    /// The square root of a number.
    fn sqrt(&self, a: Scalar) -> Scalar;

    /// The cube root of a number.
    fn cbrt(&self, a: Scalar) -> Scalar;

    /// A number raised to the power two.
    fn square(&self, a: Scalar) -> Scalar;

    /// The number nearest to an integer.
    fn whole(&self, n: usize) -> Scalar;

    /// The vector of length one that points the same way.
    fn normalize(&self, v: Vector) -> Vector;

    /// The cross product of two vectors.
    fn cross(&self, v: Vector, w: Vector) -> Vector;

    /// A vector multiplied by a number.
    fn scale(&self, v: Vector, a: Scalar) -> Vector;

    /// The difference of two vectors.
    fn subtract(&self, v: Vector, w: Vector) -> Vector;

    /// A vector turned around an axis by an angle.
    fn rotate_around_axis(&self, v: Vector, axis: Vector, angle: Scalar) -> Vector;
}

/// A result for each operation on each of its arguments.
pub struct Arithmetic {
    pub add: spec_fn(Scalar, Scalar) -> Scalar,
    pub sub: spec_fn(Scalar, Scalar) -> Scalar,
    pub mul: spec_fn(Scalar, Scalar) -> Scalar,
    pub div: spec_fn(Scalar, Scalar) -> Scalar,
    pub sin: spec_fn(Scalar) -> Scalar,
    pub cos: spec_fn(Scalar) -> Scalar,
    pub exp: spec_fn(Scalar) -> Scalar,
    pub sqrt: spec_fn(Scalar) -> Scalar,
    pub cbrt: spec_fn(Scalar) -> Scalar,
    pub square: spec_fn(Scalar) -> Scalar,
    pub whole: spec_fn(usize) -> Scalar,
    pub normalize: spec_fn(Vector) -> Vector,
    pub cross: spec_fn(Vector, Vector) -> Vector,
    pub scale: spec_fn(Vector, Scalar) -> Vector,
    pub subtract: spec_fn(Vector, Vector) -> Vector,
    pub rotate_around_axis: spec_fn(Vector, Vector, Scalar) -> Vector,
}

impl Arithmetic {
    /// What `add` gives.
    pub open spec fn sum(self, a: Scalar, b: Scalar) -> Scalar {
        (self.add)(a, b)
    }

    /// What `sub` gives.
    pub open spec fn difference(self, a: Scalar, b: Scalar) -> Scalar {
        (self.sub)(a, b)
    }

    /// What `mul` gives.
    pub open spec fn product(self, a: Scalar, b: Scalar) -> Scalar {
        (self.mul)(a, b)
    }

    /// What `div` gives.
    pub open spec fn quotient(self, a: Scalar, b: Scalar) -> Scalar {
        (self.div)(a, b)
    }

    /// What `sin` gives.
    pub open spec fn sine(self, a: Scalar) -> Scalar {
        (self.sin)(a)
    }

    /// What `cos` gives.
    pub open spec fn cosine(self, a: Scalar) -> Scalar {
        (self.cos)(a)
    }

    /// What `exp` gives.
    pub open spec fn exponential(self, a: Scalar) -> Scalar {
        (self.exp)(a)
    }

    /// What `sqrt` gives.
    pub open spec fn square_root(self, a: Scalar) -> Scalar {
        (self.sqrt)(a)
    }

    /// What `cbrt` gives.
    pub open spec fn cube_root(self, a: Scalar) -> Scalar {
        (self.cbrt)(a)
    }

    /// What `square` gives.
    pub open spec fn squared(self, a: Scalar) -> Scalar {
        (self.square)(a)
    }

    /// What `whole` gives.
    pub open spec fn integer(self, n: usize) -> Scalar {
        (self.whole)(n)
    }

    /// What `normalize` gives.
    pub open spec fn unit(self, v: Vector) -> Vector {
        (self.normalize)(v)
    }

    /// What `cross` gives.
    pub open spec fn cross_product(self, v: Vector, w: Vector) -> Vector {
        (self.cross)(v, w)
    }

    /// What `scale` gives.
    pub open spec fn multiple(self, v: Vector, a: Scalar) -> Vector {
        (self.scale)(v, a)
    }

    /// What `subtract` gives.
    pub open spec fn offset(self, v: Vector, w: Vector) -> Vector {
        (self.subtract)(v, w)
    }

    /// What `rotate_around_axis` gives.
    pub open spec fn turned(self, v: Vector, axis: Vector, angle: Scalar) -> Vector {
        (self.rotate_around_axis)(v, axis, angle)
    }
}

/// Each operation gives the result that it has in the arithmetic, at every
/// call.
pub open spec fn computes<M: Math>(math: &M, on: Arithmetic) -> bool {
    &&& forall|a: Scalar, b: Scalar, r: Scalar| #[trigger]
        call_ensures(M::add, (math, a, b), r) ==> r == on.sum(a, b)
    &&& forall|a: Scalar, b: Scalar, r: Scalar| #[trigger]
        call_ensures(M::sub, (math, a, b), r) ==> r == on.difference(a, b)
    &&& forall|a: Scalar, b: Scalar, r: Scalar| #[trigger]
        call_ensures(M::mul, (math, a, b), r) ==> r == on.product(a, b)
    &&& forall|a: Scalar, b: Scalar, r: Scalar| #[trigger]
        call_ensures(M::div, (math, a, b), r) ==> r == on.quotient(a, b)
    &&& forall|a: Scalar, r: Scalar| #[trigger]
        call_ensures(M::sin, (math, a), r) ==> r == on.sine(a)
    &&& forall|a: Scalar, r: Scalar| #[trigger]
        call_ensures(M::cos, (math, a), r) ==> r == on.cosine(a)
    &&& forall|a: Scalar, r: Scalar| #[trigger]
        call_ensures(M::exp, (math, a), r) ==> r == on.exponential(a)
    &&& forall|a: Scalar, r: Scalar| #[trigger]
        call_ensures(M::sqrt, (math, a), r) ==> r == on.square_root(a)
    &&& forall|a: Scalar, r: Scalar| #[trigger]
        call_ensures(M::cbrt, (math, a), r) ==> r == on.cube_root(a)
    &&& forall|a: Scalar, r: Scalar| #[trigger]
        call_ensures(M::square, (math, a), r) ==> r == on.squared(a)
    &&& forall|n: usize, r: Scalar| #[trigger]
        call_ensures(M::whole, (math, n), r) ==> r == on.integer(n)
    &&& forall|v: Vector, r: Vector| #[trigger]
        call_ensures(M::normalize, (math, v), r) ==> r == on.unit(v)
    &&& forall|v: Vector, w: Vector, r: Vector| #[trigger]
        call_ensures(M::cross, (math, v, w), r) ==> r == on.cross_product(v, w)
    &&& forall|v: Vector, a: Scalar, r: Vector| #[trigger]
        call_ensures(M::scale, (math, v, a), r) ==> r == on.multiple(v, a)
    &&& forall|v: Vector, w: Vector, r: Vector| #[trigger]
        call_ensures(M::subtract, (math, v, w), r) ==> r == on.offset(v, w)
    &&& forall|v: Vector, axis: Vector, angle: Scalar, r: Vector| #[trigger]
        call_ensures(M::rotate_around_axis, (math, v, axis, angle), r) ==> r == on.turned(v, axis, angle)
}

} // verus!
