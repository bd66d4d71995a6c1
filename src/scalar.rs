//! What the engine needs of the numbers it computes with.
//!
//! The kernels arrange the computation (which values are combined, in which order, and where
//! the results go); an implementation of these traits supplies the arithmetic, for example over
//! `f32`. Each operation is named by a spec function, and an implementation promises that the
//! operation returns what its spec function says: the kernels' contracts are stated over those
//! spec functions.
use vstd::prelude::*;

verus! {

/// Arithmetic on the scalar type `T`.
pub trait Arithmetic<T> {
    /// The additive identity.
    spec fn spec_zero(&self) -> T;

    /// `a + b`.
    spec fn spec_plus(&self, a: T, b: T) -> T;

    /// `a - b`.
    spec fn spec_minus(&self, a: T, b: T) -> T;

    /// `a * b`.
    spec fn spec_times(&self, a: T, b: T) -> T;

    /// `a / n`.
    spec fn spec_divide_by_count(&self, a: T, n: usize) -> T;

    fn zero(&self) -> (r: T)
        ensures
            r == self.spec_zero(),
    ;

    fn plus(&self, a: T, b: T) -> (r: T)
        ensures
            r == self.spec_plus(a, b),
    ;

    fn minus(&self, a: T, b: T) -> (r: T)
        ensures
            r == self.spec_minus(a, b),
    ;

    fn times(&self, a: T, b: T) -> (r: T)
        ensures
            r == self.spec_times(a, b),
    ;

    /// For a positive count `n`.
    fn divide_by_count(&self, a: T, n: usize) -> (r: T)
        requires
            n > 0,
        ensures
            r == self.spec_divide_by_count(a, n),
    ;
}

/// An element-wise activation function over `T`, with its derivative.
pub trait Activation<T> {
    /// `phi(x)`.
    spec fn spec_apply(&self, x: T) -> T;

    /// `phi'(x)`.
    spec fn spec_deriv(&self, x: T) -> T;

    fn apply(&self, x: T) -> (r: T)
        ensures
            r == self.spec_apply(x),
    ;

    fn deriv(&self, x: T) -> (r: T)
        ensures
            r == self.spec_deriv(x),
    ;
}

} // verus!
