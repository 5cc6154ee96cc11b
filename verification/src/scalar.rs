//! The numbers a graph computes with.
//!
//! The engine never looks inside a number. It hands numbers to the operations
//! of [`Scalar`] and stores what comes back, so it works for any number type
//! that offers them.

use vstd::prelude::*;

verus! {

/// A number type the engine can differentiate over.
///
/// Nothing is assumed of an implementation: no method carries a postcondition.
/// The contracts of this crate therefore speak of a computed number only as
/// *a result of* one of these operations on stated operands (see [`is_sum`]
/// and its siblings), which holds whatever the implementation returns.
pub trait Scalar: Copy {
    /// The additive identity, the gradient of a value nothing has flowed into.
    fn zero() -> Self;

    /// The multiplicative identity, the gradient of a value with respect to itself.
    fn one() -> Self;

    /// `self + rhs`.
    fn plus(self, rhs: Self) -> Self;

    /// `self - rhs`.
    fn minus(self, rhs: Self) -> Self;

    /// `self * rhs`.
    fn times(self, rhs: Self) -> Self;

    /// `self / rhs`.
    fn over(self, rhs: Self) -> Self;

    /// `-self`.
    fn negated(self) -> Self;

    /// `self` raised to `exponent`.
    fn powf(self, exponent: Self) -> Self;

    /// `e` raised to `self`.
    fn exp(self) -> Self;

    /// Whether `self > 0`.
    fn is_positive(self) -> bool;

    /// The number `byte`.
    fn from_byte(byte: u8) -> Self;
}

/// `r` is a result of `T::zero()`.
pub open spec fn is_zero<T: Scalar>(r: T) -> bool {
    call_ensures(T::zero, (), r)
}

/// `r` is a result of `T::one()`.
pub open spec fn is_one<T: Scalar>(r: T) -> bool {
    call_ensures(T::one, (), r)
}

/// `r` is a result of `a.plus(b)`.
pub open spec fn is_sum<T: Scalar>(a: T, b: T, r: T) -> bool {
    call_ensures(T::plus, (a, b), r)
}

/// `r` is a result of `a.minus(b)`.
pub open spec fn is_difference<T: Scalar>(a: T, b: T, r: T) -> bool {
    call_ensures(T::minus, (a, b), r)
}

/// `r` is a result of `a.times(b)`.
pub open spec fn is_product<T: Scalar>(a: T, b: T, r: T) -> bool {
    call_ensures(T::times, (a, b), r)
}

/// `r` is a result of `a.over(b)`.
pub open spec fn is_quotient<T: Scalar>(a: T, b: T, r: T) -> bool {
    call_ensures(T::over, (a, b), r)
}

/// `r` is a result of `a.negated()`.
pub open spec fn is_negation<T: Scalar>(a: T, r: T) -> bool {
    call_ensures(T::negated, (a,), r)
}

/// `r` is a result of `a.powf(p)`.
pub open spec fn is_power<T: Scalar>(a: T, p: T, r: T) -> bool {
    call_ensures(T::powf, (a, p), r)
}

/// `r` is a result of `a.exp()`.
pub open spec fn is_exponential<T: Scalar>(a: T, r: T) -> bool {
    call_ensures(T::exp, (a,), r)
}

/// `r` is a result of `a.is_positive()`.
pub open spec fn is_sign_of<T: Scalar>(a: T, r: bool) -> bool {
    call_ensures(T::is_positive, (a,), r)
}

/// `r` is a result of `T::from_byte(byte)`.
pub open spec fn is_byte<T: Scalar>(byte: u8, r: T) -> bool {
    call_ensures(T::from_byte, (byte,), r)
}

/// `r` is a result of `acc.plus(local.times(upstream))`: one edge's share of
/// the chain rule, added to what the child has gathered so far.
pub open spec fn is_accumulation<T: Scalar>(acc: T, local: T, upstream: T, r: T) -> bool {
    exists|share: T| is_product(local, upstream, share) && is_sum(acc, share, r)
}

/// `r` is a result of `value.minus(rate.times(grad))`: one step of gradient descent.
pub open spec fn is_descent<T: Scalar>(value: T, rate: T, grad: T, r: T) -> bool {
    exists|delta: T| is_product(rate, grad, delta) && is_difference(value, delta, r)
}

} // verus!
