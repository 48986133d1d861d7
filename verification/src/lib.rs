//! Arbitrary-precision signed integer and rational arithmetic.
//!
//! The crate is built in layers. [`arithmetic_util`] is the magnitude kernel:
//! limb-wise addition, subtraction with borrow reconstruction, and recursive
//! (Karatsuba-style) multiplication over base-2^128 digit sequences, each
//! proved against the numeric value of the sequence. [`num`] pairs a magnitude
//! with a three-valued sign to form [`num::Integer`], derives division from a
//! Newton-Raphson fixed-point reciprocal, and stacks unreduced fractions of
//! integers into [`num::Rational`]. [`math_traits`] offers the generic numeric
//! scaffolding, and [`algorithm`] a Euclidean GCD built on division and
//! remainder.

pub mod algorithm;
pub mod arithmetic_util;
pub mod math_traits;
pub mod num;
