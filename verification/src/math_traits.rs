//! Generic numeric trait scaffolding: conversion from fixed-width primitive
//! numbers, additive and multiplicative identities, parity, exponentiation
//! and combined division-remainder. Consumers use these to talk about the
//! arithmetic core generically.

use vstd::prelude::*;

verus! {

/// Conversion from fixed-width primitive numbers. The narrower widths all
/// route through the two 128-bit conversions.
pub trait FromPrimitiveNumber: Sized {
    fn from_i128(val: i128) -> Self;

    fn from_u128(val: u128) -> Self;

    fn from_i8(val: i8) -> Self {
        Self::from_i128(val as i128)
    }

    fn from_u8(val: u8) -> Self {
        Self::from_u128(val as u128)
    }

    fn from_i16(val: i16) -> Self {
        Self::from_i128(val as i128)
    }

    fn from_u16(val: u16) -> Self {
        Self::from_u128(val as u128)
    }

    fn from_i32(val: i32) -> Self {
        Self::from_i128(val as i128)
    }

    fn from_u32(val: u32) -> Self {
        Self::from_u128(val as u128)
    }

    fn from_i64(val: i64) -> Self {
        Self::from_i128(val as i128)
    }

    fn from_u64(val: u64) -> Self {
        Self::from_u128(val as u128)
    }
}

/// The additive identity.
pub trait Zero: Sized {
    fn zero() -> Self;
}

/// The multiplicative identity.
pub trait One: Sized {
    fn one() -> Self;
}

/// Parity tests.
pub trait EvenOdd: Sized {
    fn is_even(&self) -> bool;

    fn is_odd(&self) -> bool;
}

/// Exponentiation.
pub trait Pow: Sized {
    fn pow(&self, exp: Self) -> Self;
}

/// Square-root computation.
pub trait Sqrt: Sized {

}

/// Division producing the remainder in the same pass.
pub trait DivRem: Sized {
    fn div_rem(&self, rhs: &Self) -> (Self, Self);
}

} // verus!
