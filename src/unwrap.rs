//! Taking results apart where the reader or the writer cannot fail.
//!
//! `Infallible` has no values, so an error of that kind never occurs and each
//! unwrap is total.
use core::convert::Infallible;
use vstd::prelude::*;

use crate::error::LzssError;

verus! {

/// Gets the value out of a result whose reader and writer cannot fail.
pub trait UnwrapReadWriteExt<T>: Sized {
    /// The value.
    fn unwrap_read_write(self) -> T;
}

impl<T> UnwrapReadWriteExt<T> for Result<T, LzssError<Infallible, Infallible>> {
    fn unwrap_read_write(self) -> (r: T)
        ensures
            self matches Ok(v) ==> r == v,
    {
        match self {
            Ok(val) => val,
        }
    }
}

/// Removes the error layer from a result whose reader cannot fail.
pub trait UnwrapReadExt<E, T>: Sized {
    /// The value, or the write error.
    fn unwrap_read(self) -> Result<T, E>;
}

impl<E, T> UnwrapReadExt<E, T> for Result<T, LzssError<Infallible, E>> {
    fn unwrap_read(self) -> (r: Result<T, E>)
        ensures
            self matches Ok(v) ==> r == Ok::<T, E>(v),
            self matches Err(LzssError::WriteError(e)) ==> r == Err::<T, E>(e),
    {
        match self {
            Ok(val) => Ok(val),
            Err(LzssError::WriteError(e)) => Err(e),
        }
    }
}

/// Removes the error layer from a result whose writer cannot fail.
pub trait UnwrapWriteExt<E, T>: Sized {
    /// The value, or the read error.
    fn unwrap_write(self) -> Result<T, E>;
}

impl<E, T> UnwrapWriteExt<E, T> for Result<T, LzssError<E, Infallible>> {
    fn unwrap_write(self) -> (r: Result<T, E>)
        ensures
            self matches Ok(v) ==> r == Ok::<T, E>(v),
            self matches Err(LzssError::ReadError(e)) ==> r == Err::<T, E>(e),
    {
        match self {
            Ok(val) => Ok(val),
            Err(LzssError::ReadError(e)) => Err(e),
        }
    }
}

/// Gets the value out of a result whose reader and writer cannot fail (older name of
/// [`UnwrapReadWriteExt`]).
pub trait ResultLzssErrorVoidExt<T>: Sized {
    /// The value.
    fn void_unwrap(self) -> T;
}

impl<T> ResultLzssErrorVoidExt<T> for Result<T, LzssError<Infallible, Infallible>> {
    fn void_unwrap(self) -> (r: T)
        ensures
            self matches Ok(v) ==> r == v,
    {
        match self {
            Ok(val) => val,
        }
    }
}

/// Removes the error layer from a result whose reader cannot fail (older name of
/// [`UnwrapReadExt`]).
pub trait ResultLzssErrorVoidReadExt<E, T>: Sized {
    /// The value, or the write error.
    fn void_read_unwrap(self) -> Result<T, E>;
}

impl<E, T> ResultLzssErrorVoidReadExt<E, T> for Result<T, LzssError<Infallible, E>> {
    fn void_read_unwrap(self) -> (r: Result<T, E>)
        ensures
            self matches Ok(v) ==> r == Ok::<T, E>(v),
            self matches Err(LzssError::WriteError(e)) ==> r == Err::<T, E>(e),
    {
        match self {
            Ok(val) => Ok(val),
            Err(LzssError::WriteError(e)) => Err(e),
        }
    }
}

/// Removes the error layer from a result whose writer cannot fail (older name of
/// [`UnwrapWriteExt`]).
pub trait ResultLzssErrorVoidWriteExt<E, T>: Sized {
    /// The value, or the read error.
    fn void_write_unwrap(self) -> Result<T, E>;
}

impl<E, T> ResultLzssErrorVoidWriteExt<E, T> for Result<T, LzssError<E, Infallible>> {
    fn void_write_unwrap(self) -> (r: Result<T, E>)
        ensures
            self matches Ok(v) ==> r == Ok::<T, E>(v),
            self matches Err(LzssError::ReadError(e)) ==> r == Err::<T, E>(e),
    {
        match self {
            Ok(val) => Ok(val),
            Err(LzssError::ReadError(e)) => Err(e),
        }
    }
}

} // verus!
