//! Error numbers that an operation of the driver answers with.
use vstd::prelude::*;

verus! {

/// The reason for which a request is refused.
#[derive(Clone, Copy, Debug, PartialEq, Eq, Structural)]
pub enum Error {
    /// An argument is outside what the operation accepts.
    EINVAL,
    /// A named object does not exist.
    ENOENT,
    /// An address or a name is already taken.
    EEXIST,
    /// The device or its firmware answered with something that cannot be.
    EIO,
    /// A resource is in use; the request may be repeated.
    EBUSY,
    /// An address space or a name space is used up.
    ENOSPC,
    /// Memory is used up.
    ENOMEM,
    /// A feature is not supported.
    ENOTSUPP,
    /// The device made no progress in time.
    ETIMEDOUT,
    /// The device is gone.
    ENODEV,
    /// The work was dropped before it started.
    ECANCELED,
    /// An error number that a read of the platform's description gave.
    Other(i32),
}

} // verus!
