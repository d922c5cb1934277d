//! Errors.

use vstd::prelude::*;

verus! {

/// Why an operation on a volume failed.
#[derive(Debug)]
pub enum Error<E> {
    /// The device failed.
    Io(E),
    /// A directory ended in the middle of what had to be read from it.
    UnexpectedEof,
    /// The volume, or an argument, is not one the operation works on.
    InvalidInput,
    /// The volume is damaged in a way the operation cannot get past.
    CorruptedFileSystem,
}

/// The failures that come from the contents of the volume, not from the device.
pub enum Fault {
    UnexpectedEof,
    CorruptedFileSystem,
}

/// `res` failed only because a device that may fail did.
pub open spec fn fails_only_by_device<T, E>(res: Result<T, Error<E>>, reliable: bool) -> bool {
    res matches Err(e) ==> e is Io && !reliable
}

} // verus!
