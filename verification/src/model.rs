//! What the contracts of the repair steps speak about.

use vstd::prelude::*;

use crate::error::{Error, Fault};
use crate::stats::RepairStats;
use crate::storage::Storage;
use crate::volume::Volume;

verus! {

/// The state a repair step works on: the bytes of the volume, and the report so far.
#[verifier::ext_equal]
pub struct Vol {
    pub img: Seq<u8>,
    pub stats: RepairStats,
}

/// The state of `vol` with the report `stats`.
pub open spec fn state<S: Storage>(vol: &Volume<S>, stats: RepairStats) -> Vol {
    Vol { img: vol.image(), stats }
}

/// `res`, with the state `now` behind it, is what `expected` says: the same result in the same state, unless a device
/// that may fail did.
pub open spec fn agrees<V, T, E>(
    res: Result<T, Error<E>>,
    now: V,
    reliable: bool,
    expected: (V, Result<T, Fault>),
) -> bool {
    match res {
        Ok(x) => expected == (now, Ok::<T, Fault>(x)),
        Err(Error::Io(_)) => !reliable,
        Err(Error::UnexpectedEof) => expected == (now, Err::<T, Fault>(Fault::UnexpectedEof)),
        Err(Error::CorruptedFileSystem) => expected == (
            now,
            Err::<T, Fault>(Fault::CorruptedFileSystem),
        ),
        Err(Error::InvalidInput) => false,
    }
}

} // verus!
