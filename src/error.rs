use vstd::prelude::*;

verus! {

/// A read or a write failed; the value is what the reader or writer returned.
#[derive(Debug, PartialEq, Eq)]
pub enum LzssError<R, W> {
    /// The reader failed.
    ReadError(R),
    /// The writer failed.
    WriteError(W),
}

impl<R, W> LzssError<R, W> {
    /// Applies `op` to a read error and keeps a write error.
    pub fn map_read_error<E, O: FnOnce(R) -> E>(self, op: O) -> (res: LzssError<E, W>)
        requires
            self matches LzssError::ReadError(e) ==> op.requires((e,)),
        ensures
            self matches LzssError::ReadError(e) ==> (res matches LzssError::ReadError(x)
                && op.ensures((e,), x)),
            self matches LzssError::WriteError(e) ==> res == LzssError::<E, W>::WriteError(e),
    {
        match self {
            LzssError::ReadError(e) => LzssError::ReadError(op(e)),
            LzssError::WriteError(e) => LzssError::WriteError(e),
        }
    }

    /// Applies `op` to a write error and keeps a read error.
    pub fn map_write_error<E, O: FnOnce(W) -> E>(self, op: O) -> (res: LzssError<R, E>)
        requires
            self matches LzssError::WriteError(e) ==> op.requires((e,)),
        ensures
            self matches LzssError::WriteError(e) ==> (res matches LzssError::WriteError(x)
                && op.ensures((e,), x)),
            self matches LzssError::ReadError(e) ==> res == LzssError::<R, E>::ReadError(e),
    {
        match self {
            LzssError::ReadError(e) => LzssError::ReadError(e),
            LzssError::WriteError(e) => LzssError::WriteError(op(e)),
        }
    }
}

} // verus!
