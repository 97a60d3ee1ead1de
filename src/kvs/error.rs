use vstd::prelude::*;
use crate::encode::Error as EncodeError;

verus! {

/// Why an operation of the store failed.
#[derive(Debug, PartialEq, Eq)]
pub enum Error {
    /// The keyspace was never defined.
    UndefinedKeySpace,
    /// A version chain refers to an entry that does not exist.
    VersionNotFound,
    /// The transaction is unknown, committed or aborted.
    InvalidTxnId,
    /// A later transaction has read the version this write would replace.
    ReadWriteConflict,
    /// Another transaction holds the write on the version.
    WriteWriteConflict,
    /// A transaction that committed after this one began wrote a key this
    /// one read.
    PhantomDetected,
    /// Every transaction identifier has been handed out.
    TxnIdsExhausted,
    /// A stored value could not be decoded.
    EncodeError(EncodeError),
}

impl From<EncodeError> for Error {
    fn from(err: EncodeError) -> (r: Error)
        ensures
            r == Error::EncodeError(err),
    {
        Error::EncodeError(err)
    }
}

impl vstd::std_specs::convert::FromSpecImpl<EncodeError> for Error {
    open spec fn obeys_from_spec() -> bool {
        true
    }

    open spec fn from_spec(v: EncodeError) -> Error {
        Error::EncodeError(v)
    }
}

} // verus!
