use vstd::prelude::*;
use crate::kvs;

verus! {

/// Why a catalog operation failed.
#[derive(Debug, PartialEq, Eq)]
pub enum Error {
    KvsError(kvs::Error),
    DatabaseAlreadyExists,
    DatabaseDoesNotExist,
    TableAlreadyExists,
    TableDoesNotExist,
    ColumnAlreadyExists,
    ColumnDoesNotExist,
}

impl From<kvs::Error> for Error {
    fn from(err: kvs::Error) -> (r: Error)
        ensures
            r == Error::KvsError(err),
    {
        Error::KvsError(err)
    }
}

impl vstd::std_specs::convert::FromSpecImpl<kvs::Error> for Error {
    open spec fn obeys_from_spec() -> bool {
        true
    }

    open spec fn from_spec(v: kvs::Error) -> Error {
        Error::KvsError(v)
    }
}

} // verus!
