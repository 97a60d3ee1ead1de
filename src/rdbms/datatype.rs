use vstd::prelude::*;
use crate::encode::{BytesReader, BytesWriter, Decode, Encode, Error as EncodeError, RoundTrip};

verus! {

/// The type of a column.
#[derive(Debug, Clone, Copy, PartialEq, Eq, Structural)]
pub enum DataType {
    Int64,
}

pub const INT64_CODE: u8 = 0;

/// The message of an unknown type code.
pub const UNRECOGNIZED_DATATYPE: &'static str = "Unrecognized datatype";

impl DeepView for DataType {
    type V = DataType;

    open spec fn deep_view(&self) -> DataType {
        *self
    }
}

impl Encode for DataType {
    /// One byte: the type's code.
    open spec fn encoding(&self) -> Seq<u8> {
        match self {
            DataType::Int64 => seq![INT64_CODE],
        }
    }

    fn encode(&self, w: &mut BytesWriter) {
        let code = match self {
            DataType::Int64 => INT64_CODE,
        };
        code.encode(w)
    }
}

impl Decode for DataType {
    open spec fn decoding(bytes: Seq<u8>) -> Result<(DataType, nat), EncodeError> {
        match <u8 as Decode>::decoding(bytes) {
            Ok((code, n)) => if code == INT64_CODE {
                Ok((DataType::Int64, n))
            } else {
                Err(EncodeError::InvalidFormat(UNRECOGNIZED_DATATYPE))
            },
            Err(e) => Err(e),
        }
    }

    fn decode(r: &mut BytesReader) -> (res: Result<DataType, EncodeError>) {
        match u8::decode(r) {
            Ok(code) => if code == INT64_CODE {
                Ok(DataType::Int64)
            } else {
                Err(EncodeError::InvalidFormat(UNRECOGNIZED_DATATYPE))
            },
            Err(e) => Err(e),
        }
    }
}

impl RoundTrip for DataType {
    proof fn lemma_round_trip(v: &DataType, rest: Seq<u8>) {
    }
}

} // verus!
