//! Little-endian byte codec: a writer, a reader, and the `Encode` /
//! `Decode` traits with their implementations for primitive types,
//! strings and sequences.

pub mod codec;
mod error;
mod reader;
mod writer;

pub use codec::{Decode, Encode, RoundTrip};
pub use error::Error;
pub use reader::BytesReader;
pub use writer::BytesWriter;
