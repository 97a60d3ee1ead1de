use vstd::prelude::*;
use vstd::string::StringSliceAdditionalSpecFns;
use vstd::utf8::{decode_utf8, encode_utf8, valid_utf8};
use crate::encode::codec::str_from_utf8;
use crate::encode::{BytesReader, BytesWriter, Decode};

verus! {

broadcast use vstd::utf8::encode_utf8_decode_utf8;

/// Where a value's bytes go.
pub trait ValueSink {
    /// The bytes written so far.
    spec fn contents(&self) -> Seq<u8>;

    fn write(&mut self, bytes: &[u8])
        ensures
            final(self).contents() == old(self).contents() + bytes@,
    ;
}

impl ValueSink for Vec<u8> {
    open spec fn contents(&self) -> Seq<u8> {
        self@
    }

    fn write(&mut self, bytes: &[u8]) {
        let mut i: usize = 0;
        while i < bytes.len()
            invariant
                0 <= i <= bytes@.len(),
                self@ == old(self)@ + bytes@.take(i as int),
            decreases bytes@.len() - i,
        {
            self.push(bytes[i]);
            i += 1;
        }
        assert(bytes@.take(bytes@.len() as int) == bytes@);
    }
}

/// A value written as its raw bytes, with no length or framing.
pub trait SerializableValue {
    spec fn serialized(&self) -> Seq<u8>;

    fn serialize<S: ValueSink>(&self, sink: &mut S)
        ensures
            final(sink).contents() == old(sink).contents() + self.serialized(),
    ;
}

/// Why raw bytes are not a value of the requested type.
#[derive(Debug)]
pub enum DeserializationError {
    /// The number of bytes does not fit the type.
    IncorrectLen,
    /// The bytes are not a value of the type.
    InvalidFormat(&'static str),
}

/// A value read back from all of its raw bytes.
pub trait DeserializableValue: Sized + DeepView {
    /// The value `bytes` hold, or why they hold none.
    spec fn deserialized(bytes: Seq<u8>) -> Result<Self::V, DeserializationError>;

    fn deserialize(bytes: &[u8]) -> (r: Result<Self, DeserializationError>)
        ensures
            match Self::deserialized(bytes@) {
                Ok(v) => r is Ok && r->Ok_0.deep_view() == v,
                Err(e) => r is Err && (r->Err_0 is IncorrectLen <==> e is IncorrectLen),
            },
    ;
}

fn write_all<S: ValueSink>(sink: &mut S, w: BytesWriter)
    ensures
        final(sink).contents() == old(sink).contents() + w@,
{
    sink.write(w.bytes());
}

impl<'a> SerializableValue for &'a [u8] {
    open spec fn serialized(&self) -> Seq<u8> {
        self@
    }

    fn serialize<S: ValueSink>(&self, sink: &mut S) {
        sink.write(*self);
    }
}

impl SerializableValue for Vec<u8> {
    open spec fn serialized(&self) -> Seq<u8> {
        self@
    }

    fn serialize<S: ValueSink>(&self, sink: &mut S) {
        sink.write(self.as_slice());
    }
}

impl DeserializableValue for Vec<u8> {
    open spec fn deserialized(bytes: Seq<u8>) -> Result<Seq<u8>, DeserializationError> {
        Ok(bytes)
    }

    fn deserialize(bytes: &[u8]) -> (r: Result<Vec<u8>, DeserializationError>) {
        let mut v: Vec<u8> = Vec::new();
        v.write(bytes);
        assert(v.deep_view() =~= bytes@);
        Ok(v)
    }
}

impl SerializableValue for bool {
    open spec fn serialized(&self) -> Seq<u8> {
        if *self {
            seq![1u8]
        } else {
            seq![0u8]
        }
    }

    fn serialize<S: ValueSink>(&self, sink: &mut S) {
        if *self {
            let b = [1u8];
            sink.write(&b);
            assert(b@ == seq![1u8]);
        } else {
            let b = [0u8];
            sink.write(&b);
            assert(b@ == seq![0u8]);
        }
    }
}

impl DeserializableValue for bool {
    /// One byte; any byte but zero is `true`.
    open spec fn deserialized(bytes: Seq<u8>) -> Result<bool, DeserializationError> {
        if bytes.len() == 1 {
            Ok(bytes[0] > 0)
        } else {
            Err(DeserializationError::IncorrectLen)
        }
    }

    fn deserialize(bytes: &[u8]) -> (r: Result<bool, DeserializationError>) {
        if bytes.len() == 1 {
            Ok(bytes[0] > 0)
        } else {
            Err(DeserializationError::IncorrectLen)
        }
    }
}

impl SerializableValue for u8 {
    open spec fn serialized(&self) -> Seq<u8> {
        seq![*self]
    }

    fn serialize<S: ValueSink>(&self, sink: &mut S) {
        let b = [*self];
        sink.write(&b);
        assert(b@ == seq![*self]);
    }
}

impl DeserializableValue for u8 {
    open spec fn deserialized(bytes: Seq<u8>) -> Result<u8, DeserializationError> {
        if bytes.len() == 1 {
            Ok(bytes[0])
        } else {
            Err(DeserializationError::IncorrectLen)
        }
    }

    fn deserialize(bytes: &[u8]) -> (r: Result<u8, DeserializationError>) {
        if bytes.len() == 1 {
            Ok(bytes[0])
        } else {
            Err(DeserializationError::IncorrectLen)
        }
    }
}

impl SerializableValue for u16 {
    /// The little-endian bytes, as in the codec.
    open spec fn serialized(&self) -> Seq<u8> {
        crate::encode::Encode::encoding(self)
    }

    fn serialize<S: ValueSink>(&self, sink: &mut S) {
        let mut w = BytesWriter::new(Vec::new());
        crate::encode::Encode::encode(self, &mut w);
        assert(w@ =~= self.serialized());
        write_all(sink, w);
    }
}

impl DeserializableValue for u16 {
    /// Exactly 2 bytes, read as by the codec.
    open spec fn deserialized(bytes: Seq<u8>) -> Result<u16, DeserializationError> {
        if bytes.len() == 2 {
            match <u16 as Decode>::decoding(bytes) {
                Ok((v, _)) => Ok(v),
                Err(_) => Err(DeserializationError::InvalidFormat(OUT_OF_RANGE)),
            }
        } else {
            Err(DeserializationError::IncorrectLen)
        }
    }

    fn deserialize(bytes: &[u8]) -> (r: Result<u16, DeserializationError>) {
        if bytes.len() != 2 {
            return Err(DeserializationError::IncorrectLen);
        }
        let mut reader = BytesReader::new(bytes);
        match u16::decode(&mut reader) {
            Ok(v) => Ok(v),
            Err(_) => Err(DeserializationError::InvalidFormat(OUT_OF_RANGE)),
        }
    }
}

impl SerializableValue for i16 {
    /// The little-endian bytes, as in the codec.
    open spec fn serialized(&self) -> Seq<u8> {
        crate::encode::Encode::encoding(self)
    }

    fn serialize<S: ValueSink>(&self, sink: &mut S) {
        let mut w = BytesWriter::new(Vec::new());
        crate::encode::Encode::encode(self, &mut w);
        assert(w@ =~= self.serialized());
        write_all(sink, w);
    }
}

impl DeserializableValue for i16 {
    /// Exactly 2 bytes, read as by the codec.
    open spec fn deserialized(bytes: Seq<u8>) -> Result<i16, DeserializationError> {
        if bytes.len() == 2 {
            match <i16 as Decode>::decoding(bytes) {
                Ok((v, _)) => Ok(v),
                Err(_) => Err(DeserializationError::InvalidFormat(OUT_OF_RANGE)),
            }
        } else {
            Err(DeserializationError::IncorrectLen)
        }
    }

    fn deserialize(bytes: &[u8]) -> (r: Result<i16, DeserializationError>) {
        if bytes.len() != 2 {
            return Err(DeserializationError::IncorrectLen);
        }
        let mut reader = BytesReader::new(bytes);
        match i16::decode(&mut reader) {
            Ok(v) => Ok(v),
            Err(_) => Err(DeserializationError::InvalidFormat(OUT_OF_RANGE)),
        }
    }
}

impl SerializableValue for u32 {
    /// The little-endian bytes, as in the codec.
    open spec fn serialized(&self) -> Seq<u8> {
        crate::encode::Encode::encoding(self)
    }

    fn serialize<S: ValueSink>(&self, sink: &mut S) {
        let mut w = BytesWriter::new(Vec::new());
        crate::encode::Encode::encode(self, &mut w);
        assert(w@ =~= self.serialized());
        write_all(sink, w);
    }
}

impl DeserializableValue for u32 {
    /// Exactly 4 bytes, read as by the codec.
    open spec fn deserialized(bytes: Seq<u8>) -> Result<u32, DeserializationError> {
        if bytes.len() == 4 {
            match <u32 as Decode>::decoding(bytes) {
                Ok((v, _)) => Ok(v),
                Err(_) => Err(DeserializationError::InvalidFormat(OUT_OF_RANGE)),
            }
        } else {
            Err(DeserializationError::IncorrectLen)
        }
    }

    fn deserialize(bytes: &[u8]) -> (r: Result<u32, DeserializationError>) {
        if bytes.len() != 4 {
            return Err(DeserializationError::IncorrectLen);
        }
        let mut reader = BytesReader::new(bytes);
        match u32::decode(&mut reader) {
            Ok(v) => Ok(v),
            Err(_) => Err(DeserializationError::InvalidFormat(OUT_OF_RANGE)),
        }
    }
}

impl SerializableValue for i32 {
    /// The little-endian bytes, as in the codec.
    open spec fn serialized(&self) -> Seq<u8> {
        crate::encode::Encode::encoding(self)
    }

    fn serialize<S: ValueSink>(&self, sink: &mut S) {
        let mut w = BytesWriter::new(Vec::new());
        crate::encode::Encode::encode(self, &mut w);
        assert(w@ =~= self.serialized());
        write_all(sink, w);
    }
}

impl DeserializableValue for i32 {
    /// Exactly 4 bytes, read as by the codec.
    open spec fn deserialized(bytes: Seq<u8>) -> Result<i32, DeserializationError> {
        if bytes.len() == 4 {
            match <i32 as Decode>::decoding(bytes) {
                Ok((v, _)) => Ok(v),
                Err(_) => Err(DeserializationError::InvalidFormat(OUT_OF_RANGE)),
            }
        } else {
            Err(DeserializationError::IncorrectLen)
        }
    }

    fn deserialize(bytes: &[u8]) -> (r: Result<i32, DeserializationError>) {
        if bytes.len() != 4 {
            return Err(DeserializationError::IncorrectLen);
        }
        let mut reader = BytesReader::new(bytes);
        match i32::decode(&mut reader) {
            Ok(v) => Ok(v),
            Err(_) => Err(DeserializationError::InvalidFormat(OUT_OF_RANGE)),
        }
    }
}

impl SerializableValue for u64 {
    /// The little-endian bytes, as in the codec.
    open spec fn serialized(&self) -> Seq<u8> {
        crate::encode::Encode::encoding(self)
    }

    fn serialize<S: ValueSink>(&self, sink: &mut S) {
        let mut w = BytesWriter::new(Vec::new());
        crate::encode::Encode::encode(self, &mut w);
        assert(w@ =~= self.serialized());
        write_all(sink, w);
    }
}

impl DeserializableValue for u64 {
    /// Exactly 8 bytes, read as by the codec.
    open spec fn deserialized(bytes: Seq<u8>) -> Result<u64, DeserializationError> {
        if bytes.len() == 8 {
            match <u64 as Decode>::decoding(bytes) {
                Ok((v, _)) => Ok(v),
                Err(_) => Err(DeserializationError::InvalidFormat(OUT_OF_RANGE)),
            }
        } else {
            Err(DeserializationError::IncorrectLen)
        }
    }

    fn deserialize(bytes: &[u8]) -> (r: Result<u64, DeserializationError>) {
        if bytes.len() != 8 {
            return Err(DeserializationError::IncorrectLen);
        }
        let mut reader = BytesReader::new(bytes);
        match u64::decode(&mut reader) {
            Ok(v) => Ok(v),
            Err(_) => Err(DeserializationError::InvalidFormat(OUT_OF_RANGE)),
        }
    }
}

impl SerializableValue for i64 {
    /// The little-endian bytes, as in the codec.
    open spec fn serialized(&self) -> Seq<u8> {
        crate::encode::Encode::encoding(self)
    }

    fn serialize<S: ValueSink>(&self, sink: &mut S) {
        let mut w = BytesWriter::new(Vec::new());
        crate::encode::Encode::encode(self, &mut w);
        assert(w@ =~= self.serialized());
        write_all(sink, w);
    }
}

impl DeserializableValue for i64 {
    /// Exactly 8 bytes, read as by the codec.
    open spec fn deserialized(bytes: Seq<u8>) -> Result<i64, DeserializationError> {
        if bytes.len() == 8 {
            match <i64 as Decode>::decoding(bytes) {
                Ok((v, _)) => Ok(v),
                Err(_) => Err(DeserializationError::InvalidFormat(OUT_OF_RANGE)),
            }
        } else {
            Err(DeserializationError::IncorrectLen)
        }
    }

    fn deserialize(bytes: &[u8]) -> (r: Result<i64, DeserializationError>) {
        if bytes.len() != 8 {
            return Err(DeserializationError::IncorrectLen);
        }
        let mut reader = BytesReader::new(bytes);
        match i64::decode(&mut reader) {
            Ok(v) => Ok(v),
            Err(_) => Err(DeserializationError::InvalidFormat(OUT_OF_RANGE)),
        }
    }
}

impl SerializableValue for usize {
    /// The little-endian bytes, as in the codec.
    open spec fn serialized(&self) -> Seq<u8> {
        crate::encode::Encode::encoding(self)
    }

    fn serialize<S: ValueSink>(&self, sink: &mut S) {
        let mut w = BytesWriter::new(Vec::new());
        crate::encode::Encode::encode(self, &mut w);
        assert(w@ =~= self.serialized());
        write_all(sink, w);
    }
}

impl DeserializableValue for usize {
    /// Exactly 8 bytes, read as by the codec.
    open spec fn deserialized(bytes: Seq<u8>) -> Result<usize, DeserializationError> {
        if bytes.len() == 8 {
            match <usize as Decode>::decoding(bytes) {
                Ok((v, _)) => Ok(v),
                Err(_) => Err(DeserializationError::InvalidFormat(OUT_OF_RANGE)),
            }
        } else {
            Err(DeserializationError::IncorrectLen)
        }
    }

    fn deserialize(bytes: &[u8]) -> (r: Result<usize, DeserializationError>) {
        if bytes.len() != 8 {
            return Err(DeserializationError::IncorrectLen);
        }
        let mut reader = BytesReader::new(bytes);
        match usize::decode(&mut reader) {
            Ok(v) => Ok(v),
            Err(_) => Err(DeserializationError::InvalidFormat(OUT_OF_RANGE)),
        }
    }
}

impl<'a> SerializableValue for &'a str {
    /// The UTF-8 bytes.
    open spec fn serialized(&self) -> Seq<u8> {
        self.spec_bytes()
    }

    fn serialize<S: ValueSink>(&self, sink: &mut S) {
        sink.write(self.as_bytes());
    }
}

impl SerializableValue for String {
    open spec fn serialized(&self) -> Seq<u8> {
        encode_utf8(self@)
    }

    fn serialize<S: ValueSink>(&self, sink: &mut S) {
        sink.write(self.as_str().as_bytes());
    }
}

impl DeserializableValue for String {
    open spec fn deserialized(bytes: Seq<u8>) -> Result<Seq<char>, DeserializationError> {
        if valid_utf8(bytes) {
            Ok(decode_utf8(bytes))
        } else {
            Err(DeserializationError::InvalidFormat(INVALID_UTF8_STRING))
        }
    }

    fn deserialize(bytes: &[u8]) -> (r: Result<String, DeserializationError>) {
        match str_from_utf8(bytes) {
            Some(s) => Ok(s.to_owned()),
            None => Err(DeserializationError::InvalidFormat(INVALID_UTF8_STRING)),
        }
    }
}

/// The message of bytes that are no value of the type.
pub const OUT_OF_RANGE: &'static str = "Value out of range";

/// The message of string bytes that are not UTF-8.
pub const INVALID_UTF8_STRING: &'static str = "Invalid UTF8 string bytes";

} // verus!
