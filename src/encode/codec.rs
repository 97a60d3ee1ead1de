use vstd::prelude::*;
use vstd::utf8::{decode_utf8, encode_utf8, valid_utf8};
use vstd::string::StringSliceAdditionalSpecFns;
use crate::encode::error::Error;
use crate::encode::reader::BytesReader;
use crate::encode::writer::BytesWriter;

verus! {

broadcast use {vstd::utf8::encode_utf8_decode_utf8, vstd::utf8::decode_utf8_encode_utf8, vstd::utf8::encode_utf8_valid_utf8};

/// The message of a decoded `usize` that does not fit the machine's `usize`.
pub const USIZE_OUT_OF_RANGE: &'static str = "usize out of range";

/// The message of string bytes that are not UTF-8.
pub const INVALID_UTF8: &'static str = "Invalid UTF8 string bytes";

/// `256^n`.
pub open spec fn pow256(n: nat) -> nat
    decreases n,
{
    if n == 0 {
        1
    } else {
        256 * pow256((n - 1) as nat)
    }
}

/// The `n` least significant bytes of `x`, least significant first.
pub open spec fn le_bytes(x: nat, n: nat) -> Seq<u8>
    decreases n,
{
    if n == 0 {
        Seq::empty()
    } else {
        seq![(x % 256) as u8] + le_bytes(x / 256, (n - 1) as nat)
    }
}

/// The number whose little-endian bytes are `s`.
pub open spec fn le_value(s: Seq<u8>) -> nat
    decreases s.len(),
{
    if s.len() == 0 {
        0
    } else {
        s[0] as nat + 256 * le_value(s.drop_first())
    }
}

/// Writes the `n` low bytes of `x` little-endian.
pub(crate) fn write_le(w: &mut BytesWriter, x: u64, n: usize)
    requires
        n <= 8,
    ensures
        final(w)@ == old(w)@ + le_bytes(x as nat, n as nat),
{
    let mut buf: Vec<u8> = Vec::new();
    let mut v: u64 = x;
    let mut i: usize = 0;
    while i < n
        invariant
            i <= n,
            buf@ + le_bytes(v as nat, (n - i) as nat) == le_bytes(x as nat, n as nat),
        decreases n - i,
    {
        let b = (v % 256) as u8;
        assert(le_bytes(v as nat, (n - i) as nat) == seq![b] + le_bytes((v / 256) as nat, (n - i - 1) as nat));
        buf.push(b);
        v = v / 256;
        i += 1;
        assert(buf@ + le_bytes(v as nat, (n - i) as nat) == le_bytes(x as nat, n as nat));
    }
    assert(buf@ + le_bytes(v as nat, 0) == buf@);
    w.write(buf.as_slice());
}

proof fn lemma_pow256_8()
    ensures
        pow256(8) == 0x1_0000_0000_0000_0000,
        pow256(7) == 0x100_0000_0000_0000,
        pow256(4) == 0x1_0000_0000,
        pow256(2) == 0x1_0000,
{
    assert(pow256(0) == 1);
    assert(pow256(1) == 256);
    assert(pow256(2) == 0x1_0000);
    assert(pow256(3) == 0x100_0000);
    assert(pow256(4) == 0x1_0000_0000);
    assert(pow256(5) == 0x100_0000_0000);
    assert(pow256(6) == 0x1_0000_0000_0000);
    assert(pow256(7) == 0x100_0000_0000_0000);
}

proof fn lemma_pow256_mono(a: nat, b: nat)
    requires
        a <= b,
    ensures
        pow256(a) <= pow256(b),
    decreases b,
{
    if a < b {
        lemma_pow256_mono(a, (b - 1) as nat);
    }
}

/// A little-endian number of `s.len()` bytes is below `256^len`.
pub proof fn lemma_le_value_bound(s: Seq<u8>)
    ensures
        le_value(s) < pow256(s.len()),
    decreases s.len(),
{
    if s.len() > 0 {
        lemma_le_value_bound(s.drop_first());
    }
}

/// Little-endian bytes of `x` read back as `x`.
pub proof fn lemma_le_round_trip(x: nat, n: nat)
    requires
        x < pow256(n),
    ensures
        le_bytes(x, n).len() == n,
        le_value(le_bytes(x, n)) == x,
    decreases n,
{
    if n > 0 {
        let q = x / 256;
        assert(q < pow256((n - 1) as nat)) by (nonlinear_arith)
            requires
                x < 256 * pow256((n - 1) as nat),
                q == x / 256,
        ;
        lemma_le_round_trip(q, (n - 1) as nat);
        let s = le_bytes(x, n);
        assert(s.drop_first() == le_bytes(q, (n - 1) as nat));
        assert(x == (x % 256) + 256 * q);
    }
}

/// Reads `n` bytes as a little-endian number.
pub(crate) fn read_le(r: &mut BytesReader, n: usize) -> (res: Result<u64, Error>)
    requires
        old(r).wf(),
        n <= 8,
    ensures
        final(r).wf(),
        n <= old(r).rest().len() ==> {
            &&& res == Ok::<u64, Error>(le_value(old(r).rest().take(n as int)) as u64)
            &&& le_value(old(r).rest().take(n as int)) < pow256(n as nat)
            &&& final(r).rest() == old(r).rest().skip(n as int)
        },
        n > old(r).rest().len() ==> {
            &&& res == Err::<u64, Error>(Error::NotEnoughBytes)
            &&& final(r).rest() == old(r).rest()
        },
{
    let b = match r.read(n) {
        Ok(b) => b,
        Err(e) => {
            return Err(e);
        },
    };
    let mut acc: u64 = 0;
    let mut i: usize = n;
    proof {
        lemma_pow256_8();
        lemma_pow256_mono(n as nat, 8);
    }
    while i > 0
        invariant
            i <= n <= 8,
            b@.len() == n,
            acc as nat == le_value(b@.subrange(i as int, n as int)),
            acc < pow256((n - i) as nat),
            pow256(8) == 0x1_0000_0000_0000_0000,
        decreases i,
    {
        i -= 1;
        proof {
            lemma_pow256_mono((n - i - 1) as nat, 7);
            lemma_pow256_8();
            assert(b@.subrange(i as int, n as int).drop_first() == b@.subrange(i + 1, n as int));
        }
        acc = b[i] as u64 + 256 * acc;
    }
    assert(b@.subrange(0, n as int) == b@);
    Ok(acc)
}

/// A value with a fixed byte encoding.
pub trait Encode {
    /// The bytes that `encode` appends for this value.
    spec fn encoding(&self) -> Seq<u8>;

    fn encode(&self, w: &mut BytesWriter)
        ensures
            final(w)@ == old(w)@ + self.encoding(),
    ;
}

/// A value that can be read back from its byte encoding.
pub trait Decode: Sized + DeepView {
    /// What reading a value from the front of `bytes` gives: the value and
    /// the number of bytes it takes, or why it fails.
    spec fn decoding(bytes: Seq<u8>) -> Result<(Self::V, nat), Error>;

    fn decode(r: &mut BytesReader) -> (res: Result<Self, Error>)
        requires
            old(r).wf(),
        ensures
            final(r).wf(),
            match Self::decoding(old(r).rest()) {
                Ok((v, n)) => {
                    &&& res is Ok
                    &&& res->Ok_0.deep_view() == v
                    &&& n <= old(r).rest().len()
                    &&& final(r).rest() == old(r).rest().skip(n as int)
                },
                Err(e) => res == Err::<Self, Error>(e),
            },
    ;
}

/// Types whose decoding reads back exactly what their encoding wrote.
pub trait RoundTrip: Encode + Decode {
    /// Decoding the encoding of `v`, followed by any bytes, gives `v` and
    /// consumes exactly its encoding (an encoding that fits in memory).
    proof fn lemma_round_trip(v: &Self, rest: Seq<u8>)
        requires
            v.encoding().len() <= usize::MAX,
        ensures
            Self::decoding(v.encoding() + rest) == Ok::<(Self::V, nat), Error>(
                (v.deep_view(), v.encoding().len()),
            ),
    ;
}

/// The spec of decoding a fixed-width little-endian number of `n` bytes.
pub open spec fn decode_fixed(bytes: Seq<u8>, n: nat) -> Result<(nat, nat), Error> {
    if n <= bytes.len() {
        Ok((le_value(bytes.take(n as int)), n))
    } else {
        Err(Error::NotEnoughBytes)
    }
}

proof fn lemma_fixed_round_trip(x: nat, n: nat, rest: Seq<u8>)
    requires
        x < pow256(n),
    ensures
        le_bytes(x, n).len() == n,
        decode_fixed(le_bytes(x, n) + rest, n) == Ok::<(nat, nat), Error>((x, n)),
{
    lemma_le_round_trip(x, n);
    assert((le_bytes(x, n) + rest).take(n as int) == le_bytes(x, n));
}


impl Encode for u16 {
    open spec fn encoding(&self) -> Seq<u8> {
        le_bytes(*self as nat, 2)
    }

    fn encode(&self, w: &mut BytesWriter) {
        write_le(w, *self as u64, 2);
    }
}

impl Decode for u16 {
    open spec fn decoding(bytes: Seq<u8>) -> Result<(u16, nat), Error> {
        match decode_fixed(bytes, 2) {
            Ok((x, k)) => Ok((x as u16, k)),
            Err(e) => Err(e),
        }
    }

    fn decode(r: &mut BytesReader) -> (res: Result<u16, Error>) {
        proof {
            lemma_pow256_8();
        }
        match read_le(r, 2) {
            Ok(x) => Ok(x as u16),
            Err(e) => Err(e),
        }
    }
}

impl RoundTrip for u16 {
    proof fn lemma_round_trip(v: &u16, rest: Seq<u8>) {
        lemma_pow256_8();
        lemma_fixed_round_trip(*v as nat, 2, rest);
    }
}

impl Encode for u32 {
    open spec fn encoding(&self) -> Seq<u8> {
        le_bytes(*self as nat, 4)
    }

    fn encode(&self, w: &mut BytesWriter) {
        write_le(w, *self as u64, 4);
    }
}

impl Decode for u32 {
    open spec fn decoding(bytes: Seq<u8>) -> Result<(u32, nat), Error> {
        match decode_fixed(bytes, 4) {
            Ok((x, k)) => Ok((x as u32, k)),
            Err(e) => Err(e),
        }
    }

    fn decode(r: &mut BytesReader) -> (res: Result<u32, Error>) {
        proof {
            lemma_pow256_8();
        }
        match read_le(r, 4) {
            Ok(x) => Ok(x as u32),
            Err(e) => Err(e),
        }
    }
}

impl RoundTrip for u32 {
    proof fn lemma_round_trip(v: &u32, rest: Seq<u8>) {
        lemma_pow256_8();
        lemma_fixed_round_trip(*v as nat, 4, rest);
    }
}

impl Encode for u64 {
    open spec fn encoding(&self) -> Seq<u8> {
        le_bytes(*self as nat, 8)
    }

    fn encode(&self, w: &mut BytesWriter) {
        write_le(w, *self as u64, 8);
    }
}

impl Decode for u64 {
    open spec fn decoding(bytes: Seq<u8>) -> Result<(u64, nat), Error> {
        match decode_fixed(bytes, 8) {
            Ok((x, k)) => Ok((x as u64, k)),
            Err(e) => Err(e),
        }
    }

    fn decode(r: &mut BytesReader) -> (res: Result<u64, Error>) {
        proof {
            lemma_pow256_8();
        }
        match read_le(r, 8) {
            Ok(x) => Ok(x as u64),
            Err(e) => Err(e),
        }
    }
}

impl RoundTrip for u64 {
    proof fn lemma_round_trip(v: &u64, rest: Seq<u8>) {
        lemma_pow256_8();
        lemma_fixed_round_trip(*v as nat, 8, rest);
    }
}

/// The value of `x` read as a two's-complement number of 16 bits.
pub open spec fn i16_from_bits(x: nat) -> i16 {
    if x < 0x8000 {
        x as i16
    } else {
        (x - 0x1_0000) as i16
    }
}

/// The 16-bit two's-complement representation of `v`.
pub open spec fn i16_bits(v: i16) -> nat {
    if v >= 0 {
        v as nat
    } else {
        (v + 0x1_0000) as nat
    }
}

impl Encode for i16 {
    open spec fn encoding(&self) -> Seq<u8> {
        le_bytes(i16_bits(*self), 2)
    }

    fn encode(&self, w: &mut BytesWriter) {
        let u: u64 = if *self >= 0 {
            *self as u64
        } else {
            (*self as i32 + 0x1_0000) as u64
        };
        write_le(w, u, 2);
    }
}

impl Decode for i16 {
    open spec fn decoding(bytes: Seq<u8>) -> Result<(i16, nat), Error> {
        match decode_fixed(bytes, 2) {
            Ok((x, k)) => Ok((i16_from_bits(x), k)),
            Err(e) => Err(e),
        }
    }

    fn decode(r: &mut BytesReader) -> (res: Result<i16, Error>) {
        proof {
            lemma_pow256_8();
        }
        match read_le(r, 2) {
            Ok(x) => {
                if x < 0x8000 {
                    Ok(x as i16)
                } else {
                    Ok((x as i32 - 0x1_0000) as i16)
                }
            },
            Err(e) => Err(e),
        }
    }
}

impl RoundTrip for i16 {
    proof fn lemma_round_trip(v: &i16, rest: Seq<u8>) {
        lemma_pow256_8();
        lemma_fixed_round_trip(i16_bits(*v), 2, rest);
    }
}

/// The value of `x` read as a two's-complement number of 32 bits.
pub open spec fn i32_from_bits(x: nat) -> i32 {
    if x < 0x8000_0000 {
        x as i32
    } else {
        (x - 0x1_0000_0000) as i32
    }
}

/// The 32-bit two's-complement representation of `v`.
pub open spec fn i32_bits(v: i32) -> nat {
    if v >= 0 {
        v as nat
    } else {
        (v + 0x1_0000_0000) as nat
    }
}

impl Encode for i32 {
    open spec fn encoding(&self) -> Seq<u8> {
        le_bytes(i32_bits(*self), 4)
    }

    fn encode(&self, w: &mut BytesWriter) {
        let u: u64 = if *self >= 0 {
            *self as u64
        } else {
            (*self as i64 + 0x1_0000_0000) as u64
        };
        write_le(w, u, 4);
    }
}

impl Decode for i32 {
    open spec fn decoding(bytes: Seq<u8>) -> Result<(i32, nat), Error> {
        match decode_fixed(bytes, 4) {
            Ok((x, k)) => Ok((i32_from_bits(x), k)),
            Err(e) => Err(e),
        }
    }

    fn decode(r: &mut BytesReader) -> (res: Result<i32, Error>) {
        proof {
            lemma_pow256_8();
        }
        match read_le(r, 4) {
            Ok(x) => {
                if x < 0x8000_0000 {
                    Ok(x as i32)
                } else {
                    Ok((x as i64 - 0x1_0000_0000) as i32)
                }
            },
            Err(e) => Err(e),
        }
    }
}

impl RoundTrip for i32 {
    proof fn lemma_round_trip(v: &i32, rest: Seq<u8>) {
        lemma_pow256_8();
        lemma_fixed_round_trip(i32_bits(*v), 4, rest);
    }
}

/// The value of `x` read as a two's-complement number of 64 bits.
pub open spec fn i64_from_bits(x: nat) -> i64 {
    if x < 0x8000_0000_0000_0000 {
        x as i64
    } else {
        (x - 0x1_0000_0000_0000_0000) as i64
    }
}

/// The 64-bit two's-complement representation of `v`.
pub open spec fn i64_bits(v: i64) -> nat {
    if v >= 0 {
        v as nat
    } else {
        (v + 0x1_0000_0000_0000_0000) as nat
    }
}

impl Encode for i64 {
    open spec fn encoding(&self) -> Seq<u8> {
        le_bytes(i64_bits(*self), 8)
    }

    fn encode(&self, w: &mut BytesWriter) {
        let u: u64 = if *self >= 0 {
            *self as u64
        } else {
            (*self as i128 + 0x1_0000_0000_0000_0000) as u64
        };
        write_le(w, u, 8);
    }
}

impl Decode for i64 {
    open spec fn decoding(bytes: Seq<u8>) -> Result<(i64, nat), Error> {
        match decode_fixed(bytes, 8) {
            Ok((x, k)) => Ok((i64_from_bits(x), k)),
            Err(e) => Err(e),
        }
    }

    fn decode(r: &mut BytesReader) -> (res: Result<i64, Error>) {
        proof {
            lemma_pow256_8();
        }
        match read_le(r, 8) {
            Ok(x) => {
                if x < 0x8000_0000_0000_0000 {
                    Ok(x as i64)
                } else {
                    Ok((x as i128 - 0x1_0000_0000_0000_0000) as i64)
                }
            },
            Err(e) => Err(e),
        }
    }
}

impl RoundTrip for i64 {
    proof fn lemma_round_trip(v: &i64, rest: Seq<u8>) {
        lemma_pow256_8();
        lemma_fixed_round_trip(i64_bits(*v), 8, rest);
    }
}


impl Encode for bool {
    open spec fn encoding(&self) -> Seq<u8> {
        if *self {
            seq![1u8]
        } else {
            seq![0u8]
        }
    }

    fn encode(&self, w: &mut BytesWriter) {
        if *self {
            let b = [1u8];
            w.write(&b);
            assert(b@ == seq![1u8]);
        } else {
            let b = [0u8];
            w.write(&b);
            assert(b@ == seq![0u8]);
        }
    }
}

impl Decode for bool {
    /// One byte; any byte but zero reads as `true`.
    open spec fn decoding(bytes: Seq<u8>) -> Result<(bool, nat), Error> {
        if bytes.len() >= 1 {
            Ok((bytes[0] > 0, 1))
        } else {
            Err(Error::NotEnoughBytes)
        }
    }

    fn decode(r: &mut BytesReader) -> (res: Result<bool, Error>) {
        match r.read(1) {
            Ok(b) => Ok(b[0] > 0),
            Err(e) => Err(e),
        }
    }
}

impl RoundTrip for bool {
    proof fn lemma_round_trip(v: &bool, rest: Seq<u8>) {
    }
}

impl Encode for u8 {
    open spec fn encoding(&self) -> Seq<u8> {
        seq![*self]
    }

    fn encode(&self, w: &mut BytesWriter) {
        let b = [*self];
        w.write(&b);
        assert(b@ == seq![*self]);
    }
}

impl Decode for u8 {
    open spec fn decoding(bytes: Seq<u8>) -> Result<(u8, nat), Error> {
        if bytes.len() >= 1 {
            Ok((bytes[0], 1))
        } else {
            Err(Error::NotEnoughBytes)
        }
    }

    fn decode(r: &mut BytesReader) -> (res: Result<u8, Error>) {
        match r.read(1) {
            Ok(b) => Ok(b[0]),
            Err(e) => Err(e),
        }
    }
}

impl RoundTrip for u8 {
    proof fn lemma_round_trip(v: &u8, rest: Seq<u8>) {
    }
}

impl Encode for usize {
    /// Eight bytes, whatever the width of `usize` on the machine.
    open spec fn encoding(&self) -> Seq<u8> {
        le_bytes(*self as nat, 8)
    }

    fn encode(&self, w: &mut BytesWriter) {
        write_le(w, *self as u64, 8);
    }
}

impl Decode for usize {
    open spec fn decoding(bytes: Seq<u8>) -> Result<(usize, nat), Error> {
        match decode_fixed(bytes, 8) {
            Ok((x, k)) => if x <= usize::MAX {
                Ok((x as usize, k))
            } else {
                Err(Error::InvalidFormat(USIZE_OUT_OF_RANGE))
            },
            Err(e) => Err(e),
        }
    }

    fn decode(r: &mut BytesReader) -> (res: Result<usize, Error>) {
        proof {
            lemma_pow256_8();
        }
        match read_le(r, 8) {
            Ok(x) => {
                if x as u128 <= usize::MAX as u128 {
                    Ok(x as usize)
                } else {
                    Err(Error::InvalidFormat(USIZE_OUT_OF_RANGE))
                }
            },
            Err(e) => Err(e),
        }
    }
}

impl RoundTrip for usize {
    proof fn lemma_round_trip(v: &usize, rest: Seq<u8>) {
        lemma_pow256_8();
        lemma_fixed_round_trip(*v as nat, 8, rest);
    }
}

/// The encodings of the items of `s`, one after the other.
pub open spec fn encode_all<V: Encode>(s: Seq<V>) -> Seq<u8>
    decreases s.len(),
{
    if s.len() == 0 {
        Seq::empty()
    } else {
        encode_all(s.drop_last()) + s.last().encoding()
    }
}

/// The deep views of the items of `s`.
pub open spec fn deep_views<V: DeepView>(s: Seq<V>) -> Seq<V::V> {
    Seq::new(s.len(), |i: int| s[i].deep_view())
}

/// Reading `n` values one after the other from the front of `bytes`.
pub open spec fn decode_many<V: Decode>(bytes: Seq<u8>, n: nat) -> Result<(Seq<V::V>, nat), Error>
    decreases n,
{
    if n == 0 {
        Ok((Seq::empty(), 0))
    } else {
        match V::decoding(bytes) {
            Err(e) => Err(e),
            Ok((v, k)) => match decode_many::<V>(bytes.skip(k as int), (n - 1) as nat) {
                Err(e) => Err(e),
                Ok((vs, m)) => Ok((seq![v] + vs, k + m)),
            },
        }
    }
}

/// `res` with the values `vs`, taking `c` bytes, read before it.
pub open spec fn after_prefix<T>(vs: Seq<T>, c: nat, res: Result<(Seq<T>, nat), Error>) -> Result<
    (Seq<T>, nat),
    Error,
> {
    match res {
        Ok((ws, m)) => Ok((vs + ws, c + m)),
        Err(e) => Err(e),
    }
}

/// A count as eight bytes, then the items.
pub open spec fn encode_seq<V: Encode>(s: Seq<V>) -> Seq<u8> {
    le_bytes(s.len(), 8) + encode_all(s)
}

/// A count as eight bytes, then that many items.
pub open spec fn decode_seq<V: Decode>(bytes: Seq<u8>) -> Result<(Seq<V::V>, nat), Error> {
    match decode_fixed(bytes, 8) {
        Err(e) => Err(e),
        Ok((n, _)) => after_prefix(Seq::empty(), 8, decode_many::<V>(bytes.skip(8), n)),
    }
}

fn encode_items<V: Encode>(items: &[V], w: &mut BytesWriter)
    ensures
        final(w)@ == old(w)@ + encode_seq(items@),
{
    write_le(w, items.len() as u64, 8);
    let ghost start = w@;
    let mut i: usize = 0;
    while i < items.len()
        invariant
            i <= items@.len(),
            w@ == start + encode_all(items@.take(i as int)),
        decreases items@.len() - i,
    {
        items[i].encode(w);
        assert(items@.take(i + 1).drop_last() == items@.take(i as int));
        i += 1;
    }
    assert(items@.take(items@.len() as int) == items@);
}

impl<V: Encode> Encode for Vec<V> {
    open spec fn encoding(&self) -> Seq<u8> {
        encode_seq(self@)
    }

    fn encode(&self, w: &mut BytesWriter) {
        encode_items(self.as_slice(), w);
    }
}

impl<'a, V: Encode> Encode for &'a [V] {
    open spec fn encoding(&self) -> Seq<u8> {
        encode_seq(self@)
    }

    fn encode(&self, w: &mut BytesWriter) {
        encode_items(*self, w);
    }
}

impl<V: Decode> Decode for Vec<V> {
    open spec fn decoding(bytes: Seq<u8>) -> Result<(Seq<V::V>, nat), Error> {
        decode_seq::<V>(bytes)
    }

    fn decode(r: &mut BytesReader) -> (res: Result<Vec<V>, Error>) {
        let ghost rest0 = r.rest();
        proof {
            lemma_pow256_8();
        }
        let n = match read_le(r, 8) {
            Ok(n) => n,
            Err(e) => {
                return Err(e);
            },
        };
        let mut items: Vec<V> = Vec::new();
        let mut i: u64 = 0;
        let ghost mut consumed: nat = 0;
        assert(decode_fixed(rest0, 8) == Ok::<(nat, nat), Error>((n as nat, 8)));
        assert(r.rest() == rest0.skip(8));
        assert(deep_views(items@) =~= Seq::<V::V>::empty());
        assert(after_prefix(Seq::<V::V>::empty(), 0, decode_many::<V>(r.rest(), n as nat))
            =~= decode_many::<V>(r.rest(), n as nat));
        while i < n
            invariant
                r.wf(),
                rest0 == old(r).rest(),
                i <= n,
                8 + consumed <= rest0.len(),
                r.rest() == rest0.skip((8 + consumed) as int),
                decode_seq::<V>(rest0) == after_prefix(
                    Seq::empty(),
                    8,
                    after_prefix(deep_views(items@), consumed, decode_many::<V>(r.rest(), (n - i) as nat)),
                ),
            decreases n - i,
        {
            let ghost before = r.rest();
            match V::decode(r) {
                Ok(x) => {
                    proof {
                        let (v, k) = V::decoding(before).unwrap();
                        let tail = decode_many::<V>(before.skip(k as int), (n - i - 1) as nat);
                        assert(deep_views(items@.push(x)) =~= deep_views(items@).push(v));
                        match tail {
                            Ok((ws, m)) => {
                                assert(deep_views(items@) + (seq![v] + ws) =~= deep_views(items@).push(v) + ws);
                            },
                            Err(_) => {},
                        }
                        assert(rest0.skip((8 + consumed) as int).skip(k as int) =~= rest0.skip((8 + consumed + k) as int));
                        consumed = consumed + k;
                    }
                    items.push(x);
                    i += 1;
                },
                Err(e) => {
                    assert(decode_many::<V>(before, (n - i) as nat) == Err::<(Seq<V::V>, nat), Error>(e));
                    assert(decode_seq::<V>(rest0) == Err::<(Seq<V::V>, nat), Error>(e));
                    return Err(e);
                },
            }
        }
        Ok(items)
    }
}

/// `encode_all` read from the front.
proof fn lemma_encode_all_first<V: Encode>(s: Seq<V>)
    requires
        s.len() > 0,
    ensures
        encode_all(s) == s[0].encoding() + encode_all(s.drop_first()),
    decreases s.len(),
{
    if s.len() > 1 {
        lemma_encode_all_first(s.drop_last());
        assert(s.drop_last().drop_first() == s.drop_first().drop_last());
        assert(s.drop_first().last() == s.last());
        assert(s.drop_last()[0] == s[0]);
        assert(encode_all(s.drop_first()) == encode_all(s.drop_first().drop_last()) + s.last().encoding());
        assert(encode_all(s) =~= s[0].encoding() + encode_all(s.drop_first()));
    } else {
        assert(s.drop_first().len() == 0);
        assert(s.drop_last().len() == 0);
        assert(encode_all(s.drop_last()) =~= Seq::<u8>::empty());
        assert(encode_all(s.drop_first()) =~= Seq::<u8>::empty());
        assert(encode_all(s) =~= s[0].encoding() + encode_all(s.drop_first()));
    }
}

proof fn lemma_decode_many_round_trip<V: RoundTrip>(s: Seq<V>, rest: Seq<u8>)
    requires
        encode_all(s).len() <= usize::MAX,
    ensures
        decode_many::<V>(encode_all(s) + rest, s.len()) == Ok::<(Seq<V::V>, nat), Error>(
            (deep_views(s), encode_all(s).len()),
        ),
    decreases s.len(),
{
    if s.len() == 0 {
        assert(deep_views(s) =~= Seq::<V::V>::empty());
    } else {
        lemma_encode_all_first(s);
        let tail = s.drop_first();
        let e0 = s[0].encoding();
        V::lemma_round_trip(&s[0], encode_all(tail) + rest);
        assert(encode_all(s) + rest == e0 + (encode_all(tail) + rest));
        assert((e0 + (encode_all(tail) + rest)).skip(e0.len() as int) == encode_all(tail) + rest);
        lemma_decode_many_round_trip(tail, rest);
        assert(seq![s[0].deep_view()] + deep_views(tail) =~= deep_views(s));
    }
}

/// A sequence followed by `rest` reads back as the sequence.
pub proof fn lemma_seq_round_trip<V: RoundTrip>(s: Seq<V>, rest: Seq<u8>)
    requires
        s.len() < pow256(8),
        encode_all(s).len() <= usize::MAX,
    ensures
        decode_seq::<V>(encode_seq(s) + rest) == Ok::<(Seq<V::V>, nat), Error>(
            (deep_views(s), encode_seq(s).len()),
        ),
{
    lemma_fixed_round_trip(s.len(), 8, encode_all(s) + rest);
    let bytes = encode_seq(s) + rest;
    assert(bytes == le_bytes(s.len(), 8) + (encode_all(s) + rest));
    assert(bytes.skip(8) == encode_all(s) + rest);
    lemma_decode_many_round_trip(s, rest);
    assert(Seq::<V::V>::empty() + deep_views(s) =~= deep_views(s));
}

impl<V: RoundTrip> RoundTrip for Vec<V> {
    proof fn lemma_round_trip(v: &Vec<V>, rest: Seq<u8>) {
        lemma_pow256_8();
        assert(usize::MAX < pow256(8));
        assert(v.len() == v@.len());
        lemma_le_round_trip(v@.len(), 8);
        lemma_seq_round_trip(v@, rest);
        assert(deep_views(v@) =~= v.deep_view());
    }
}

/// Relies on `std::str::from_utf8`: it accepts exactly the valid UTF-8
/// byte sequences, and the string it returns has those bytes.
#[verifier::external_body]
pub(crate) fn str_from_utf8(b: &[u8]) -> (r: Option<&str>)
    ensures
        r is Some <==> valid_utf8(b@),
        r matches Some(s) ==> s.spec_bytes() == b@,
{
    std::str::from_utf8(b).ok()
}

/// The string bytes as a length-prefixed byte sequence.
pub open spec fn encode_str(chars: Seq<char>) -> Seq<u8> {
    le_bytes(encode_utf8(chars).len(), 8) + encode_utf8(chars)
}

fn encode_str_bytes(s: &str, w: &mut BytesWriter)
    ensures
        final(w)@ == old(w)@ + encode_str(s@),
{
    let b = s.as_bytes();
    write_le(w, b.len() as u64, 8);
    w.write(b);
}

impl<'a> Encode for &'a str {
    open spec fn encoding(&self) -> Seq<u8> {
        encode_str(self@)
    }

    fn encode(&self, w: &mut BytesWriter) {
        encode_str_bytes(*self, w);
    }
}

impl Encode for String {
    open spec fn encoding(&self) -> Seq<u8> {
        encode_str(self@)
    }

    fn encode(&self, w: &mut BytesWriter) {
        encode_str_bytes(self.as_str(), w);
    }
}

impl Decode for String {
    /// A byte count, then that many bytes, which must be valid UTF-8.
    open spec fn decoding(bytes: Seq<u8>) -> Result<(Seq<char>, nat), Error> {
        match decode_fixed(bytes, 8) {
            Err(e) => Err(e),
            Ok((n, _)) => if 8 + n <= bytes.len() {
                let b = bytes.subrange(8, (8 + n) as int);
                if valid_utf8(b) {
                    Ok((decode_utf8(b), 8 + n))
                } else {
                    Err(Error::InvalidFormat(INVALID_UTF8))
                }
            } else {
                Err(Error::NotEnoughBytes)
            },
        }
    }

    fn decode(r: &mut BytesReader) -> (res: Result<String, Error>) {
        let ghost rest0 = r.rest();
        proof {
            lemma_pow256_8();
        }
        let n = match read_le(r, 8) {
            Ok(n) => n,
            Err(e) => {
                return Err(e);
            },
        };
        if n as u128 > r.remaining() as u128 {
            return Err(Error::NotEnoughBytes);
        }
        let b = match r.read(n as usize) {
            Ok(b) => b,
            Err(e) => {
                return Err(e);
            },
        };
        assert(b@ == rest0.subrange(8, 8 + n));
        assert(r.rest() == rest0.skip(8 + n));
        match str_from_utf8(b) {
            Some(s) => {
                let out = s.to_owned();
                Ok(out)
            },
            None => Err(Error::InvalidFormat(INVALID_UTF8)),
        }
    }
}

impl RoundTrip for String {
    proof fn lemma_round_trip(v: &String, rest: Seq<u8>) {
        lemma_pow256_8();
        let b = encode_utf8(v@);
        assert(usize::MAX < pow256(8));
        lemma_fixed_round_trip(b.len(), 8, b + rest);
        let bytes = v.encoding() + rest;
        assert(bytes == le_bytes(b.len(), 8) + (b + rest));
        assert(bytes.subrange(8, (8 + b.len()) as int) == b);
    }
}

} // verus!
