use vstd::prelude::*;
use crate::encode::Encode;

verus! {

/// A key of the store. Keys are compared by their encoding: two keys with
/// the same bytes are the same key.
pub trait Key: Encode {
}

impl<'a> Key for &'a str {
}

impl<'a> Key for &'a [u8] {
}

impl Key for String {
}

impl Key for Vec<u8> {
}

impl Key for u64 {
}

/// Byte-exact equality of two keys.
pub fn bytes_eq(a: &[u8], b: &[u8]) -> (r: bool)
    ensures
        r == (a@ == b@),
{
    if a.len() != b.len() {
        return false;
    }
    let mut i: usize = 0;
    while i < a.len()
        invariant
            i <= a@.len() == b@.len(),
            a@.take(i as int) == b@.take(i as int),
        decreases a@.len() - i,
    {
        if a[i] != b[i] {
            assert(a@[i as int] != b@[i as int]);
            return false;
        }
        assert(a@.take(i + 1) == a@.take(i as int).push(a@[i as int]));
        assert(b@.take(i + 1) == b@.take(i as int).push(b@[i as int]));
        i += 1;
    }
    assert(a@ == a@.take(i as int));
    assert(b@ == b@.take(i as int));
    true
}

/// The encoding of `key`, as the store compares it.
pub fn key_bytes<K: Key>(key: &K) -> (r: Vec<u8>)
    ensures
        r@ == key.encoding(),
{
    let mut w = crate::encode::BytesWriter::new(Vec::new());
    key.encode(&mut w);
    let r = w.into_bytes();
    assert(r@ =~= key.encoding());
    r
}

} // verus!
