use vstd::prelude::*;
use vstd::string::StringSliceAdditionalSpecFns;
use vstd::utf8::{decode_utf8, encode_utf8};
use vstd::std_specs::slice::into_iter_elts;
use crate::encode::codec::{deep_views, encode_seq};
use crate::encode::{BytesReader, BytesWriter, Decode, Encode, Error as EncodeError};

verus! {

broadcast use vstd::utf8::encode_utf8_decode_utf8;

/// The message of a stored name set that is not sorted.
pub const NAMES_OUT_OF_ORDER: &'static str = "Names out of order";

/// Lexicographic order of byte strings, which is the order of `str`.
pub open spec fn bytes_lt(a: Seq<u8>, b: Seq<u8>) -> bool
    decreases a.len(),
{
    if a.len() == 0 {
        b.len() > 0
    } else if b.len() == 0 {
        false
    } else if a[0] != b[0] {
        a[0] < b[0]
    } else {
        bytes_lt(a.drop_first(), b.drop_first())
    }
}

/// The order of strings: by their UTF-8 bytes.
pub open spec fn name_lt(a: Seq<char>, b: Seq<char>) -> bool {
    bytes_lt(encode_utf8(a), encode_utf8(b))
}

/// Strictly increasing.
pub open spec fn names_sorted(s: Seq<Seq<char>>) -> bool {
    forall|i: int, j: int| 0 <= i < j < s.len() ==> name_lt(#[trigger] s[i], #[trigger] s[j])
}

pub proof fn lemma_bytes_lt_irreflexive(a: Seq<u8>)
    ensures
        !bytes_lt(a, a),
    decreases a.len(),
{
    if a.len() > 0 {
        lemma_bytes_lt_irreflexive(a.drop_first());
    }
}

pub proof fn lemma_bytes_lt_total(a: Seq<u8>, b: Seq<u8>)
    requires
        a != b,
    ensures
        bytes_lt(a, b) || bytes_lt(b, a),
    decreases a.len(),
{
    if a.len() > 0 && b.len() > 0 && a[0] == b[0] {
        assert(a.drop_first() != b.drop_first()) by {
            if a.drop_first() == b.drop_first() {
                assert(a =~= seq![a[0]] + a.drop_first());
                assert(b =~= seq![b[0]] + b.drop_first());
            }
        }
        lemma_bytes_lt_total(a.drop_first(), b.drop_first());
    } else if a.len() == 0 && b.len() == 0 {
        assert(a =~= b);
    }
}

pub proof fn lemma_bytes_lt_transitive(a: Seq<u8>, b: Seq<u8>, c: Seq<u8>)
    requires
        bytes_lt(a, b),
        bytes_lt(b, c),
    ensures
        bytes_lt(a, c),
    decreases a.len(),
{
    if a.len() > 0 && b.len() > 0 && c.len() > 0 && a[0] == b[0] && b[0] == c[0] {
        lemma_bytes_lt_transitive(a.drop_first(), b.drop_first(), c.drop_first());
    }
}

/// Whether `a` comes before `b` byte-wise.
fn bytes_less(a: &[u8], b: &[u8]) -> (r: bool)
    ensures
        r == bytes_lt(a@, b@),
{
    let mut i: usize = 0;
    assert(a@.skip(0) == a@);
    assert(b@.skip(0) == b@);
    while i < a.len() && i < b.len()
        invariant
            i <= a@.len(),
            i <= b@.len(),
            bytes_lt(a@, b@) == bytes_lt(a@.skip(i as int), b@.skip(i as int)),
        decreases a@.len() - i,
    {
        if a[i] != b[i] {
            return a[i] < b[i];
        }
        assert(a@.skip(i as int).drop_first() == a@.skip(i + 1));
        assert(b@.skip(i as int).drop_first() == b@.skip(i + 1));
        i += 1;
    }
    i == a.len() && i < b.len()
}

/// Whether `names` is sorted without repeats.
fn names_in_order(names: &Vec<String>) -> (r: bool)
    ensures
        r == names_sorted(deep_views(names@)),
{
    let ghost v = deep_views(names@);
    let mut k: usize = 1;
    if names.len() == 0 {
        assert(names_sorted(v));
        return true;
    }
    while k < names.len()
        invariant
            1 <= k <= names@.len(),
            v == deep_views(names@),
            names_sorted(v.take(k as int)),
        decreases names@.len() - k,
    {
        let a = names[k - 1].as_str().as_bytes();
        let b = names[k].as_str().as_bytes();
        assert(v[k - 1] == names@[k - 1]@);
        assert(v[k as int] == names@[k as int]@);
        if !bytes_less(a, b) {
            proof {
                assert(!names_sorted(v)) by {
                    if names_sorted(v) {
                        assert(name_lt(v[k - 1], v[k as int]));
                    }
                }
            }
            return false;
        }
        proof {
            let p = v.take(k + 1);
            assert forall|x: int, y: int| 0 <= x < y < p.len() implies name_lt(#[trigger] p[x], #[trigger] p[y]) by {
                if y < k {
                    assert(v.take(k as int)[x] == p[x]);
                    assert(v.take(k as int)[y] == p[y]);
                } else if x < k - 1 {
                    assert(v.take(k as int)[x] == p[x]);
                    assert(v.take(k as int)[k - 1] == p[k - 1]);
                    lemma_bytes_lt_transitive(encode_utf8(p[x]), encode_utf8(p[k - 1]), encode_utf8(p[y]));
                }
            }
        }
        k += 1;
    }
    assert(v.take(v.len() as int) == v);
    true
}

/// A set of names kept sorted, without repeats.
#[derive(Debug, PartialEq, Eq)]
pub struct DatabaseNameSet {
    names: Vec<String>,
}

impl View for DatabaseNameSet {
    type V = Seq<Seq<char>>;

    closed spec fn view(&self) -> Seq<Seq<char>> {
        deep_views(self.names@)
    }
}

impl DatabaseNameSet {
    pub open spec fn wf(&self) -> bool {
        names_sorted(self@)
    }

    /// The bytes of the set: the names as a sequence of strings.
    pub closed spec fn encoding(&self) -> Seq<u8> {
        encode_seq(self.names@)
    }

    pub fn new() -> (r: DatabaseNameSet)
        ensures
            r.wf(),
            r@ == Seq::<Seq<char>>::empty(),
    {
        let r = DatabaseNameSet { names: Vec::new() };
        assert(r@ =~= Seq::<Seq<char>>::empty());
        r
    }

    /// Adds `name` in its place in the order, unless it is there.
    pub fn insert(&mut self, name: &str)
        requires
            old(self).wf(),
        ensures
            final(self).wf(),
            final(self)@.to_set() == old(self)@.to_set().insert(name@),
    {
        let nb = name.as_bytes();
        let mut i: usize = 0;
        while i < self.names.len()
            invariant
                self == old(self),
                self.wf(),
                i <= self@.len(),
                nb@ == encode_utf8(name@),
                forall|j: int| 0 <= j < i ==> name_lt(#[trigger] self@[j], name@),
            ensures
                self == old(self),
                self.wf(),
                i <= self@.len(),
                forall|j: int| 0 <= j < i ==> name_lt(#[trigger] self@[j], name@),
                i < self@.len() ==> name_lt(name@, self@[i as int]),
            decreases self@.len() - i,
        {
            let cur = self.names[i].as_str().as_bytes();
            assert(self@[i as int] == self.names@[i as int]@);
            if !bytes_less(cur, nb) {
                if bytes_less(nb, cur) {
                    break;
                }
                proof {
                    if cur@ != nb@ {
                        lemma_bytes_lt_total(cur@, nb@);
                    }
                    assert(encode_utf8(self@[i as int]) == encode_utf8(name@));
                    assert(decode_utf8(encode_utf8(self@[i as int])) == self@[i as int]);
                    assert(decode_utf8(encode_utf8(name@)) == name@);
                    assert(self@[i as int] == name@);
                    assert(self@.contains(name@));
                    assert(self@.to_set().insert(name@) =~= self@.to_set());
                }
                return;
            }
            i += 1;
        }
        let ghost old_view = self@;
        self.names.insert(i, name.to_string());
        proof {
            assert(self@ =~= old_view.insert(i as int, name@));
            assert forall|a: int, b: int| 0 <= a < b < self@.len() implies name_lt(#[trigger] self@[a], #[trigger] self@[b]) by {
                if a < i && b == i {
                } else if a == i && b > i {
                    if b > i + 1 {
                        lemma_bytes_lt_transitive(encode_utf8(name@), encode_utf8(old_view[i as int]), encode_utf8(old_view[b - 1]));
                    }
                } else if a < i && b > i {
                    assert(name_lt(old_view[a], old_view[b - 1]));
                } else if b < i {
                } else {
                    assert(name_lt(old_view[a - 1], old_view[b - 1]));
                }
            }
            assert(self@.to_set() =~= old_view.to_set().insert(name@)) by {
                assert forall|x: Seq<char>| self@.to_set().contains(x) == old_view.to_set().insert(name@).contains(x) by {
                    if self@.contains(x) {
                        let m = choose|m: int| 0 <= m < self@.len() && self@[m] == x;
                        if m < i {
                            assert(old_view[m] == x);
                        } else if m > i {
                            assert(old_view[m - 1] == x);
                        }
                    }
                    if old_view.contains(x) {
                        let m = choose|m: int| 0 <= m < old_view.len() && old_view[m] == x;
                        if m < i {
                            assert(self@[m] == x);
                        } else {
                            assert(self@[m + 1] == x);
                        }
                    }
                    if x == name@ {
                        assert(self@[i as int] == x);
                    }
                }
            }
        }
    }

    /// The names in order.
    pub fn iter(&self) -> (r: std::slice::Iter<'_, String>)
        ensures
            deep_views(into_iter_elts(r)) == self@,
    {
        let r = self.names.as_slice().iter();
        proof {
            broadcast use vstd::std_specs::slice::axiom_spec_slice_iter;
            assert(into_iter_elts(r) == vstd::std_specs::iter::IteratorSpec::remaining(&r).unref());
            assert(into_iter_elts(r) =~= self.names@);
        }
        r
    }

    pub fn encode(&self, w: &mut BytesWriter)
        ensures
            final(w)@ == old(w)@ + self.encoding(),
    {
        self.names.encode(w);
    }

    /// What reading a name set from the front of `bytes` gives: a sequence
    /// of strings, which must be sorted without repeats.
    pub open spec fn decoding(bytes: Seq<u8>) -> Result<(Seq<Seq<char>>, nat), EncodeError> {
        match <Vec<String> as Decode>::decoding(bytes) {
            Ok((names, n)) => if names_sorted(names) {
                Ok((names, n))
            } else {
                Err(EncodeError::InvalidFormat(NAMES_OUT_OF_ORDER))
            },
            Err(e) => Err(e),
        }
    }

    pub fn decode(r: &mut BytesReader) -> (res: Result<DatabaseNameSet, EncodeError>)
        requires
            old(r).wf(),
        ensures
            final(r).wf(),
            match Self::decoding(old(r).rest()) {
                Ok((v, n)) => {
                    &&& res is Ok
                    &&& res->Ok_0@ == v
                    &&& res->Ok_0.wf()
                    &&& n <= old(r).rest().len()
                    &&& final(r).rest() == old(r).rest().skip(n as int)
                },
                Err(e) => res == Err::<DatabaseNameSet, EncodeError>(e),
            },
    {
        let names = match Vec::<String>::decode(r) {
            Ok(names) => names,
            Err(e) => {
                return Err(e);
            },
        };
        if !names_in_order(&names) {
            return Err(EncodeError::InvalidFormat(NAMES_OUT_OF_ORDER));
        }
        let set = DatabaseNameSet { names };
        assert(set@ =~= names.deep_view());
        Ok(set)
    }
}

} // verus!
