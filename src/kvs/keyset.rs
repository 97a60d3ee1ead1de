use vstd::prelude::*;
use crate::kvs::key::bytes_eq;

verus! {

/// Whether two key sets share a key within the same keyspace.
pub open spec fn sets_overlap(a: Map<u64, Seq<Seq<u8>>>, b: Map<u64, Seq<Seq<u8>>>) -> bool {
    exists|ks: u64, k: Seq<u8>|
        a.contains_key(ks) && b.contains_key(ks) && #[trigger] a[ks].contains(k) && #[trigger] b[ks].contains(k)
}

/// The keys of `ks` in `m`, in the order they were added.
pub open spec fn keys_in(m: Map<u64, Seq<Seq<u8>>>, ks: u64) -> Seq<Seq<u8>> {
    if m.contains_key(ks) {
        m[ks]
    } else {
        Seq::empty()
    }
}

/// The byte strings of `keys`.
pub open spec fn byte_keys(keys: Seq<Vec<u8>>) -> Seq<Seq<u8>> {
    keys.map_values(|k: Vec<u8>| k@)
}

/// `m` after adding `key` to keyspace `ks`.
pub open spec fn with_key(m: Map<u64, Seq<Seq<u8>>>, ks: u64, key: Seq<u8>) -> Map<u64, Seq<Seq<u8>>> {
    if keys_in(m, ks).contains(key) {
        m
    } else {
        m.insert(ks, keys_in(m, ks).push(key))
    }
}

struct Partition {
    keyspace_id: u64,
    keys: Vec<Vec<u8>>,
}

impl Partition {
    spec fn key_views(&self) -> Seq<Seq<u8>> {
        byte_keys(self.keys@)
    }
}

/// A set of keys partitioned by keyspace. Each keyspace keeps its keys in
/// the order they were first added.
pub struct KeySet {
    parts: Vec<Partition>,
}

impl View for KeySet {
    type V = Map<u64, Seq<Seq<u8>>>;

    closed spec fn view(&self) -> Map<u64, Seq<Seq<u8>>> {
        Map::new(
            |ks: u64| exists|i: int| 0 <= i < self.parts@.len() && self.parts@[i].keyspace_id == ks,
            |ks: u64|
                self.parts@[choose|i: int|
                    0 <= i < self.parts@.len() && self.parts@[i].keyspace_id == ks].key_views(),
        )
    }
}

impl KeySet {
    /// The keyspaces in the order their first key was added.
    pub closed spec fn order(&self) -> Seq<u64> {
        self.parts@.map_values(|p: Partition| p.keyspace_id)
    }

    pub closed spec fn wf(&self) -> bool {
        &&& forall|i: int, j: int|
            0 <= i < self.parts@.len() && 0 <= j < self.parts@.len() && #[trigger] self.parts@[i].keyspace_id
                == #[trigger] self.parts@[j].keyspace_id ==> i == j
    }

    proof fn lemma_part(&self, i: int)
        requires
            self.wf(),
            0 <= i < self.parts@.len(),
        ensures
            self@.contains_key(self.parts@[i].keyspace_id),
            self@[self.parts@[i].keyspace_id] == self.parts@[i].key_views(),
            self.parts@[i].key_views() == byte_keys(self.parts@[i].keys@),
    {
        let ks = self.parts@[i].keyspace_id;
        let j = choose|j: int| 0 <= j < self.parts@.len() && self.parts@[j].keyspace_id == ks;
        assert(self.parts@[j].keyspace_id == self.parts@[i].keyspace_id);
    }

    pub proof fn lemma_order(&self)
        requires
            self.wf(),
        ensures
            self.order().no_duplicates(),
            forall|ks: u64| #[trigger] self@.contains_key(ks) <==> self.order().contains(ks),
    {
        assert forall|ks: u64| #[trigger] self@.contains_key(ks) <==> self.order().contains(ks) by {
            if self@.contains_key(ks) {
                let j = choose|j: int| 0 <= j < self.parts@.len() && self.parts@[j].keyspace_id == ks;
                assert(self.order()[j] == ks);
            }
            if self.order().contains(ks) {
                let j = choose|j: int| 0 <= j < self.order().len() && self.order()[j] == ks;
                assert(self.parts@[j].keyspace_id == ks);
            }
        }
        assert forall|i: int, j: int| 0 <= i < self.order().len() && 0 <= j < self.order().len() && i != j implies self.order()[i] != self.order()[j] by {
            assert(self.order()[i] == self.parts@[i].keyspace_id);
            assert(self.order()[j] == self.parts@[j].keyspace_id);
        }
    }

    pub fn new() -> (r: KeySet)
        ensures
            r.wf(),
            r@ == Map::<u64, Seq<Seq<u8>>>::empty(),
            r.order() == Seq::<u64>::empty(),
    {
        let r = KeySet { parts: Vec::new() };
        assert(r@ =~= Map::<u64, Seq<Seq<u8>>>::empty());
        assert(r.order() =~= Seq::<u64>::empty());
        r
    }

    /// The number of keyspaces with keys.
    pub fn num_keyspaces(&self) -> (r: usize)
        ensures
            r == self.order().len(),
    {
        self.parts.len()
    }

    /// The `i`-th keyspace with keys, and its keys.
    pub fn keyspace_keys(&self, i: usize) -> (r: (u64, &Vec<Vec<u8>>))
        requires
            self.wf(),
            i < self.order().len(),
        ensures
            r.0 == self.order()[i as int],
            self@.contains_key(r.0),
            byte_keys(r.1@) == self@[r.0],
    {
        proof {
            self.lemma_part(i as int);
        }
        (self.parts[i].keyspace_id, &self.parts[i].keys)
    }

    /// Calls `f` on each keyspace with keys, in order, with its keys.
    pub fn for_each_keyspace_keys<F: Fn(u64, &Vec<Vec<u8>>)>(&self, f: F)
        requires
            self.wf(),
            forall|ks: u64, keys: &Vec<Vec<u8>>| #[trigger] f.requires((ks, keys)),
    {
        let mut i: usize = 0;
        while i < self.parts.len()
            invariant
                self.wf(),
                forall|ks: u64, keys: &Vec<Vec<u8>>| #[trigger] f.requires((ks, keys)),
            decreases self.parts@.len() - i,
        {
            f(self.parts[i].keyspace_id, &self.parts[i].keys);
            i += 1;
        }
    }

    /// Adds `key` to keyspace `keyspace_id`.
    pub fn add_key(&mut self, keyspace_id: u64, key: &Vec<u8>)
        requires
            old(self).wf(),
        ensures
            final(self).wf(),
            final(self)@ == with_key(old(self)@, keyspace_id, key@),
    {
        let mut i: usize = 0;
        while i < self.parts.len()
            invariant
                self.wf(),
                self == old(self),
                i <= self.parts@.len(),
                forall|j: int| 0 <= j < i ==> self.parts@[j].keyspace_id != keyspace_id,
            decreases self.parts@.len() - i,
        {
            if self.parts[i].keyspace_id == keyspace_id {
                proof {
                    self.lemma_part(i as int);
                }
                let mut j: usize = 0;
                let n = self.parts[i].keys.len();
                while j < n
                    invariant
                        self.wf(),
                        self == old(self),
                        self.parts@[i as int].keyspace_id == keyspace_id,
                        i < self.parts@.len(),
                        n == self.parts@[i as int].keys@.len(),
                        j <= n,
                        forall|m: int| 0 <= m < j ==> self.parts@[i as int].keys@[m]@ != key@,
                    decreases n - j,
                {
                    if bytes_eq(self.parts[i].keys[j].as_slice(), key.as_slice()) {
                        proof {
                            self.lemma_part(i as int);
                            assert(self.parts@[i as int].key_views()[j as int] == key@);
                            assert(keys_in(old(self)@, keyspace_id).contains(key@));
                        }
                        return;
                    }
                    j += 1;
                }
                assert(!self.parts@[i as int].key_views().contains(key@)) by {
                    if self.parts@[i as int].key_views().contains(key@) {
                        let m = choose|m: int| 0 <= m < self.parts@[i as int].key_views().len() && self.parts@[i as int].key_views()[m] == key@;
                        assert(self.parts@[i as int].keys@[m]@ == key@);
                    }
                }
                let mut p = self.parts.remove(i);
                p.keys.push(key.clone());
                self.parts.insert(i, p);
                proof {
                    let ks = keyspace_id;
                    assert(self.parts@[i as int].key_views() =~= old(self).parts@[i as int].key_views().push(key@));
                    assert forall|a: int| 0 <= a < self.parts@.len() && a != i implies self.parts@[a] == old(self).parts@[a] by {}
                    self.lemma_part(i as int);
                    assert forall|k: u64| #[trigger] self@.contains_key(k) == old(self)@.insert(ks, old(self)@[ks].push(key@)).contains_key(k) by {
                        if old(self)@.contains_key(k) {
                            let a = choose|a: int| 0 <= a < old(self).parts@.len() && old(self).parts@[a].keyspace_id == k;
                            assert(self.parts@[a].keyspace_id == k);
                        }
                        if self@.contains_key(k) {
                            let a = choose|a: int| 0 <= a < self.parts@.len() && self.parts@[a].keyspace_id == k;
                            assert(old(self).parts@[a].keyspace_id == k);
                        }
                    }
                    assert forall|k: u64| #[trigger] self@.contains_key(k) implies self@[k] == old(self)@.insert(ks, old(self)@[ks].push(key@))[k] by {
                        let a = choose|a: int| 0 <= a < self.parts@.len() && self.parts@[a].keyspace_id == k;
                        self.lemma_part(a);
                        old(self).lemma_part(a);
                    }
                    assert(self@ =~= old(self)@.insert(ks, old(self)@[ks].push(key@)));
                }
                return;
            }
            i += 1;
        }
        assert(!old(self)@.contains_key(keyspace_id));
        let mut keys: Vec<Vec<u8>> = Vec::new();
        keys.push(key.clone());
        let ghost n = self.parts@.len() as int;
        self.parts.push(Partition { keyspace_id, keys });
        proof {
            let ks = keyspace_id;
            assert(self.parts@[n].key_views() =~= seq![key@]);
            assert(Seq::<Seq<u8>>::empty().push(key@) =~= seq![key@]);
            self.lemma_part(n);
            assert forall|k: u64| #[trigger] self@.contains_key(k) == old(self)@.insert(ks, seq![key@]).contains_key(k) by {
                if old(self)@.contains_key(k) {
                    let a = choose|a: int| 0 <= a < old(self).parts@.len() && old(self).parts@[a].keyspace_id == k;
                    assert(self.parts@[a].keyspace_id == k);
                }
                if self@.contains_key(k) && k != ks {
                    let a = choose|a: int| 0 <= a < self.parts@.len() && self.parts@[a].keyspace_id == k;
                    assert(old(self).parts@[a].keyspace_id == k);
                }
            }
            assert forall|k: u64| #[trigger] self@.contains_key(k) implies self@[k] == old(self)@.insert(ks, seq![key@])[k] by {
                let a = choose|a: int| 0 <= a < self.parts@.len() && self.parts@[a].keyspace_id == k;
                self.lemma_part(a);
                if a < n {
                    old(self).lemma_part(a);
                }
            }
            assert(self@ =~= old(self)@.insert(ks, seq![key@]));
        }
    }

    /// A copy of the set.
    pub fn copy(&self) -> (r: KeySet)
        requires
            self.wf(),
        ensures
            r.wf(),
            r@ == self@,
            r.order() == self.order(),
    {
        let mut parts: Vec<Partition> = Vec::new();
        let mut i: usize = 0;
        while i < self.parts.len()
            invariant
                i <= self.parts@.len(),
                parts@.len() == i,
                forall|j: int| 0 <= j < i ==> #[trigger] parts@[j].keyspace_id == self.parts@[j].keyspace_id
                    && parts@[j].key_views() == self.parts@[j].key_views(),
            decreases self.parts@.len() - i,
        {
            let mut keys: Vec<Vec<u8>> = Vec::new();
            let mut j: usize = 0;
            while j < self.parts[i].keys.len()
                invariant
                    i < self.parts@.len(),
                    j <= self.parts@[i as int].keys@.len(),
                    keys@.len() == j,
                    forall|m: int| 0 <= m < j ==> #[trigger] keys@[m]@ == self.parts@[i as int].keys@[m]@,
                decreases self.parts@[i as int].keys@.len() - j,
            {
                keys.push(self.parts[i].keys[j].clone());
                j += 1;
            }
            let p = Partition { keyspace_id: self.parts[i].keyspace_id, keys };
            assert(p.key_views() =~= self.parts@[i as int].key_views());
            parts.push(p);
            i += 1;
        }
        let r = KeySet { parts };
        assert(r.order() =~= self.order());
        assert forall|k: u64| #[trigger] r@.contains_key(k) == self@.contains_key(k) by {
            if r@.contains_key(k) {
                let a = choose|a: int| 0 <= a < r.parts@.len() && r.parts@[a].keyspace_id == k;
                assert(self.parts@[a].keyspace_id == k);
            }
            if self@.contains_key(k) {
                let a = choose|a: int| 0 <= a < self.parts@.len() && self.parts@[a].keyspace_id == k;
                assert(r.parts@[a].keyspace_id == k);
            }
        }
        assert(r.wf()) by {
            assert forall|a: int, b: int|
                0 <= a < r.parts@.len() && 0 <= b < r.parts@.len() && #[trigger] r.parts@[a].keyspace_id
                    == #[trigger] r.parts@[b].keyspace_id implies a == b by {
                assert(self.parts@[a].keyspace_id == self.parts@[b].keyspace_id);
            }
        }
        assert forall|k: u64| #[trigger] r@.contains_key(k) implies r@[k] == self@[k] by {
            let a = choose|a: int| 0 <= a < r.parts@.len() && r.parts@[a].keyspace_id == k;
            r.lemma_part(a);
            self.lemma_part(a);
        }
        assert(r@ =~= self@);
        r
    }

    /// Whether keyspace `keyspace_id` holds `key`.
    pub fn contains_key(&self, keyspace_id: u64, key: &[u8]) -> (r: bool)
        requires
            self.wf(),
        ensures
            r == keys_in(self@, keyspace_id).contains(key@),
    {
        let mut i: usize = 0;
        while i < self.parts.len()
            invariant
                self.wf(),
                i <= self.parts@.len(),
                forall|j: int| 0 <= j < i ==> self.parts@[j].keyspace_id != keyspace_id,
            decreases self.parts@.len() - i,
        {
            if self.parts[i].keyspace_id == keyspace_id {
                proof {
                    self.lemma_part(i as int);
                }
                let mut j: usize = 0;
                while j < self.parts[i].keys.len()
                    invariant
                        self.wf(),
                        self.parts@[i as int].keyspace_id == keyspace_id,
                        i < self.parts@.len(),
                        j <= self.parts@[i as int].keys@.len(),
                        forall|m: int| 0 <= m < j ==> self.parts@[i as int].keys@[m]@ != key@,
                    decreases self.parts@[i as int].keys@.len() - j,
                {
                    if bytes_eq(self.parts[i].keys[j].as_slice(), key) {
                        proof {
                            self.lemma_part(i as int);
                            assert(self.parts@[i as int].key_views()[j as int] == key@);
                        }
                        return true;
                    }
                    j += 1;
                }
                assert(!self.parts@[i as int].key_views().contains(key@)) by {
                    if self.parts@[i as int].key_views().contains(key@) {
                        let m = choose|m: int| 0 <= m < self.parts@[i as int].key_views().len() && self.parts@[i as int].key_views()[m] == key@;
                        assert(self.parts@[i as int].keys@[m]@ == key@);
                    }
                }
                return false;
            }
            i += 1;
        }
        assert(!self@.contains_key(keyspace_id));
        false
    }

    /// Whether the two sets share a key within the same keyspace.
    pub fn overlaps(&self, other: &KeySet) -> (r: bool)
        requires
            self.wf(),
            other.wf(),
        ensures
            r == sets_overlap(self@, other@),
    {
        let mut i: usize = 0;
        while i < self.parts.len()
            invariant
                self.wf(),
                other.wf(),
                i <= self.parts@.len(),
                forall|a: int, k: Seq<u8>| 0 <= a < i ==> !(#[trigger] self.parts@[a].key_views().contains(k) && keys_in(other@, self.parts@[a].keyspace_id).contains(k)),
            decreases self.parts@.len() - i,
        {
            let ks = self.parts[i].keyspace_id;
            let mut j: usize = 0;
            while j < self.parts[i].keys.len()
                invariant
                    self.wf(),
                    other.wf(),
                    i < self.parts@.len(),
                    ks == self.parts@[i as int].keyspace_id,
                    j <= self.parts@[i as int].keys@.len(),
                    forall|m: int| 0 <= m < j ==> !keys_in(other@, ks).contains(#[trigger] self.parts@[i as int].keys@[m]@),
                decreases self.parts@[i as int].keys@.len() - j,
            {
                if other.contains_key(ks, self.parts[i].keys[j].as_slice()) {
                    proof {
                        self.lemma_part(i as int);
                        let k = self.parts@[i as int].keys@[j as int]@;
                        assert(self@[ks][j as int] == k);
                        assert(self@[ks].contains(k));
                        assert(other@[ks].contains(k));
                    }
                    return true;
                }
                j += 1;
            }
            proof {
                assert forall|k: Seq<u8>| #[trigger] self.parts@[i as int].key_views().contains(k) implies !keys_in(other@, ks).contains(k) by {
                    let m = choose|m: int| 0 <= m < self.parts@[i as int].key_views().len() && self.parts@[i as int].key_views()[m] == k;
                    assert(self.parts@[i as int].keys@[m]@ == k);
                }
            }
            i += 1;
        }
        proof {
            if sets_overlap(self@, other@) {
                let (ks, k) = choose|ks: u64, k: Seq<u8>| self@.contains_key(ks) && other@.contains_key(ks) && #[trigger] self@[ks].contains(k) && #[trigger] other@[ks].contains(k);
                let a = choose|a: int| 0 <= a < self.parts@.len() && self.parts@[a].keyspace_id == ks;
                self.lemma_part(a);
                assert(self.parts@[a].key_views().contains(k));
            }
        }
        false
    }
}

} // verus!
