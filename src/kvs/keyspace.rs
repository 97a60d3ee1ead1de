use vstd::prelude::*;
use crate::encode::{Decode, Encode};
use crate::kvs::error::Error;
use crate::kvs::key::bytes_eq;
use crate::kvs::keyset::byte_keys;
use crate::kvs::txn::TxnId;
use crate::kvs::version::{
    abort_version, after_read, append_next, chains_wf, commit_version, decodes_as, first_visible,
    lemma_commit_version_shape, lemma_first_visible_in_range,
    read_chain, uncommitted,
    Version, VersionId, VersionTable, VersionView, WriteLock,
};

verus! {

/// Identifies a keyspace. The store tells keyspaces apart by `id`.
pub trait KeySpaceId: Copy {
    spec fn spec_id(&self) -> u64;

    fn id(&self) -> (r: u64)
        ensures
            r == self.spec_id(),
    ;
}

impl KeySpaceId for usize {
    open spec fn spec_id(&self) -> u64 {
        *self as u64
    }

    fn id(&self) -> (r: u64) {
        *self as u64
    }
}

impl KeySpaceId for u64 {
    open spec fn spec_id(&self) -> u64 {
        *self
    }

    fn id(&self) -> (r: u64) {
        *self
    }
}

/// The state of a keyspace: the head version of each key, and all versions.
pub struct KeySpaceView {
    pub heads: Map<Seq<u8>, VersionId>,
    pub versions: Seq<VersionView>,
}

impl KeySpaceView {
    pub open spec fn wf(self) -> bool {
        &&& chains_wf(self.versions)
        &&& forall|k: Seq<u8>| #[trigger] self.heads.contains_key(k) ==> self.heads[k] < self.versions.len()
    }

    /// What `t` reads under `key`: `None` where the key has no visible
    /// value.
    pub open spec fn read(self, t: TxnId, key: Seq<u8>) -> Option<Seq<u8>> {
        if self.heads.contains_key(key) {
            read_chain(self.versions, self.heads[key] as int, t)
        } else {
            None
        }
    }

    /// The keyspace after `t` has read `key`.
    pub open spec fn after_read(self, t: TxnId, key: Seq<u8>) -> KeySpaceView {
        if self.heads.contains_key(key) {
            KeySpaceView { versions: after_read(self.versions, self.heads[key] as int, t), ..self }
        } else {
            self
        }
    }

    /// A write of `payload` (`None`: a delete) under `key` by `t`, and what
    /// it returns.
    pub open spec fn upsert(self, t: TxnId, key: Seq<u8>, payload: Option<Seq<u8>>) -> (KeySpaceView, Result<(), Error>) {
        if self.heads.contains_key(key) {
            let (vs, res) = append_next(self.versions, t, self.heads[key] as int, payload);
            match res {
                Ok(id) => (KeySpaceView { heads: self.heads.insert(key, id), versions: vs }, Ok(())),
                Err(e) => (self, Err(e)),
            }
        } else {
            (
                KeySpaceView {
                    heads: self.heads.insert(key, self.versions.len() as VersionId),
                    versions: self.versions.push(uncommitted(t, None, payload)),
                },
                Ok(()),
            )
        }
    }

    /// Commits the head version of `key`.
    pub open spec fn commit_key(self, key: Seq<u8>, commit_ts: TxnId) -> KeySpaceView {
        if self.heads.contains_key(key) {
            KeySpaceView { versions: commit_version(self.versions, self.heads[key] as int, commit_ts), ..self }
        } else {
            self
        }
    }

    /// Rolls `key` back from an uncommitted head to its predecessor, or
    /// removes the key where the head has none. A committed head stays.
    pub open spec fn abort_key(self, key: Seq<u8>) -> KeySpaceView {
        if self.heads.contains_key(key) && self.versions[self.heads[key] as int].visibility is OnlyTxn {
            let h = self.heads[key] as int;
            KeySpaceView {
                heads: match self.versions[h].previous {
                    Some(p) => self.heads.insert(key, p),
                    None => self.heads.remove(key),
                },
                versions: abort_version(self.versions, h),
            }
        } else {
            self
        }
    }

    pub open spec fn commit_keys(self, keys: Seq<Seq<u8>>, commit_ts: TxnId) -> KeySpaceView
        decreases keys.len(),
    {
        if keys.len() == 0 {
            self
        } else {
            self.commit_keys(keys.drop_last(), commit_ts).commit_key(keys.last(), commit_ts)
        }
    }

    pub open spec fn abort_keys(self, keys: Seq<Seq<u8>>) -> KeySpaceView
        decreases keys.len(),
    {
        if keys.len() == 0 {
            self
        } else {
            self.abort_keys(keys.drop_last()).abort_key(keys.last())
        }
    }
}

/// Once `t1` has written `key`, a write of `key` by another transaction
/// fails with `WriteWriteConflict`, or with `ReadWriteConflict` where a
/// later transaction read the version: two concurrent writes of a key
/// cannot both succeed.
pub proof fn lemma_keyspace_no_lost_update(
    ks: KeySpaceView,
    t1: TxnId,
    t2: TxnId,
    key: Seq<u8>,
    p1: Option<Seq<u8>>,
    p2: Option<Seq<u8>>,
)
    requires
        ks.wf(),
        ks.versions.len() <= usize::MAX,
        t1 != t2,
        ks.upsert(t1, key, p1).1 is Ok,
    ensures
        ({
            let r = ks.upsert(t1, key, p1).0.upsert(t2, key, p2).1;
            r == Err::<(), Error>(Error::WriteWriteConflict) || r == Err::<(), Error>(Error::ReadWriteConflict)
        }),
{
    let ks1 = ks.upsert(t1, key, p1).0;
    lemma_upsert_head(ks, t1, key, p1);
    assert(ks1.heads.contains_key(key));
}

/// After a successful write of `key` by `t`, the head of `key` is a version
/// locked by `t`, holding the written bytes (a tombstone for a delete), that
/// no later transaction has read; the write added at most one version.
pub proof fn lemma_upsert_head(ks: KeySpaceView, t: TxnId, key: Seq<u8>, payload: Option<Seq<u8>>)
    requires
        ks.wf(),
        ks.versions.len() <= usize::MAX,
        ks.upsert(t, key, payload).1 is Ok,
    ensures
        ({
            let ks1 = ks.upsert(t, key, payload).0;
            &&& ks1.wf()
            &&& ks1.heads.contains_key(key)
            &&& ks1.versions[ks1.heads[key] as int].write_lock == WriteLock::Locked(t)
            &&& ks1.versions[ks1.heads[key] as int].read_ts <= t
            &&& ks1.versions[ks1.heads[key] as int].deleted == (payload is None)
            &&& payload matches Some(b) ==> ks1.versions[ks1.heads[key] as int].value == b
            &&& ks1.versions.len() <= ks.versions.len() + 1
        }),
{
    let ks1 = ks.upsert(t, key, payload).0;
    if ks.heads.contains_key(key) {
        let h = ks.heads[key] as int;
        let e = ks.versions[h];
        match e.write_lock {
            WriteLock::Unlocked => {
                assert(ks1.versions[ks1.heads[key] as int] == uncommitted(t, Some(h as VersionId), payload));
                assert forall|i: int| 0 <= i < ks1.versions.len() implies match #[trigger] ks1.versions[i].previous {
                    Some(p) => p < i,
                    None => true,
                } by {
                    if i < ks.versions.len() {
                        assert(ks1.versions[i].previous == ks.versions[i].previous);
                    }
                }
            },
            WriteLock::Locked(l) => {
                assert(l == t);
                assert forall|i: int| 0 <= i < ks1.versions.len() implies match #[trigger] ks1.versions[i].previous {
                    Some(p) => p < i,
                    None => true,
                } by {
                    assert(ks1.versions[i].previous == ks.versions[i].previous);
                }
            },
        }
    } else {
        assert forall|i: int| 0 <= i < ks1.versions.len() implies match #[trigger] ks1.versions[i].previous {
            Some(p) => p < i,
            None => true,
        } by {
            if i < ks.versions.len() {
                assert(ks1.versions[i].previous == ks.versions[i].previous);
            }
        }
    }
}

/// Writes of one key by one transaction grow its chain by at most one
/// version: after a successful write, a second write of the key by the same
/// transaction succeeds in place, keeping the versions' count and the head.
pub proof fn lemma_rewrite_in_place(ks: KeySpaceView, t: TxnId, key: Seq<u8>, p1: Option<Seq<u8>>, p2: Option<Seq<u8>>)
    requires
        ks.wf(),
        ks.versions.len() <= usize::MAX,
        ks.upsert(t, key, p1).1 is Ok,
    ensures
        ({
            let ks1 = ks.upsert(t, key, p1).0;
            let (ks2, r2) = ks1.upsert(t, key, p2);
            &&& ks1.versions.len() <= ks.versions.len() + 1
            &&& r2 is Ok
            &&& ks2.versions.len() == ks1.versions.len()
            &&& ks2.heads == ks1.heads
        }),
{
    lemma_upsert_head(ks, t, key, p1);
    let ks1 = ks.upsert(t, key, p1).0;
    let ks2 = ks1.upsert(t, key, p2).0;
    assert(ks2.heads =~= ks1.heads);
}

/// A read from `id` sees the same version in `w` as in `vs` where `w`
/// extends `vs`.
pub proof fn lemma_first_visible_prefix(vs: Seq<VersionView>, w: Seq<VersionView>, id: int, t: TxnId)
    requires
        vs.len() <= w.len(),
        forall|i: int| 0 <= i < vs.len() ==> #[trigger] w[i] == vs[i],
        0 <= id < vs.len(),
    ensures
        first_visible(w, id, t) == first_visible(vs, id, t),
        read_chain(w, id, t) == read_chain(vs, id, t),
    decreases id,
{
    assert(w[id] == vs[id]);
    if !vs[id].visibility.admits(t) {
        if let Some(p) = vs[id].previous {
            if p < id {
                lemma_first_visible_prefix(vs, w, p as int, t);
            }
        }
    }
    lemma_first_visible_in_range(vs, id, t);
    if let Some(j) = first_visible(vs, id, t) {
        assert(w[j] == vs[j]);
    }
}

/// Aborting a transaction's write of a key it had not written before
/// restores the key's head, and what every transaction reads under it.
pub proof fn lemma_abort_restores(ks: KeySpaceView, t: TxnId, u: TxnId, key: Seq<u8>, payload: Option<Seq<u8>>)
    requires
        ks.wf(),
        ks.versions.len() <= usize::MAX,
        ks.upsert(t, key, payload).1 is Ok,
        !(ks.heads.contains_key(key) && ks.versions[ks.heads[key] as int].write_lock == WriteLock::Locked(t)),
    ensures
        ({
            let ks2 = ks.upsert(t, key, payload).0.abort_key(key);
            &&& ks2.heads == ks.heads
            &&& ks2.read(u, key) == ks.read(u, key)
        }),
{
    let ks1 = ks.upsert(t, key, payload).0;
    let ks2 = ks1.abort_key(key);
    let n = ks.versions.len() as int;
    if ks.heads.contains_key(key) {
        let h = ks.heads[key] as int;
        assert(ks1.heads[key] == n);
        assert(ks1.versions[n].visibility is OnlyTxn);
        assert(ks1.versions[n].previous == Some(h as VersionId));
        assert(ks2.heads =~= ks.heads);
        assert(ks2.versions =~= ks.versions.push(uncommitted(t, Some(h as VersionId), payload)));
        lemma_first_visible_prefix(ks.versions, ks2.versions, h, u);
    } else {
        assert(ks1.heads[key] == n);
        assert(ks2.heads =~= ks.heads);
    }
}

/// A transaction reads what it wrote: after `t`'s first successful write of
/// `key`, `t` reads the written bytes (nothing, for a delete).
pub proof fn lemma_read_your_write(ks: KeySpaceView, t: TxnId, key: Seq<u8>, payload: Option<Seq<u8>>)
    requires
        ks.wf(),
        ks.versions.len() <= usize::MAX,
        ks.upsert(t, key, payload).1 is Ok,
        !(ks.heads.contains_key(key) && ks.versions[ks.heads[key] as int].write_lock == WriteLock::Locked(t)),
    ensures
        ks.upsert(t, key, payload).0.read(t, key) == payload,
{
    let ks1 = ks.upsert(t, key, payload).0;
    let n = ks.versions.len() as int;
    assert(ks1.heads[key] == n);
    assert(ks1.versions[n].visibility.admits(t));
    assert(first_visible(ks1.versions, n, t) == Some(n));
}

/// Reads differ only in read timestamps: where `w` is `vs` with other
/// read timestamps, every read sees the same version.
pub proof fn lemma_same_reads(vs: Seq<VersionView>, w: Seq<VersionView>, id: int, t: TxnId)
    requires
        vs.len() == w.len(),
        forall|i: int|
            0 <= i < vs.len() ==> (#[trigger] w[i]).visibility == vs[i].visibility && w[i].previous
                == vs[i].previous && w[i].deleted == vs[i].deleted && w[i].value == vs[i].value,
    ensures
        first_visible(w, id, t) == first_visible(vs, id, t),
        read_chain(w, id, t) == read_chain(vs, id, t),
    decreases id,
{
    if 0 <= id < vs.len() {
        assert(w[id].visibility == vs[id].visibility);
        if !vs[id].visibility.admits(t) {
            if let Some(p) = vs[id].previous {
                if p < id {
                    lemma_same_reads(vs, w, p as int, t);
                }
            }
        }
    }
    lemma_first_visible_in_range(vs, id, t);
    if let Some(j) = first_visible(vs, id, t) {
        assert(w[j].deleted == vs[j].deleted && w[j].value == vs[j].value);
    }
}

/// A read changes no other read: after `t` reads `k1`, every transaction
/// reads under every key what it read before.
pub proof fn lemma_read_keeps_reads(ks: KeySpaceView, t: TxnId, k1: Seq<u8>, u: TxnId, k2: Seq<u8>)
    requires
        ks.wf(),
    ensures
        ks.after_read(t, k1).read(u, k2) == ks.read(u, k2),
{
    if ks.heads.contains_key(k1) {
        let vs = ks.versions;
        let h = ks.heads[k1] as int;
        let w = after_read(vs, h, t);
        lemma_first_visible_in_range(vs, h, t);
        assert forall|i: int| 0 <= i < vs.len() implies (#[trigger] w[i]).visibility == vs[i].visibility
            && w[i].previous == vs[i].previous && w[i].deleted == vs[i].deleted && w[i].value == vs[i].value by {}
        if ks.heads.contains_key(k2) {
            lemma_same_reads(vs, w, ks.heads[k2] as int, u);
        }
    }
}

/// Slot `i` holds `k` and a head.
spec fn slot_has_head(keys: Seq<Vec<u8>>, heads: Seq<Option<VersionId>>, i: int, k: Seq<u8>) -> bool {
    0 <= i < keys.len() && keys[i]@ == k && heads[i] is Some
}

/// Stores key-value pairs under one keyspace: for each key the head of its
/// version chain, and the table of versions.
pub struct KeySpace {
    keys: Vec<Vec<u8>>,
    heads: Vec<Option<VersionId>>,
    version_tbl: VersionTable,
}

impl View for KeySpace {
    type V = KeySpaceView;

    closed spec fn view(&self) -> KeySpaceView {
        KeySpaceView {
            heads: Map::new(
                |k: Seq<u8>| exists|i: int| slot_has_head(self.keys@, self.heads@, i, k),
                |k: Seq<u8>| self.heads@[choose|i: int| slot_has_head(self.keys@, self.heads@, i, k)]->Some_0,
            ),
            versions: self.version_tbl@,
        }
    }
}

impl KeySpace {
    pub closed spec fn wf(&self) -> bool {
        &&& self.keys@.len() == self.heads@.len()
        &&& forall|i: int, j: int|
            0 <= i < self.keys@.len() && 0 <= j < self.keys@.len() && #[trigger] self.keys@[i]@
                == #[trigger] self.keys@[j]@ ==> i == j
        &&& forall|i: int|
            0 <= i < self.heads@.len() && #[trigger] self.heads@[i] is Some ==> self.heads@[i]->Some_0
                < self.version_tbl@.len()
        &&& self.version_tbl.wf()
    }

    proof fn lemma_view(&self, i: int)
        requires
            self.wf(),
            0 <= i < self.keys@.len(),
        ensures
            self@.heads.contains_key(self.keys@[i]@) == (self.heads@[i] is Some),
            self.heads@[i] is Some ==> self@.heads[self.keys@[i]@] == self.heads@[i]->Some_0,
    {
        let k = self.keys@[i]@;
        if self.heads@[i] is Some {
            assert(slot_has_head(self.keys@, self.heads@, i, k));
            let j = choose|j: int| slot_has_head(self.keys@, self.heads@, j, k);
            assert(self.keys@[j]@ == self.keys@[i]@);
        } else {
            if exists|j: int| slot_has_head(self.keys@, self.heads@, j, k) {
                let j = choose|j: int| slot_has_head(self.keys@, self.heads@, j, k);
                assert(self.keys@[j]@ == self.keys@[i]@);
            }
        }
    }

    /// A well-formed keyspace has a well-formed view, with a number of
    /// versions that fits in memory.
    pub proof fn lemma_view_wf(&self)
        requires
            self.wf(),
        ensures
            self@.wf(),
            self@.versions.len() <= usize::MAX,
    {
        self.version_tbl.lemma_wf();
        assert forall|k: Seq<u8>| #[trigger] self@.heads.contains_key(k) implies self@.heads[k] < self@.versions.len() by {
            let j = choose|j: int| slot_has_head(self.keys@, self.heads@, j, k);
            self.lemma_view(j);
        }
    }

    pub fn new() -> (r: KeySpace)
        ensures
            r.wf(),
            r@.heads == Map::<Seq<u8>, VersionId>::empty(),
            r@.versions == Seq::<VersionView>::empty(),
    {
        let r = KeySpace { keys: Vec::new(), heads: Vec::new(), version_tbl: VersionTable::new() };
        assert(r@.heads =~= Map::<Seq<u8>, VersionId>::empty());
        r
    }

    /// The number of versions stored, over all keys.
    pub fn num_versions(&self) -> (r: usize)
        ensures
            r == self@.versions.len(),
    {
        self.version_tbl.len()
    }

    /// The slot of `key`, with or without a head.
    fn find(&self, key: &[u8]) -> (r: Option<usize>)
        requires
            self.wf(),
        ensures
            r matches Some(i) ==> i < self.keys@.len() && self.keys@[i as int]@ == key@,
            r is None ==> forall|i: int| 0 <= i < self.keys@.len() ==> self.keys@[i]@ != key@,
    {
        let mut i: usize = 0;
        while i < self.keys.len()
            invariant
                i <= self.keys@.len(),
                forall|j: int| 0 <= j < i ==> self.keys@[j]@ != key@,
            decreases self.keys@.len() - i,
        {
            if bytes_eq(self.keys[i].as_slice(), key) {
                return Some(i);
            }
            i += 1;
        }
        None
    }

    /// The head version of `key`, if it has one.
    fn head(&self, key: &[u8]) -> (r: (Option<usize>, Option<VersionId>))
        requires
            self.wf(),
        ensures
            self@.heads.contains_key(key@) == (r.1 is Some),
            r.1 matches Some(h) ==> self@.heads[key@] == h && h < self@.versions.len(),
            r.0 matches Some(i) ==> i < self.keys@.len() && self.keys@[i as int]@ == key@,
            r.0 is None ==> forall|i: int| 0 <= i < self.keys@.len() ==> self.keys@[i]@ != key@,
            r.0 is None ==> r.1 is None,
    {
        match self.find(key) {
            Some(i) => {
                proof {
                    self.lemma_view(i as int);
                }
                (Some(i), self.heads[i])
            },
            None => {
                assert(!self@.heads.contains_key(key@));
                (None, None)
            },
        }
    }

    /// What `txn_id` reads under `key`, decoded as a `V`; the version read
    /// records `txn_id` as a reader.
    pub fn get<V: Decode>(&mut self, txn_id: TxnId, key: &Vec<u8>) -> (r: Result<Option<V>, Error>)
        requires
            old(self).wf(),
        ensures
            final(self).wf(),
            final(self)@ == old(self)@.after_read(txn_id, key@),
            decodes_as(r, old(self)@.read(txn_id, key@)),
    {
        let (_, h) = self.head(key.as_slice());
        match h {
            None => {
                assert(self.wf());
                Ok(None)
            },
            Some(version_id) => {
                let ghost before = *self;
                let r = self.version_tbl.retrieve(txn_id, version_id);
                proof {
                    assert(self@.heads =~= before@.heads);
                    assert(self@ == old(self)@.after_read(txn_id, key@));
                    before.version_tbl.lemma_wf();
                    lemma_commit_version_shape(before.version_tbl@, version_id as int, 0, txn_id);
                }
                r
            },
        }
    }

    pub fn set<V: Encode>(&mut self, txn_id: TxnId, key: &Vec<u8>, val: &V) -> (r: Result<(), Error>)
        requires
            old(self).wf(),
        ensures
            final(self).wf(),
            (final(self)@, r) == old(self)@.upsert(txn_id, key@, Some(val.encoding())),
    {
        self.upsert_uncommitted_version(txn_id, key, Version::Value(val))
    }

    pub fn delete(&mut self, txn_id: TxnId, key: &Vec<u8>) -> (r: Result<(), Error>)
        requires
            old(self).wf(),
        ensures
            final(self).wf(),
            (final(self)@, r) == old(self)@.upsert(txn_id, key@, None),
    {
        self.upsert_uncommitted_version::<u8>(txn_id, key, Version::Deleted)
    }

    /// Points slot `i` at `head`.
    fn set_head(&mut self, i: usize, head: Option<VersionId>)
        requires
            old(self).wf(),
            i < old(self).keys@.len(),
            head matches Some(h) ==> h < old(self)@.versions.len(),
        ensures
            final(self).wf(),
            final(self)@.versions == old(self)@.versions,
            final(self).keys == old(self).keys,
            final(self)@.heads == match head {
                Some(h) => old(self)@.heads.insert(old(self).keys@[i as int]@, h),
                None => old(self)@.heads.remove(old(self).keys@[i as int]@),
            },
    {
        let ghost k = self.keys@[i as int]@;
        self.heads.set(i, head);
        proof {
            self.lemma_view(i as int);
            match head {
                Some(h) => {
                    assert forall|k2: Seq<u8>| #[trigger] self@.heads.contains_key(k2) == old(self)@.heads.insert(k, h).contains_key(k2) by {
                        if k2 != k {
                            if exists|j: int| slot_has_head(old(self).keys@, old(self).heads@, j, k2) {
                                let j = choose|j: int| slot_has_head(old(self).keys@, old(self).heads@, j, k2);
                                assert(slot_has_head(self.keys@, self.heads@, j, k2));
                            }
                            if exists|j: int| slot_has_head(self.keys@, self.heads@, j, k2) {
                                let j = choose|j: int| slot_has_head(self.keys@, self.heads@, j, k2);
                                assert(slot_has_head(old(self).keys@, old(self).heads@, j, k2));
                            }
                        }
                    }
                    assert forall|k2: Seq<u8>| #[trigger] self@.heads.contains_key(k2) implies self@.heads[k2] == old(self)@.heads.insert(k, h)[k2] by {
                        let j = choose|j: int| slot_has_head(self.keys@, self.heads@, j, k2);
                        self.lemma_view(j);
                        if k2 != k {
                            old(self).lemma_view(j);
                        }
                    }
                    assert(self@.heads =~= old(self)@.heads.insert(k, h));
                },
                None => {
                    assert forall|k2: Seq<u8>| #[trigger] self@.heads.contains_key(k2) == old(self)@.heads.remove(k).contains_key(k2) by {
                        if k2 != k {
                            if exists|j: int| slot_has_head(old(self).keys@, old(self).heads@, j, k2) {
                                let j = choose|j: int| slot_has_head(old(self).keys@, old(self).heads@, j, k2);
                                assert(slot_has_head(self.keys@, self.heads@, j, k2));
                            }
                            if exists|j: int| slot_has_head(self.keys@, self.heads@, j, k2) {
                                let j = choose|j: int| slot_has_head(self.keys@, self.heads@, j, k2);
                                assert(slot_has_head(old(self).keys@, old(self).heads@, j, k2));
                            }
                        } else {
                            if exists|j: int| slot_has_head(self.keys@, self.heads@, j, k2) {
                                let j = choose|j: int| slot_has_head(self.keys@, self.heads@, j, k2);
                                assert(self.keys@[j]@ == self.keys@[i as int]@);
                            }
                        }
                    }
                    assert forall|k2: Seq<u8>| #[trigger] self@.heads.contains_key(k2) implies self@.heads[k2] == old(self)@.heads.remove(k)[k2] by {
                        let j = choose|j: int| slot_has_head(self.keys@, self.heads@, j, k2);
                        self.lemma_view(j);
                        old(self).lemma_view(j);
                    }
                    assert(self@.heads =~= old(self)@.heads.remove(k));
                },
            }
        }
    }

    /// A new slot for `key`, which has none, pointing at `head`.
    fn push_key(&mut self, key: &Vec<u8>, head: VersionId)
        requires
            old(self).wf(),
            forall|i: int| 0 <= i < old(self).keys@.len() ==> old(self).keys@[i]@ != key@,
            head < old(self)@.versions.len(),
        ensures
            final(self).wf(),
            final(self)@.versions == old(self)@.versions,
            final(self)@.heads == old(self)@.heads.insert(key@, head),
    {
        let ghost n = self.keys@.len() as int;
        self.keys.push(key.clone());
        self.heads.push(Some(head));
        proof {
            assert(self.keys@[n]@ == key@);
            assert forall|k2: Seq<u8>| #[trigger] self@.heads.contains_key(k2) == old(self)@.heads.insert(key@, head).contains_key(k2) by {
                if k2 != key@ {
                    if exists|j: int| slot_has_head(old(self).keys@, old(self).heads@, j, k2) {
                        let j = choose|j: int| slot_has_head(old(self).keys@, old(self).heads@, j, k2);
                        assert(slot_has_head(self.keys@, self.heads@, j, k2));
                    }
                    if exists|j: int| slot_has_head(self.keys@, self.heads@, j, k2) {
                        let j = choose|j: int| slot_has_head(self.keys@, self.heads@, j, k2);
                        assert(slot_has_head(old(self).keys@, old(self).heads@, j, k2));
                    }
                } else {
                    assert(slot_has_head(self.keys@, self.heads@, n, k2));
                }
            }
            assert forall|k2: Seq<u8>| #[trigger] self@.heads.contains_key(k2) implies self@.heads[k2] == old(self)@.heads.insert(key@, head)[k2] by {
                let j = choose|j: int| slot_has_head(self.keys@, self.heads@, j, k2);
                self.lemma_view(j);
                if j < n {
                    old(self).lemma_view(j);
                }
            }
            assert(self@.heads =~= old(self)@.heads.insert(key@, head));
        }
    }

    /// Writes `version` under `key` for `txn_id`; see `KeySpaceView::upsert`.
    pub fn upsert_uncommitted_version<V: Encode>(&mut self, txn_id: TxnId, key: &Vec<u8>, version: Version<V>) -> (r: Result<(), Error>)
        requires
            old(self).wf(),
        ensures
            final(self).wf(),
            (final(self)@, r) == old(self)@.upsert(txn_id, key@, version.payload()),
    {
        let (slot, h) = self.head(key.as_slice());
        match h {
            None => {
                let ghost before = *self;
                let id = self.version_tbl.append_first_version(txn_id, version);
                proof {
                    assert(self@.heads =~= before@.heads);
                }
                match slot {
                    Some(i) => self.set_head(i, Some(id)),
                    None => self.push_key(key, id),
                }
                Ok(())
            },
            Some(prev) => {
                let ghost before = *self;
                let res = self.version_tbl.append_next_version(txn_id, prev, version);
                proof {
                    assert(self@.heads =~= before@.heads);
                }
                match res {
                    Ok(id) => {
                        self.set_head(slot.unwrap(), Some(id));
                        Ok(())
                    },
                    Err(e) => Err(e),
                }
            },
        }
    }

    /// Commits the head version of each of `keys`, closing predecessors at
    /// `commit_ts`.
    pub fn commit_keys(&mut self, keys: &Vec<Vec<u8>>, commit_ts: TxnId)
        requires
            old(self).wf(),
        ensures
            final(self).wf(),
            final(self)@ == old(self)@.commit_keys(byte_keys(keys@), commit_ts),
    {
        let ghost ks = byte_keys(keys@);
        let mut i: usize = 0;
        while i < keys.len()
            invariant
                self.wf(),
                i <= keys@.len(),
                ks == byte_keys(keys@),
                self@ == old(self)@.commit_keys(ks.take(i as int), commit_ts),
            decreases keys@.len() - i,
        {
            let (_, h) = self.head(keys[i].as_slice());
            assert(ks.take(i + 1).drop_last() == ks.take(i as int));
            if let Some(version_id) = h {
                let ghost before = *self;
                self.version_tbl.commit(version_id, commit_ts);
                proof {
                    assert(self@.heads =~= before@.heads);
                    before.version_tbl.lemma_wf();
                    lemma_commit_version_shape(before.version_tbl@, version_id as int, commit_ts, 0);
                }
            }
            i += 1;
        }
        assert(ks.take(keys@.len() as int) == ks);
    }

    /// Rolls each of `keys` back to the predecessor of its uncommitted head.
    pub fn abort_keys(&mut self, keys: &Vec<Vec<u8>>)
        requires
            old(self).wf(),
        ensures
            final(self).wf(),
            final(self)@ == old(self)@.abort_keys(byte_keys(keys@)),
    {
        let ghost ks = byte_keys(keys@);
        let mut i: usize = 0;
        while i < keys.len()
            invariant
                self.wf(),
                i <= keys@.len(),
                ks == byte_keys(keys@),
                self@ == old(self)@.abort_keys(ks.take(i as int)),
            decreases keys@.len() - i,
        {
            let (slot, h) = self.head(keys[i].as_slice());
            assert(ks.take(i + 1).drop_last() == ks.take(i as int));
            if let Some(version_id) = h {
                if self.version_tbl.is_uncommitted(version_id) {
                    let ghost before = *self;
                    let prev = self.version_tbl.abort(version_id);
                    proof {
                        assert(self@.heads =~= before@.heads);
                    }
                    self.set_head(slot.unwrap(), prev);
                }
            }
            i += 1;
        }
        assert(ks.take(keys@.len() as int) == ks);
    }
}

} // verus!
