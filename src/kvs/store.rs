use std::collections::HashMap;
use vstd::prelude::*;
use vstd::std_specs::convert::FromSpec;
use crate::encode::{Decode, Encode};
use crate::kvs::error::Error;
use crate::kvs::key::{key_bytes, Key};
use crate::kvs::keyset::{keys_in, KeySet};
use crate::kvs::keyspace::{
    lemma_abort_restores, lemma_keyspace_no_lost_update, lemma_rewrite_in_place, KeySpace, KeySpaceId, KeySpaceView,
};
use crate::kvs::txn::{TxnId, TxnManager, TxnManagerView};
use crate::kvs::version::{decodes_as, WriteLock};

verus! {

broadcast use vstd::std_specs::hash::group_hash_axioms;

/// The state of a store: its transactions and its keyspaces by id.
pub struct StoreView {
    pub txns: TxnManagerView,
    pub spaces: Map<u64, KeySpaceView>,
}

/// The keyspaces after committing, in each, the keys `ws` holds for it,
/// with commit timestamp `ts`.
pub open spec fn commit_spaces(spaces: Map<u64, KeySpaceView>, ws: Map<u64, Seq<Seq<u8>>>, ts: TxnId) -> Map<
    u64,
    KeySpaceView,
> {
    Map::new(|s: u64| spaces.contains_key(s), |s: u64| spaces[s].commit_keys(keys_in(ws, s), ts))
}

/// The keyspaces after rolling back, in each, the keys `ws` holds for it.
pub open spec fn abort_spaces(spaces: Map<u64, KeySpaceView>, ws: Map<u64, Seq<Seq<u8>>>) -> Map<
    u64,
    KeySpaceView,
> {
    Map::new(|s: u64| spaces.contains_key(s), |s: u64| spaces[s].abort_keys(keys_in(ws, s)))
}

impl StoreView {
    /// Committing `t`: the transaction manager decides; on success the keys
    /// `t` wrote are committed, on a phantom they are rolled back.
    pub open spec fn commit(self, t: TxnId) -> (StoreView, Result<(), Error>) {
        let (m, res) = self.txns.commit(t);
        match res {
            Ok(ts) => (
                StoreView { txns: m, spaces: commit_spaces(self.spaces, self.txns.active[t].write_set, ts) },
                Ok(()),
            ),
            Err(e) => (
                StoreView {
                    txns: m,
                    spaces: if e == Error::PhantomDetected {
                        abort_spaces(self.spaces, self.txns.active[t].write_set)
                    } else {
                        self.spaces
                    },
                },
                Err(e),
            ),
        }
    }

    /// Aborting `t`: the keys it wrote are rolled back.
    pub open spec fn abort(self, t: TxnId) -> (StoreView, Result<(), Error>) {
        let (m, res) = self.txns.abort(t);
        match res {
            Ok(_) => (StoreView { txns: m, spaces: abort_spaces(self.spaces, self.txns.active[t].write_set) }, Ok(())),
            Err(e) => (self, Err(e)),
        }
    }

    /// A write of `payload` under (`s`, `key`) by `t`, and what it returns.
    pub open spec fn write(self, t: TxnId, s: u64, key: Seq<u8>, payload: Option<Seq<u8>>) -> (StoreView, Result<(), Error>) {
        if !self.txns.active.contains_key(t) {
            (self, Err(Error::InvalidTxnId))
        } else if !self.spaces.contains_key(s) {
            (self, Err(Error::UndefinedKeySpace))
        } else {
            let (sp, res) = self.spaces[s].upsert(t, key, payload);
            match res {
                Ok(_) => (StoreView { txns: self.txns.record_write(t, s, key), spaces: self.spaces.insert(s, sp) }, Ok(())),
                Err(e) => (self, Err(e)),
            }
        }
    }
}

/// Ending a transaction that wrote one key (a first write of it) without
/// committing it, by `abort_txn` or by a commit that finds a phantom,
/// restores that key's head and what every transaction reads under it, and
/// leaves the other keyspaces as they were.
pub proof fn lemma_abort_reverts_write(
    st: StoreView,
    t: TxnId,
    u: TxnId,
    s: u64,
    key: Seq<u8>,
    payload: Option<Seq<u8>>,
)
    requires
        st.txns.active.contains_key(t),
        st.txns.active[t].write_set == Map::<u64, Seq<Seq<u8>>>::empty(),
        st.spaces.contains_key(s),
        st.spaces[s].wf(),
        st.spaces[s].versions.len() <= usize::MAX,
        !(st.spaces[s].heads.contains_key(key) && st.spaces[s].versions[st.spaces[s].heads[key] as int].write_lock
            == WriteLock::Locked(t)),
        st.write(t, s, key, payload).1 is Ok,
    ensures
        ({
            let st1 = st.write(t, s, key, payload).0;
            let ended = if st1.commit(t).1 == Err::<(), Error>(Error::PhantomDetected) {
                st1.commit(t).0
            } else {
                st1.abort(t).0
            };
            &&& st1.abort(t).1 is Ok
            &&& ended.spaces.dom() == st.spaces.dom()
            &&& ended.spaces[s].heads == st.spaces[s].heads
            &&& ended.spaces[s].read(u, key) == st.spaces[s].read(u, key)
            &&& forall|o: u64| #[trigger] st.spaces.contains_key(o) && o != s ==> ended.spaces[o] == st.spaces[o]
        }),
{
    let st1 = st.write(t, s, key, payload).0;
    let ws = st1.txns.active[t].write_set;
    assert(ws == Map::<u64, Seq<Seq<u8>>>::empty().insert(s, seq![key])) by {
        assert(keys_in(Map::<u64, Seq<Seq<u8>>>::empty(), s) =~= Seq::<Seq<u8>>::empty());
        assert(Seq::<Seq<u8>>::empty().push(key) =~= seq![key]);
    }
    let sp1 = st1.spaces[s];
    assert(keys_in(ws, s) == seq![key]);
    assert(seq![key].drop_last() =~= Seq::<Seq<u8>>::empty());
    assert(seq![key].last() == key);
    assert(sp1.abort_keys(Seq::<Seq<u8>>::empty()) == sp1);
    assert(sp1.abort_keys(seq![key]) == sp1.abort_key(key));
    lemma_abort_restores(st.spaces[s], t, u, key, payload);
    let ended = abort_spaces(st1.spaces, ws);
    assert forall|o: u64| #[trigger] st.spaces.contains_key(o) && o != s implies ended[o] == st.spaces[o] by {
        assert(keys_in(ws, o) == Seq::<Seq<u8>>::empty());
    }
    assert(ended.dom() =~= st.spaces.dom());
}

/// Two transactions cannot both write one key of a keyspace: once `t1` has
/// written it, a write by `t2` fails with `WriteWriteConflict`, or with
/// `ReadWriteConflict` where a later transaction read the version.
pub proof fn lemma_no_lost_update(
    st: StoreView,
    t1: TxnId,
    t2: TxnId,
    s: u64,
    key: Seq<u8>,
    p1: Option<Seq<u8>>,
    p2: Option<Seq<u8>>,
)
    requires
        st.spaces.contains_key(s),
        st.spaces[s].wf(),
        st.spaces[s].versions.len() <= usize::MAX,
        st.txns.active.contains_key(t2),
        t1 != t2,
        st.write(t1, s, key, p1).1 is Ok,
    ensures
        ({
            let r = st.write(t1, s, key, p1).0.write(t2, s, key, p2).1;
            r == Err::<(), Error>(Error::WriteWriteConflict) || r == Err::<(), Error>(Error::ReadWriteConflict)
        }),
{
    lemma_keyspace_no_lost_update(st.spaces[s], t1, t2, key, p1, p2);
}

/// Repeated writes of one key by one transaction grow the key's chain by at
/// most one version: after a successful write, a second write of the key by
/// the same transaction succeeds and adds no version.
pub proof fn lemma_repeated_writes(st: StoreView, t: TxnId, s: u64, key: Seq<u8>, p1: Option<Seq<u8>>, p2: Option<Seq<u8>>)
    requires
        st.spaces.contains_key(s),
        st.spaces[s].wf(),
        st.spaces[s].versions.len() <= usize::MAX,
        st.write(t, s, key, p1).1 is Ok,
    ensures
        ({
            let st1 = st.write(t, s, key, p1).0;
            let (st2, r2) = st1.write(t, s, key, p2);
            &&& st1.spaces[s].versions.len() <= st.spaces[s].versions.len() + 1
            &&& r2 is Ok
            &&& st2.spaces[s].versions.len() == st1.spaces[s].versions.len()
        }),
{
    lemma_rewrite_in_place(st.spaces[s], t, key, p1, p2);
}

/// Whether ending `t` after a body that returned `body` took the store
/// from `before` to `after` and returned `r`: a successful body commits `t`
/// and its value is returned when the commit succeeds, the commit's error
/// otherwise (a commit for which no identifier is left aborts `t`); a
/// failed body aborts `t` and its error is returned. Either way `t` ends.
pub open spec fn finished<R, E: From<Error>>(
    before: StoreView,
    t: TxnId,
    body: Result<R, E>,
    after: StoreView,
    r: Result<R, E>,
) -> bool {
    &&& !after.txns.active.contains_key(t)
    &&& match body {
        Ok(_) => if before.txns.active.contains_key(t) && before.txns.next_id >= usize::MAX {
            &&& after == before.abort(t).0
            &&& r is Err
            &&& <E as FromSpec<Error>>::obeys_from_spec() ==> r == Err::<R, E>(
                <E as FromSpec<Error>>::from_spec(Error::TxnIdsExhausted),
            )
        } else {
            &&& after == before.commit(t).0
            &&& (r is Ok <==> before.commit(t).1 is Ok)
            &&& r is Ok ==> r == body
            &&& (<E as FromSpec<Error>>::obeys_from_spec() && before.commit(t).1 is Err) ==> r == Err::<R, E>(
                <E as FromSpec<Error>>::from_spec(before.commit(t).1->Err_0),
            )
        },
        Err(_) => after == before.abort(t).0 && r == body,
    }
}

/// The views of the keyspaces of `m`.
spec fn space_views(m: Map<u64, KeySpace>) -> Map<u64, KeySpaceView> {
    Map::new(|s: u64| m.contains_key(s), |s: u64| m[s]@)
}

/// The entry point of the engine: keyspaces, and transactions over them.
pub struct Store {
    txn_manager: TxnManager,
    spaces: HashMap<u64, KeySpace>,
}

impl View for Store {
    type V = StoreView;

    closed spec fn view(&self) -> StoreView {
        StoreView { txns: self.txn_manager@, spaces: space_views(self.spaces@) }
    }
}

impl Store {
    pub closed spec fn wf(&self) -> bool {
        &&& self.txn_manager.wf()
        &&& forall|s: u64| #[trigger] self.spaces@.contains_key(s) ==> self.spaces@[s].wf()
    }

    /// A well-formed store has well-formed transactions and keyspaces, as
    /// the laws of this module ask of them.
    pub proof fn lemma_view_wf(&self)
        requires
            self.wf(),
        ensures
            self@.txns.wf(),
            forall|s: u64| #[trigger] self@.spaces.contains_key(s) ==> self@.spaces[s].wf()
                && self@.spaces[s].versions.len() <= usize::MAX,
    {
        self.txn_manager.lemma_view_wf();
        assert forall|s: u64| #[trigger] self@.spaces.contains_key(s) implies self@.spaces[s].wf()
            && self@.spaces[s].versions.len() <= usize::MAX by {
            self.spaces@[s].lemma_view_wf();
        }
    }

    pub fn new() -> (r: Store)
        ensures
            r.wf(),
            r@.txns == (TxnManagerView { next_id: 0, active: Map::empty(), committed: Map::empty() }),
            r@.spaces == Map::<u64, KeySpaceView>::empty(),
    {
        let r = Store { txn_manager: TxnManager::new(), spaces: HashMap::new() };
        assert(r@.spaces =~= Map::<u64, KeySpaceView>::empty());
        r
    }

    /// Takes keyspace `id` out of the store, where it is defined.
    fn take_space(&mut self, id: u64) -> (r: Option<KeySpace>)
        requires
            old(self).wf(),
        ensures
            final(self).wf(),
            final(self)@.txns == old(self)@.txns,
            final(self)@.spaces == old(self)@.spaces.remove(id),
            r is None <==> !old(self)@.spaces.contains_key(id),
            r matches Some(ks) ==> ks.wf() && ks@ == old(self)@.spaces[id],
    {
        let r = self.spaces.remove(&id);
        assert(self@.spaces =~= old(self)@.spaces.remove(id));
        r
    }

    /// Puts keyspace `ks` into the store under `id`.
    fn put_space(&mut self, id: u64, ks: KeySpace)
        requires
            old(self).wf(),
            ks.wf(),
        ensures
            final(self).wf(),
            final(self)@.txns == old(self)@.txns,
            final(self)@.spaces == old(self)@.spaces.insert(id, ks@),
    {
        self.spaces.insert(id, ks);
        assert(self@.spaces =~= old(self)@.spaces.insert(id, ks@));
    }

    /// Creates keyspace `keyspace_id`, empty, unless it exists.
    pub fn define_keyspace<S: KeySpaceId>(&mut self, keyspace_id: S)
        requires
            old(self).wf(),
        ensures
            final(self).wf(),
            final(self)@.txns == old(self)@.txns,
            final(self)@.spaces == if old(self)@.spaces.contains_key(keyspace_id.spec_id()) {
                old(self)@.spaces
            } else {
                old(self)@.spaces.insert(keyspace_id.spec_id(), KeySpaceView { heads: Map::empty(), versions: Seq::empty() })
            },
    {
        let id = keyspace_id.id();
        let ks = match self.take_space(id) {
            Some(ks) => ks,
            None => KeySpace::new(),
        };
        self.put_space(id, ks);
        proof {
            if old(self)@.spaces.contains_key(id) {
                assert(self@.spaces =~= old(self)@.spaces);
            }
        }
    }

    /// Starts a transaction.
    pub fn begin_txn(&mut self) -> (r: TxnId)
        requires
            old(self).wf(),
            old(self)@.txns.next_id < usize::MAX,
        ensures
            final(self).wf(),
            (final(self)@.txns, r) == old(self)@.txns.begin(),
            final(self)@.spaces == old(self)@.spaces,
    {
        self.txn_manager.begin_txn()
    }

    /// Runs `ws`'s keys through commit (`commit_ts` given) or abort, per
    /// keyspace.
    fn apply_keys(&mut self, ws: &KeySet, commit_ts: Option<TxnId>)
        requires
            old(self).wf(),
            ws.wf(),
        ensures
            final(self).wf(),
            final(self)@.txns == old(self)@.txns,
            final(self)@.spaces == match commit_ts {
                Some(ts) => commit_spaces(old(self)@.spaces, ws@, ts),
                None => abort_spaces(old(self)@.spaces, ws@),
            },
    {
        proof {
            ws.lemma_order();
        }
        let ghost old_spaces = self@.spaces;
        let ghost target = match commit_ts {
            Some(ts) => commit_spaces(old_spaces, ws@, ts),
            None => abort_spaces(old_spaces, ws@),
        };
        let n = ws.num_keyspaces();
        let mut i: usize = 0;
        while i < n
            invariant
                self.wf(),
                self@.txns == old(self)@.txns,
                old_spaces == old(self)@.spaces,
                ws.wf(),
                ws.order().no_duplicates(),
                forall|s: u64| #[trigger] ws@.contains_key(s) <==> ws.order().contains(s),
                n == ws.order().len(),
                i <= n,
                target == match commit_ts {
                    Some(ts) => commit_spaces(old_spaces, ws@, ts),
                    None => abort_spaces(old_spaces, ws@),
                },
                self@.spaces.dom() == old_spaces.dom(),
                forall|s: u64| #[trigger] self@.spaces.contains_key(s) ==> self@.spaces[s] == if ws.order().take(i as int).contains(s) {
                    target[s]
                } else {
                    old_spaces[s]
                },
            decreases n - i,
        {
            let (id, keys) = ws.keyspace_keys(i);
            proof {
                assert(ws.order().take(i + 1) == ws.order().take(i as int).push(id));
                assert(!ws.order().take(i as int).contains(id)) by {
                    if ws.order().take(i as int).contains(id) {
                        let m = choose|m: int| 0 <= m < i && ws.order().take(i as int)[m] == id;
                        assert(ws.order()[m] == ws.order()[i as int]);
                    }
                }
            }
            let ghost spaces_before = self@.spaces;
            match self.take_space(id) {
                Some(mut sp) => {
                    match commit_ts {
                        Some(ts) => sp.commit_keys(keys, ts),
                        None => sp.abort_keys(keys),
                    }
                    self.put_space(id, sp);
                    proof {
                        assert(keys_in(ws@, id) == ws@[id]);
                        assert(self@.spaces =~= spaces_before.insert(id, sp@));
                        assert forall|s: u64| #[trigger] self@.spaces.contains_key(s) implies self@.spaces[s] == if ws.order().take(i + 1).contains(s) {
                            target[s]
                        } else {
                            old_spaces[s]
                        } by {
                            if s != id {
                                assert(ws.order().take(i + 1).contains(s) == ws.order().take(i as int).contains(s));
                            } else {
                                assert(ws.order().take(i + 1)[i as int] == id);
                                assert(ws.order().take(i + 1).contains(s));
                            }
                        }
                        assert(self@.spaces.dom() =~= old_spaces.dom());
                    }
                },
                None => {
                    proof {
                        assert forall|s: u64| #[trigger] self@.spaces.contains_key(s) implies self@.spaces[s] == if ws.order().take(i + 1).contains(s) {
                            target[s]
                        } else {
                            old_spaces[s]
                        } by {
                            assert(s != id);
                            assert(ws.order().take(i + 1).contains(s) == ws.order().take(i as int).contains(s));
                        }
                    }
                },
            }
            i += 1;
        }
        proof {
            assert(ws.order().take(n as int) == ws.order());
            assert forall|s: u64| #[trigger] self@.spaces.contains_key(s) implies self@.spaces[s] == target[s] by {
                if !ws.order().contains(s) {
                    assert(keys_in(ws@, s) == Seq::<Seq<u8>>::empty());
                }
            }
            assert(self@.spaces =~= target);
        }
    }

    /// Commits `txn_id`; see `StoreView::commit`. It fails with
    /// `TxnIdsExhausted`, leaving everything as it was, when no identifier
    /// is left for the commit timestamp.
    pub fn commit_txn(&mut self, txn_id: TxnId) -> (r: Result<(), Error>)
        requires
            old(self).wf(),
        ensures
            final(self).wf(),
            if old(self)@.txns.active.contains_key(txn_id) && old(self)@.txns.next_id >= usize::MAX {
                r == Err::<(), Error>(Error::TxnIdsExhausted) && final(self)@ == old(self)@
            } else {
                (final(self)@, r) == old(self)@.commit(txn_id)
            },
    {
        if self.txn_manager.next_txn_id() == usize::MAX {
            if self.txn_manager.is_active_txn(txn_id) {
                return Err(Error::TxnIdsExhausted);
            } else {
                return Err(Error::InvalidTxnId);
            }
        }
        match self.txn_manager.commit_txn(txn_id) {
            Ok((commit_ts, write_set)) => {
                self.apply_keys(&write_set, Some(commit_ts));
                Ok(())
            },
            Err((e, write_set)) => {
                if let Error::PhantomDetected = e {
                    self.apply_keys(&write_set, None);
                }
                Err(e)
            },
        }
    }

    /// Aborts `txn_id`; see `StoreView::abort`.
    pub fn abort_txn(&mut self, txn_id: TxnId) -> (r: Result<(), Error>)
        requires
            old(self).wf(),
        ensures
            final(self).wf(),
            (final(self)@, r) == old(self)@.abort(txn_id),
    {
        match self.txn_manager.abort_txn(txn_id) {
            Ok(write_set) => {
                self.apply_keys(&write_set, None);
                Ok(())
            },
            Err(e) => Err(e),
        }
    }

    /// What `txn_id` reads under `key` in `keyspace_id`, decoded as a `V`.
    /// A successful read joins the transaction's read set.
    pub fn get<S: KeySpaceId, K: Key, V: Decode>(&mut self, txn_id: TxnId, keyspace_id: S, key: &K) -> (r: Result<Option<V>, Error>)
        requires
            old(self).wf(),
        ensures
            final(self).wf(),
            !old(self)@.txns.active.contains_key(txn_id) ==> r == Err::<Option<V>, Error>(Error::InvalidTxnId)
                && final(self)@ == old(self)@,
            old(self)@.txns.active.contains_key(txn_id) && !old(self)@.spaces.contains_key(keyspace_id.spec_id())
                ==> r == Err::<Option<V>, Error>(Error::UndefinedKeySpace) && final(self)@ == old(self)@,
            old(self)@.txns.active.contains_key(txn_id) && old(self)@.spaces.contains_key(keyspace_id.spec_id()) ==> {
                let s = keyspace_id.spec_id();
                let sp = old(self)@.spaces[s];
                &&& decodes_as(r, sp.read(txn_id, key.encoding()))
                &&& final(self)@.spaces == old(self)@.spaces.insert(s, sp.after_read(txn_id, key.encoding()))
                &&& final(self)@.txns == if r is Ok {
                    old(self)@.txns.record_read(txn_id, s, key.encoding())
                } else {
                    old(self)@.txns
                }
            },
    {
        if !self.txn_manager.is_active_txn(txn_id) {
            return Err(Error::InvalidTxnId);
        }
        let id = keyspace_id.id();
        let mut sp = match self.take_space(id) {
            Some(sp) => sp,
            None => {
                assert(self@.spaces =~= old(self)@.spaces);
                return Err(Error::UndefinedKeySpace);
            },
        };
        let kb = key_bytes(key);
        let r = sp.get(txn_id, &kb);
        self.put_space(id, sp);
        assert(self@.spaces =~= old(self)@.spaces.insert(id, sp@));
        if r.is_ok() {
            self.txn_manager.record_read(txn_id, id, &kb);
        }
        r
    }

    fn write<S: KeySpaceId, K: Key, V: Encode>(&mut self, txn_id: TxnId, keyspace_id: S, key: &K, val: Option<&V>) -> (r: Result<(), Error>)
        requires
            old(self).wf(),
        ensures
            final(self).wf(),
            (final(self)@, r) == old(self)@.write(
                txn_id,
                keyspace_id.spec_id(),
                key.encoding(),
                match val {
                    Some(v) => Some(v.encoding()),
                    None => None,
                },
            ),
    {
        if !self.txn_manager.is_active_txn(txn_id) {
            return Err(Error::InvalidTxnId);
        }
        let id = keyspace_id.id();
        let mut sp = match self.take_space(id) {
            Some(sp) => sp,
            None => {
                assert(self@.spaces =~= old(self)@.spaces);
                return Err(Error::UndefinedKeySpace);
            },
        };
        let kb = key_bytes(key);
        let r = match val {
            Some(v) => sp.set(txn_id, &kb, v),
            None => sp.delete(txn_id, &kb),
        };
        self.put_space(id, sp);
        proof {
            if r is Err {
                assert(self@.spaces =~= old(self)@.spaces);
            } else {
                assert(self@.spaces =~= old(self)@.spaces.insert(id, sp@));
            }
        }
        if r.is_ok() {
            self.txn_manager.record_write(txn_id, id, &kb);
        }
        r
    }

    /// Writes `val` under `key` in `keyspace_id` for `txn_id`; see
    /// `StoreView::write`.
    pub fn set<S: KeySpaceId, K: Key, V: Encode>(&mut self, txn_id: TxnId, keyspace_id: S, key: &K, val: &V) -> (r: Result<(), Error>)
        requires
            old(self).wf(),
        ensures
            final(self).wf(),
            (final(self)@, r) == old(self)@.write(txn_id, keyspace_id.spec_id(), key.encoding(), Some(val.encoding())),
    {
        self.write(txn_id, keyspace_id, key, Some(val))
    }

    /// Deletes `key` in `keyspace_id` for `txn_id`; see `StoreView::write`.
    pub fn delete<S: KeySpaceId, K: Key>(&mut self, txn_id: TxnId, keyspace_id: S, key: &K) -> (r: Result<(), Error>)
        requires
            old(self).wf(),
        ensures
            final(self).wf(),
            (final(self)@, r) == old(self)@.write(txn_id, keyspace_id.spec_id(), key.encoding(), None),
    {
        self.write::<S, K, u8>(txn_id, keyspace_id, key, None)
    }

    /// Ends `txn_id` after a body run within it: commits it when `body`
    /// succeeded, aborts it when `body` failed; see `finished`. The body's
    /// error comes first; an error of the commit is returned otherwise.
    pub fn finish_txn<R, E>(&mut self, txn_id: TxnId, body: Result<R, E>) -> (r: Result<R, E>)
        where
            E: From<Error>,
        requires
            old(self).wf(),
        ensures
            final(self).wf(),
            finished(old(self)@, txn_id, body, final(self)@, r),
    {
        match body {
            Ok(result) => match self.commit_txn(txn_id) {
                Ok(()) => Ok(result),
                Err(Error::TxnIdsExhausted) => {
                    let _ = self.abort_txn(txn_id);
                    Err(E::from(Error::TxnIdsExhausted))
                },
                Err(e) => Err(E::from(e)),
            },
            Err(err) => {
                let _ = self.abort_txn(txn_id);
                Err(err)
            },
        }
    }

    /// Runs `f` within a new transaction, which it commits when `f`
    /// succeeds and aborts when it fails. An error of `f` comes first; an
    /// error of the commit is returned otherwise. `f` gets the new
    /// transaction's identifier and the store with that transaction begun;
    /// it must not begin, commit or abort transactions itself.
    pub fn with_txn<R, E, F>(&mut self, f: F) -> (r: Result<R, E>)
        where
            F: FnOnce(&mut Store, TxnId) -> Result<R, E>,
            E: From<Error>,
        requires
            old(self).wf(),
            forall|s: &mut Store, t: TxnId| s.wf() ==> f.requires((s, t)),
            forall|s: &mut Store, t: TxnId, res: Result<R, E>| #[trigger] f.ensures((s, t), res) ==> final(s).wf(),
        ensures
            final(self).wf(),
            old(self)@.txns.next_id >= usize::MAX ==> {
                &&& final(self)@ == old(self)@
                &&& r is Err
                &&& <E as FromSpec<Error>>::obeys_from_spec() ==> r == Err::<R, E>(
                    <E as FromSpec<Error>>::from_spec(Error::TxnIdsExhausted),
                )
            },
            old(self)@.txns.next_id < usize::MAX ==> exists|s: &mut Store, body: Result<R, E>|
                #[trigger] f.ensures((s, old(self)@.txns.next_id as TxnId), body) && (*s)@ == (StoreView {
                    txns: old(self)@.txns.begin().0,
                    spaces: old(self)@.spaces,
                }) && finished(final(s)@, old(self)@.txns.next_id as TxnId, body, final(self)@, r),
    {
        if self.txn_manager.next_txn_id() == usize::MAX {
            return Err(E::from(Error::TxnIdsExhausted));
        }
        let txn_id = self.begin_txn();
        let body = f(self, txn_id);
        self.finish_txn(txn_id, body)
    }
}

} // verus!
