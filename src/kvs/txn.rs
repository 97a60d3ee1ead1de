use vstd::prelude::*;
use crate::kvs::error::Error;
use crate::kvs::keyset::{sets_overlap, with_key, KeySet};

verus! {

/// A transaction's identifier, which is also its begin timestamp.
pub type TxnId = usize;

/// The keys a transaction has read and written, per keyspace.
pub struct TxnView {
    pub read_set: Map<u64, Seq<Seq<u8>>>,
    pub write_set: Map<u64, Seq<Seq<u8>>>,
}

pub open spec fn empty_txn() -> TxnView {
    TxnView { read_set: Map::empty(), write_set: Map::empty() }
}

/// The transaction manager's state: the next identifier, the active
/// transactions by identifier and the recently committed ones by commit
/// timestamp.
pub struct TxnManagerView {
    pub next_id: nat,
    pub active: Map<TxnId, TxnView>,
    pub committed: Map<TxnId, TxnView>,
}

impl TxnManagerView {
    pub open spec fn wf(self) -> bool {
        &&& forall|t: TxnId| #[trigger] self.active.contains_key(t) ==> t < self.next_id
        &&& forall|c: TxnId| #[trigger] self.committed.contains_key(c) ==> c < self.next_id
    }

    /// Starting a transaction: it takes the next identifier.
    pub open spec fn begin(self) -> (TxnManagerView, TxnId) {
        (
            TxnManagerView {
                next_id: self.next_id + 1,
                active: self.active.insert(self.next_id as TxnId, empty_txn()),
                ..self
            },
            self.next_id as TxnId,
        )
    }

    /// Whether a transaction that committed after `t` began wrote a key that
    /// `t` read.
    pub open spec fn phantom(self, t: TxnId) -> bool {
        exists|c: TxnId|
            #[trigger] self.committed.contains_key(c) && c > t && sets_overlap(
                self.active[t].read_set,
                self.committed[c].write_set,
            )
    }

    /// Whether the record committed at `c` can be dropped once the active
    /// transactions are `active`: they all began after it.
    pub open spec fn prunable(c: TxnId, active: Map<TxnId, TxnView>) -> bool {
        (exists|a: TxnId| active.contains_key(a)) && (forall|a: TxnId| #[trigger] active.contains_key(a) ==> c < a)
    }

    /// Committing `t`: it fails for an inactive `t` and on a phantom, which
    /// ends `t` all the same; otherwise `t` gets the next identifier as its
    /// commit timestamp and joins the recently committed transactions, from
    /// which those older than every active transaction are dropped.
    pub open spec fn commit(self, t: TxnId) -> (TxnManagerView, Result<TxnId, Error>) {
        if !self.active.contains_key(t) {
            (self, Err(Error::InvalidTxnId))
        } else if self.phantom(t) {
            (TxnManagerView { active: self.active.remove(t), ..self }, Err(Error::PhantomDetected))
        } else {
            let rest = self.active.remove(t);
            (
                TxnManagerView {
                    next_id: self.next_id + 1,
                    active: rest,
                    committed: Map::new(
                        |c: TxnId| self.committed.contains_key(c) && !Self::prunable(c, rest),
                        |c: TxnId| self.committed[c],
                    ).insert(self.next_id as TxnId, self.active[t]),
                },
                Ok(self.next_id as TxnId),
            )
        }
    }

    /// Aborting `t`: it fails for an inactive `t`.
    pub open spec fn abort(self, t: TxnId) -> (TxnManagerView, Result<(), Error>) {
        if !self.active.contains_key(t) {
            (self, Err(Error::InvalidTxnId))
        } else {
            (TxnManagerView { active: self.active.remove(t), ..self }, Ok(()))
        }
    }

    pub open spec fn record_read(self, t: TxnId, ks: u64, key: Seq<u8>) -> TxnManagerView {
        TxnManagerView {
            active: self.active.insert(
                t,
                TxnView { read_set: with_key(self.active[t].read_set, ks, key), ..self.active[t] },
            ),
            ..self
        }
    }

    pub open spec fn record_write(self, t: TxnId, ks: u64, key: Seq<u8>) -> TxnManagerView {
        TxnManagerView {
            active: self.active.insert(
                t,
                TxnView { write_set: with_key(self.active[t].write_set, ks, key), ..self.active[t] },
            ),
            ..self
        }
    }
}

/// Identifiers only grow: of two transactions begun one after the other,
/// the later gets the larger identifier; a commit timestamp is larger than
/// every identifier handed out before it; and no operation lowers the next
/// identifier.
pub proof fn lemma_ids_increase(m: TxnManagerView, t: TxnId, ks: u64, key: Seq<u8>)
    requires
        m.wf(),
        m.next_id + 1 < usize::MAX,
    ensures
        m.begin().0.wf(),
        m.begin().1 < m.begin().0.begin().1,
        m.commit(t).0.wf(),
        m.commit(t).1 matches Ok(ts) ==> {
            &&& forall|a: TxnId| #[trigger] m.active.contains_key(a) ==> a < ts
            &&& forall|c: TxnId| #[trigger] m.committed.contains_key(c) ==> c < ts
            &&& m.begin().1 <= ts
        },
        m.commit(t).0.next_id >= m.next_id,
        m.abort(t).0.next_id == m.next_id,
        m.record_read(t, ks, key).next_id == m.next_id,
        m.record_write(t, ks, key).next_id == m.next_id,
{
    let m1 = m.begin().0;
    assert forall|a: TxnId| #[trigger] m1.active.contains_key(a) implies a < m1.next_id by {
        if a != m.next_id as TxnId {
            assert(m.active.contains_key(a));
        }
    }
    let (m2, r) = m.commit(t);
    if m.active.contains_key(t) && !m.phantom(t) {
        assert forall|a: TxnId| #[trigger] m2.active.contains_key(a) implies a < m2.next_id by {
            assert(m.active.contains_key(a));
        }
        assert forall|c: TxnId| #[trigger] m2.committed.contains_key(c) implies c < m2.next_id by {
            if c != m.next_id as TxnId {
                assert(m.committed.contains_key(c));
            }
        }
    } else if m.active.contains_key(t) {
        assert forall|a: TxnId| #[trigger] m2.active.contains_key(a) implies a < m2.next_id by {
            assert(m.active.contains_key(a));
        }
    }
}

/// A commit fails with `PhantomDetected` exactly when the transaction is
/// active and a transaction that committed after it began, and is still
/// among the recently committed ones, wrote a key it read.
pub proof fn lemma_phantom_detected(m: TxnManagerView, t: TxnId)
    ensures
        (m.commit(t).1 == Err::<TxnId, Error>(Error::PhantomDetected)) <==> (m.active.contains_key(t) && m.phantom(t)),
{
}

/// The recently committed transactions keep every transaction that
/// committed after an active one began: a commit of another transaction
/// drops none of them, and the new commit joins them.
pub proof fn lemma_window_keeps_later_commits(m: TxnManagerView, u: TxnId, a: TxnId, c: TxnId)
    requires
        m.wf(),
        m.next_id < usize::MAX,
        m.active.contains_key(a),
        a != u,
    ensures
        m.committed.contains_key(c) && c > a ==> m.commit(u).0.committed.contains_key(c),
        m.commit(u).1 matches Ok(ts) ==> ts > a && m.commit(u).0.committed.contains_key(ts),
        m.commit(u).0.active.contains_key(a),
{
    let rest = m.active.remove(u);
    assert(rest.contains_key(a));
    if m.committed.contains_key(c) && c > a {
        assert(!TxnManagerView::prunable(c, rest));
    }
}

struct Txn {
    write_set: KeySet,
    read_set: KeySet,
}

impl Txn {
    spec fn view(&self) -> TxnView {
        TxnView { read_set: self.read_set@, write_set: self.write_set@ }
    }

    spec fn wf(&self) -> bool {
        self.write_set.wf() && self.read_set.wf()
    }
}

/// A transaction under its identifier (active) or commit timestamp.
struct Record {
    id: TxnId,
    txn: Txn,
}

spec fn records_map(v: Seq<Record>) -> Map<TxnId, TxnView> {
    Map::new(
        |t: TxnId| exists|i: int| 0 <= i < v.len() && v[i].id == t,
        |t: TxnId| v[choose|i: int| 0 <= i < v.len() && v[i].id == t].txn.view(),
    )
}

spec fn records_wf(v: Seq<Record>) -> bool {
    &&& forall|i: int, j: int| 0 <= i < v.len() && 0 <= j < v.len() && #[trigger] v[i].id == #[trigger] v[j].id ==> i == j
    &&& forall|i: int| 0 <= i < v.len() ==> (#[trigger] v[i]).txn.wf()
}

proof fn lemma_records_index(v: Seq<Record>, i: int)
    requires
        records_wf(v),
        0 <= i < v.len(),
    ensures
        records_map(v).contains_key(v[i].id),
        records_map(v)[v[i].id] == v[i].txn.view(),
{
    let j = choose|j: int| 0 <= j < v.len() && v[j].id == v[i].id;
    assert(v[j].id == v[i].id);
}

proof fn lemma_records_push(v: Seq<Record>, r: Record)
    requires
        records_wf(v),
        !records_map(v).contains_key(r.id),
        r.txn.wf(),
    ensures
        records_wf(v.push(r)),
        records_map(v.push(r)) == records_map(v).insert(r.id, r.txn.view()),
{
    let w = v.push(r);
    assert forall|i: int, j: int| 0 <= i < w.len() && 0 <= j < w.len() && #[trigger] w[i].id == #[trigger] w[j].id implies i == j by {
        if i < v.len() && j == v.len() {
            assert(records_map(v).contains_key(v[i].id));
        }
        if j < v.len() && i == v.len() {
            assert(records_map(v).contains_key(v[j].id));
        }
    }
    assert(records_wf(w));
    assert forall|t: TxnId| #[trigger] records_map(w).contains_key(t) == records_map(v).insert(r.id, r.txn.view()).contains_key(t) by {
        if records_map(v).contains_key(t) {
            let i = choose|i: int| 0 <= i < v.len() && v[i].id == t;
            assert(w[i].id == t);
        }
        if t == r.id {
            assert(w[v.len() as int].id == t);
        }
        if records_map(w).contains_key(t) && t != r.id {
            let i = choose|i: int| 0 <= i < w.len() && w[i].id == t;
            assert(v[i].id == t);
        }
    }
    assert forall|t: TxnId| #[trigger] records_map(w).contains_key(t) implies records_map(w)[t] == records_map(v).insert(r.id, r.txn.view())[t] by {
        let i = choose|i: int| 0 <= i < w.len() && w[i].id == t;
        lemma_records_index(w, i);
        if i < v.len() {
            lemma_records_index(v, i);
        }
    }
    assert(records_map(w) =~= records_map(v).insert(r.id, r.txn.view()));
}

proof fn lemma_records_remove(v: Seq<Record>, i: int)
    requires
        records_wf(v),
        0 <= i < v.len(),
    ensures
        records_wf(v.remove(i)),
        records_map(v.remove(i)) == records_map(v).remove(v[i].id),
{
    let w = v.remove(i);
    assert forall|a: int, b: int| 0 <= a < w.len() && 0 <= b < w.len() && #[trigger] w[a].id == #[trigger] w[b].id implies a == b by {
        let a1 = if a < i { a } else { a + 1 };
        let b1 = if b < i { b } else { b + 1 };
        assert(v[a1].id == v[b1].id);
    }
    assert forall|a: int| 0 <= a < w.len() implies (#[trigger] w[a]).txn.wf() by {
        let a1 = if a < i { a } else { a + 1 };
        assert(w[a] == v[a1]);
    }
    assert forall|t: TxnId| #[trigger] records_map(w).contains_key(t) == records_map(v).remove(v[i].id).contains_key(t) by {
        if records_map(w).contains_key(t) {
            let a = choose|a: int| 0 <= a < w.len() && w[a].id == t;
            let a1 = if a < i { a } else { a + 1 };
            assert(v[a1].id == t);
        }
        if records_map(v).contains_key(t) && t != v[i].id {
            let a = choose|a: int| 0 <= a < v.len() && v[a].id == t;
            let a1 = if a < i { a } else { a - 1 };
            assert(w[a1].id == t);
        }
    }
    assert forall|t: TxnId| #[trigger] records_map(w).contains_key(t) implies records_map(w)[t] == records_map(v).remove(v[i].id)[t] by {
        let a = choose|a: int| 0 <= a < w.len() && w[a].id == t;
        let a1 = if a < i { a } else { a + 1 };
        lemma_records_index(w, a);
        lemma_records_index(v, a1);
    }
    assert(records_map(w) =~= records_map(v).remove(v[i].id));
}

/// Hands out identifiers, keeps the active and the recently committed
/// transactions, and validates commits.
pub struct TxnManager {
    next_txn_id: TxnId,
    active_txns: Vec<Record>,
    recently_committed_txns: Vec<Record>,
}

impl View for TxnManager {
    type V = TxnManagerView;

    closed spec fn view(&self) -> TxnManagerView {
        TxnManagerView {
            next_id: self.next_txn_id as nat,
            active: records_map(self.active_txns@),
            committed: records_map(self.recently_committed_txns@),
        }
    }
}

impl TxnManager {
    pub closed spec fn wf(&self) -> bool {
        &&& records_wf(self.active_txns@)
        &&& records_wf(self.recently_committed_txns@)
        &&& forall|i: int, j: int| 0 <= i < j < self.active_txns@.len() ==> self.active_txns@[i].id < self.active_txns@[j].id
        &&& self@.wf()
    }

    /// A well-formed manager has a well-formed view.
    pub proof fn lemma_view_wf(&self)
        requires
            self.wf(),
        ensures
            self@.wf(),
    {
    }

    pub fn new() -> (r: TxnManager)
        ensures
            r.wf(),
            r@ == (TxnManagerView { next_id: 0, active: Map::empty(), committed: Map::empty() }),
    {
        let r = TxnManager { next_txn_id: 0, active_txns: Vec::new(), recently_committed_txns: Vec::new() };
        assert(r@.active =~= Map::<TxnId, TxnView>::empty());
        assert(r@.committed =~= Map::<TxnId, TxnView>::empty());
        r
    }

    /// The identifier the next `begin_txn` or successful commit takes.
    pub fn next_txn_id(&self) -> (r: TxnId)
        ensures
            r == self@.next_id,
    {
        self.next_txn_id
    }

    fn find_active(&self, txn_id: TxnId) -> (r: Option<usize>)
        requires
            self.wf(),
        ensures
            r matches Some(i) ==> i < self.active_txns@.len() && self.active_txns@[i as int].id == txn_id,
            r is None <==> !self@.active.contains_key(txn_id),
    {
        let mut i: usize = 0;
        while i < self.active_txns.len()
            invariant
                self.wf(),
                i <= self.active_txns@.len(),
                forall|j: int| 0 <= j < i ==> self.active_txns@[j].id != txn_id,
            decreases self.active_txns@.len() - i,
        {
            if self.active_txns[i].id == txn_id {
                proof {
                    lemma_records_index(self.active_txns@, i as int);
                }
                return Some(i);
            }
            i += 1;
        }
        None
    }

    pub fn is_active_txn(&self, txn_id: TxnId) -> (r: bool)
        requires
            self.wf(),
        ensures
            r == self@.active.contains_key(txn_id),
    {
        self.find_active(txn_id).is_some()
    }

    /// Starts a transaction under the next identifier.
    pub fn begin_txn(&mut self) -> (r: TxnId)
        requires
            old(self).wf(),
            old(self)@.next_id < usize::MAX,
        ensures
            final(self).wf(),
            (final(self)@, r) == old(self)@.begin(),
    {
        let txn_id = self.next_txn_id;
        assert(self@.active == records_map(self.active_txns@));
        assert(!self@.active.contains_key(txn_id));
        self.next_txn_id = self.next_txn_id + 1;
        let rec = Record { id: txn_id, txn: Txn { write_set: KeySet::new(), read_set: KeySet::new() } };
        proof {
            lemma_records_push(self.active_txns@, rec);
            assert(rec.txn.view() == empty_txn());
        }
        self.active_txns.push(rec);
        proof {
            assert forall|i: int| 0 <= i < self.active_txns@.len() - 1 implies self.active_txns@[i].id < txn_id by {
                lemma_records_index(old(self).active_txns@, i);
                assert(old(self)@.active.contains_key(old(self).active_txns@[i].id));
            }
            assert(self@.active == old(self)@.active.insert(txn_id, empty_txn()));
            assert(self@.committed == old(self)@.committed);
            assert forall|c: TxnId| #[trigger] self@.committed.contains_key(c) implies c < self@.next_id by {
                assert(old(self)@.committed.contains_key(c));
            }
            assert forall|t: TxnId| #[trigger] self@.active.contains_key(t) implies t < self@.next_id by {
                if t != txn_id {
                    assert(old(self)@.active.contains_key(t));
                }
            }
        }
        txn_id
    }

    /// Whether `txn_id`, which is at `i` among the active transactions, read
    /// a key that a transaction committed after it began wrote.
    fn detect_phantom(&self, txn_id: TxnId, i: usize) -> (r: bool)
        requires
            self.wf(),
            i < self.active_txns@.len(),
            self.active_txns@[i as int].id == txn_id,
        ensures
            r == self@.phantom(txn_id),
    {
        proof {
            lemma_records_index(self.active_txns@, i as int);
            assert(self.active_txns@[i as int].txn.wf());
        }
        let mut j: usize = 0;
        while j < self.recently_committed_txns.len()
            invariant
                self.wf(),
                i < self.active_txns@.len(),
                self.active_txns@[i as int].id == txn_id,
                self@.active[txn_id] == self.active_txns@[i as int].txn.view(),
                j <= self.recently_committed_txns@.len(),
                forall|m: int| 0 <= m < j ==> !(#[trigger] self.recently_committed_txns@[m].id > txn_id
                    && sets_overlap(self@.active[txn_id].read_set, self.recently_committed_txns@[m].txn.view().write_set)),
            decreases self.recently_committed_txns@.len() - j,
        {
            proof {
                assert(self.recently_committed_txns@[j as int].txn.wf());
                assert(self.active_txns@[i as int].txn.wf());
            }
            if self.recently_committed_txns[j].id > txn_id
                && self.active_txns[i].txn.read_set.overlaps(&self.recently_committed_txns[j].txn.write_set) {
                proof {
                    lemma_records_index(self.recently_committed_txns@, j as int);
                    assert(self@.committed.contains_key(self.recently_committed_txns@[j as int].id));
                }
                return true;
            }
            j += 1;
        }
        proof {
            if self@.phantom(txn_id) {
                let c = choose|c: TxnId| #[trigger] self@.committed.contains_key(c) && c > txn_id && sets_overlap(
                    self@.active[txn_id].read_set, self@.committed[c].write_set);
                let m = choose|m: int| 0 <= m < self.recently_committed_txns@.len() && self.recently_committed_txns@[m].id == c;
                lemma_records_index(self.recently_committed_txns@, m);
            }
        }
        false
    }

    /// Ends `txn_id`, which must be active, and commits it if no phantom is
    /// found: see `TxnManagerView::commit`. Returns the commit timestamp and
    /// the keys to commit, or the error and the keys to roll back.
    pub fn commit_txn(&mut self, txn_id: TxnId) -> (r: Result<(TxnId, KeySet), (Error, KeySet)>)
        requires
            old(self).wf(),
            old(self)@.next_id < usize::MAX,
        ensures
            final(self).wf(),
            final(self)@ == old(self)@.commit(txn_id).0,
            match old(self)@.commit(txn_id).1 {
                Ok(ts) => r matches Ok((c, ws)) && c == ts && ws.wf() && ws@ == old(self)@.active[txn_id].write_set,
                Err(e) => r matches Err((e2, ws)) && e2 == e && ws.wf() && (e == Error::PhantomDetected ==> ws@
                    == old(self)@.active[txn_id].write_set) && (e == Error::InvalidTxnId ==> ws@ == Map::<
                    u64,
                    Seq<Seq<u8>>,
                >::empty()),
            },
    {
        let i = match self.find_active(txn_id) {
            Some(i) => i,
            None => {
                return Err((Error::InvalidTxnId, KeySet::new()));
            },
        };
        let phantom = self.detect_phantom(txn_id, i);
        proof {
            lemma_records_index(self.active_txns@, i as int);
            lemma_records_remove(self.active_txns@, i as int);
        }
        let rec = self.active_txns.remove(i);
        proof {
            assert(rec.txn.wf());
            assert forall|a: int, b: int| 0 <= a < b < self.active_txns@.len() implies self.active_txns@[a].id < self.active_txns@[b].id by {
                let a1 = if a < i { a } else { a + 1 };
                let b1 = if b < i { b } else { b + 1 };
                assert(old(self).active_txns@[a1].id < old(self).active_txns@[b1].id);
            }
        }
        if phantom {
            return Err((Error::PhantomDetected, rec.txn.write_set));
        }
        let ghost rest = self@.active;
        // Drop the committed records older than every active transaction.
        let has_min = self.active_txns.len() > 0;
        let min_active: TxnId = if has_min { self.active_txns[0].id } else { 0 };
        proof {
            if has_min {
                assert forall|a: TxnId| #[trigger] rest.contains_key(a) implies min_active <= a by {
                    let k = choose|k: int| 0 <= k < self.active_txns@.len() && self.active_txns@[k].id == a;
                    if k > 0 {
                        assert(self.active_txns@[0].id < self.active_txns@[k].id);
                    }
                }
                lemma_records_index(self.active_txns@, 0);
            } else {
                assert(!(exists|a: TxnId| rest.contains_key(a)));
            }
        }
        let ghost old_committed = self@.committed;
        let mut old_recs: Vec<Record> = Vec::new();
        std::mem::swap(&mut old_recs, &mut self.recently_committed_txns);
        let ghost all = old_recs@;
        let mut kept: Vec<Record> = Vec::new();
        assert(records_map(kept@) =~= Map::<TxnId, TxnView>::empty());
        while old_recs.len() > 0
            invariant
                records_wf(all),
                records_map(all) == old_committed,
                old_recs@ == all.take(old_recs@.len() as int),
                old_recs@.len() <= all.len(),
                records_wf(kept@),
                records_map(kept@) == Map::new(
                    |c: TxnId| (exists|m: int| old_recs@.len() <= m < all.len() && all[m].id == c)
                        && !TxnManagerView::prunable(c, rest),
                    |c: TxnId| old_committed[c],
                ),
                has_min ==> (forall|c: TxnId| TxnManagerView::prunable(c, rest) <==> c < min_active),
                !has_min ==> (forall|c: TxnId| !TxnManagerView::prunable(c, rest)),
            decreases old_recs@.len(),
        {
            let ghost n = old_recs@.len() as int;
            let r = old_recs.pop().unwrap();
            assert(r == all[n - 1]);
            let keep = !has_min || r.id >= min_active;
            let ghost before = kept@;
            if keep {
                proof {
                    assert(!records_map(before).contains_key(r.id)) by {
                        if records_map(before).contains_key(r.id) {
                            let m = choose|m: int| n <= m < all.len() && all[m].id == r.id;
                            assert(all[m].id == all[n - 1].id);
                        }
                    }
                    assert(r.txn.wf());
                    lemma_records_push(before, r);
                    lemma_records_index(all, n - 1);
                }
                kept.push(r);
            }
            proof {
                let target = Map::new(
                    |c: TxnId| (exists|m: int| n - 1 <= m < all.len() && all[m].id == c)
                        && !TxnManagerView::prunable(c, rest),
                    |c: TxnId| old_committed[c],
                );
                assert forall|c: TxnId| #[trigger] records_map(kept@).contains_key(c) == target.contains_key(c) by {
                    if c == all[n - 1].id {
                    } else {
                        if exists|m: int| n - 1 <= m < all.len() && all[m].id == c {
                            let m = choose|m: int| n - 1 <= m < all.len() && all[m].id == c;
                            assert(m != n - 1);
                        }
                    }
                }
                assert forall|c: TxnId| #[trigger] records_map(kept@).contains_key(c) implies records_map(kept@)[c] == target[c] by {
                }
                assert(records_map(kept@) =~= target);
                assert(old_recs@ =~= all.take(n - 1));
            }
        }
        proof {
            let target = Map::new(
                |c: TxnId| old_committed.contains_key(c) && !TxnManagerView::prunable(c, rest),
                |c: TxnId| old_committed[c],
            );
            assert forall|c: TxnId| #[trigger] records_map(kept@).contains_key(c) == target.contains_key(c) by {
                if old_committed.contains_key(c) {
                    let m = choose|m: int| 0 <= m < all.len() && all[m].id == c;
                }
            }
            assert(records_map(kept@) =~= target);
        }
        self.recently_committed_txns = kept;
        let commit_ts = self.next_txn_id;
        self.next_txn_id = self.next_txn_id + 1;
        let ws = rec.txn.write_set.copy();
        let committed = Record { id: commit_ts, txn: rec.txn };
        proof {
            assert(!records_map(self.recently_committed_txns@).contains_key(commit_ts));
            lemma_records_push(self.recently_committed_txns@, committed);
        }
        self.recently_committed_txns.push(committed);
        Ok((commit_ts, ws))
    }

    /// Ends `txn_id` without committing; returns the keys it wrote, which
    /// are to be rolled back.
    pub fn abort_txn(&mut self, txn_id: TxnId) -> (r: Result<KeySet, Error>)
        requires
            old(self).wf(),
        ensures
            final(self).wf(),
            final(self)@ == old(self)@.abort(txn_id).0,
            match old(self)@.abort(txn_id).1 {
                Ok(_) => r matches Ok(ws) && ws.wf() && ws@ == old(self)@.active[txn_id].write_set,
                Err(e) => r == Err::<KeySet, Error>(e),
            },
    {
        let i = match self.find_active(txn_id) {
            Some(i) => i,
            None => {
                return Err(Error::InvalidTxnId);
            },
        };
        proof {
            lemma_records_index(self.active_txns@, i as int);
            lemma_records_remove(self.active_txns@, i as int);
        }
        let rec = self.active_txns.remove(i);
        proof {
            assert(rec.txn.wf());
            assert forall|a: int, b: int| 0 <= a < b < self.active_txns@.len() implies self.active_txns@[a].id < self.active_txns@[b].id by {
                let a1 = if a < i { a } else { a + 1 };
                let b1 = if b < i { b } else { b + 1 };
                assert(old(self).active_txns@[a1].id < old(self).active_txns@[b1].id);
            }
        }
        Ok(rec.txn.write_set)
    }

    /// Adds `key` of keyspace `keyspace_id` to the read set (`write` false)
    /// or the write set of the active transaction `txn_id`.
    fn record(&mut self, txn_id: TxnId, keyspace_id: u64, key: &Vec<u8>, write: bool)
        requires
            old(self).wf(),
            old(self)@.active.contains_key(txn_id),
        ensures
            final(self).wf(),
            final(self)@ == if write {
                old(self)@.record_write(txn_id, keyspace_id, key@)
            } else {
                old(self)@.record_read(txn_id, keyspace_id, key@)
            },
    {
        let i = self.find_active(txn_id).unwrap();
        proof {
            lemma_records_index(self.active_txns@, i as int);
            lemma_records_remove(self.active_txns@, i as int);
        }
        let mut rec = self.active_txns.remove(i);
        let ghost mid = self.active_txns@;
        proof {
            assert(rec.txn.wf());
        }
        if write {
            rec.txn.write_set.add_key(keyspace_id, key);
        } else {
            rec.txn.read_set.add_key(keyspace_id, key);
        }
        self.active_txns.insert(i, rec);
        proof {
            let v = self.active_txns@;
            assert(v.remove(i as int) =~= mid);
            assert forall|a: int, b: int| 0 <= a < v.len() && 0 <= b < v.len() && #[trigger] v[a].id == #[trigger] v[b].id implies a == b by {
                assert(v[a].id == old(self).active_txns@[a].id);
                assert(v[b].id == old(self).active_txns@[b].id);
            }
            assert forall|a: int| 0 <= a < v.len() implies (#[trigger] v[a]).txn.wf() by {
                if a != i {
                    assert(v[a] == old(self).active_txns@[a]);
                }
            }
            assert forall|a: int, b: int| 0 <= a < b < v.len() implies v[a].id < v[b].id by {
                assert(v[a].id == old(self).active_txns@[a].id);
                assert(v[b].id == old(self).active_txns@[b].id);
            }
            lemma_records_index(v, i as int);
            lemma_records_remove(v, i as int);
            let target = if write {
                old(self)@.record_write(txn_id, keyspace_id, key@)
            } else {
                old(self)@.record_read(txn_id, keyspace_id, key@)
            };
            assert forall|t: TxnId| #[trigger] records_map(v).contains_key(t) == target.active.contains_key(t) by {
                if t != txn_id {
                    assert(records_map(v).remove(txn_id).contains_key(t) == records_map(mid).contains_key(t));
                }
            }
            assert forall|t: TxnId| #[trigger] records_map(v).contains_key(t) implies records_map(v)[t] == target.active[t] by {
                if t != txn_id {
                    assert(records_map(v).remove(txn_id)[t] == records_map(mid)[t]);
                }
            }
            assert(records_map(v) =~= target.active);
        }
    }

    pub fn record_write(&mut self, txn_id: TxnId, keyspace_id: u64, key: &Vec<u8>)
        requires
            old(self).wf(),
            old(self)@.active.contains_key(txn_id),
        ensures
            final(self).wf(),
            final(self)@ == old(self)@.record_write(txn_id, keyspace_id, key@),
    {
        self.record(txn_id, keyspace_id, key, true)
    }

    pub fn record_read(&mut self, txn_id: TxnId, keyspace_id: u64, key: &Vec<u8>)
        requires
            old(self).wf(),
            old(self)@.active.contains_key(txn_id),
        ensures
            final(self).wf(),
            final(self)@ == old(self)@.record_read(txn_id, keyspace_id, key@),
    {
        self.record(txn_id, keyspace_id, key, false)
    }
}

} // verus!
