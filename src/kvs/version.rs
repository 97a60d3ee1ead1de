use vstd::prelude::*;
use crate::encode::{BytesReader, BytesWriter, Decode, Encode};
use crate::kvs::error::Error;
use crate::kvs::txn::TxnId;

verus! {

/// Index of an entry in a `VersionTable`.
pub type VersionId = usize;

/// What a write installs: a tombstone or a value.
pub enum Version<'a, V: Encode> {
    Deleted,
    Value(&'a V),
}

impl<'a, V: Encode> Version<'a, V> {
    /// The bytes stored for this version, `None` for a tombstone.
    pub open spec fn payload(&self) -> Option<Seq<u8>> {
        match self {
            Version::Deleted => None,
            Version::Value(v) => Some(v.encoding()),
        }
    }
}

/// Which transaction, if any, holds the exclusive write on a version.
#[derive(Clone, Copy, Debug, PartialEq, Eq, Structural)]
pub enum WriteLock {
    Unlocked,
    Locked(TxnId),
}

/// Which transactions may observe a version.
#[derive(Clone, Copy, Debug, PartialEq, Eq, Structural)]
pub enum Visibility {
    /// Uncommitted: visible only to the transaction that wrote it.
    OnlyTxn { txn_id: TxnId },
    /// The newest committed version: visible from `begin_ts` on.
    AnyTxnDuringOrAfter { begin_ts: TxnId },
    /// A committed version superseded by a newer one: visible within
    /// `begin_ts..=end_ts`.
    AnyTxnWithinTimeInterval { begin_ts: TxnId, end_ts: TxnId },
}

impl Visibility {
    pub open spec fn admits(self, t: TxnId) -> bool {
        match self {
            Visibility::OnlyTxn { txn_id } => t == txn_id,
            Visibility::AnyTxnDuringOrAfter { begin_ts } => t >= begin_ts,
            Visibility::AnyTxnWithinTimeInterval { begin_ts, end_ts } => begin_ts <= t <= end_ts,
        }
    }

    pub fn is_visible_for_txn(&self, t: TxnId) -> (r: bool)
        ensures
            r == self.admits(t),
    {
        match *self {
            Visibility::OnlyTxn { txn_id } => t == txn_id,
            Visibility::AnyTxnDuringOrAfter { begin_ts } => t >= begin_ts,
            Visibility::AnyTxnWithinTimeInterval { begin_ts, end_ts } => t >= begin_ts && t <= end_ts,
        }
    }
}

/// One node of a key's version chain, with its value bytes resolved.
pub struct VersionView {
    pub write_lock: WriteLock,
    pub visibility: Visibility,
    pub read_ts: TxnId,
    pub previous: Option<VersionId>,
    pub deleted: bool,
    pub value: Seq<u8>,
}

/// A fresh uncommitted version of `t`: locked by `t`, visible only to `t`,
/// last read by `t`.
pub open spec fn uncommitted(t: TxnId, previous: Option<VersionId>, payload: Option<Seq<u8>>) -> VersionView {
    VersionView {
        write_lock: WriteLock::Locked(t),
        visibility: Visibility::OnlyTxn { txn_id: t },
        read_ts: t,
        previous,
        deleted: payload is None,
        value: match payload {
            Some(b) => b,
            None => Seq::empty(),
        },
    }
}

/// Every link of a chain points to an older entry.
pub open spec fn chains_wf(vs: Seq<VersionView>) -> bool {
    forall|i: int|
        0 <= i < vs.len() ==> match #[trigger] vs[i].previous {
            Some(p) => p < i,
            None => true,
        }
}

/// The first entry visible to `t` on the chain that starts at `id`.
pub open spec fn first_visible(vs: Seq<VersionView>, id: int, t: TxnId) -> Option<int>
    decreases id,
{
    if !(0 <= id < vs.len()) {
        None
    } else if vs[id].visibility.admits(t) {
        Some(id)
    } else {
        match vs[id].previous {
            Some(p) => if p < id {
                first_visible(vs, p as int, t)
            } else {
                None
            },
            None => None,
        }
    }
}

/// What `t` reads on the chain that starts at `id`: the bytes of the first
/// visible entry, or `None` where there is none or it is a tombstone.
pub open spec fn read_chain(vs: Seq<VersionView>, id: int, t: TxnId) -> Option<Seq<u8>> {
    match first_visible(vs, id, t) {
        Some(j) => if vs[j].deleted {
            None
        } else {
            Some(vs[j].value)
        },
        None => None,
    }
}

/// The entries after `t` read the chain that starts at `id`: the first
/// visible entry records `t` as a reader.
pub open spec fn after_read(vs: Seq<VersionView>, id: int, t: TxnId) -> Seq<VersionView> {
    match first_visible(vs, id, t) {
        Some(j) => vs.update(j, VersionView { read_ts: if t > vs[j].read_ts { t } else { vs[j].read_ts }, ..vs[j] }),
        None => vs,
    }
}

/// Whether `r` is what a read of `bytes` returns: `None` where there are no
/// bytes, else the value they decode to, or why they do not decode.
pub open spec fn decodes_as<V: Decode>(r: Result<Option<V>, Error>, bytes: Option<Seq<u8>>) -> bool {
    match bytes {
        None => r == Ok::<Option<V>, Error>(None),
        Some(b) => match V::decoding(b) {
            Ok((v, _)) => r is Ok && r->Ok_0 is Some && r->Ok_0->Some_0.deep_view() == v,
            Err(e) => r == Err::<Option<V>, Error>(Error::EncodeError(e)),
        },
    }
}

/// The effect of a write of `payload` by `t` on the chain whose head is
/// `prev`, and what it returns; `VersionNotFound` where there is no entry
/// `prev`.
pub open spec fn append_next(vs: Seq<VersionView>, t: TxnId, prev: int, payload: Option<Seq<u8>>) -> (
    Seq<VersionView>,
    Result<VersionId, Error>,
) {
    let e = vs[prev];
    if !(0 <= prev < vs.len()) {
        (vs, Err(Error::VersionNotFound))
    } else if e.read_ts > t {
        (vs, Err(Error::ReadWriteConflict))
    } else {
        match e.write_lock {
            WriteLock::Unlocked => (
                vs.update(prev, VersionView { write_lock: WriteLock::Locked(t), ..e }).push(
                    uncommitted(t, Some(prev as VersionId), payload),
                ),
                Ok(vs.len() as VersionId),
            ),
            WriteLock::Locked(l) => if l == t {
                (
                    vs.update(
                        prev,
                        VersionView {
                            deleted: payload is None,
                            value: match payload {
                                Some(b) => b,
                                None => Seq::empty(),
                            },
                            ..e
                        },
                    ),
                    Ok(prev as VersionId),
                )
            } else {
                (vs, Err(Error::WriteWriteConflict))
            },
        }
    }
}

/// The effect of committing the version `id` with commit timestamp `end_ts`:
/// an uncommitted entry becomes the newest committed one and gives up its
/// lock; its predecessor, if committed, is closed at `end_ts` and unlocked.
/// Entries in other states are left as they are.
pub open spec fn commit_version(vs: Seq<VersionView>, id: int, end_ts: TxnId) -> Seq<VersionView> {
    let e = vs[id];
    match e.visibility {
        Visibility::OnlyTxn { txn_id } => {
            let vs1 = vs.update(
                id,
                VersionView {
                    visibility: Visibility::AnyTxnDuringOrAfter { begin_ts: txn_id },
                    write_lock: WriteLock::Unlocked,
                    ..e
                },
            );
            match e.previous {
                Some(p) => match vs1[p as int].visibility {
                    Visibility::AnyTxnDuringOrAfter { begin_ts } => vs1.update(
                        p as int,
                        VersionView {
                            visibility: Visibility::AnyTxnWithinTimeInterval { begin_ts, end_ts },
                            write_lock: WriteLock::Unlocked,
                            ..vs1[p as int]
                        },
                    ),
                    _ => vs1,
                },
                None => vs1,
            }
        },
        _ => vs,
    }
}

/// Committing and reading keep the number of versions and the links.
pub proof fn lemma_commit_version_shape(vs: Seq<VersionView>, id: int, end_ts: TxnId, t: TxnId)
    requires
        0 <= id < vs.len(),
        chains_wf(vs),
    ensures
        commit_version(vs, id, end_ts).len() == vs.len(),
        after_read(vs, id, t).len() == vs.len(),
        chains_wf(commit_version(vs, id, end_ts)),
        chains_wf(after_read(vs, id, t)),
{
    let e = vs[id];
    assert(match vs[id].previous { Some(p) => p < id, None => true });
    let c = commit_version(vs, id, end_ts);
    assert forall|i: int| 0 <= i < c.len() implies match #[trigger] c[i].previous {
        Some(p) => p < i,
        None => true,
    } by {
        assert(c[i].previous == vs[i].previous);
    }
    lemma_first_visible_in_range(vs, id, t);
    let a = after_read(vs, id, t);
    assert forall|i: int| 0 <= i < a.len() implies match #[trigger] a[i].previous {
        Some(p) => p < i,
        None => true,
    } by {
        assert(a[i].previous == vs[i].previous);
    }
}

/// A read by `t` sees only a version visible to `t`: never another
/// transaction's uncommitted write, nor a version committed by a
/// transaction that began after `t`.
pub proof fn lemma_first_visible_in_range(vs: Seq<VersionView>, id: int, t: TxnId)
    ensures
        first_visible(vs, id, t) matches Some(j) ==> 0 <= j < vs.len() && vs[j].visibility.admits(t),
    decreases id,
{
    if 0 <= id < vs.len() && !vs[id].visibility.admits(t) {
        if let Some(p) = vs[id].previous {
            if p < id {
                lemma_first_visible_in_range(vs, p as int, t);
            }
        }
    }
}

/// The effect of aborting the version `id`: its predecessor, if any, gives
/// up its write lock.
pub open spec fn abort_version(vs: Seq<VersionView>, id: int) -> Seq<VersionView> {
    match vs[id].previous {
        Some(p) => vs.update(p as int, VersionView { write_lock: WriteLock::Unlocked, ..vs[p as int] }),
        None => vs,
    }
}

proof fn lemma_chains_same_links(a: Seq<VersionView>, b: Seq<VersionView>)
    requires
        chains_wf(a),
        a.len() == b.len(),
        forall|i: int| 0 <= i < a.len() ==> #[trigger] b[i].previous == a[i].previous,
    ensures
        chains_wf(b),
{
    assert forall|i: int| 0 <= i < b.len() implies match #[trigger] b[i].previous {
        Some(p) => p < i,
        None => true,
    } by {
        assert(b[i].previous == a[i].previous);
    }
}

struct VersionEntry {
    write_lock: WriteLock,
    visibility: Visibility,
    read_ts: TxnId,
    previous: Option<VersionId>,
    is_deleted: bool,
    start: usize,
    end: usize,
}

/// All versions of the keys of one keyspace, with the arena that holds
/// their value bytes.
pub struct VersionTable {
    entries: Vec<VersionEntry>,
    values: Vec<u8>,
}

impl View for VersionTable {
    type V = Seq<VersionView>;

    closed spec fn view(&self) -> Seq<VersionView> {
        Seq::new(
            self.entries@.len(),
            |i: int|
                VersionView {
                    write_lock: self.entries@[i].write_lock,
                    visibility: self.entries@[i].visibility,
                    read_ts: self.entries@[i].read_ts,
                    previous: self.entries@[i].previous,
                    deleted: self.entries@[i].is_deleted,
                    value: self.values@.subrange(self.entries@[i].start as int, self.entries@[i].end as int),
                },
        )
    }
}

impl VersionTable {
    pub closed spec fn wf(&self) -> bool {
        &&& forall|i: int|
            0 <= i < self.entries@.len() ==> #[trigger] self.entries@[i].start <= self.entries@[i].end
                <= self.values@.len()
        &&& chains_wf(self@)
    }

    pub proof fn lemma_wf(&self)
        requires
            self.wf(),
        ensures
            chains_wf(self@),
            self@.len() <= usize::MAX,
    {
        assert(self.entries.len() == self.entries@.len());
    }

    pub fn new() -> (r: VersionTable)
        ensures
            r.wf(),
            r@ == Seq::<VersionView>::empty(),
    {
        let r = VersionTable { entries: Vec::new(), values: Vec::new() };
        assert(r@ =~= Seq::<VersionView>::empty());
        r
    }

    pub fn len(&self) -> (r: usize)
        ensures
            r == self@.len(),
    {
        self.entries.len()
    }

    /// Appends the payload's bytes to the arena; returns their range.
    fn write_value_bytes<V: Encode>(&mut self, version: &Version<V>) -> (r: (bool, usize, usize))
        requires
            old(self).wf(),
        ensures
            final(self).wf(),
            final(self)@ == old(self)@,
            r.0 == (version.payload() is None),
            r.1 <= r.2 <= final(self).values@.len(),
            version.payload() matches Some(b) ==> final(self).values@.subrange(r.1 as int, r.2 as int) == b,
            r.2 - r.1 == 0 ==> version.payload() is None || version.payload()->Some_0.len() == 0,
    {
        match version {
            Version::Deleted => (true, 0, 0),
            Version::Value(val) => {
                let mut w = BytesWriter::new(Vec::new());
                val.encode(&mut w);
                let bytes = w.into_bytes();
                let ghost old_values = self.values@;
                let start = self.values.len();
                let mut i: usize = 0;
                while i < bytes.len()
                    invariant
                        i <= bytes@.len(),
                        self.entries == old(self).entries,
                        old_values == old(self).values@,
                        start == old_values.len(),
                        self.values@ == old_values + bytes@.take(i as int),
                    decreases bytes@.len() - i,
                {
                    self.values.push(bytes[i]);
                    i += 1;
                }
                assert(bytes@.take(bytes@.len() as int) == bytes@);
                assert(self.values@.subrange(start as int, self.values@.len() as int) =~= bytes@);
                assert forall|j: int| 0 <= j < self.entries@.len() implies
                    self.values@.subrange(self.entries@[j].start as int, self.entries@[j].end as int)
                    == old_values.subrange(self.entries@[j].start as int, self.entries@[j].end as int) by {
                    assert(self.values@.subrange(self.entries@[j].start as int, self.entries@[j].end as int)
                        =~= old_values.subrange(self.entries@[j].start as int, self.entries@[j].end as int));
                }
                assert(self@ =~= old(self)@);
                (false, start, self.values.len())
            },
        }
    }

    fn push_entry(&mut self, entry: VersionEntry)
        requires
            old(self).wf(),
            entry.start <= entry.end <= old(self).values@.len(),
            match entry.previous {
                Some(p) => p < old(self)@.len(),
                None => true,
            },
        ensures
            final(self).wf(),
            final(self)@ == old(self)@.push(
                VersionView {
                    write_lock: entry.write_lock,
                    visibility: entry.visibility,
                    read_ts: entry.read_ts,
                    previous: entry.previous,
                    deleted: entry.is_deleted,
                    value: old(self).values@.subrange(entry.start as int, entry.end as int),
                },
            ),
    {
        self.entries.push(entry);
        assert(self@ =~= old(self)@.push(
            VersionView {
                write_lock: entry.write_lock,
                visibility: entry.visibility,
                read_ts: entry.read_ts,
                previous: entry.previous,
                deleted: entry.is_deleted,
                value: old(self).values@.subrange(entry.start as int, entry.end as int),
            },
        ));
    }

    /// Replaces entry `i` with `e`, which keeps its link and a valid range.
    fn set_entry(&mut self, i: usize, e: VersionEntry)
        requires
            old(self).wf(),
            i < old(self)@.len(),
            e.previous == old(self).entries@[i as int].previous,
            e.start <= e.end <= old(self).values@.len(),
        ensures
            final(self).wf(),
            final(self).values == old(self).values,
            final(self).entries@ == old(self).entries@.update(i as int, e),
            final(self)@ == old(self)@.update(
                i as int,
                VersionView {
                    write_lock: e.write_lock,
                    visibility: e.visibility,
                    read_ts: e.read_ts,
                    previous: e.previous,
                    deleted: e.is_deleted,
                    value: old(self).values@.subrange(e.start as int, e.end as int),
                },
            ),
    {
        self.entries.set(i, e);
        assert(self@ =~= old(self)@.update(
            i as int,
            VersionView {
                write_lock: e.write_lock,
                visibility: e.visibility,
                read_ts: e.read_ts,
                previous: e.previous,
                deleted: e.is_deleted,
                value: old(self).values@.subrange(e.start as int, e.end as int),
            },
        ));
        proof {
            lemma_chains_same_links(old(self)@, self@);
        }
    }

    /// Starts a chain: appends an uncommitted version of `txn_id` with no
    /// predecessor and returns its id.
    pub fn append_first_version<V: Encode>(&mut self, txn_id: TxnId, version: Version<V>) -> (r: VersionId)
        requires
            old(self).wf(),
        ensures
            final(self).wf(),
            r == old(self)@.len(),
            final(self)@ == old(self)@.push(uncommitted(txn_id, None, version.payload())),
    {
        let (is_deleted, start, end) = self.write_value_bytes(&version);
        let ghost mid = self@;
        let entry = VersionEntry {
            write_lock: WriteLock::Locked(txn_id),
            visibility: Visibility::OnlyTxn { txn_id },
            read_ts: txn_id,
            previous: None,
            is_deleted,
            start: if is_deleted { 0 } else { start },
            end: if is_deleted { 0 } else { end },
        };
        self.push_entry(entry);
        proof {
            let u = uncommitted(txn_id, None, version.payload());
            if is_deleted {
                assert(self@.last().value =~= u.value);
            }
            assert(self@.last() == u);
            assert(self@ =~= old(self)@.push(u));
        }
        self.entries.len() - 1
    }

    /// Writes the next version of the chain whose head is `prev_version_id`.
    /// The write takes the head's lock: it fails with `ReadWriteConflict`
    /// when a later transaction has read the head, and with
    /// `WriteWriteConflict` when another transaction holds the lock. A head
    /// that is already this transaction's own uncommitted version is
    /// overwritten in place; otherwise a new version is appended after it.
    pub fn append_next_version<V: Encode>(&mut self, txn_id: TxnId, prev_version_id: VersionId, version: Version<V>) -> (r: Result<VersionId, Error>)
        requires
            old(self).wf(),
        ensures
            final(self).wf(),
            (final(self)@, r) == append_next(old(self)@, txn_id, prev_version_id as int, version.payload()),
    {
        let (is_deleted, start, end) = self.write_value_bytes(&version);
        let ghost mid = self@;
        let i = prev_version_id;
        if i >= self.entries.len() {
            return Err(Error::VersionNotFound);
        }
        if self.entries[i].read_ts > txn_id {
            return Err(Error::ReadWriteConflict);
        }
        match self.entries[i].write_lock {
            WriteLock::Unlocked => {
                let mut e = self.entries[i].clone_entry();
                e.write_lock = WriteLock::Locked(txn_id);
                self.set_entry(i, e);
                proof {
                    assert(self@ =~= mid.update(i as int, VersionView { write_lock: WriteLock::Locked(txn_id), ..mid[i as int] }));
                }
                let entry = VersionEntry {
                    write_lock: WriteLock::Locked(txn_id),
                    visibility: Visibility::OnlyTxn { txn_id },
                    read_ts: txn_id,
                    previous: Some(i),
                    is_deleted,
                    start: if is_deleted { 0 } else { start },
                    end: if is_deleted { 0 } else { end },
                };
                self.push_entry(entry);
                proof {
                    let u = uncommitted(txn_id, Some(i), version.payload());
                    if is_deleted {
                        assert(self@.last().value =~= u.value);
                    }
                    assert(self@.last() == u);
                }
                Ok(self.entries.len() - 1)
            },
            WriteLock::Locked(lock_txn_id) => {
                if lock_txn_id == txn_id {
                    let mut e = self.entries[i].clone_entry();
                    e.is_deleted = is_deleted;
                    e.start = if is_deleted { 0 } else { start };
                    e.end = if is_deleted { 0 } else { end };
                    self.set_entry(i, e);
                    proof {
                        let payload = version.payload();
                        let nv = VersionView {
                            deleted: payload is None,
                            value: match payload {
                                Some(b) => b,
                                None => Seq::empty(),
                            },
                            ..mid[i as int]
                        };
                        if is_deleted {
                            assert(self@[i as int].value =~= nv.value);
                        }
                        assert(self@ =~= mid.update(i as int, nv));
                    }
                    Ok(i)
                } else {
                    Err(Error::WriteWriteConflict)
                }
            },
        }
    }

    /// What `txn_id` reads on the chain that starts at `id`, decoded as a `V`.
    /// The entry read records `txn_id` as a reader. Fails with
    /// `VersionNotFound` where there is no entry `id`.
    pub fn retrieve<V: Decode>(&mut self, txn_id: TxnId, id: VersionId) -> (r: Result<Option<V>, Error>)
        requires
            old(self).wf(),
        ensures
            final(self).wf(),
            id >= old(self)@.len() ==> r == Err::<Option<V>, Error>(Error::VersionNotFound) && final(self)@
                == old(self)@,
            id < old(self)@.len() ==> final(self)@ == after_read(old(self)@, id as int, txn_id) && decodes_as(
                r,
                read_chain(old(self)@, id as int, txn_id),
            ),
    {
        if id >= self.entries.len() {
            return Err(Error::VersionNotFound);
        }
        let mut current_id = id;
        loop
            invariant
                self.wf(),
                self@ == old(self)@,
                id < self@.len(),
                current_id < self@.len(),
                first_visible(self@, current_id as int, txn_id) == first_visible(self@, id as int, txn_id),
            ensures
                self.wf(),
                self@ == old(self)@,
                current_id < self@.len(),
                first_visible(self@, current_id as int, txn_id) == first_visible(self@, id as int, txn_id),
                self@[current_id as int].visibility.admits(txn_id),
            decreases current_id,
        {
            if self.entries[current_id].visibility.is_visible_for_txn(txn_id) {
                break;
            }
            match self.entries[current_id].previous {
                None => {
                    return Ok(None);
                },
                Some(p) => {
                    assert(self@[current_id as int].previous == Some(p));
                    current_id = p;
                },
            }
        }
        let j = current_id;
        let mut e = self.entries[j].clone_entry();
        if txn_id > e.read_ts {
            e.read_ts = txn_id;
        }
        let ghost before = self@;
        assert(first_visible(before, j as int, txn_id) == Some(j as int));
        self.set_entry(j, e);
        assert(self@ =~= after_read(old(self)@, id as int, txn_id));
        proof {
            lemma_chains_same_links(before, self@);
        }
        if self.entries[j].is_deleted {
            return Ok(None);
        }
        let start = self.entries[j].start;
        let end = self.entries[j].end;
        let slice = &self.values.as_slice()[start..end];
        let mut reader = BytesReader::new(slice);
        assert(reader.rest() == before[j as int].value);
        match V::decode(&mut reader) {
            Ok(v) => Ok(Some(v)),
            Err(e) => Err(Error::EncodeError(e)),
        }
    }

    /// Commits the version `id` with commit timestamp `end_ts`; see
    /// `commit_version`.
    pub fn commit(&mut self, version_id: VersionId, end_ts: TxnId)
        requires
            old(self).wf(),
            version_id < old(self)@.len(),
        ensures
            final(self).wf(),
            final(self)@ == commit_version(old(self)@, version_id as int, end_ts),
    {
        let i = version_id;
        let txn_id = match self.entries[i].visibility {
            Visibility::OnlyTxn { txn_id } => txn_id,
            _ => {
                return;
            },
        };
        let mut e = self.entries[i].clone_entry();
        e.visibility = Visibility::AnyTxnDuringOrAfter { begin_ts: txn_id };
        e.write_lock = WriteLock::Unlocked;
        let previous = e.previous;
        self.set_entry(i, e);
        let ghost vs1 = self@;
        assert(vs1 =~= old(self)@.update(
            i as int,
            VersionView {
                visibility: Visibility::AnyTxnDuringOrAfter { begin_ts: txn_id },
                write_lock: WriteLock::Unlocked,
                ..old(self)@[i as int]
            },
        ));
        proof {
            lemma_chains_same_links(old(self)@, vs1);
        }
        if let Some(p) = previous {
            assert(p < i);
            match self.entries[p].visibility {
                Visibility::AnyTxnDuringOrAfter { begin_ts } => {
                    let mut pe = self.entries[p].clone_entry();
                    pe.visibility = Visibility::AnyTxnWithinTimeInterval { begin_ts, end_ts };
                    pe.write_lock = WriteLock::Unlocked;
                    self.set_entry(p, pe);
                    assert(self@ =~= vs1.update(
                        p as int,
                        VersionView {
                            visibility: Visibility::AnyTxnWithinTimeInterval { begin_ts, end_ts },
                            write_lock: WriteLock::Unlocked,
                            ..vs1[p as int]
                        },
                    ));
                    proof {
                        lemma_chains_same_links(vs1, self@);
                    }
                },
                _ => {},
            }
        }
    }

    /// Whether the version `id` is uncommitted.
    pub fn is_uncommitted(&self, version_id: VersionId) -> (r: bool)
        requires
            version_id < self@.len(),
        ensures
            r == (self@[version_id as int].visibility is OnlyTxn),
    {
        match self.entries[version_id].visibility {
            Visibility::OnlyTxn { .. } => true,
            _ => false,
        }
    }

    /// Aborts the version `id`: releases the lock its write took on its
    /// predecessor and returns the predecessor's id.
    pub fn abort(&mut self, version_id: VersionId) -> (r: Option<VersionId>)
        requires
            old(self).wf(),
            version_id < old(self)@.len(),
        ensures
            final(self).wf(),
            r == old(self)@[version_id as int].previous,
            final(self)@ == abort_version(old(self)@, version_id as int),
            r matches Some(p) ==> p < version_id,
    {
        let previous = self.entries[version_id].previous;
        assert(old(self)@[version_id as int].previous == previous);
        if let Some(p) = previous {
            let mut pe = self.entries[p].clone_entry();
            pe.write_lock = WriteLock::Unlocked;
            self.set_entry(p, pe);
            assert(self@ =~= abort_version(old(self)@, version_id as int));
        }
        previous
    }
}

impl VersionEntry {
    fn clone_entry(&self) -> (r: VersionEntry)
        ensures
            r == *self,
    {
        VersionEntry {
            write_lock: self.write_lock,
            visibility: self.visibility,
            read_ts: self.read_ts,
            previous: self.previous,
            is_deleted: self.is_deleted,
            start: self.start,
            end: self.end,
        }
    }
}

} // verus!
