//! The transactional storage engine: version chains, keyspaces, key sets,
//! the transaction manager and the store that routes operations.

mod error;
mod key;
mod keyset;
mod keyspace;
mod store;
mod txn;
mod value;
mod version;

pub use error::Error;
pub use key::{bytes_eq, key_bytes, Key};
pub use keyset::{byte_keys, keys_in, sets_overlap, with_key, KeySet};
pub use keyspace::{
    lemma_abort_restores, lemma_first_visible_prefix, lemma_read_keeps_reads, lemma_same_reads, lemma_keyspace_no_lost_update, lemma_read_your_write,
    lemma_rewrite_in_place, lemma_upsert_head, KeySpace, KeySpaceId, KeySpaceView,
};
pub use store::{abort_spaces, commit_spaces, finished, lemma_abort_reverts_write, lemma_no_lost_update, lemma_repeated_writes, Store, StoreView};
pub use txn::{
    empty_txn, lemma_ids_increase, lemma_phantom_detected, lemma_window_keeps_later_commits, TxnId, TxnManager,
    TxnManagerView, TxnView,
};
pub use version::{
    abort_version, after_read, append_next, chains_wf, commit_version, decodes_as, first_visible,
    lemma_commit_version_shape, lemma_first_visible_in_range, read_chain, uncommitted, Version, VersionId,
    VersionTable, VersionView, Visibility, WriteLock,
};
pub use value::{DeserializableValue, DeserializationError, SerializableValue, ValueSink};
