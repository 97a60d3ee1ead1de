use vstd::prelude::*;
use crate::encode::{Decode, Encode};
use crate::kvs::{self, lemma_read_keeps_reads, Store, StoreView, TxnId};
use crate::rdbms::datatype::DataType;
use crate::rdbms::error::Error;
use crate::rdbms::key::{column_key, database_key, table_key, Key, KeySpace};
use crate::rdbms::meta::{ColumnMeta, DatabaseMeta, SystemMeta, TableMeta};

verus! {

/// The id of the catalog's keyspace.
pub open spec fn catalog_space() -> u64 {
    0
}

/// What the catalog record under `key` reads as for `t`.
pub open spec fn catalog_read(store: StoreView, t: TxnId, key: Seq<u8>) -> Option<Seq<u8>> {
    store.spaces[catalog_space()].read(t, key)
}

/// Whether `r` is the result of looking up a record that reads as `bytes`:
/// `missing` where there is none, the decoded record, or why it does not
/// decode.
pub open spec fn meta_read<V: Decode>(r: Result<V, Error>, bytes: Option<Seq<u8>>, missing: Error) -> bool {
    match bytes {
        None => r == Err::<V, Error>(missing),
        Some(b) => match V::decoding(b) {
            Ok((v, _)) => r is Ok && r->Ok_0.deep_view() == v,
            Err(e) => r == Err::<V, Error>(Error::KvsError(kvs::Error::EncodeError(e))),
        },
    }
}

/// Whether `bytes` hold a record that decodes as a `V`.
pub open spec fn holds_record<V: Decode>(bytes: Option<Seq<u8>>) -> bool {
    match bytes {
        Some(b) => V::decoding(b) is Ok,
        None => false,
    }
}

/// Whether the store can serve `t` at all: it is active and the catalog's
/// keyspace exists; otherwise every lookup fails with the store's error.
pub open spec fn serves(store: StoreView, t: TxnId) -> bool {
    store.txns.active.contains_key(t) && store.spaces.contains_key(catalog_space())
}

/// The error every catalog operation returns where the store cannot serve
/// `t`.
pub open spec fn serve_error(store: StoreView, t: TxnId) -> Error {
    if !store.txns.active.contains_key(t) {
        Error::KvsError(kvs::Error::InvalidTxnId)
    } else {
        Error::KvsError(kvs::Error::UndefinedKeySpace)
    }
}

/// Databases, tables and columns, kept as records in the catalog keyspace
/// of a store.
pub struct Catalog {}

impl Catalog {
    /// A catalog over `store`; defines its keyspace.
    pub fn new(store: &mut Store) -> (r: Catalog)
        requires
            old(store).wf(),
        ensures
            final(store).wf(),
            final(store)@.txns == old(store)@.txns,
            final(store)@.spaces.contains_key(catalog_space()),
    {
        store.define_keyspace(KeySpace::Catalog);
        Catalog {}
    }

    /// Reads the record under `key` as a `V`; `missing` when there is none.
    fn lookup<V: Decode>(&self, store: &mut Store, txn_id: TxnId, key: &Key, missing: Error) -> (r: Result<V, Error>)
        requires
            old(store).wf(),
        ensures
            final(store).wf(),
            !serves(old(store)@, txn_id) ==> r == Err::<V, Error>(serve_error(old(store)@, txn_id)),
            serves(old(store)@, txn_id) ==> meta_read(r, catalog_read(old(store)@, txn_id, key.encoding()), missing),
            serves(old(store)@, txn_id) ==> serves(final(store)@, txn_id) && final(store)@.spaces
                == old(store)@.spaces.insert(
                catalog_space(),
                old(store)@.spaces[catalog_space()].after_read(txn_id, key.encoding()),
            ),
    {
        match store.get::<KeySpace, Key, V>(txn_id, KeySpace::Catalog, key) {
            Ok(Some(v)) => Ok(v),
            Ok(None) => Err(missing),
            Err(e) => Err(Error::KvsError(e)),
        }
    }

    fn store_record<V: Encode>(&self, store: &mut Store, txn_id: TxnId, key: &Key, val: &V) -> (r: Result<(), Error>)
        requires
            old(store).wf(),
        ensures
            final(store).wf(),
            !serves(old(store)@, txn_id) ==> r == Err::<(), Error>(serve_error(old(store)@, txn_id)),
    {
        match store.set(txn_id, KeySpace::Catalog, key, val) {
            Ok(()) => Ok(()),
            Err(e) => Err(Error::KvsError(e)),
        }
    }

    pub fn get_database_meta(&self, store: &mut Store, txn_id: TxnId, db_name: &str) -> (r: Result<DatabaseMeta, Error>)
        requires
            old(store).wf(),
        ensures
            final(store).wf(),
            !serves(old(store)@, txn_id) ==> r == Err::<DatabaseMeta, Error>(serve_error(old(store)@, txn_id)),
            serves(old(store)@, txn_id) ==> meta_read(
                r,
                catalog_read(old(store)@, txn_id, database_key(db_name@)),
                Error::DatabaseDoesNotExist,
            ),
    {
        let key = Key::DatabaseMeta { db: db_name.to_owned() };
        self.lookup(store, txn_id, &key, Error::DatabaseDoesNotExist)
    }

    pub fn get_table_meta(&self, store: &mut Store, txn_id: TxnId, db_name: &str, tbl_name: &str) -> (r: Result<TableMeta, Error>)
        requires
            old(store).wf(),
        ensures
            final(store).wf(),
            !serves(old(store)@, txn_id) ==> r == Err::<TableMeta, Error>(serve_error(old(store)@, txn_id)),
            serves(old(store)@, txn_id) ==> meta_read(
                r,
                catalog_read(old(store)@, txn_id, table_key(db_name@, tbl_name@)),
                Error::TableDoesNotExist,
            ),
    {
        let key = Key::TableMeta { db: db_name.to_owned(), tbl: tbl_name.to_owned() };
        self.lookup(store, txn_id, &key, Error::TableDoesNotExist)
    }

    pub fn get_column_meta(&self, store: &mut Store, txn_id: TxnId, db_name: &str, tbl_name: &str, col_name: &str) -> (r: Result<ColumnMeta, Error>)
        requires
            old(store).wf(),
        ensures
            final(store).wf(),
            !serves(old(store)@, txn_id) ==> r == Err::<ColumnMeta, Error>(serve_error(old(store)@, txn_id)),
            serves(old(store)@, txn_id) ==> meta_read(
                r,
                catalog_read(old(store)@, txn_id, column_key(db_name@, tbl_name@, col_name@)),
                Error::ColumnDoesNotExist,
            ),
    {
        let key = Key::ColumnMeta { db: db_name.to_owned(), tbl: tbl_name.to_owned(), col: col_name.to_owned() };
        self.lookup(store, txn_id, &key, Error::ColumnDoesNotExist)
    }

    /// The list of databases; empty where none was created.
    pub fn get_system_meta(&self, store: &mut Store, txn_id: TxnId) -> (r: Result<SystemMeta, Error>)
        requires
            old(store).wf(),
        ensures
            final(store).wf(),
            !serves(old(store)@, txn_id) ==> r == Err::<SystemMeta, Error>(serve_error(old(store)@, txn_id)),
            serves(old(store)@, txn_id) ==> match catalog_read(old(store)@, txn_id, seq![0u8]) {
                None => r is Ok && r->Ok_0.deep_view() == Seq::<Seq<char>>::empty(),
                Some(b) => meta_read(r, Some(b), Error::DatabaseDoesNotExist),
            },
            r matches Ok(m) ==> m.wf(),
    {
        self.get_or_create_system_meta(store, txn_id)
    }

    fn get_or_create_system_meta(&self, store: &mut Store, txn_id: TxnId) -> (r: Result<SystemMeta, Error>)
        requires
            old(store).wf(),
        ensures
            final(store).wf(),
            !serves(old(store)@, txn_id) ==> r == Err::<SystemMeta, Error>(serve_error(old(store)@, txn_id)),
            serves(old(store)@, txn_id) ==> match catalog_read(old(store)@, txn_id, seq![0u8]) {
                None => r is Ok && r->Ok_0.deep_view() == Seq::<Seq<char>>::empty(),
                Some(b) => meta_read(r, Some(b), Error::DatabaseDoesNotExist),
            },
            r matches Ok(m) ==> m.wf(),
    {
        match self.lookup::<SystemMeta>(store, txn_id, &Key::SystemMeta, Error::DatabaseDoesNotExist) {
            Ok(m) => Ok(m),
            Err(Error::DatabaseDoesNotExist) => Ok(SystemMeta::new()),
            Err(e) => Err(e),
        }
    }

    /// Creates the database `db_name`: its record, and its name in the list
    /// of databases.
    pub fn create_database(&self, store: &mut Store, txn_id: TxnId, db_name: &str) -> (r: Result<(), Error>)
        requires
            old(store).wf(),
        ensures
            final(store).wf(),
            !serves(old(store)@, txn_id) ==> r == Err::<(), Error>(serve_error(old(store)@, txn_id)),
            serves(old(store)@, txn_id) && holds_record::<DatabaseMeta>(catalog_read(old(store)@, txn_id, database_key(db_name@))) ==> r == Err::<(), Error>(Error::DatabaseAlreadyExists),
    {
        match self.add_db_meta(store, txn_id, db_name) {
            Ok(()) => {},
            Err(e) => {
                return Err(e);
            },
        }
        self.add_db_to_system_meta(store, txn_id, db_name)
    }

    fn add_db_meta(&self, store: &mut Store, txn_id: TxnId, db_name: &str) -> (r: Result<(), Error>)
        requires
            old(store).wf(),
        ensures
            final(store).wf(),
            !serves(old(store)@, txn_id) ==> r == Err::<(), Error>(serve_error(old(store)@, txn_id)),
            serves(old(store)@, txn_id) && holds_record::<DatabaseMeta>(catalog_read(old(store)@, txn_id, database_key(db_name@))) ==> r == Err::<(), Error>(Error::DatabaseAlreadyExists),
    {
        let key = Key::DatabaseMeta { db: db_name.to_owned() };
        match self.lookup::<DatabaseMeta>(store, txn_id, &key, Error::DatabaseDoesNotExist) {
            Ok(_) => Err(Error::DatabaseAlreadyExists),
            Err(Error::DatabaseDoesNotExist) => self.store_record(store, txn_id, &key, &DatabaseMeta::new()),
            Err(e) => Err(e),
        }
    }

    fn add_db_to_system_meta(&self, store: &mut Store, txn_id: TxnId, db_name: &str) -> (r: Result<(), Error>)
        requires
            old(store).wf(),
        ensures
            final(store).wf(),
    {
        let mut system_meta = match self.get_or_create_system_meta(store, txn_id) {
            Ok(m) => m,
            Err(e) => {
                return Err(e);
            },
        };
        system_meta.insert_db_name(db_name);
        self.store_record(store, txn_id, &Key::SystemMeta, &system_meta)
    }

    /// Creates the table `tbl_name` of `db_name`: its record, and its name
    /// in the database's record. Both records are read before either is
    /// written.
    pub fn create_table(&self, store: &mut Store, txn_id: TxnId, db_name: &str, tbl_name: &str) -> (r: Result<(), Error>)
        requires
            old(store).wf(),
        ensures
            final(store).wf(),
            !serves(old(store)@, txn_id) ==> r == Err::<(), Error>(serve_error(old(store)@, txn_id)),
            serves(old(store)@, txn_id) && holds_record::<TableMeta>(
                catalog_read(old(store)@, txn_id, table_key(db_name@, tbl_name@)),
            ) ==> r == Err::<(), Error>(Error::TableAlreadyExists),
            serves(old(store)@, txn_id) && catalog_read(old(store)@, txn_id, table_key(db_name@, tbl_name@)) is None
                && catalog_read(old(store)@, txn_id, database_key(db_name@)) is None ==> r == Err::<(), Error>(
                Error::DatabaseDoesNotExist,
            ),
    {
        let tbl_key = Key::TableMeta { db: db_name.to_owned(), tbl: tbl_name.to_owned() };
        match self.lookup::<TableMeta>(store, txn_id, &tbl_key, Error::TableDoesNotExist) {
            Ok(_) => {
                return Err(Error::TableAlreadyExists);
            },
            Err(Error::TableDoesNotExist) => {},
            Err(e) => {
                return Err(e);
            },
        }
        let ghost mid = store@;
        proof {
            if serves(old(store)@, txn_id) {
                old(store).lemma_view_wf();
                lemma_read_keeps_reads(
                    old(store)@.spaces[catalog_space()],
                    txn_id,
                    table_key(db_name@, tbl_name@),
                    txn_id,
                    database_key(db_name@),
                );
            }
        }
        let db_key = Key::DatabaseMeta { db: db_name.to_owned() };
        let mut db_meta = match self.lookup::<DatabaseMeta>(store, txn_id, &db_key, Error::DatabaseDoesNotExist) {
            Ok(m) => m,
            Err(e) => {
                return Err(e);
            },
        };
        match self.store_record(store, txn_id, &tbl_key, &TableMeta::new()) {
            Ok(()) => {},
            Err(e) => {
                return Err(e);
            },
        }
        db_meta.insert_tbl_name(tbl_name);
        self.store_record(store, txn_id, &db_key, &db_meta)
    }

    /// Creates the column `col_name` of table `tbl_name`: its record, and
    /// its name in the table's record. Both records are read before either
    /// is written.
    pub fn create_column(&self, store: &mut Store, txn_id: TxnId, db_name: &str, tbl_name: &str, col_name: &str, data_type: DataType) -> (r: Result<(), Error>)
        requires
            old(store).wf(),
        ensures
            final(store).wf(),
            !serves(old(store)@, txn_id) ==> r == Err::<(), Error>(serve_error(old(store)@, txn_id)),
            serves(old(store)@, txn_id) && holds_record::<ColumnMeta>(
                catalog_read(old(store)@, txn_id, column_key(db_name@, tbl_name@, col_name@)),
            ) ==> r == Err::<(), Error>(Error::ColumnAlreadyExists),
            serves(old(store)@, txn_id) && catalog_read(old(store)@, txn_id, column_key(db_name@, tbl_name@, col_name@))
                is None && catalog_read(old(store)@, txn_id, table_key(db_name@, tbl_name@)) is None ==> r == Err::<
                (),
                Error,
            >(Error::TableDoesNotExist),
    {
        let col_key = Key::ColumnMeta { db: db_name.to_owned(), tbl: tbl_name.to_owned(), col: col_name.to_owned() };
        match self.lookup::<ColumnMeta>(store, txn_id, &col_key, Error::ColumnDoesNotExist) {
            Ok(_) => {
                return Err(Error::ColumnAlreadyExists);
            },
            Err(Error::ColumnDoesNotExist) => {},
            Err(e) => {
                return Err(e);
            },
        }
        proof {
            if serves(old(store)@, txn_id) {
                old(store).lemma_view_wf();
                lemma_read_keeps_reads(
                    old(store)@.spaces[catalog_space()],
                    txn_id,
                    column_key(db_name@, tbl_name@, col_name@),
                    txn_id,
                    table_key(db_name@, tbl_name@),
                );
            }
        }
        let tbl_key = Key::TableMeta { db: db_name.to_owned(), tbl: tbl_name.to_owned() };
        let mut tbl_meta = match self.lookup::<TableMeta>(store, txn_id, &tbl_key, Error::TableDoesNotExist) {
            Ok(m) => m,
            Err(e) => {
                return Err(e);
            },
        };
        match self.store_record(store, txn_id, &col_key, &ColumnMeta::new(data_type)) {
            Ok(()) => {},
            Err(e) => {
                return Err(e);
            },
        }
        tbl_meta.insert_col_name(col_name);
        self.store_record(store, txn_id, &tbl_key, &tbl_meta)
    }
}

} // verus!
