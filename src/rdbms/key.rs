use vstd::prelude::*;
use crate::encode::codec::encode_str;
use crate::encode::{BytesWriter, Encode};
use crate::kvs;

verus! {

/// The bytes of the key of a database's record.
pub open spec fn database_key(db: Seq<char>) -> Seq<u8> {
    seq![1u8] + encode_str(db)
}

/// The bytes of the key of a table's record.
pub open spec fn table_key(db: Seq<char>, tbl: Seq<char>) -> Seq<u8> {
    seq![2u8] + encode_str(db) + encode_str(tbl)
}

/// The bytes of the key of a column's record.
pub open spec fn column_key(db: Seq<char>, tbl: Seq<char>, col: Seq<char>) -> Seq<u8> {
    seq![3u8] + encode_str(db) + encode_str(tbl) + encode_str(col)
}

/// The keyspaces of the catalog.
#[derive(Debug, Clone, Copy, PartialEq, Eq, Hash)]
pub enum KeySpace {
    Catalog,
}

impl kvs::KeySpaceId for KeySpace {
    open spec fn spec_id(&self) -> u64 {
        0
    }

    fn id(&self) -> (r: u64) {
        0
    }
}

/// The key of a catalog record.
#[derive(Debug, PartialEq, Eq, Hash)]
pub enum Key {
    SystemMeta,
    DatabaseMeta { db: String },
    TableMeta { db: String, tbl: String },
    ColumnMeta { db: String, tbl: String, col: String },
}

impl Encode for Key {
    /// A tag byte, then the names.
    open spec fn encoding(&self) -> Seq<u8> {
        match self {
            Key::SystemMeta => seq![0u8],
            Key::DatabaseMeta { db } => database_key(db@),
            Key::TableMeta { db, tbl } => table_key(db@, tbl@),
            Key::ColumnMeta { db, tbl, col } => column_key(db@, tbl@, col@),
        }
    }

    fn encode(&self, w: &mut BytesWriter) {
        match self {
            Key::SystemMeta => {
                0u8.encode(w);
            },
            Key::DatabaseMeta { db } => {
                1u8.encode(w);
                db.encode(w);
            },
            Key::TableMeta { db, tbl } => {
                2u8.encode(w);
                db.encode(w);
                tbl.encode(w);
            },
            Key::ColumnMeta { db, tbl, col } => {
                3u8.encode(w);
                db.encode(w);
                tbl.encode(w);
                col.encode(w);
            },
        }
        assert(w@ =~= old(w)@ + self.encoding());
    }
}

impl kvs::Key for Key {
}

} // verus!
