use vstd::prelude::*;
use crate::encode::{BytesReader, BytesWriter, Decode, Encode, Error as EncodeError};
use vstd::std_specs::slice::into_iter_elts;
use crate::encode::codec::deep_views;
use crate::rdbms::datatype::DataType;
use crate::rdbms::names::{names_sorted, DatabaseNameSet};

verus! {

/// The names of all databases.
#[derive(Debug, PartialEq, Eq)]
pub struct SystemMeta {
    db_names: DatabaseNameSet,
}

impl DeepView for SystemMeta {
    type V = Seq<Seq<char>>;

    closed spec fn deep_view(&self) -> Seq<Seq<char>> {
        self.db_names@
    }
}

impl SystemMeta {
    pub open spec fn wf(&self) -> bool {
        names_sorted(self.deep_view())
    }

    pub fn new() -> (r: SystemMeta)
        ensures
            r.wf(),
            r.deep_view() == Seq::<Seq<char>>::empty(),
    {
        SystemMeta { db_names: DatabaseNameSet::new() }
    }

    /// Adds `name`, keeping the names sorted and without repeats.
    pub fn insert_db_name(&mut self, name: &str)
        requires
            old(self).wf(),
        ensures
            final(self).wf(),
            final(self).deep_view().to_set() == old(self).deep_view().to_set().insert(name@),
    {
        self.db_names.insert(name)
    }

    /// The names in order.
    pub fn iter_db_names(&self) -> (r: std::slice::Iter<'_, String>)
        ensures
            deep_views(into_iter_elts(r)) == self.deep_view(),
    {
        self.db_names.iter()
    }
}

impl Encode for SystemMeta {
    closed spec fn encoding(&self) -> Seq<u8> {
        self.db_names.encoding()
    }

    fn encode(&self, w: &mut BytesWriter) {
        self.db_names.encode(w)
    }
}

impl Decode for SystemMeta {
    open spec fn decoding(bytes: Seq<u8>) -> Result<(Seq<Seq<char>>, nat), EncodeError> {
        DatabaseNameSet::decoding(bytes)
    }

    fn decode(r: &mut BytesReader) -> (res: Result<SystemMeta, EncodeError>) {
        match DatabaseNameSet::decode(r) {
            Ok(names) => Ok(SystemMeta { db_names: names }),
            Err(e) => Err(e),
        }
    }
}

/// The names of the tables of a database.
#[derive(Debug, PartialEq, Eq)]
pub struct DatabaseMeta {
    tbl_names: DatabaseNameSet,
}

impl DeepView for DatabaseMeta {
    type V = Seq<Seq<char>>;

    closed spec fn deep_view(&self) -> Seq<Seq<char>> {
        self.tbl_names@
    }
}

impl DatabaseMeta {
    pub open spec fn wf(&self) -> bool {
        names_sorted(self.deep_view())
    }

    pub fn new() -> (r: DatabaseMeta)
        ensures
            r.wf(),
            r.deep_view() == Seq::<Seq<char>>::empty(),
    {
        DatabaseMeta { tbl_names: DatabaseNameSet::new() }
    }

    /// Adds `name`, keeping the names sorted and without repeats.
    pub fn insert_tbl_name(&mut self, name: &str)
        requires
            old(self).wf(),
        ensures
            final(self).wf(),
            final(self).deep_view().to_set() == old(self).deep_view().to_set().insert(name@),
    {
        self.tbl_names.insert(name)
    }

    /// The names in order.
    pub fn iter_tbl_names(&self) -> (r: std::slice::Iter<'_, String>)
        ensures
            deep_views(into_iter_elts(r)) == self.deep_view(),
    {
        self.tbl_names.iter()
    }
}

impl Encode for DatabaseMeta {
    closed spec fn encoding(&self) -> Seq<u8> {
        self.tbl_names.encoding()
    }

    fn encode(&self, w: &mut BytesWriter) {
        self.tbl_names.encode(w)
    }
}

impl Decode for DatabaseMeta {
    open spec fn decoding(bytes: Seq<u8>) -> Result<(Seq<Seq<char>>, nat), EncodeError> {
        DatabaseNameSet::decoding(bytes)
    }

    fn decode(r: &mut BytesReader) -> (res: Result<DatabaseMeta, EncodeError>) {
        match DatabaseNameSet::decode(r) {
            Ok(names) => Ok(DatabaseMeta { tbl_names: names }),
            Err(e) => Err(e),
        }
    }
}

/// The names of the columns of a table.
#[derive(Debug, PartialEq, Eq)]
pub struct TableMeta {
    col_names: DatabaseNameSet,
}

impl DeepView for TableMeta {
    type V = Seq<Seq<char>>;

    closed spec fn deep_view(&self) -> Seq<Seq<char>> {
        self.col_names@
    }
}

impl TableMeta {
    pub open spec fn wf(&self) -> bool {
        names_sorted(self.deep_view())
    }

    pub fn new() -> (r: TableMeta)
        ensures
            r.wf(),
            r.deep_view() == Seq::<Seq<char>>::empty(),
    {
        TableMeta { col_names: DatabaseNameSet::new() }
    }

    /// Adds `name`, keeping the names sorted and without repeats.
    pub fn insert_col_name(&mut self, name: &str)
        requires
            old(self).wf(),
        ensures
            final(self).wf(),
            final(self).deep_view().to_set() == old(self).deep_view().to_set().insert(name@),
    {
        self.col_names.insert(name)
    }

    /// The names in order.
    pub fn iter_col_names(&self) -> (r: std::slice::Iter<'_, String>)
        ensures
            deep_views(into_iter_elts(r)) == self.deep_view(),
    {
        self.col_names.iter()
    }
}

impl Encode for TableMeta {
    closed spec fn encoding(&self) -> Seq<u8> {
        self.col_names.encoding()
    }

    fn encode(&self, w: &mut BytesWriter) {
        self.col_names.encode(w)
    }
}

impl Decode for TableMeta {
    open spec fn decoding(bytes: Seq<u8>) -> Result<(Seq<Seq<char>>, nat), EncodeError> {
        DatabaseNameSet::decoding(bytes)
    }

    fn decode(r: &mut BytesReader) -> (res: Result<TableMeta, EncodeError>) {
        match DatabaseNameSet::decode(r) {
            Ok(names) => Ok(TableMeta { col_names: names }),
            Err(e) => Err(e),
        }
    }
}

/// The description of a column.
#[derive(Debug, PartialEq, Eq)]
pub struct ColumnMeta {
    data_type: DataType,
}

impl DeepView for ColumnMeta {
    type V = DataType;

    closed spec fn deep_view(&self) -> DataType {
        self.data_type
    }
}

impl ColumnMeta {
    pub fn new(data_type: DataType) -> (r: ColumnMeta)
        ensures
            r.deep_view() == data_type,
    {
        ColumnMeta { data_type }
    }
}

impl Encode for ColumnMeta {
    closed spec fn encoding(&self) -> Seq<u8> {
        self.data_type.encoding()
    }

    fn encode(&self, w: &mut BytesWriter) {
        self.data_type.encode(w)
    }
}

impl Decode for ColumnMeta {
    open spec fn decoding(bytes: Seq<u8>) -> Result<(DataType, nat), EncodeError> {
        <DataType as Decode>::decoding(bytes)
    }

    fn decode(r: &mut BytesReader) -> (res: Result<ColumnMeta, EncodeError>) {
        match DataType::decode(r) {
            Ok(data_type) => Ok(ColumnMeta { data_type }),
            Err(e) => Err(e),
        }
    }
}

/// The description of an index; it holds nothing yet.
#[derive(Debug, PartialEq, Eq)]
pub struct IndexMeta {}

impl DeepView for IndexMeta {
    type V = ();

    open spec fn deep_view(&self) -> () {
        ()
    }
}

impl IndexMeta {
    pub fn new() -> IndexMeta {
        IndexMeta {}
    }
}

impl Encode for IndexMeta {
    /// No bytes.
    open spec fn encoding(&self) -> Seq<u8> {
        Seq::empty()
    }

    fn encode(&self, w: &mut BytesWriter) {
        assert(w@ =~= old(w)@ + self.encoding());
    }
}

impl Decode for IndexMeta {
    open spec fn decoding(bytes: Seq<u8>) -> Result<((), nat), EncodeError> {
        Ok(((), 0))
    }

    fn decode(r: &mut BytesReader) -> (res: Result<IndexMeta, EncodeError>) {
        assert(r.rest().skip(0) =~= r.rest());
        Ok(IndexMeta {})
    }
}

/// A database record; it holds nothing yet.
#[derive(Debug, PartialEq, Eq)]
pub struct Database {}

impl DeepView for Database {
    type V = ();

    open spec fn deep_view(&self) -> () {
        ()
    }
}

impl Database {
    pub fn new() -> Database {
        Database {}
    }
}

impl Encode for Database {
    /// No bytes.
    open spec fn encoding(&self) -> Seq<u8> {
        Seq::empty()
    }

    fn encode(&self, w: &mut BytesWriter) {
        assert(w@ =~= old(w)@ + self.encoding());
    }
}

impl Decode for Database {
    open spec fn decoding(bytes: Seq<u8>) -> Result<((), nat), EncodeError> {
        Ok(((), 0))
    }

    fn decode(r: &mut BytesReader) -> (res: Result<Database, EncodeError>) {
        assert(r.rest().skip(0) =~= r.rest());
        Ok(Database {})
    }
}

} // verus!
