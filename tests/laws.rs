use txkv::encode::{BytesReader, BytesWriter, Decode, Encode, Error as EncodeError};
use txkv::kvs::{
    DeserializableValue, DeserializationError, Error, KeySet, KeySpace, SerializableValue, Store,
    TxnManager,
};
use txkv::rdbms::{DataType, DatabaseNameSet, SystemMeta};

const KS: usize = 0;

fn bytes_of<V: Encode>(v: &V) -> Vec<u8> {
    let mut w = BytesWriter::new(Vec::new());
    v.encode(&mut w);
    w.into_bytes()
}

fn read_back<V: Decode>(bytes: &[u8]) -> Result<V, EncodeError> {
    let mut r = BytesReader::new(bytes);
    V::decode(&mut r)
}

#[test]
fn begin_ids_strictly_increase_across_commits() {
    let mut store = Store::new();
    let a = store.begin_txn();
    let b = store.begin_txn();
    assert_eq!((a, b), (0, 1));
    assert_eq!(store.commit_txn(a), Ok(()));
    // the commit took identifier 2 as its timestamp
    let c = store.begin_txn();
    assert_eq!(c, 3);
    assert_eq!(store.abort_txn(b), Ok(()));
    assert_eq!(store.begin_txn(), 4);
}

#[test]
fn repeated_writes_add_one_version() {
    let mut ks = KeySpace::new();
    let key = b"foo".to_vec();
    assert_eq!(ks.set(0, &key, &"a"), Ok(()));
    assert_eq!(ks.num_versions(), 1);
    assert_eq!(ks.set(0, &key, &"b"), Ok(()));
    assert_eq!(ks.delete(0, &key), Ok(()));
    assert_eq!(ks.num_versions(), 1);
    let keys = vec![key.clone()];
    ks.commit_keys(&keys, 1);
    assert_eq!(ks.set(2, &key, &"c"), Ok(()));
    assert_eq!(ks.set(2, &key, &"d"), Ok(()));
    assert_eq!(ks.num_versions(), 2);
    let r: Result<Option<String>, Error> = ks.get(2, &key);
    assert_eq!(r, Ok(Some("d".to_string())));
}

#[test]
fn second_writer_of_a_key_conflicts() {
    let mut ks = KeySpace::new();
    let key = b"k".to_vec();
    assert_eq!(ks.set(0, &key, &1u8), Ok(()));
    assert_eq!(ks.set(1, &key, &2u8), Err(Error::WriteWriteConflict));
    assert_eq!(ks.delete(1, &key), Err(Error::WriteWriteConflict));
}

#[test]
fn write_after_later_read_conflicts() {
    let mut ks = KeySpace::new();
    let key = b"k".to_vec();
    assert_eq!(ks.set(0, &key, &1u8), Ok(()));
    ks.commit_keys(&vec![key.clone()], 1);
    let r: Result<Option<u8>, Error> = ks.get(5, &key);
    assert_eq!(r, Ok(Some(1)));
    assert_eq!(ks.set(3, &key, &2u8), Err(Error::ReadWriteConflict));
    assert_eq!(ks.set(6, &key, &2u8), Ok(()));
}

#[test]
fn abort_keys_restores_committed_value() {
    let mut ks = KeySpace::new();
    let key = b"k".to_vec();
    let other = b"new".to_vec();
    assert_eq!(ks.set(0, &key, &"old"), Ok(()));
    ks.commit_keys(&vec![key.clone()], 1);
    assert_eq!(ks.set(2, &key, &"new"), Ok(()));
    assert_eq!(ks.set(2, &other, &"x"), Ok(()));
    ks.abort_keys(&vec![key.clone(), other.clone()]);
    let r: Result<Option<String>, Error> = ks.get(3, &key);
    assert_eq!(r, Ok(Some("old".to_string())));
    let r: Result<Option<String>, Error> = ks.get(3, &other);
    assert_eq!(r, Ok(None));
    // the lock taken by the aborted write is gone
    assert_eq!(ks.set(4, &key, &"next"), Ok(()));
}

#[test]
fn failed_commit_restores_reads_in_store() {
    let mut store = Store::new();
    store.define_keyspace(KS);
    let t0 = store.begin_txn();
    let t1 = store.begin_txn();
    assert_eq!(store.set(t0, KS, &"foo", &"phantom"), Ok(()));
    assert_eq!(store.commit_txn(t0), Ok(()));
    assert_eq!(store.get::<usize, &str, String>(t1, KS, &"foo"), Ok(Some("phantom".to_string())));
    assert_eq!(store.set(t1, KS, &"bar", &"revert"), Ok(()));
    assert_eq!(store.commit_txn(t1), Err(Error::PhantomDetected));
    assert_eq!(store.commit_txn(t1), Err(Error::InvalidTxnId));
    let t3 = store.begin_txn();
    assert_eq!(store.get::<usize, &str, String>(t3, KS, &"bar"), Ok(None));
}

#[test]
fn phantom_needs_overlap_in_same_keyspace() {
    let mut store = Store::new();
    store.define_keyspace(0usize);
    store.define_keyspace(1usize);
    let a = store.begin_txn();
    let b = store.begin_txn();
    assert_eq!(store.get::<usize, &str, String>(a, 1usize, &"foo"), Ok(None));
    assert_eq!(store.set(b, 0usize, &"foo", &"x"), Ok(()));
    assert_eq!(store.commit_txn(b), Ok(()));
    assert_eq!(store.commit_txn(a), Ok(()));
}

#[test]
fn undefined_keyspace_is_refused() {
    let mut store = Store::new();
    store.define_keyspace(KS);
    let t = store.begin_txn();
    assert_eq!(store.get::<usize, &str, String>(t, 9usize, &"foo"), Err(Error::UndefinedKeySpace));
    assert_eq!(store.set(t, 9usize, &"foo", &"x"), Err(Error::UndefinedKeySpace));
    assert_eq!(store.delete(t, 9usize, &"foo"), Err(Error::UndefinedKeySpace));
    assert_eq!(store.commit_txn(t), Ok(()));
}

#[test]
fn value_of_another_type_fails_to_decode() {
    let mut store = Store::new();
    store.define_keyspace(KS);
    let t = store.begin_txn();
    assert_eq!(store.set(t, KS, &"foo", &5u8), Ok(()));
    assert_eq!(
        store.get::<usize, &str, String>(t, KS, &"foo"),
        Err(Error::EncodeError(EncodeError::NotEnoughBytes))
    );
    assert_eq!(store.get::<usize, &str, u8>(t, KS, &"foo"), Ok(Some(5)));
}

#[test]
fn define_keyspace_twice_keeps_contents() {
    let mut store = Store::new();
    store.define_keyspace(KS);
    let t = store.begin_txn();
    assert_eq!(store.set(t, KS, &"foo", &"bar"), Ok(()));
    store.define_keyspace(KS);
    assert_eq!(store.get::<usize, &str, String>(t, KS, &"foo"), Ok(Some("bar".to_string())));
}

#[test]
fn with_txn_surfaces_commit_error() {
    let mut store = Store::new();
    store.define_keyspace(KS);
    let t0 = store.begin_txn();
    let r: Result<(), Error> = store.with_txn(|store, txn_id| {
        let v: Option<String> = store.get(txn_id, KS, &"foo")?;
        assert_eq!(v, None);
        store.set(t0, KS, &"foo", &"x")?;
        store.commit_txn(t0)
    });
    assert_eq!(r, Err(Error::PhantomDetected));
}

#[test]
fn little_endian_layouts() {
    assert_eq!(bytes_of(&598u16), vec![0x56, 0x02]);
    assert_eq!(bytes_of(&-1i16), vec![0xff, 0xff]);
    assert_eq!(bytes_of(&1usize), vec![1, 0, 0, 0, 0, 0, 0, 0]);
    assert_eq!(bytes_of(&-2i32), vec![0xfe, 0xff, 0xff, 0xff]);
    assert_eq!(bytes_of(&true), vec![1]);
    assert_eq!(bytes_of(&"ab"), vec![2, 0, 0, 0, 0, 0, 0, 0, 97, 98]);
    assert_eq!(bytes_of(&vec![7u16, 1u16]), vec![2, 0, 0, 0, 0, 0, 0, 0, 7, 0, 1, 0]);
    assert_eq!(bytes_of(&DataType::Int64), vec![0]);
}

#[test]
fn extreme_values_round_trip() {
    assert_eq!(read_back::<u64>(&bytes_of(&u64::MAX)), Ok(u64::MAX));
    assert_eq!(read_back::<i64>(&bytes_of(&i64::MIN)), Ok(i64::MIN));
    assert_eq!(read_back::<i32>(&bytes_of(&i32::MIN)), Ok(i32::MIN));
    assert_eq!(read_back::<i16>(&bytes_of(&i16::MAX)), Ok(i16::MAX));
    assert_eq!(read_back::<Vec<u8>>(&bytes_of(&Vec::<u8>::new())), Ok(Vec::new()));
    assert_eq!(read_back::<String>(&bytes_of(&String::new())), Ok(String::new()));
    assert_eq!(read_back::<bool>(&[7]), Ok(true));
    let nested = vec![vec!["a".to_string()], vec![], vec!["bc".to_string(), "é".to_string()]];
    assert_eq!(read_back::<Vec<Vec<String>>>(&bytes_of(&nested)), Ok(nested));
}

#[test]
fn short_input_is_not_enough_bytes() {
    assert_eq!(read_back::<u32>(&[1, 2, 3]), Err(EncodeError::NotEnoughBytes));
    assert_eq!(read_back::<u8>(&[]), Err(EncodeError::NotEnoughBytes));
    assert_eq!(read_back::<String>(&[3, 0, 0, 0, 0, 0, 0, 0, 97]), Err(EncodeError::NotEnoughBytes));
    assert_eq!(read_back::<Vec<u16>>(&[2, 0, 0, 0, 0, 0, 0, 0, 1, 0, 2]), Err(EncodeError::NotEnoughBytes));
}

#[test]
fn invalid_utf8_is_rejected() {
    assert_eq!(
        read_back::<String>(&[2, 0, 0, 0, 0, 0, 0, 0, 0xff, 0xfe]),
        Err(EncodeError::InvalidFormat("Invalid UTF8 string bytes"))
    );
    match String::deserialize(&[0xc3]) {
        Err(DeserializationError::InvalidFormat(m)) => assert_eq!(m, "Invalid UTF8 string bytes"),
        other => panic!("unexpected {:?}", other),
    }
    assert_eq!(String::deserialize("é".as_bytes()).unwrap(), "é");
}

#[test]
fn unknown_datatype_code_is_rejected() {
    assert_eq!(read_back::<DataType>(&[7]), Err(EncodeError::InvalidFormat("Unrecognized datatype")));
}

#[test]
fn raw_values_need_exact_length() {
    assert!(matches!(bool::deserialize(&[1, 0]), Err(DeserializationError::IncorrectLen)));
    assert!(matches!(u32::deserialize(&[1, 0]), Err(DeserializationError::IncorrectLen)));
    let mut sink = Vec::new();
    598u16.serialize(&mut sink);
    (-2i64).serialize(&mut sink);
    assert_eq!(sink.len(), 10);
    assert_eq!(u16::deserialize(&sink[0..2]).unwrap(), 598);
    assert_eq!(i64::deserialize(&sink[2..10]).unwrap(), -2);
}

#[test]
fn name_set_is_sorted_without_repeats() {
    let mut names = DatabaseNameSet::new();
    names.insert("b");
    names.insert("a");
    names.insert("b");
    names.insert("ab");
    let got: Vec<String> = names.iter().cloned().collect();
    assert_eq!(got, vec!["a", "ab", "b"]);
}

#[test]
fn unsorted_names_are_rejected() {
    let unsorted = vec!["b".to_string(), "a".to_string()];
    assert_eq!(
        read_back::<SystemMeta>(&bytes_of(&unsorted)),
        Err(EncodeError::InvalidFormat("Names out of order"))
    );
    let repeated = vec!["a".to_string(), "a".to_string()];
    assert!(read_back::<SystemMeta>(&bytes_of(&repeated)).is_err());
    let sorted = vec!["a".to_string(), "b".to_string()];
    let meta = read_back::<SystemMeta>(&bytes_of(&sorted)).unwrap();
    assert_eq!(meta.iter_db_names().len(), 2);
}

#[test]
fn key_sets_overlap_per_keyspace() {
    let mut a = KeySet::new();
    let mut b = KeySet::new();
    a.add_key(1, &b"x".to_vec());
    b.add_key(2, &b"x".to_vec());
    assert!(!a.overlaps(&b));
    b.add_key(1, &b"y".to_vec());
    assert!(!a.overlaps(&b));
    b.add_key(1, &b"x".to_vec());
    assert!(a.overlaps(&b));
    assert!(b.overlaps(&a));
    assert!(a.contains_key(1, b"x"));
    assert!(!a.contains_key(2, b"x"));
}

#[test]
fn txn_manager_ends_transactions_once() {
    let mut m = TxnManager::new();
    let t = m.begin_txn();
    assert!(m.is_active_txn(t));
    m.record_write(t, 0, &b"k".to_vec());
    match m.commit_txn(t) {
        Ok((ts, ws)) => {
            assert_eq!(ts, 1);
            assert!(ws.contains_key(0, b"k"));
        }
        Err(_) => panic!("commit failed"),
    }
    assert!(!m.is_active_txn(t));
    assert!(matches!(m.commit_txn(t), Err((Error::InvalidTxnId, _))));
    assert!(matches!(m.abort_txn(t), Err(Error::InvalidTxnId)));
}

#[test]
fn failed_commit_leaves_written_key_absent() {
    let mut store = Store::new();
    store.define_keyspace(KS);
    let t0 = store.begin_txn();
    let t1 = store.begin_txn();
    assert_eq!(store.set(t0, KS, &"foo", &"phantom"), Ok(()));
    assert_eq!(store.commit_txn(t0), Ok(()));
    assert_eq!(store.get::<usize, &str, String>(t1, KS, &"foo"), Ok(Some("phantom".to_string())));
    assert_eq!(store.set(t1, KS, &"bar", &"revert"), Ok(()));
    assert_eq!(store.commit_txn(t1), Err(Error::PhantomDetected));
    let t3 = store.begin_txn();
    assert_eq!(store.get::<usize, &str, String>(t3, KS, &"bar"), Ok(None));
    assert_eq!(store.get::<usize, &str, String>(t3, KS, &"foo"), Ok(Some("phantom".to_string())));
}

#[test]
fn with_txn_body_error_comes_first_and_rolls_back() {
    let mut store = Store::new();
    store.define_keyspace(KS);
    let r: Result<(), Error> = store.with_txn(|store, txn_id| {
        store.set(txn_id, KS, &"foo", &"bar")?;
        Err(Error::WriteWriteConflict)
    });
    assert_eq!(r, Err(Error::WriteWriteConflict));
    // the body's transaction is over
    assert_eq!(store.abort_txn(0), Err(Error::InvalidTxnId));
    let r: Result<Option<String>, Error> = store.with_txn(|store, txn_id| store.get(txn_id, KS, &"foo"));
    assert_eq!(r, Ok(None));
}

#[test]
fn with_txn_body_that_ends_its_txn_keeps_its_error() {
    let mut store = Store::new();
    store.define_keyspace(KS);
    let r: Result<(), Error> = store.with_txn(|store, txn_id| {
        store.abort_txn(txn_id)?;
        Err(Error::ReadWriteConflict)
    });
    assert_eq!(r, Err(Error::ReadWriteConflict));
    let r: Result<(), Error> = store.with_txn(|store, txn_id| store.abort_txn(txn_id));
    assert_eq!(r, Err(Error::InvalidTxnId));
}

#[test]
fn finish_txn_commits_or_aborts_by_outcome() {
    let mut store = Store::new();
    store.define_keyspace(KS);
    let t = store.begin_txn();
    assert_eq!(store.set(t, KS, &"k", &"v"), Ok(()));
    let r: Result<u8, Error> = store.finish_txn(t, Ok(3));
    assert_eq!(r, Ok(3));
    let u = store.begin_txn();
    assert_eq!(store.set(u, KS, &"k", &"w"), Ok(()));
    let r: Result<u8, Error> = store.finish_txn(u, Err(Error::UndefinedKeySpace));
    assert_eq!(r, Err(Error::UndefinedKeySpace));
    let v = store.begin_txn();
    assert_eq!(store.get::<usize, &str, String>(v, KS, &"k"), Ok(Some("v".to_string())));
}

#[test]
fn version_ids_outside_the_table_are_not_found() {
    let mut table = txkv::kvs::VersionTable::new();
    let r: Result<Option<u8>, Error> = table.retrieve(0, 0);
    assert_eq!(r, Err(Error::VersionNotFound));
    let id = table.append_first_version(0, txkv::kvs::Version::Value(&5u8));
    assert_eq!(id, 0);
    assert_eq!(table.append_next_version(1, 4, txkv::kvs::Version::Value(&6u8)), Err(Error::VersionNotFound));
    let r: Result<Option<u8>, Error> = table.retrieve(0, 0);
    assert_eq!(r, Ok(Some(5)));
}
