//! The engine end to end on the in-memory backend: round trips, restart
//! persistence, file rollover, tombstones, and the input errors.

use bitcask::data::data_file::DataFile;
use bitcask::db::check_options;
use bitcask::db::Engine;
use bitcask::error::Error;
use bitcask::fio::mem_io::MemIO;
use bitcask::options::IndexType;
use bitcask::options::Options;

fn test_options(data_file_size: u64) -> Options {
    Options {
        dir_path: b"/tmp/bitcask-rs-test".to_vec(),
        data_file_size,
        sync_writes: false,
        index_type: IndexType::BTree,
    }
}

fn open_empty(data_file_size: u64) -> Engine<MemIO> {
    Engine::open(test_options(data_file_size), Vec::new()).expect("failed to open engine")
}

fn get_test_key(n: usize) -> Vec<u8> {
    format!("bitcask-rs-key-{:09}", n).into_bytes()
}

fn get_test_value(n: usize) -> Vec<u8> {
    format!(
        "bitcask-rs-value-value-value-value-value-value-value-value-value-{:09}",
        n
    )
    .into_bytes()
}

#[test]
fn test_basic_round_trip() {
    let mut engine = open_empty(64 * 1024 * 1024);
    engine.put(b"hello".to_vec(), b"world".to_vec()).unwrap();
    assert_eq!(engine.get(&b"hello".to_vec()).unwrap(), b"world".to_vec());
    engine.delete(b"hello".to_vec()).unwrap();
    assert!(matches!(engine.get(&b"hello".to_vec()), Err(Error::KeyNotFound)));
}

#[test]
fn test_restart_persistence() {
    let mut engine = open_empty(64 * 1024 * 1024);
    engine.put(b"name".to_vec(), b"bitcask".to_vec()).unwrap();
    engine.close().unwrap();
    let files = engine.into_files();
    let engine = Engine::open(test_options(64 * 1024 * 1024), files)
        .expect("failed to open engine");
    assert_eq!(engine.get(&b"name".to_vec()).unwrap(), b"bitcask".to_vec());
}

#[test]
fn test_rollover_preserves_data() {
    let mut engine = open_empty(64 * 1024 * 1024);
    for i in 0..=1_000_000usize {
        engine.put(get_test_key(i), get_test_value(i)).unwrap();
    }
    // the writes span more than one data file
    let files = {
        let value = engine.get(&get_test_key(555)).unwrap();
        assert_eq!(value, get_test_value(555));
        engine.close().unwrap();
        engine.into_files()
    };
    assert!(files.len() > 1, "expected the writes to roll the active file over");
    let engine = Engine::open(test_options(64 * 1024 * 1024), files)
        .expect("failed to open engine");
    assert_eq!(engine.get(&get_test_key(555)).unwrap(), get_test_value(555));
}

#[test]
fn test_engine_put() {
    let mut engine = open_empty(64 * 1024 * 1024);

    // a fresh pair
    engine.put(get_test_key(11), get_test_value(11)).unwrap();
    let get_res = engine.get(&get_test_key(11));
    assert!(get_res.is_ok());
    assert!(get_res.unwrap().len() > 0);

    // storing the same key again replaces the value
    engine.put(get_test_key(22), get_test_value(22)).unwrap();
    engine.put(get_test_key(22), b"a new value".to_vec()).unwrap();
    assert_eq!(engine.get(&get_test_key(22)).unwrap(), b"a new value".to_vec());

    // an empty key is refused
    let put_res = engine.put(Vec::new(), get_test_value(123));
    assert!(matches!(put_res, Err(Error::KeyIsEmpty)));

    // an empty value is fine
    engine.put(get_test_key(33), Vec::new()).unwrap();
    assert_eq!(engine.get(&get_test_key(33)).unwrap(), Vec::<u8>::new());

    // a restart keeps everything, and accepts more writes
    let files = engine.into_files();
    let mut engine = Engine::open(test_options(64 * 1024 * 1024), files)
        .expect("failed to open engine");
    engine.put(get_test_key(55), get_test_value(55)).unwrap();
    assert_eq!(engine.get(&get_test_key(55)).unwrap(), get_test_value(55));
    assert_eq!(engine.get(&get_test_key(22)).unwrap(), b"a new value".to_vec());
}

#[test]
fn test_engine_get() {
    let mut engine = open_empty(64 * 1024 * 1024);

    engine.put(get_test_key(111), get_test_value(111)).unwrap();
    assert!(engine.get(&get_test_key(111)).unwrap().len() > 0);

    // a key that was never stored
    let get_res = engine.get(&b"not_exist_key".to_vec());
    assert!(matches!(get_res, Err(Error::KeyNotFound)));

    // a replaced value reads as the replacement
    engine.put(get_test_key(222), get_test_value(222)).unwrap();
    engine.put(get_test_key(222), b"a new value".to_vec()).unwrap();
    assert_eq!(engine.get(&get_test_key(222)).unwrap(), b"a new value".to_vec());

    // a deleted key reads as missing
    engine.put(get_test_key(333), get_test_value(333)).unwrap();
    engine.delete(get_test_key(333)).unwrap();
    assert!(matches!(engine.get(&get_test_key(333)), Err(Error::KeyNotFound)));

    // everything still reads the same after a restart
    let files = engine.into_files();
    let engine = Engine::open(test_options(64 * 1024 * 1024), files)
        .expect("failed to open engine");
    assert_eq!(engine.get(&get_test_key(111)).unwrap(), get_test_value(111));
    assert_eq!(engine.get(&get_test_key(222)).unwrap(), b"a new value".to_vec());
    assert!(matches!(engine.get(&get_test_key(333)), Err(Error::KeyNotFound)));
}

#[test]
fn test_engine_delete() {
    let mut engine = open_empty(64 * 1024 * 1024);

    // a stored key can be deleted
    engine.put(get_test_key(11), get_test_value(11)).unwrap();
    engine.delete(get_test_key(11)).unwrap();
    assert!(matches!(engine.get(&get_test_key(11)), Err(Error::KeyNotFound)));

    // deleting a key that was never stored succeeds without writing
    assert!(engine.delete(get_test_key(22)).is_ok());

    // an empty key is refused
    assert!(matches!(engine.delete(Vec::new()), Err(Error::KeyIsEmpty)));

    // a deleted key can be stored again
    engine.put(get_test_key(33), get_test_value(33)).unwrap();
    engine.delete(get_test_key(33)).unwrap();
    engine.put(get_test_key(33), b"a new value".to_vec()).unwrap();
    assert_eq!(engine.get(&get_test_key(33)).unwrap(), b"a new value".to_vec());

    // tombstones survive a restart
    let files = engine.into_files();
    let engine = Engine::open(test_options(64 * 1024 * 1024), files)
        .expect("failed to open engine");
    assert!(matches!(engine.get(&get_test_key(11)), Err(Error::KeyNotFound)));
    assert_eq!(engine.get(&get_test_key(33)).unwrap(), b"a new value".to_vec());
}

#[test]
fn test_engine_close() {
    let mut engine = open_empty(64 * 1024 * 1024);
    engine.put(get_test_key(11), get_test_value(11)).unwrap();
    assert!(engine.close().is_ok());
}

#[test]
fn test_engine_sync() {
    let mut engine = open_empty(64 * 1024 * 1024);
    engine.put(get_test_key(11), get_test_value(11)).unwrap();
    assert!(engine.sync().is_ok());
}

#[test]
fn test_open_rejects_bad_options() {
    let mut opts = test_options(64 * 1024);
    opts.dir_path = Vec::new();
    assert!(matches!(check_options(&opts), Err(Error::InvalidDbDir)));
    assert!(matches!(
        Engine::<MemIO>::open(opts, Vec::new()),
        Err(Error::InvalidDbDir)
    ));

    let mut opts = test_options(64 * 1024);
    opts.data_file_size = 0;
    assert!(matches!(check_options(&opts), Err(Error::InvalidDataFileSize)));
    assert!(matches!(
        Engine::<MemIO>::open(opts, Vec::new()),
        Err(Error::InvalidDataFileSize)
    ));
}

#[test]
fn test_open_rejects_corrupted_log() {
    // a log whose single frame has a flipped bit fails recovery
    let rec = bitcask::data::log_record::LogRecord {
        key: vec![0x00, 0x61],  // framed key: plain write of "a"
        value: b"1".to_vec(),
        record_type: bitcask::data::log_record::LogRecordType::NORMAL,
    };
    let mut encoded = rec.encode();
    let last = encoded.len() - 1;
    encoded[last] ^= 0x01;
    let df = bitcask::data::data_file::DataFile::from_io(0, MemIO::from_bytes(encoded));
    let res = Engine::open(test_options(64 * 1024), vec![df]);
    assert!(matches!(res, Err(Error::InvalidLogRecordCRC)));
}

#[test]
fn test_open_rejects_unsorted_files() {
    let f1 = DataFile::from_io(7, MemIO::new());
    let f2 = DataFile::from_io(3, MemIO::new());
    let res = Engine::open(test_options(64 * 1024), vec![f1, f2]);
    assert!(matches!(res, Err(Error::DirectoryCorrupted)));
}

#[test]
fn test_error_descriptions() {
    assert_eq!(Error::KeyNotFound.describe(), "key not found");
    assert_eq!(Error::KeyIsEmpty.describe(), "key is empty");
    assert_eq!(Error::InvalidLogRecordCRC.describe(), "invalid log record CRC");
}

#[test]
fn test_list_keys_sorted() {
    let mut engine = open_empty(64 * 1024 * 1024);
    engine.put(b"bb".to_vec(), b"2".to_vec()).unwrap();
    engine.put(b"aa".to_vec(), b"1".to_vec()).unwrap();
    engine.put(b"cc".to_vec(), b"3".to_vec()).unwrap();
    engine.delete(b"bb".to_vec()).unwrap();
    let keys = engine.list_keys();
    assert_eq!(keys, vec![b"aa".to_vec(), b"cc".to_vec()]);
}
