//! Write batches: atomic visibility at commit, the sequence counter, and
//! batches across a restart.

use bitcask::data::data_file::DataFile;
use bitcask::data::log_record::LogRecord;
use bitcask::data::log_record::LogRecordType;
use bitcask::db::Engine;
use bitcask::error::Error;
use bitcask::fio::mem_io::MemIO;
use bitcask::options::IndexType;
use bitcask::options::Options;
use bitcask::options::WriteOptions;

fn test_options() -> Options {
    Options {
        dir_path: b"/tmp/bitcask-rs-batch".to_vec(),
        data_file_size: 64 * 1024 * 1024,
        sync_writes: false,
        index_type: IndexType::BTree,
    }
}

fn open_empty() -> Engine<MemIO> {
    Engine::open(test_options(), Vec::new()).expect("failed to open engine")
}

fn get_test_key(n: usize) -> Vec<u8> {
    format!("bitcask-rs-key-{:09}", n).into_bytes()
}

fn get_test_value(n: usize) -> Vec<u8> {
    format!(
        "bitcask-rs-value-value-value-value-value-value-value-value-value-{:09}",
        n
    )
    .into_bytes()
}

#[test]
fn test_write_batch_one() {
    let mut engine = open_empty();

    let mut wb = engine.new_write_batch(WriteOptions::default()).unwrap();

    // staged but not committed: nothing is visible
    wb.put(get_test_key(1), get_test_value(11)).unwrap();
    wb.put(get_test_key(2), get_test_value(22)).unwrap();
    let get_res = engine.get(&get_test_key(1));
    assert!(matches!(get_res, Err(Error::KeyNotFound)));

    // committed: everything is visible at once
    let commit_res = wb.commit(&mut engine);
    assert!(commit_res.is_ok());

    assert_eq!(engine.get(&get_test_key(1)).unwrap(), get_test_value(11));
    assert_eq!(engine.get(&get_test_key(2)).unwrap(), get_test_value(22));

    // the counter advanced by exactly one for the whole batch
    assert_eq!(engine.sequence_number(), 2);
}

#[test]
fn test_write_batch_two() {
    let mut engine = open_empty();

    let mut wb = engine.new_write_batch(WriteOptions::default()).unwrap();

    wb.put(get_test_key(1), get_test_value(11)).unwrap();
    wb.put(get_test_key(2), get_test_value(22)).unwrap();
    wb.commit(&mut engine).unwrap();

    wb.put(get_test_key(3), get_test_value(33)).unwrap();
    wb.put(get_test_key(4), get_test_value(44)).unwrap();
    wb.commit(&mut engine).unwrap();
    engine.close().unwrap();

    // all four keys survive a restart, and the counter resumes past the
    // largest committed number
    let files = engine.into_files();
    let engine = Engine::open(test_options(), files).expect("failed to open engine");
    println!("{:#?}", engine.list_keys());
    assert_eq!(engine.get(&get_test_key(1)).unwrap(), get_test_value(11));
    assert_eq!(engine.get(&get_test_key(2)).unwrap(), get_test_value(22));
    assert_eq!(engine.get(&get_test_key(3)).unwrap(), get_test_value(33));
    assert_eq!(engine.get(&get_test_key(4)).unwrap(), get_test_value(44));
    assert_eq!(engine.list_keys().len(), 4);
    assert!(engine.sequence_number() >= 3);
}

#[test]
fn test_write_batch_three() {
    let engine = open_empty();
    println!("keys: {:?}", engine.list_keys());
    assert!(engine.list_keys().is_empty());
}

#[test]
fn test_write_batch_delete() {
    let mut engine = open_empty();
    engine.put(b"kept".to_vec(), b"1".to_vec()).unwrap();
    engine.put(b"gone".to_vec(), b"2".to_vec()).unwrap();

    let mut wb = engine.new_write_batch(WriteOptions::default()).unwrap();
    // a staged removal of a live key takes effect at commit
    wb.delete(&engine, b"gone".to_vec()).unwrap();
    // a removal of a key only staged so far just unstages it
    wb.put(b"fleeting".to_vec(), b"3".to_vec()).unwrap();
    wb.delete(&engine, b"fleeting".to_vec()).unwrap();
    // a removal of a key known nowhere is a no-op
    wb.delete(&engine, b"never".to_vec()).unwrap();
    wb.commit(&mut engine).unwrap();

    assert_eq!(engine.get(&b"kept".to_vec()).unwrap(), b"1".to_vec());
    assert!(matches!(engine.get(&b"gone".to_vec()), Err(Error::KeyNotFound)));
    assert!(matches!(engine.get(&b"fleeting".to_vec()), Err(Error::KeyNotFound)));
}

#[test]
fn test_write_batch_too_large() {
    let mut engine = open_empty();
    let mut opts = WriteOptions::default();
    opts.max_batch_size = 1;
    let mut wb = engine.new_write_batch(opts).unwrap();
    wb.put(b"a".to_vec(), b"1".to_vec()).unwrap();
    wb.put(b"b".to_vec(), b"2".to_vec()).unwrap();
    let res = wb.commit(&mut engine);
    assert!(matches!(res, Err(Error::BatchTooLarge)));
    // nothing became visible
    assert!(matches!(engine.get(&b"a".to_vec()), Err(Error::KeyNotFound)));
}

#[test]
fn test_write_batch_empty_commit() {
    let mut engine = open_empty();
    let mut wb = engine.new_write_batch(WriteOptions::default()).unwrap();
    assert!(wb.commit(&mut engine).is_ok());
    assert_eq!(engine.sequence_number(), 1);
}

#[test]
fn test_unfinished_batch_invisible_after_restart() {
    // build a log by hand: one plain write, then a batch's two records
    // carrying transaction number 1, without the closing marker
    let mut framed_solid = vec![0x00u8];
    framed_solid.extend_from_slice(b"solid");
    let rec_solid = LogRecord {
        key: framed_solid,
        value: b"1".to_vec(),
        record_type: LogRecordType::NORMAL,
    };
    let rec_a = LogRecord {
        key: vec![0x01, 0x61],  // transaction 1, user key "a"
        value: b"11".to_vec(),
        record_type: LogRecordType::NORMAL,
    };
    let rec_b = LogRecord {
        key: vec![0x01, 0x62],  // transaction 1, user key "b"
        value: b"22".to_vec(),
        record_type: LogRecordType::NORMAL,
    };
    let mut log = rec_solid.encode();
    log.extend_from_slice(&rec_a.encode());
    log.extend_from_slice(&rec_b.encode());

    // without the marker, none of the batch is visible after a restart
    let df = DataFile::from_io(0, MemIO::from_bytes(log.clone()));
    let engine = Engine::open(test_options(), vec![df]).expect("failed to open engine");
    assert_eq!(engine.get(&b"solid".to_vec()).unwrap(), b"1".to_vec());
    assert!(matches!(engine.get(&b"a".to_vec()), Err(Error::KeyNotFound)));
    assert!(matches!(engine.get(&b"b".to_vec()), Err(Error::KeyNotFound)));
    // the counter still resumes past the number the crashed batch used
    assert_eq!(engine.sequence_number(), 2);

    // with the marker appended, the whole batch is visible
    let mut framed_finish = vec![0x01u8];
    framed_finish.extend_from_slice(b"txn-finish");
    let rec_fin = LogRecord {
        key: framed_finish,
        value: Vec::new(),
        record_type: LogRecordType::TXNFINISHED,
    };
    log.extend_from_slice(&rec_fin.encode());
    let df = DataFile::from_io(0, MemIO::from_bytes(log));
    let engine = Engine::open(test_options(), vec![df]).expect("failed to open engine");
    assert_eq!(engine.get(&b"solid".to_vec()).unwrap(), b"1".to_vec());
    assert_eq!(engine.get(&b"a".to_vec()).unwrap(), b"11".to_vec());
    assert_eq!(engine.get(&b"b".to_vec()).unwrap(), b"22".to_vec());
}
