//! The user iterator: seek, ordered iteration both ways, rewind, and
//! prefix filtering.

use bitcask::db::Engine;
use bitcask::fio::mem_io::MemIO;
use bitcask::options::IndexType;
use bitcask::options::IteratorOptions;
use bitcask::options::Options;

fn test_options() -> Options {
    Options {
        dir_path: b"/tmp/bitcask-rs-iterator".to_vec(),
        data_file_size: 64 * 1024 * 1024,
        sync_writes: false,
        index_type: IndexType::BTree,
    }
}

fn open_empty() -> Engine<MemIO> {
    Engine::open(test_options(), Vec::new()).expect("failed to open engine")
}

fn get_test_key(n: usize) -> Vec<u8> {
    format!("bitcask-rs-key-{:09}", n).into_bytes()
}

fn get_test_value(n: usize) -> Vec<u8> {
    format!(
        "bitcask-rs-value-value-value-value-value-value-value-value-value-{:09}",
        n
    )
    .into_bytes()
}

fn put_five(engine: &mut Engine<MemIO>) {
    engine.put(b"aaabcd".to_vec(), b"value1".to_vec()).unwrap();
    engine.put(b"ababcd".to_vec(), b"value2".to_vec()).unwrap();
    engine.put(b"acabcd".to_vec(), b"value3".to_vec()).unwrap();
    engine.put(b"baabcd".to_vec(), b"value4".to_vec()).unwrap();
    engine.put(b"bbabcd".to_vec(), b"value5".to_vec()).unwrap();
}

#[test]
fn test_iterator_seek() {
    let mut engine = open_empty();

    // no data
    let mut iter = engine.iter(IteratorOptions::default());
    iter.seek(get_test_key(11));
    assert!(iter.next(&engine).unwrap().is_none());

    // one entry
    engine.put(get_test_key(11), get_test_value(11)).unwrap();
    let mut iter = engine.iter(IteratorOptions::default());
    iter.seek(get_test_key(11));
    assert!(iter.next(&engine).unwrap().is_some());

    put_five(&mut engine);
    let mut iter = engine.iter(IteratorOptions::default());
    iter.seek(b"ac".to_vec());
    assert_eq!(iter.next(&engine).unwrap().unwrap().1, b"value3".to_vec());
    assert_eq!(iter.next(&engine).unwrap().unwrap().1, b"value4".to_vec());
    assert_eq!(iter.next(&engine).unwrap().unwrap().1, b"value5".to_vec());

    let mut iter = engine.iter(IteratorOptions::default());
    iter.seek(b"z".to_vec());
    assert!(iter.next(&engine).unwrap().is_none());

    // in reverse, seek lands on the greatest key at or below the target
    let mut opts = IteratorOptions::default();
    opts.reverse = true;
    let mut iter = engine.iter(opts);
    iter.seek(b"bb".to_vec());
    assert_eq!(iter.next(&engine).unwrap().unwrap().0, b"bbabcd".to_vec());
    assert_eq!(iter.next(&engine).unwrap().unwrap().0, b"baabcd".to_vec());
    assert_eq!(iter.next(&engine).unwrap().unwrap().0, b"acabcd".to_vec());
    assert_eq!(iter.next(&engine).unwrap().unwrap().0, b"ababcd".to_vec());
    assert_eq!(iter.next(&engine).unwrap().unwrap().0, b"aaabcd".to_vec());
    assert!(iter.next(&engine).unwrap().is_none());
}

#[test]
fn test_iterator_seek_five_keys() {
    // exactly the five keys, each with its own value
    let mut engine = open_empty();
    put_five(&mut engine);

    let mut iter = engine.iter(IteratorOptions::default());
    iter.seek(b"ac".to_vec());
    assert_eq!(iter.next(&engine).unwrap().unwrap().0, b"acabcd".to_vec());
    assert_eq!(iter.next(&engine).unwrap().unwrap().0, b"baabcd".to_vec());
    assert_eq!(iter.next(&engine).unwrap().unwrap().0, b"bbabcd".to_vec());
    assert!(iter.next(&engine).unwrap().is_none());

    let mut opts = IteratorOptions::default();
    opts.reverse = true;
    let mut iter = engine.iter(opts);
    iter.seek(b"bb".to_vec());
    assert_eq!(iter.next(&engine).unwrap().unwrap().0, b"bbabcd".to_vec());
    assert_eq!(iter.next(&engine).unwrap().unwrap().0, b"baabcd".to_vec());
    assert_eq!(iter.next(&engine).unwrap().unwrap().0, b"acabcd".to_vec());
    assert_eq!(iter.next(&engine).unwrap().unwrap().0, b"ababcd".to_vec());
    assert_eq!(iter.next(&engine).unwrap().unwrap().0, b"aaabcd".to_vec());
    assert!(iter.next(&engine).unwrap().is_none());
}

#[test]
fn test_iterator_next() {
    let mut engine = open_empty();
    put_five(&mut engine);
    let mut iter = engine.iter(IteratorOptions::default());
    assert_eq!(iter.next(&engine).unwrap().unwrap().1, b"value1".to_vec());
    assert_eq!(iter.next(&engine).unwrap().unwrap().1, b"value2".to_vec());
    assert_eq!(iter.next(&engine).unwrap().unwrap().1, b"value3".to_vec());
    assert_eq!(iter.next(&engine).unwrap().unwrap().1, b"value4".to_vec());
    assert_eq!(iter.next(&engine).unwrap().unwrap().1, b"value5".to_vec());
    assert!(iter.next(&engine).unwrap().is_none());
}

#[test]
fn test_iterator_rewind() {
    let mut engine = open_empty();
    put_five(&mut engine);
    let mut iter = engine.iter(IteratorOptions::default());
    assert_eq!(iter.next(&engine).unwrap().unwrap().1, b"value1".to_vec());
    assert_eq!(iter.next(&engine).unwrap().unwrap().1, b"value2".to_vec());
    assert_eq!(iter.next(&engine).unwrap().unwrap().1, b"value3".to_vec());
    assert_eq!(iter.next(&engine).unwrap().unwrap().1, b"value4".to_vec());
    assert_eq!(iter.next(&engine).unwrap().unwrap().1, b"value5".to_vec());
    assert!(iter.next(&engine).unwrap().is_none());

    iter.rewind();
    assert_eq!(iter.next(&engine).unwrap().unwrap().1, b"value1".to_vec());
    assert_eq!(iter.next(&engine).unwrap().unwrap().1, b"value2".to_vec());
    assert_eq!(iter.next(&engine).unwrap().unwrap().1, b"value3".to_vec());
    assert_eq!(iter.next(&engine).unwrap().unwrap().1, b"value4".to_vec());
    assert_eq!(iter.next(&engine).unwrap().unwrap().1, b"value5".to_vec());
    assert!(iter.next(&engine).unwrap().is_none());
}

#[test]
fn test_iterator_prefix() {
    let mut engine = open_empty();
    put_five(&mut engine);
    engine.put(b"abbbcd".to_vec(), b"value6".to_vec()).unwrap();

    let mut iter_opts = IteratorOptions::default();
    iter_opts.prefix = b"ab".to_vec();
    let mut iter = engine.iter(iter_opts);
    assert_eq!(iter.next(&engine).unwrap().unwrap().1, b"value2".to_vec());
    assert_eq!(iter.next(&engine).unwrap().unwrap().1, b"value6".to_vec());
    assert!(iter.next(&engine).unwrap().is_none());

    let mut iter_opts = IteratorOptions::default();
    iter_opts.prefix = b"b".to_vec();
    let mut iter = engine.iter(iter_opts);
    assert_eq!(iter.next(&engine).unwrap().unwrap().1, b"value4".to_vec());
    assert_eq!(iter.next(&engine).unwrap().unwrap().1, b"value5".to_vec());
    assert!(iter.next(&engine).unwrap().is_none());
}

#[test]
fn test_iterator_fold() {
    let mut engine = open_empty();
    put_five(&mut engine);

    // a fold that stops when the callback returns false
    let mut iter = engine.iter(IteratorOptions::default());
    let count = std::cell::Cell::new(0usize);
    let res = iter.fold(&engine, |_k: Vec<u8>, v: Vec<u8>| {
        count.set(count.get() + 1);
        v != b"value3".to_vec()
    });
    assert!(res.is_ok());
    assert_eq!(count.get(), 3);

    // a fold that visits every pair
    let mut iter = engine.iter(IteratorOptions::default());
    let seen = std::cell::RefCell::new(Vec::<Vec<u8>>::new());
    let res = iter.fold(&engine, |k: Vec<u8>, _v: Vec<u8>| {
        seen.borrow_mut().push(k);
        true
    });
    assert!(res.is_ok());
    assert_eq!(
        *seen.borrow(),
        vec![
            b"aaabcd".to_vec(),
            b"ababcd".to_vec(),
            b"acabcd".to_vec(),
            b"baabcd".to_vec(),
            b"bbabcd".to_vec()
        ]
    );
}

#[test]
fn test_iterator_ascending_keys() {
    let mut engine = open_empty();
    put_five(&mut engine);
    let mut iter = engine.iter(IteratorOptions::default());
    let mut prev: Option<Vec<u8>> = None;
    while let Some((key, _value)) = iter.next(&engine).unwrap() {
        if let Some(p) = &prev {
            assert!(p < &key, "keys must ascend strictly");
        }
        prev = Some(key);
    }
}
