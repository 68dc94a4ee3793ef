//! The ordered-tree index: point operations and its snapshot iterator.
//! `put` reports whether an entry previously existed, so a first insert
//! reports `false` and a replacement reports `true`.

use bitcask::data::log_record::LogRecordPos;
use bitcask::index::btree::BTree;
use bitcask::index::IndexInterator;
use bitcask::index::Indexer;
use bitcask::options::IteratorOptions;

#[test]
fn test_btree_put() {
    let mut bt = BTree::new();
    let res1 = bt.put(
        "".as_bytes().to_vec(),
        LogRecordPos { file_id: 1, offset: 10 },
    );
    assert_eq!(res1, false);

    let res2 = bt.put(
        "aa".as_bytes().to_vec(),
        LogRecordPos { file_id: 11, offset: 22 },
    );
    assert_eq!(res2, false);

    // storing the same key again replaces the entry and reports it
    let res3 = bt.put(
        "aa".as_bytes().to_vec(),
        LogRecordPos { file_id: 12, offset: 33 },
    );
    assert_eq!(res3, true);
}

#[test]
fn test_btree_get() {
    let mut bt = BTree::new();
    let res1 = bt.put(
        "".as_bytes().to_vec(),
        LogRecordPos { file_id: 1, offset: 10 },
    );
    assert_eq!(res1, false);
    let res2 = bt.put(
        "aa".as_bytes().to_vec(),
        LogRecordPos { file_id: 11, offset: 22 },
    );
    assert_eq!(res2, false);

    let pos1 = bt.get("".as_bytes().to_vec());
    assert!(pos1.is_some());
    assert_eq!(pos1.unwrap().file_id, 1);

    let pos2 = bt.get("aa".as_bytes().to_vec());
    assert!(pos2.is_some());
    assert_eq!(pos2.unwrap().file_id, 11);
}

#[test]
fn test_btree_delete() {
    let mut bt = BTree::new();
    let res1 = bt.put(
        "".as_bytes().to_vec(),
        LogRecordPos { file_id: 1, offset: 10 },
    );
    assert_eq!(res1, false);
    let res2 = bt.put(
        "aa".as_bytes().to_vec(),
        LogRecordPos { file_id: 11, offset: 22 },
    );
    assert_eq!(res2, false);

    let del1 = bt.delete("".as_bytes().to_vec());
    assert!(del1);

    let del2 = bt.delete("aa".as_bytes().to_vec());
    assert!(del2);

    let del3 = bt.delete("not exist".as_bytes().to_vec());
    assert!(!del3);
}

#[test]
fn test_btree_iterator_seek() {
    let mut bt = BTree::new();
    // no entries
    let mut iter = bt.iterator(IteratorOptions::default());
    iter.seek(b"aa".to_vec());
    let res = iter.next();
    assert!(res.is_none());

    // one entry
    bt.put(
        b"bbb".to_vec(),
        LogRecordPos { file_id: 1, offset: 10 },
    );
    let mut iter = bt.iterator(IteratorOptions::default());
    iter.seek(b"a".to_vec());
    let res = iter.next();
    assert!(res.is_some());
    let mut iter = bt.iterator(IteratorOptions::default());
    iter.seek(b"cc".to_vec());
    let res = iter.next();
    assert!(res.is_none());

    // several entries
    bt.put(
        b"aad".to_vec(),
        LogRecordPos { file_id: 1, offset: 10 },
    );
    bt.put(
        b"bbed".to_vec(),
        LogRecordPos { file_id: 1, offset: 30 },
    );
    bt.put(
        b"cadd".to_vec(),
        LogRecordPos { file_id: 1, offset: 40 },
    );
    let mut iter = bt.iterator(IteratorOptions::default());
    iter.seek(b"cad".to_vec());
    while let Some((key, pos)) = iter.next() {
        println!("key: {:?}, pos: {:?}", String::from_utf8_lossy(&key), pos);
        assert!(key.as_slice() >= b"cad".as_slice());
    }
    iter.seek(b"xxx".to_vec());
    assert!(iter.next().is_none());
    iter.seek(b"".to_vec());
    let res = iter.next();
    assert!(res.is_some());
    assert_eq!(res.unwrap().0, b"aad".to_vec());

    // reverse iteration
    let mut options = IteratorOptions::default();
    options.reverse = true;
    let mut iter = bt.iterator(options);
    iter.seek(b"bbb".to_vec());
    let res = iter.next();
    assert!(res.is_some());
    assert_eq!(res.unwrap().0, b"bbb".to_vec());
}

#[test]
fn test_btree_iterator_next() {
    let mut bt = BTree::new();
    let mut iter = bt.iterator(IteratorOptions::default());
    assert!(iter.next().is_none());

    // one entry, in reverse
    let mut options = IteratorOptions::default();
    options.reverse = true;
    bt.put(
        b"aaa".to_vec(),
        LogRecordPos { file_id: 1, offset: 10 },
    );
    let mut iter = bt.iterator(options);
    assert!(iter.next().is_some());

    // several entries, in reverse
    let mut options = IteratorOptions::default();
    options.reverse = true;
    bt.put(
        b"bbb".to_vec(),
        LogRecordPos { file_id: 1, offset: 20 },
    );
    bt.put(
        b"ccc".to_vec(),
        LogRecordPos { file_id: 1, offset: 20 },
    );
    let mut iter = bt.iterator(options);

    let mut seen: Vec<Vec<u8>> = Vec::new();
    while let Some((key, pos)) = iter.next() {
        println!("key: {:?}, pos: {:?}", String::from_utf8_lossy(&key), pos);
        seen.push(key);
    }
    assert_eq!(seen, vec![b"ccc".to_vec(), b"bbb".to_vec(), b"aaa".to_vec()]);
}
