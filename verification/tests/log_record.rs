//! The record codec on concrete frames: exact CRC values, byte-for-byte
//! varint compatibility with the protobuf length-delimiter encoding, the
//! round trip through a data file, and CRC coverage under bit flips.

use bitcask::data::data_file::DataFile;
use bitcask::data::log_record::LogRecord;
use bitcask::data::log_record::LogRecordType;
use bitcask::error::Error;
use bitcask::fio::mem_io::MemIO;
use bitcask::varint::write_varint;

#[test]
fn test_log_record_encode() {
    let log_record = LogRecord {
        key: b"hello".to_vec(),
        value: b"world".to_vec(),
        record_type: LogRecordType::NORMAL,
    };
    let encoded = log_record.encode();
    println!("encoded: {:?}", encoded);
    assert_eq!(log_record.get_crc(), 561450126);

    let log_record = LogRecord {
        key: b"hello".to_vec(),
        value: vec![],
        record_type: LogRecordType::NORMAL,
    };
    let encoded = log_record.encode();
    println!("encoded: {:?}", encoded);
    assert_eq!(log_record.get_crc(), 193110475);

    let log_record = LogRecord {
        key: b"hello".to_vec(),
        value: b"world".to_vec(),
        record_type: LogRecordType::DELETE,
    };
    let encoded = log_record.encode();
    println!("encoded: {:?}", encoded);
    assert_eq!(log_record.get_crc(), 2629656640);
}

#[test]
fn test_varint_matches_length_delimiter() {
    let samples: Vec<usize> = vec![
        0,
        1,
        127,
        128,
        129,
        300,
        16383,
        16384,
        65535,
        1 << 21,
        (1 << 28) - 1,
        1 << 28,
        u32::MAX as usize,
    ];
    for n in samples {
        let mut ours: Vec<u8> = Vec::new();
        write_varint(&mut ours, n as u64);
        let mut theirs: Vec<u8> = Vec::new();
        prost::encode_length_delimiter(n, &mut theirs).unwrap();
        assert_eq!(ours, theirs, "varint encodings differ for {}", n);
        let back = prost::decode_length_delimiter(ours.as_slice()).unwrap();
        assert_eq!(back, n);
    }
}

#[test]
fn test_data_file_read_log_record() {
    let data_file = DataFile::from_io(500, MemIO::new());
    assert_eq!(data_file.get_file_id(), 500);
    let mut data_file = data_file;

    let log_record = LogRecord {
        key: b"hello".to_vec(),
        value: b"world".to_vec(),
        record_type: LogRecordType::NORMAL,
    };
    let encoded = log_record.encode();
    data_file.write(&encoded).unwrap();
    let read_log_record = data_file.read_log_record(0).unwrap();
    assert_eq!(read_log_record.record, log_record);
    assert_eq!(read_log_record.size, encoded.len());
    assert_eq!(encoded.len(), 17);

    let log_record = LogRecord {
        key: b"hello".to_vec(),
        value: b"lyf".to_vec(),
        record_type: LogRecordType::NORMAL,
    };
    let encoded = log_record.encode();
    data_file.write(&encoded).unwrap();
    let read_log_record = data_file.read_log_record(17).unwrap();
    assert_eq!(read_log_record.record, log_record);
    assert_eq!(read_log_record.size, encoded.len());

    let log_record = LogRecord {
        key: b"hello".to_vec(),
        value: b"world".to_vec(),
        record_type: LogRecordType::DELETE,
    };
    let encoded = log_record.encode();
    data_file.write(&encoded).unwrap();
    let read_log_record = data_file.read_log_record(32).unwrap();
    assert_eq!(read_log_record.record, log_record);
    assert_eq!(read_log_record.size, encoded.len());
}

#[test]
fn test_crc_detects_bit_flips() {
    let rec = LogRecord {
        key: b"hello".to_vec(),
        value: b"world".to_vec(),
        record_type: LogRecordType::NORMAL,
    };
    let encoded = rec.encode();
    for byte_i in 0..encoded.len() {
        for bit in 0..8u8 {
            let mut corrupted = encoded.clone();
            corrupted[byte_i] ^= 1u8 << bit;
            let df = DataFile::from_io(0, MemIO::from_bytes(corrupted));
            let res = df.read_log_record(0);
            assert!(
                matches!(res, Err(Error::InvalidLogRecordCRC)),
                "flipping bit {} of byte {} was not caught as a CRC error",
                bit,
                byte_i
            );
        }
    }
}

#[test]
fn test_read_log_record_eof_on_zero_tail() {
    let df = DataFile::from_io(0, MemIO::from_bytes(vec![0u8; 32]));
    let res = df.read_log_record(0);
    assert!(matches!(res, Err(Error::ReadDataFileEOF)));

    let df = DataFile::from_io(0, MemIO::new());
    let res = df.read_log_record(0);
    assert!(matches!(res, Err(Error::ReadDataFileEOF)));
}
