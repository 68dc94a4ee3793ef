//! An embedded, persistent key/value storage engine in the Bitcask style:
//! an append-only log of framed records is the system of record, and an
//! in-memory ordered index maps each live user key to the location of its
//! latest committed record.

pub mod batch;
pub mod crc;
pub mod db;
pub mod error;
pub mod fio;
pub mod index;
pub mod iterator;
pub mod keymap;
pub mod keys;
pub mod data;
pub mod options;
pub mod recovery;
pub mod varint;
