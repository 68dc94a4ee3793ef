//! The on-disk side of the engine: the record codec and the append-only
//! data files that hold encoded records.

pub mod data_file;
pub mod log_record;
