//! The error kinds the engine reports.

use vstd::prelude::*;

verus! {

/// Everything that can go wrong in the engine.  `ReadDataFileEOF` is a
/// recovery-internal signal: scanning a data file converts it into the end
/// of that file, and it reaches a caller only through a read at or past the
/// end of a file.
#[derive(Clone, Copy, Debug, PartialEq, Eq, Structural)]
pub enum Error {
    FailedToReadFromDataFile,
    FailedToWriteToDataFile,
    FailedToSyncDataFile,
    KeyIsEmpty,
    FailedToOpenDataFile,
    FailedToUpdateIndex,
    KeyNotFound,
    DataFileNotFound,
    InvalidDbDir,
    InvalidDataFileSize,
    FailedToCreateDbDir,
    FailedToReadDir,
    FailedToReadDirEntry,
    FailedToParseFileId,
    FailedToCreateDataFile,
    ReadDataFileEOF,
    InvalidLogRecordCRC,
    BatchTooLarge,
    DirectoryCorrupted,
    SequenceNumberExhausted,
}

impl Error {
    /// A short description of the error.
    pub fn describe(&self) -> (r: &'static str) {
        match self {
            Error::FailedToReadFromDataFile => "failed to read from data file",
            Error::FailedToWriteToDataFile => "failed to write to data file",
            Error::FailedToSyncDataFile => "failed to sync data file",
            Error::KeyIsEmpty => "key is empty",
            Error::FailedToOpenDataFile => "failed to open data file",
            Error::FailedToUpdateIndex => "failed to update index",
            Error::KeyNotFound => "key not found",
            Error::DataFileNotFound => "data file not found",
            Error::InvalidDbDir => "invalid database directory",
            Error::InvalidDataFileSize => "invalid data file size",
            Error::FailedToCreateDbDir => "failed to create database directory",
            Error::FailedToReadDir => "failed to read directory",
            Error::FailedToReadDirEntry => "failed to read directory entry",
            Error::FailedToParseFileId => "failed to parse file id",
            Error::FailedToCreateDataFile => "failed to create data file",
            Error::ReadDataFileEOF => "read hit the end of the data file",
            Error::InvalidLogRecordCRC => "invalid log record CRC",
            Error::BatchTooLarge => "batch exceeds the configured maximum size",
            Error::DirectoryCorrupted => "data directory is corrupted",
            Error::SequenceNumberExhausted => "transaction sequence numbers exhausted",
        }
    }
}

} // verus!
