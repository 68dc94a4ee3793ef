//! The narrow I/O capability a data file is built on: positioned reads,
//! atomic appends, durable sync.  The engine is generic over it, so an
//! embedding can supply real files while tests and in-process uses run on
//! the in-memory backend of this crate.

pub mod mem_io;

use vstd::prelude::*;

use crate::data::log_record::read_window;
use crate::error::Error;

verus! {

/// The largest size a file may reach, `isize::MAX`: no allocation and no
/// file system offers more.
pub const MAX_FILE_BYTES: u64 = 0x7fff_ffff_ffff_ffff;

/// One append-only file.  `contents` is the bytes it holds; every method's
/// contract is stated over it.  An implementation must make appends
/// all-or-nothing: a failed `write` leaves the file unchanged, as the
/// engine's crash story (and its proofs) rest on never observing a torn
/// append through this interface.
pub trait IOManager: Sized {
    /// The bytes the file holds.  An implementation outside the verified
    /// world may leave this default in place: nothing is proved about it.
    open spec fn contents(&self) -> Seq<u8> {
        Seq::empty()
    }

    /// The prefix of the file already durably persisted: what a crash
    /// cannot take away.  An implementation outside the verified world may
    /// leave this default in place: nothing is proved about it.
    open spec fn synced(&self) -> Seq<u8> {
        Seq::empty()
    }

    /// Open the file at `path` (bytes of a file-system path) for reading
    /// and appending, creating it empty and truncating whatever was there:
    /// the engine owns its directory.
    fn create_new(path: &Vec<u8>) -> (r: Result<Self, Error>)
        ensures
            r matches Ok(io) ==> io.contents() == Seq::<u8>::empty()
                && io.synced() == io.contents(),
            r matches Err(e) ==> e == Error::FailedToOpenDataFile,
    ;

    /// Read `len` bytes at `offset`; bytes past the end of the file read
    /// as zero.
    fn read(&self, offset: u64, len: usize) -> (r: Result<Vec<u8>, Error>)
        ensures
            match r {
                Ok(buf) => buf@ == read_window(self.contents(), offset as int, len as nat),
                Err(e) => e == Error::FailedToReadFromDataFile,
            },
    ;

    /// Append `buf` at the end of the file, all of it or nothing.  No file
    /// grows to `isize::MAX` bytes: an implementation refuses the append
    /// that would take it there.
    fn write(&mut self, buf: &Vec<u8>) -> (r: Result<usize, Error>)
        ensures
            match r {
                Ok(n) => {
                    &&& n == buf@.len()
                    &&& final(self).contents() == old(self).contents() + buf@
                    &&& old(self).contents().len() + buf@.len() <= MAX_FILE_BYTES
                    &&& old(self).synced().is_prefix_of(final(self).synced())
                    &&& final(self).synced().is_prefix_of(final(self).contents())
                },
                Err(e) => {
                    &&& e == Error::FailedToWriteToDataFile
                    &&& final(self).contents() == old(self).contents()
                    &&& final(self).synced() == old(self).synced()
                },
            },
    ;

    /// Durably persist all appended bytes and the metadata needed to
    /// observe them after a crash: on success the whole file is synced.
    fn sync(&mut self) -> (r: Result<(), Error>)
        ensures
            final(self).contents() == old(self).contents(),
            r is Ok ==> final(self).synced() == final(self).contents(),
            old(self).synced().is_prefix_of(final(self).synced()),
            r matches Err(e) ==> e == Error::FailedToSyncDataFile,
    ;

    /// The size of the file in bytes, below `isize::MAX` for any file that
    /// exists.
    fn size(&self) -> (r: Result<u64, Error>)
        ensures
            match r {
                Ok(n) => n == self.contents().len() && n <= MAX_FILE_BYTES,
                Err(e) => e == Error::FailedToReadFromDataFile,
            },
    ;
}

/// Open the file at `path` through whatever backend the engine runs on.
pub fn new_io_manager<IO: IOManager>(path: &Vec<u8>) -> (r: Result<IO, Error>)
    ensures
        r matches Ok(io) ==> io.contents() == Seq::<u8>::empty()
            && io.synced() == io.contents(),
        r matches Err(e) ==> e == Error::FailedToOpenDataFile,
{
    IO::create_new(path)
}

} // verus!
