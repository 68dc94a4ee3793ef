//! The in-memory I/O backend: a growable byte buffer standing in for a
//! file.  It backs tests and in-process embeddings, and restarts are played
//! by handing the kept buffers back to `Engine::open`.

use vstd::prelude::*;

use crate::data::log_record::read_window;
use crate::error::Error;
use crate::fio::IOManager;
use crate::fio::MAX_FILE_BYTES;
use crate::varint::byte_at;

verus! {

/// An append-only byte buffer with the file capability interface.
pub struct MemIO {
    data: Vec<u8>,
}

impl MemIO {
    #[verifier::type_invariant]
    spec fn inv(&self) -> bool {
        self.data@.len() <= MAX_FILE_BYTES
    }

    /// An empty in-memory file.
    pub fn new() -> (r: MemIO)
        ensures
            r.contents() == Seq::<u8>::empty(),
    {
        MemIO { data: Vec::new() }
    }

    /// An in-memory file that already holds `data`, as a kept buffer does
    /// after a simulated restart.
    pub fn from_bytes(data: Vec<u8>) -> (r: MemIO)
        requires
            data@.len() <= MAX_FILE_BYTES,
        ensures
            r.contents() == data@,
    {
        MemIO { data }
    }

    /// The bytes held, surrendered to the caller.
    pub fn into_bytes(self) -> (r: Vec<u8>)
        ensures
            r@ == self.contents(),
    {
        self.data
    }
}

impl IOManager for MemIO {
    closed spec fn contents(&self) -> Seq<u8> {
        self.data@
    }

    // memory has no crash to survive: everything held counts as persisted
    closed spec fn synced(&self) -> Seq<u8> {
        self.data@
    }

    fn create_new(path: &Vec<u8>) -> (r: Result<Self, Error>) {
        Ok(MemIO { data: Vec::new() })
    }

    fn read(&self, offset: u64, len: usize) -> (r: Result<Vec<u8>, Error>) {
        let mut out: Vec<u8> = Vec::new();
        let mut i: usize = 0;
        while i < len
            invariant
                i <= len,
                out@.len() == i,
                forall|k: int| 0 <= k < i ==> out@[k] == byte_at(self.data@, offset + k),
            decreases len - i,
        {
            let b = if offset < self.data.len() as u64
                && (i as u64) < self.data.len() as u64 - offset {
                self.data[(offset + i as u64) as usize]
            } else {
                0
            };
            proof {
                assert(b == byte_at(self.data@, offset + i));
            }
            out.push(b);
            i = i + 1;
        }
        proof {
            assert(out@ =~= read_window(self.contents(), offset as int, len as nat));
        }
        Ok(out)
    }

    fn write(&mut self, buf: &Vec<u8>) -> (r: Result<usize, Error>) {
        proof {
            use_type_invariant(&*self);
        }
        if buf.len() as u64 <= MAX_FILE_BYTES
            && self.data.len() as u64 <= MAX_FILE_BYTES - buf.len() as u64 {
            let mut data: Vec<u8> = Vec::new();
            core::mem::swap(&mut data, &mut self.data);
            data.extend_from_slice(buf.as_slice());
            core::mem::swap(&mut data, &mut self.data);
            Ok(buf.len())
        } else {
            Err(Error::FailedToWriteToDataFile)
        }
    }

    fn sync(&mut self) -> (r: Result<(), Error>) {
        Ok(())
    }

    fn size(&self) -> (r: Result<u64, Error>) {
        proof {
            use_type_invariant(&*self);
        }
        Ok(self.data.len() as u64)
    }
}

} // verus!
