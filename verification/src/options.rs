//! Configuration values: engine options, write-batch options, and iterator
//! options.

use vstd::prelude::*;

verus! {

/// How an engine is opened.  `dir_path` holds the bytes of the directory's
/// file-system path; `data_file_size` is the rollover threshold of the
/// active file in bytes; `sync_writes` makes every write durable before it
/// returns; `index_type` selects the index backend.
#[derive(Clone, Debug)]
pub struct Options {
    pub dir_path: Vec<u8>,
    pub data_file_size: u64,
    pub sync_writes: bool,
    pub index_type: IndexType,
}

/// The index backend.
#[derive(Clone, Copy, Debug, PartialEq, Eq, Structural)]
pub enum IndexType {
    /// An ordered tree keyed by raw bytes.
    BTree,
    /// A declared future option; no backend exists for it yet.
    SkipList,
}

/// How an iterator walks the keys: only keys starting with `prefix`, in
/// descending order if `reverse` is set.
#[derive(Clone, Debug)]
pub struct IteratorOptions {
    pub prefix: Vec<u8>,
    pub reverse: bool,
}

impl Default for IteratorOptions {
    /// Every key, in ascending order.
    fn default() -> (r: Self)
        ensures
            r.prefix@ == Seq::<u8>::empty(),
            r.reverse == false,
    {
        IteratorOptions { prefix: Vec::new(), reverse: false }
    }
}

/// How a write batch commits: `max_batch_size` bounds how many staged
/// writes one commit may carry; `sync_writes` makes the commit durable
/// before it returns.
#[derive(Clone, Copy, Debug)]
pub struct WriteOptions {
    pub sync_writes: bool,
    pub max_batch_size: usize,
}

impl Default for WriteOptions {
    fn default() -> (r: Self)
        ensures
            r.sync_writes == false,
            r.max_batch_size == 10000,
    {
        WriteOptions { sync_writes: false, max_batch_size: 10000 }
    }
}

} // verus!
