//! Atomic multi-key writes.  A batch stages its writes in memory; commit
//! appends them all under one transaction number and seals them with a
//! closing marker, so that recovery applies the whole batch or none of it.
//!
//! This module also owns the framed-key codec: every on-disk key is the
//! user key prefixed with the varint of its transaction number, zero for
//! plain writes.

use vstd::prelude::*;

use crate::data::log_record::LogRecord;
use crate::data::log_record::LogRecordType;
use crate::data::log_record::MAX_KEY_SIZE;
use crate::data::log_record::MAX_VALUE_SIZE;
use crate::db::Engine;
use crate::error::Error;
use crate::fio::IOManager;
use crate::keymap::KeyMap;
use crate::keys::clone_bytes;
use crate::options::WriteOptions;
use crate::recovery::parse_key;
use crate::varint::lemma_parse_varint_enc;
use crate::varint::lemma_varint_enc_len;
use crate::varint::read_varint;
use crate::varint::varint_enc;
use crate::varint::write_varint;

verus! {

/// The transaction number of a plain, non-transactional write.
pub const NON_TRANSACTION_SEQ_NUM: u64 = 0;

/// The sentinel user key of a transaction's closing marker: the bytes of
/// `txn-finish`.
pub open spec fn txn_finish_sentinel() -> Seq<u8> {
    seq![0x74u8, 0x78u8, 0x6eu8, 0x2du8, 0x66u8, 0x69u8, 0x6eu8, 0x69u8, 0x73u8, 0x68u8]
}

/// Build the closing marker's sentinel user key.
pub(crate) fn txn_finish_key() -> (r: Vec<u8>)
    ensures
        r@ == txn_finish_sentinel(),
{
    let mut out: Vec<u8> = Vec::new();
    out.push(0x74);
    out.push(0x78);
    out.push(0x6e);
    out.push(0x2d);
    out.push(0x66);
    out.push(0x69);
    out.push(0x6e);
    out.push(0x69);
    out.push(0x73);
    out.push(0x68);
    proof {
        assert(out@ =~= txn_finish_sentinel());
    }
    out
}

/// Frame a user key with its transaction number.
pub(crate) fn log_record_key_with_seq_num(key: &Vec<u8>, seq_num: u64) -> (r: Vec<u8>)
    ensures
        r@ == varint_enc(seq_num as nat) + key@,
{
    let mut out: Vec<u8> = Vec::new();
    write_varint(&mut out, seq_num);
    out.extend_from_slice(key.as_slice());
    out
}

/// Splitting a framed key recovers the number and the user key.
pub proof fn lemma_framed_key(key: Seq<u8>, seq_num: u64)
    ensures
        parse_key(varint_enc(seq_num as nat) + key) == Some((seq_num as nat, key)),
{
    let enc = varint_enc(seq_num as nat);
    let dk = enc + key;
    lemma_varint_enc_len(seq_num as nat);
    assert forall|k: int| 0 <= k < enc.len()
        implies #[trigger] crate::varint::byte_at(dk, 0 + k) == enc[k] by {
        assert(dk[k] == enc[k]);
    }
    lemma_parse_varint_enc(dk, 0, seq_num as nat, 10);
    assert(dk.skip(enc.len() as int) =~= key);
}

/// A batch of writes, staged in memory keyed by user key (the last staged
/// write per key wins), and committed atomically.
pub struct WriteBatch {
    pending_writes: KeyMap<LogRecord>,
    opts: WriteOptions,
}

impl<IO: IOManager> Engine<IO> {
    /// Start an empty write batch under these options.
    pub fn new_write_batch(&self, opts: WriteOptions) -> (r: Result<WriteBatch, Error>)
        ensures
            r is Ok,
            r matches Ok(wb) ==> wb.staged() == Map::<Seq<u8>, LogRecord>::empty()
                && wb.staged_pairs().len() == 0 && wb.write_options() == opts
                && wb.well_formed()
                && crate::keymap::keys_strictly_ascending(wb.staged_pairs())
                && wb.staged() == crate::keymap::pairs_as_map(wb.staged_pairs()),
    {
        Ok(WriteBatch { pending_writes: KeyMap::new(), opts })
    }
}

impl WriteBatch {
    /// The staged writes, in key order.
    pub closed spec fn staged_pairs(&self) -> Seq<(Seq<u8>, LogRecord)> {
        self.pending_writes.pairs()
    }

    /// The staged writes as a map from user key to staged record.
    pub closed spec fn staged(&self) -> Map<Seq<u8>, LogRecord> {
        self.pending_writes.as_map()
    }

    /// The options the batch was started under.
    pub closed spec fn write_options(&self) -> WriteOptions {
        self.opts
    }

    /// Every staged record carries its own key within bounds and is a
    /// live record or a tombstone.
    pub open spec fn well_formed(&self) -> bool {
        crate::db::staged_wf(self.staged())
    }

    /// Stage a key/value pair; it replaces any earlier staged write for
    /// the same key.
    pub fn put(&mut self, key: Vec<u8>, value: Vec<u8>) -> (r: Result<(), Error>)
        requires
            old(self).well_formed(),
            key@.len() <= MAX_KEY_SIZE,
            value@.len() <= MAX_VALUE_SIZE,
        ensures
            final(self).well_formed(),
            final(self).write_options() == old(self).write_options(),
            key@.len() == 0 <==> (r matches Err(e2) && e2 == Error::KeyIsEmpty),
            final(self).staged() == crate::keymap::pairs_as_map(final(self).staged_pairs()),
            match r {
                Ok(()) => {
                    &&& final(self).staged().contains_key(key@)
                    &&& final(self).staged()[key@].key@ == key@
                    &&& final(self).staged()[key@].value@ == value@
                    &&& final(self).staged()[key@].record_type == LogRecordType::NORMAL
                    &&& final(self).staged() == old(self).staged().insert(key@,
                        final(self).staged()[key@])
                    &&& crate::keymap::keys_strictly_ascending(final(self).staged_pairs())
                    &&& final(self).staged_pairs().len() == old(self).staged_pairs().len()
                        + (if old(self).staged().contains_key(key@) { 0int } else { 1int })
                },
                Err(e) => e == Error::KeyIsEmpty && final(self).staged()
                    == old(self).staged() && final(self).staged_pairs()
                    == old(self).staged_pairs(),
            },
    {
        if key.len() == 0 {
            return Err(Error::KeyIsEmpty);
        }
        let rec = LogRecord {
            key: clone_bytes(&key),
            value,
            record_type: LogRecordType::NORMAL,
        };
        self.pending_writes.put(key, rec);
        proof {
            assert forall|k: Seq<u8>| #[trigger] self.staged().contains_key(k)
                implies {
                    &&& self.staged()[k].key@ == k
                    &&& 0 < k.len() <= MAX_KEY_SIZE
                    &&& self.staged()[k].value@.len() <= MAX_VALUE_SIZE
                    &&& self.staged()[k].record_type != LogRecordType::TXNFINISHED
                } by {
                if k != key@ {
                    assert(old(self).staged().contains_key(k));
                }
            }
        }
        Ok(())
    }

    /// Stage a removal.  A key absent from both the engine's index and the
    /// staging area is a no-op; one staged but unknown to the engine is
    /// simply unstaged, with no on-disk effect at commit.
    pub fn delete<IO: IOManager>(&mut self, engine: &Engine<IO>, key: Vec<u8>) -> (r: Result<
        (),
        Error,
    >)
        requires
            old(self).well_formed(),
            engine.wf(),
            key@.len() <= MAX_KEY_SIZE,
        ensures
            final(self).well_formed(),
            final(self).write_options() == old(self).write_options(),
            key@.len() == 0 <==> (r matches Err(e2) && e2 == Error::KeyIsEmpty),
            final(self).staged() == crate::keymap::pairs_as_map(final(self).staged_pairs()),
            r is Ok ==> crate::keymap::keys_strictly_ascending(final(self).staged_pairs()),
            match r {
                Ok(()) => {
                    if !engine.kv().contains_key(key@) {
                        final(self).staged() == old(self).staged().remove(key@)
                            && final(self).staged_pairs().len()
                                == old(self).staged_pairs().len()
                                - (if old(self).staged().contains_key(key@) {
                                    1int
                                } else {
                                    0int
                                })
                    } else {
                        &&& final(self).staged().contains_key(key@)
                        &&& final(self).staged()[key@].key@ == key@
                        &&& final(self).staged()[key@].value@ == Seq::<u8>::empty()
                        &&& final(self).staged()[key@].record_type == LogRecordType::DELETE
                        &&& final(self).staged() == old(self).staged().insert(key@,
                            final(self).staged()[key@])
                        &&& final(self).staged_pairs().len()
                            == old(self).staged_pairs().len()
                            + (if old(self).staged().contains_key(key@) { 0int } else { 1int })
                    }
                },
                Err(e) => e == Error::KeyIsEmpty && final(self).staged()
                    == old(self).staged() && final(self).staged_pairs()
                    == old(self).staged_pairs(),
            },
    {
        if key.len() == 0 {
            return Err(Error::KeyIsEmpty);
        }
        if !engine.index_contains(&key) {
            self.pending_writes.delete(&key);
            proof {
                assert forall|k: Seq<u8>| #[trigger] self.staged().contains_key(k)
                    implies {
                        &&& self.staged()[k].key@ == k
                        &&& 0 < k.len() <= MAX_KEY_SIZE
                        &&& self.staged()[k].value@.len() <= MAX_VALUE_SIZE
                        &&& self.staged()[k].record_type != LogRecordType::TXNFINISHED
                    } by {
                    assert(old(self).staged().contains_key(k));
                }
            }
            return Ok(());
        }
        let rec = LogRecord {
            key: clone_bytes(&key),
            value: Vec::new(),
            record_type: LogRecordType::DELETE,
        };
        self.pending_writes.put(key, rec);
        proof {
            assert forall|k: Seq<u8>| #[trigger] self.staged().contains_key(k)
                implies {
                    &&& self.staged()[k].key@ == k
                    &&& 0 < k.len() <= MAX_KEY_SIZE
                    &&& self.staged()[k].value@.len() <= MAX_VALUE_SIZE
                    &&& self.staged()[k].record_type != LogRecordType::TXNFINISHED
                } by {
                if k != key@ {
                    assert(old(self).staged().contains_key(k));
                }
            }
        }
        Ok(())
    }

    /// Commit the staged writes atomically: all of them take effect, in
    /// staging order under one transaction number, or none do.  An empty
    /// batch succeeds without writing; an oversized one is refused; a
    /// failed commit leaves the staging area intact.
    pub fn commit<IO: IOManager>(&mut self, engine: &mut Engine<IO>) -> (r: Result<(), Error>)
        requires
            old(self).well_formed(),
            old(engine).wf(),
        ensures
            final(self).well_formed(),
            final(self).write_options() == old(self).write_options(),
            final(engine).wf(),
            final(engine).config() == old(engine).config(),
            old(self).staged_pairs().len() == 0 ==> r is Ok,
            old(self).staged_pairs().len() > old(self).write_options().max_batch_size
                ==> (r matches Err(e2) && e2 == Error::BatchTooLarge),
            (0 < old(self).staged_pairs().len()
                && old(self).staged_pairs().len() <= old(self).write_options().max_batch_size
                && old(engine).seq() == u64::MAX)
                ==> (r matches Err(e2) && e2 == Error::SequenceNumberExhausted),
            match r {
                Ok(()) => {
                    &&& (old(self).staged_pairs().len() == 0 ==> {
                        &&& final(engine).kv() == old(engine).kv()
                        &&& final(engine).seq() == old(engine).seq()
                        &&& final(self).staged() == old(self).staged()
                        &&& final(self).staged_pairs() == old(self).staged_pairs()
                    })
                    &&& (old(self).staged_pairs().len() > 0 ==> {
                        &&& final(engine).kv() == crate::db::staged_kv(old(engine).kv(),
                            old(self).staged_pairs())
                        &&& final(engine).seq() == old(engine).seq() + 1
                        &&& final(engine).end_state().max_seq == old(engine).seq() as nat
                        &&& (old(self).write_options().sync_writes
                            ==> final(engine).active_durable())
                        &&& crate::db::views_extended_with_frames(old(engine).views(),
                            final(engine).views(),
                            crate::db::staged_frames(old(self).staged_pairs(),
                                old(engine).seq()).push(
                                crate::db::finisher_frame(old(engine).seq())),
                            old(engine).config().data_file_size)
                        &&& final(self).staged() == Map::<Seq<u8>, LogRecord>::empty()
                        &&& final(self).staged_pairs().len() == 0
                    })
                },
                Err(e) => {
                    &&& final(self).staged() == old(self).staged()
                    &&& final(self).staged_pairs() == old(self).staged_pairs()
                    &&& {
                        ||| (e == Error::BatchTooLarge
                            && old(self).staged_pairs().len()
                                > old(self).write_options().max_batch_size
                            && final(engine).kv() == old(engine).kv()
                            && final(engine).seq() == old(engine).seq())
                        ||| (e == Error::SequenceNumberExhausted
                            && old(engine).seq() == u64::MAX
                            && final(engine).kv() == old(engine).kv()
                            && final(engine).seq() == old(engine).seq())
                        ||| ((e == Error::FailedToWriteToDataFile
                            || e == Error::FailedToSyncDataFile
                            || e == Error::FailedToOpenDataFile
                            || e == Error::FailedToCreateDataFile)
                            && final(engine).seq() == old(engine).seq() + 1
                            && (final(engine).kv() == old(engine).kv()
                                || (e == Error::FailedToSyncDataFile && final(engine).kv()
                                    == crate::db::staged_kv(old(engine).kv(),
                                        old(self).staged_pairs()))))
                    }
                },
            },
    {
        let n = self.pending_writes.len();
        if n == 0 {
            return Ok(());
        }
        if n > self.opts.max_batch_size {
            return Err(Error::BatchTooLarge);
        }
        if engine.sequence_number() == u64::MAX {
            return Err(Error::SequenceNumberExhausted);
        }
        match engine.commit_batch(&self.pending_writes, self.opts.sync_writes) {
            Ok(()) => {
                self.pending_writes.clear();
                Ok(())
            },
            Err(e) => Err(e),
        }
    }
}

/// Split an on-disk key into the user key and its transaction number.
pub(crate) fn parse_log_record_key(key: &Vec<u8>) -> (r: Result<(Vec<u8>, u64), Error>)
    ensures
        match r {
            Ok((uk, s)) => parse_key(key@) == Some((s as nat, uk@)),
            Err(e) => e == Error::DirectoryCorrupted && parse_key(key@) is None,
        },
{
    match read_varint(key, 0, 10) {
        None => Err(Error::DirectoryCorrupted),
        Some((s, n)) => {
            if n > key.len() {
                return Err(Error::DirectoryCorrupted);
            }
            let mut uk: Vec<u8> = Vec::new();
            let mut i: usize = n;
            while i < key.len()
                invariant
                    n <= i <= key@.len(),
                    uk@ =~= key@.subrange(n as int, i as int),
                decreases key@.len() - i,
            {
                uk.push(key[i]);
                i = i + 1;
            }
            proof {
                assert(uk@ =~= key@.skip(n as int));
            }
            Ok((uk, s))
        },
    }
}

} // verus!
