//! The engine: lifecycle, point reads and writes, file rollover, and the
//! startup recovery that rebuilds the index and the transaction counter
//! from the log.
//!
//! The engine's governing invariant is that its in-memory index equals the
//! outcome of replaying its data files (`crate::recovery`).  Every write
//! preserves it, so whatever state the engine reaches, a restart over the
//! same files observes the same live keys and values.

use vstd::prelude::*;

use crate::batch::lemma_framed_key;
use crate::batch::log_record_key_with_seq_num;
use crate::batch::parse_log_record_key;
use crate::batch::txn_finish_key;
use crate::data::data_file::DataFile;
use crate::data::log_record::frame_bytes;
use crate::data::log_record::lemma_parse_frame_encoding;
use crate::data::log_record::LogRecord;
use crate::data::log_record::LogRecordPos;
use crate::data::log_record::LogRecordType;
use crate::data::log_record::TransactionRecord;
use crate::data::log_record::MAX_KEY_SIZE;
use crate::data::log_record::MAX_VALUE_SIZE;
use crate::error::Error;
use crate::fio::IOManager;
use crate::fio::MAX_FILE_BYTES;
use crate::index::btree::BTree;
use crate::index::new_indexer;
use crate::index::IndexInterator;
use crate::index::Indexer;
use crate::keymap::lemma_pairs_map;
use crate::keymap::KeyMap;
use crate::options::IndexType;
use crate::options::IteratorOptions;
use crate::options::Options;
use crate::recovery::apply_pending;
use crate::recovery::bucket_of;
use crate::recovery::file_at;
use crate::recovery::has_file;
use crate::recovery::ids_distinct;
use crate::recovery::idx_kv;
use crate::recovery::idx_pos;
use crate::recovery::init_state;
use crate::recovery::lemma_apply_one_live;
use crate::recovery::lemma_apply_pending_step;
use crate::recovery::lemma_file_at;
use crate::recovery::lemma_replay_from_seqs;
use crate::recovery::lemma_replay_ok;
use crate::recovery::lemma_replay_snoc;
use crate::recovery::lemma_scan_append;
use crate::recovery::lemma_scan_empty;
use crate::recovery::lemma_scan_file_seqs;
use crate::recovery::live_kv;
use crate::recovery::live_pos;
use crate::recovery::parse_key;
use crate::recovery::replay;
use crate::recovery::replay_from;
use crate::recovery::scan_file;
use crate::recovery::scan_step;
use crate::recovery::seqs_bounded;
use crate::recovery::FileView;
use crate::recovery::LiveEntry;
use crate::recovery::PendingRec;
use crate::recovery::ScanState;
use crate::varint::byte_at;

verus! {

/// The id of the first data file of a fresh directory.
pub const INITIAL_FILE_ID: u32 = 0;

/// The storage engine: an append-only set of data files and the in-memory
/// index over them, generic over the I/O backend the files run on.
pub struct Engine<IO: IOManager> {
    pub(crate) options: Options,
    pub(crate) active_file: DataFile<IO>,
    pub(crate) older_files: Vec<DataFile<IO>>,
    pub(crate) index: BTree,
    pub(crate) seq_num: u64,
}

impl<IO: IOManager> Engine<IO> {
    /// The closed data files, as replay sees them.
    pub closed spec fn older_views(&self) -> Seq<FileView> {
        self.older_files@.map_values(
            |df: DataFile<IO>| FileView { id: df.id(), contents: df.contents() })
    }

    /// The active data file, as replay sees it.
    pub closed spec fn active_view(&self) -> FileView {
        FileView { id: self.active_file.id(), contents: self.active_file.contents() }
    }

    /// All data files in ascending id order, the active file last.
    pub open spec fn views(&self) -> Seq<FileView> {
        self.older_views().push(self.active_view())
    }

    /// The replay state after the closed files.
    pub closed spec fn mid_state(&self) -> ScanState {
        replay_from(self.older_views(), 0, init_state())->Some_0
    }

    /// The replay state after every file: what the log as a whole means.
    pub closed spec fn end_state(&self) -> ScanState {
        scan_file(self.active_file.id(), self.active_file.contents(), 0, self.mid_state())
            ->Some_0.0
    }

    /// The engine's configuration.
    pub closed spec fn config(&self) -> Options {
        self.options
    }

    /// The transaction sequence counter.
    pub closed spec fn seq(&self) -> u64 {
        self.seq_num
    }

    /// The index as a mapping from user key to record location.
    pub closed spec fn index_map(&self) -> Map<Seq<u8>, LogRecordPos> {
        self.index.mapping()
    }

    /// The index entries in ascending key order.
    pub closed spec fn index_pairs(&self) -> Seq<(Seq<u8>, LogRecordPos)> {
        self.index.pairs()
    }

    /// Everything the engine's operation rests on, short of the index:
    /// file ids strictly ascending with the active file's the largest;
    /// every file no larger than a file can be; the log replaying cleanly,
    /// with the scan of the active file consuming it exactly; the tracked
    /// write offset at the active file's true end; and the sequence counter
    /// strictly above every transaction number in the log.
    pub closed spec fn wf0(&self) -> bool {
        &&& forall|i: int, j: int| 0 <= i < j < self.older_files@.len()
            ==> (#[trigger] self.older_files@[i]).id() < (#[trigger] self.older_files@[j]).id()
        &&& forall|i: int| 0 <= i < self.older_files@.len()
            ==> (#[trigger] self.older_files@[i]).id() < self.active_file.id()
        &&& forall|i: int| 0 <= i < self.older_files@.len()
            ==> (#[trigger] self.older_files@[i]).contents().len() <= MAX_FILE_BYTES
        &&& self.active_file.contents().len() <= MAX_FILE_BYTES
        &&& replay_from(self.older_views(), 0, init_state()) is Some
        &&& scan_file(self.active_file.id(), self.active_file.contents(), 0,
            self.mid_state()) is Some
        &&& scan_file(self.active_file.id(), self.active_file.contents(), 0,
            self.mid_state())->Some_0.1 == self.active_file.contents().len() as int
        &&& self.active_file.off() == self.active_file.contents().len()
        &&& 1 <= self.seq_num
        &&& self.end_state().max_seq < self.seq_num
    }

    /// The whole invariant: the engine is well formed and its index is
    /// exactly what replaying its files yields.
    pub open spec fn wf(&self) -> bool {
        &&& self.wf0()
        &&& self.index_map() == live_pos(self.end_state())
    }

    /// The live key/value store the engine holds.
    pub open spec fn kv(&self) -> Map<Seq<u8>, Seq<u8>> {
        live_kv(self.end_state())
    }

    /// Every byte of the active data file is durably persisted: what a
    /// successful `sync`, and every write under `sync_writes`, leaves
    /// behind.
    pub closed spec fn active_durable(&self) -> bool {
        self.active_file.synced() == self.active_file.contents()
    }

    /// The whole log replays to the engine's state: what a restart over
    /// the same files will observe.
    pub proof fn lemma_wf_replay(&self)
        requires
            self.wf0(),
        ensures
            replay(self.views()) == Some(self.end_state()),
            ids_distinct(self.views()),
            forall|q: int| 0 <= q < self.views().len()
                ==> (#[trigger] self.views()[q]).contents.len() <= u64::MAX,
    {
        lemma_replay_snoc(self.older_views(), self.active_view());
        let vs = self.views();
        assert forall|i: int, j: int| 0 <= i < j < vs.len()
            implies (#[trigger] vs[i]).id != (#[trigger] vs[j]).id by {
            if j < self.older_files@.len() {
                assert(vs[i].id == self.older_files@[i].id());
                assert(vs[j].id == self.older_files@[j].id());
            } else {
                assert(vs[i].id == self.older_files@[i].id());
                assert(vs[j].id == self.active_file.id());
            }
        }
        assert forall|q: int| 0 <= q < vs.len()
            implies (#[trigger] vs[q]).contents.len() <= u64::MAX by {
            if q < self.older_files@.len() {
                assert(vs[q].contents == self.older_files@[q].contents());
            } else {
                assert(vs[q].contents == self.active_file.contents());
            }
        }
    }

    /// Durability: two well-formed engines over the same files hold the
    /// same live store.  Since every operation keeps the engine well
    /// formed, a restart — `open` over the files the engine left behind —
    /// observes exactly the store the engine held: a stored pair survives
    /// it, a committed batch stays wholly visible, an uncommitted one
    /// stays wholly invisible, and rollover loses nothing.
    pub proof fn lemma_restart_observes_live_store<IO2: IOManager>(
        &self,
        restarted: &Engine<IO2>,
    )
        requires
            self.wf(),
            restarted.wf(),
            restarted.views() == self.views(),
        ensures
            restarted.end_state() == self.end_state(),
            restarted.kv() == self.kv(),
            restarted.index_map() == self.index_map(),
    {
        self.lemma_wf_replay();
        restarted.lemma_wf_replay();
    }

    /// Buffered transaction numbers never exceed the largest number seen.
    pub proof fn lemma_wf_seqs(&self)
        requires
            self.wf0(),
        ensures
            seqs_bounded(self.end_state()),
    {
        lemma_replay_from_seqs(self.older_views(), 0, init_state());
        lemma_scan_file_seqs(self.active_file.id(), self.active_file.contents(), 0,
            self.mid_state());
    }

    /// The transaction sequence counter's current value.
    pub fn sequence_number(&self) -> (r: u64)
        ensures
            r == self.seq(),
    {
        self.seq_num
    }

    /// Flush the active data file: on success every byte appended to it
    /// is durably persisted.
    pub fn sync(&mut self) -> (r: Result<(), Error>)
        requires
            old(self).wf(),
        ensures
            final(self).wf(),
            r is Ok ==> final(self).active_durable(),
            final(self).kv() == old(self).kv(),
            final(self).end_state() == old(self).end_state(),
            final(self).views() == old(self).views(),
            final(self).config() == old(self).config(),
            final(self).seq() == old(self).seq(),
            final(self).index_pairs() == old(self).index_pairs(),
            r matches Err(e) ==> e == Error::FailedToSyncDataFile,
    {
        let r = self.active_file.sync();
        proof {
            assert(self.views() =~= old(self).views());
        }
        r
    }

    /// Close the engine: flush the active data file, durably persisting
    /// it on success.
    pub fn close(&mut self) -> (r: Result<(), Error>)
        requires
            old(self).wf(),
        ensures
            final(self).wf(),
            r is Ok ==> final(self).active_durable(),
            final(self).kv() == old(self).kv(),
            final(self).end_state() == old(self).end_state(),
            final(self).views() == old(self).views(),
            final(self).config() == old(self).config(),
            final(self).seq() == old(self).seq(),
            r matches Err(e) ==> e == Error::FailedToSyncDataFile,
    {
        self.sync()
    }

    /// Surrender the engine's data files, oldest first, the active file
    /// last: an embedding that manages storage itself takes them back and
    /// may hand them to `open` again — a well-formed engine always leaves
    /// a sorted, cleanly replaying set behind, so that reopening is owed
    /// success short of I/O failures.
    pub fn into_files(self) -> (r: Vec<DataFile<IO>>)
        ensures
            r@.len() == self.views().len(),
            forall|i: int| 0 <= i < r@.len()
                ==> (#[trigger] r@[i]).id() == self.views()[i].id
                    && r@[i].contents() == self.views()[i].contents,
            self.wf0() ==> data_files_sorted(r@) && clean_files(r@),
    {
        proof {
            if self.wf0() {
                self.lemma_wf_replay();
            }
        }
        let ghost allf = self.older_files@.push(self.active_file);
        let mut files = self.older_files;
        files.push(self.active_file);
        proof {
            assert(files@ == allf);
            assert forall|i: int| 0 <= i < files@.len()
                implies (#[trigger] files@[i]).id() == self.views()[i].id
                    && files@[i].contents() == self.views()[i].contents by {
                if i < files@.len() - 1 {
                    assert(self.views()[i] == self.older_views()[i]);
                }
            }
            if self.wf0() {
                assert forall|a: int, b: int| 0 <= a < b < allf.len()
                    implies (#[trigger] allf[a]).id() < (#[trigger] allf[b]).id() by {
                    if b < allf.len() - 1 {
                        assert(allf[a] == self.older_files@[a]);
                        assert(allf[b] == self.older_files@[b]);
                    } else {
                        assert(allf[a] == self.older_files@[a]);
                        assert(allf[b] == self.active_file);
                    }
                }
                assert(views_of_files(allf) =~= self.views()) by {
                    assert forall|q: int| 0 <= q < allf.len()
                        implies #[trigger] views_of_files(allf)[q] == self.views()[q] by {
                        if q < allf.len() - 1 {
                            assert(allf[q] == self.older_files@[q]);
                        }
                    }
                }
                assert(views_of_files(allf).take(allf.len() - 1) =~= self.older_views());
                assert(views_of_files(allf).last() == self.active_view());
                assert(clean_files(allf));
            }
        }
        files
    }

    /// Append one encoded record to the active file, rolling it over first
    /// if the record would push it past the configured size.  The record's
    /// frame extends the log by exactly one replay step; the index is not
    /// touched.
    pub(crate) fn append_log_record(&mut self, record: &LogRecord) -> (r: Result<
        LogRecordPos,
        Error,
    >)
        requires
            old(self).wf0(),
            record.key@.len() > 0,
            record.key@.len() <= MAX_KEY_SIZE + 10,
            record.value@.len() <= MAX_VALUE_SIZE,
            parse_key(record.key@) is Some,
            parse_key(record.key@)->Some_0.0 < old(self).seq_num,
        ensures
            final(self).config() == old(self).config(),
            final(self).seq() == old(self).seq(),
            final(self).index_map() == old(self).index_map(),
            final(self).index_pairs() == old(self).index_pairs(),
            match r {
                Ok(pos) => {
                    &&& final(self).wf0()
                    &&& scan_step(old(self).end_state(), record.record_type, record.key@,
                        record.value@, pos) == Some(final(self).end_state())
                    &&& views_extended_with(old(self).views(), final(self).views(),
                        frame_bytes(record.record_type, record.key@, record.value@),
                        old(self).config().data_file_size)
                },
                Err(e) => {
                    &&& final(self).wf0()
                    &&& final(self).end_state() == old(self).end_state()
                    &&& (e == Error::FailedToWriteToDataFile
                        || e == Error::FailedToSyncDataFile
                        || e == Error::FailedToOpenDataFile
                        || e == Error::FailedToCreateDataFile)
                },
            },
    {
        let ghost end0 = old(self).end_state();
        let enc = record.encode();
        proof {
            let fb = frame_bytes(record.record_type, record.key@, record.value@);
            assert forall|k: int| 0 <= k < fb.len()
                implies #[trigger] byte_at(enc@, 0 + k) == fb[k] by {
                assert(enc@[k] == fb[k]);
            }
            lemma_parse_frame_encoding(enc@, 0, record.record_type, record.key@,
                record.value@);
        }

        // roll the active file over if this record would overflow it
        let wo = self.active_file.get_write_offset();
        if (wo as u128) + (enc.len() as u128) > (self.options.data_file_size as u128) {
            match self.active_file.sync() {
                Ok(()) => {},
                Err(e) => {
                    return Err(e);
                },
            }
            let cur_id = self.active_file.get_file_id();
            if cur_id == u32::MAX {
                return Err(Error::FailedToCreateDataFile);
            }
            let mut rolled = match DataFile::<IO>::new(&self.options.dir_path, cur_id + 1) {
                Ok(f) => f,
                Err(e) => {
                    return Err(e);
                },
            };
            core::mem::swap(&mut self.active_file, &mut rolled);
            self.older_files.push(rolled);
            proof {
                assert(self.older_views()
                    =~= old(self).older_views().push(old(self).active_view()));
                lemma_replay_snoc(old(self).older_views(), old(self).active_view());
                assert(replay_from(self.older_views(), 0, init_state()) == Some(end0));
                lemma_scan_empty(self.active_file.id(), end0);
                assert(self.active_file.contents() =~= Seq::<u8>::empty());
                assert(self.end_state() == end0);
            }
        }
        proof {
            assert(self.wf0());
            assert(self.end_state() == end0);
        }

        // write the frame at the current end of the active file
        let write_off = self.active_file.get_write_offset();
        let ghost c_before = self.active_file.contents();
        let ghost mid1 = self.mid_state();
        match self.active_file.write(&enc) {
            Ok(_) => {},
            Err(e) => {
                proof {
                    assert(self.end_state() == end0);
                }
                return Err(e);
            },
        }
        let pos = LogRecordPos { file_id: self.active_file.get_file_id(), offset: write_off };
        proof {
            assert(scan_step(end0, record.record_type, record.key@, record.value@, pos)
                is Some);
            let st2 = scan_step(end0, record.record_type, record.key@, record.value@, pos)
                ->Some_0;
            assert(pos.offset == c_before.len());
            lemma_scan_append(self.active_file.id(), c_before, enc@, 0, mid1, end0, st2);
            assert(self.active_file.contents() == c_before + enc@);
            assert(self.end_state() == st2);
            assert(self.wf0()) by {
                let ghost seqn = parse_key(record.key@)->Some_0.0;
                assert(st2.max_seq < self.seq_num);
            }
            let fb = frame_bytes(record.record_type, record.key@, record.value@);
            let pre = old(self).views();
            let post = self.views();
            let oldlen = old(self).active_view().contents.len();
            assert(views_extended_with(pre, post, fb, old(self).options.data_file_size)) by {
                if oldlen + fb.len() <= old(self).options.data_file_size {
                    // the frame fit: the active file just grew
                    assert(self.older_files@ == old(self).older_files@);
                    assert(post.last() == (FileView {
                        id: pre.last().id,
                        contents: pre.last().contents + fb,
                    }));
                    assert(forall|i: int| 0 <= i < pre.len() - 1
                        ==> #[trigger] post[i] == pre[i]);
                } else {
                    // the frame rolled the file: the old active file closed
                    assert(post.len() == pre.len() + 1);
                    assert(c_before =~= Seq::<u8>::empty());
                    assert(post.last() == (FileView {
                        id: (pre.last().id + 1) as u32,
                        contents: fb,
                    }));
                    assert forall|i: int| 0 <= i < pre.len()
                        implies #[trigger] post[i] == pre[i] by {
                        if i < pre.len() - 1 {
                            assert(post[i] == self.older_views()[i]);
                            assert(pre[i] == old(self).older_views()[i]);
                        } else {
                            assert(post[i] == self.older_views()[pre.len() - 1]);
                        }
                    }
                }
            }
        }
        Ok(pos)
    }
}

impl<IO: IOManager> Engine<IO> {
    /// Read the value of the record at `pos`, wherever in the file set it
    /// lives.  What comes back follows the frame parser at that location:
    /// the value of a live record, `KeyNotFound` for a tombstone, and the
    /// codec's errors for anything else.
    pub fn get_value_by_position(&self, pos: &LogRecordPos) -> (r: Result<Vec<u8>, Error>)
        requires
            self.wf0(),
        ensures
            !has_file(self.views(), pos.file_id)
                ==> (r matches Err(e2) && e2 == Error::DataFileNotFound),
            match r {
                Ok(v) => has_file(self.views(), pos.file_id)
                    && (crate::data::log_record::parse_frame(
                        file_at(self.views(), pos.file_id), pos.offset as int)
                        matches crate::data::log_record::FrameParse::Frame {
                            rtype, key, value, size }
                        && rtype != LogRecordType::DELETE && value == v@),
                Err(e) => {
                    ||| (e == Error::DataFileNotFound
                        && !has_file(self.views(), pos.file_id))
                    ||| (has_file(self.views(), pos.file_id) && {
                        let fp = crate::data::log_record::parse_frame(
                            file_at(self.views(), pos.file_id), pos.offset as int);
                        ||| (e == Error::KeyNotFound
                            && (fp matches crate::data::log_record::FrameParse::Frame {
                                rtype, .. } && rtype == LogRecordType::DELETE))
                        ||| (e == Error::ReadDataFileEOF && fp is Eof)
                        ||| (e == Error::InvalidLogRecordCRC && fp is BadCrc)
                        ||| (e == Error::DirectoryCorrupted && (fp is Corrupt
                            || !crate::data::log_record::frame_fits_arch(
                                file_at(self.views(), pos.file_id), pos.offset as int)))
                    })
                    ||| e == Error::FailedToReadFromDataFile
                },
            },
    {
        proof {
            self.lemma_wf_replay();
        }
        let fid = pos.file_id;
        if fid == self.active_file.get_file_id() {
            proof {
                lemma_file_at(self.views(), self.views().len() - 1);
                assert(file_at(self.views(), fid) == self.active_file.contents());
            }
            let wo = self.active_file.get_write_offset();
            if pos.offset > wo {
                proof {
                    crate::data::log_record::lemma_parse_frame_beyond(
                        self.active_file.contents(), pos.offset as int);
                }
                return Err(Error::ReadDataFileEOF);
            }
            let res = self.active_file.read_log_record(pos.offset);
            return map_read_result(res, Ghost(self.active_file.contents()),
                Ghost(pos.offset as int));
        }
        let mut i: usize = 0;
        while i < self.older_files.len()
            invariant
                i <= self.older_files@.len(),
                self.wf0(),
                ids_distinct(self.views()),
                fid == pos.file_id,
                fid != self.active_file.id(),
                forall|q: int| 0 <= q < i
                    ==> (#[trigger] self.older_files@[q]).id() != fid,
            decreases self.older_files@.len() - i,
        {
            if self.older_files[i].get_file_id() == fid {
                proof {
                    assert(self.views()[i as int].id == fid);
                    lemma_file_at(self.views(), i as int);
                    assert(file_at(self.views(), fid) == self.older_files@[i as int].contents());
                }
                let f = &self.older_files[i];
                let sz = match f.file_size() {
                    Ok(s) => s,
                    Err(e) => {
                        return Err(e);
                    },
                };
                if pos.offset > sz {
                    proof {
                        crate::data::log_record::lemma_parse_frame_beyond(
                            f.contents(), pos.offset as int);
                    }
                    return Err(Error::ReadDataFileEOF);
                }
                let res = f.read_log_record(pos.offset);
                return map_read_result(res, Ghost(f.contents()), Ghost(pos.offset as int));
            }
            i = i + 1;
        }
        proof {
            if has_file(self.views(), fid) {
                let q = crate::recovery::file_index_of(self.views(), fid);
                assert(0 <= q < self.views().len() && self.views()[q].id == fid);
                if q < self.older_files@.len() {
                    assert(self.older_files@[q].id() == fid);
                } else {
                    assert(self.active_file.id() == fid);
                }
            }
        }
        Err(Error::DataFileNotFound)
    }

    /// Look a key up.  A missing key, and a key whose latest committed
    /// record is a tombstone, read as `KeyNotFound`.
    pub fn get(&self, key: &Vec<u8>) -> (r: Result<Vec<u8>, Error>)
        requires
            self.wf(),
        ensures
            key@.len() == 0 <==> (r matches Err(e2) && e2 == Error::KeyIsEmpty),
            key@.len() > 0 && !self.kv().contains_key(key@)
                ==> (r matches Err(e2) && e2 == Error::KeyNotFound),
            match r {
                Ok(v) => self.kv().contains_key(key@) && v@ == self.kv()[key@],
                Err(e) => {
                    ||| (e == Error::KeyIsEmpty && key@.len() == 0)
                    ||| (e == Error::KeyNotFound && !self.kv().contains_key(key@))
                    ||| e == Error::FailedToReadFromDataFile
                    ||| (e == Error::DirectoryCorrupted
                        && (usize::MAX as int) < 0x10_0000_000f)
                },
            },
    {
        if key.len() == 0 {
            return Err(Error::KeyIsEmpty);
        }
        match self.index.get(crate::keys::clone_bytes(key)) {
            None => {
                proof {
                    assert(!self.kv().contains_key(key@));
                }
                Err(Error::KeyNotFound)
            },
            Some(pos) => {
                proof {
                    self.lemma_wf_replay();
                    lemma_replay_ok(self.views());
                    assert(self.end_state().idx.contains_key(key@));
                    assert(self.kv().contains_key(key@));
                    assert(crate::recovery::entry_ok(self.views(),
                        self.end_state().idx[key@]));
                    assert(pos == self.end_state().idx[key@].pos);
                }
                let ghost entry = self.end_state().idx[key@];
                match self.get_value_by_position(&pos) {
                    Ok(v) => {
                        proof {
                            assert(v@ == entry.value);
                            assert(self.kv()[key@] == entry.value);
                        }
                        Ok(v)
                    },
                    Err(e) => {
                        proof {
                            if e == Error::DirectoryCorrupted {
                                let c = file_at(self.views(), pos.file_id);
                                let o = pos.offset as int;
                                crate::varint::lemma_parse_varint5(c, o + 1);
                                let n1 = crate::varint::parse_varint(c, o + 1, 5)
                                    ->Some_0.1;
                                crate::varint::lemma_parse_varint5(c, o + 1 + n1 as int);
                            }
                        }
                        Err(e)
                    },
                }
            },
        }
    }

    /// Store a key/value pair.  The record is appended to the log, flushed
    /// when the engine was opened with `sync_writes`, and only then handed
    /// to the index.  One departure from flushing inside the append path:
    /// when that flush fails, the record is already on disk, so the index
    /// is still brought in line with the log before the error surfaces —
    /// the store always equals its replay, where leaving the index behind
    /// would resurrect the orphan record on restart.
    pub fn put(&mut self, key: Vec<u8>, value: Vec<u8>) -> (r: Result<(), Error>)
        requires
            old(self).wf(),
            key@.len() <= MAX_KEY_SIZE,
            value@.len() <= MAX_VALUE_SIZE,
        ensures
            final(self).wf(),
            final(self).config() == old(self).config(),
            final(self).seq() == old(self).seq(),
            key@.len() == 0 <==> (r matches Err(e2) && e2 == Error::KeyIsEmpty),
            r is Ok && old(self).config().sync_writes ==> final(self).active_durable(),
            match r {
                Ok(()) => final(self).kv() == old(self).kv().insert(key@, value@)
                    && views_extended_with(old(self).views(), final(self).views(),
                        frame_bytes(LogRecordType::NORMAL,
                            crate::varint::varint_enc(0) + key@, value@),
                        old(self).config().data_file_size),
                Err(e) => {
                    ||| (e == Error::KeyIsEmpty && final(self).kv() == old(self).kv()
                        && final(self).views() == old(self).views())
                    ||| (e == Error::FailedToSyncDataFile
                        && (final(self).kv() == old(self).kv()
                            || final(self).kv() == old(self).kv().insert(key@, value@)))
                    ||| ((e == Error::FailedToWriteToDataFile
                        || e == Error::FailedToOpenDataFile
                        || e == Error::FailedToCreateDataFile)
                        && final(self).kv() == old(self).kv())
                },
            },
    {
        if key.len() == 0 {
            return Err(Error::KeyIsEmpty);
        }
        let framed = log_record_key_with_seq_num(&key, crate::batch::NON_TRANSACTION_SEQ_NUM);
        let record = LogRecord { key: framed, value, record_type: LogRecordType::NORMAL };
        proof {
            lemma_framed_key(key@, 0);
            crate::varint::lemma_varint_enc_len(0);
        }
        let pos = match self.append_log_record(&record) {
            Ok(p) => p,
            Err(e) => {
                return Err(e);
            },
        };
        let ghost v1 = self.views();
        let sync_res: Result<(), Error> = if self.options.sync_writes {
            self.active_file.sync()
        } else {
            Ok(())
        };
        proof {
            lemma_apply_one_live(old(self).end_state().idx, key@, LogRecordType::NORMAL,
                record.value@, pos);
        }
        self.index.put(key, pos);
        proof {
            assert(self.views() =~= v1);
        }
        match sync_res {
            Ok(()) => Ok(()),
            Err(e) => Err(e),
        }
    }

    /// Remove a key.  If the index has no entry the call succeeds without
    /// writing; otherwise a tombstone is appended, flushed when the engine
    /// was opened with `sync_writes`, and the entry dropped — also when
    /// that flush fails, so the store always equals its replay.
    pub fn delete(&mut self, key: Vec<u8>) -> (r: Result<(), Error>)
        requires
            old(self).wf(),
            key@.len() <= MAX_KEY_SIZE,
        ensures
            final(self).wf(),
            final(self).config() == old(self).config(),
            final(self).seq() == old(self).seq(),
            key@.len() == 0 <==> (r matches Err(e2) && e2 == Error::KeyIsEmpty),
            r is Ok && key@.len() > 0 && old(self).kv().contains_key(key@)
                && old(self).config().sync_writes ==> final(self).active_durable(),
            key@.len() > 0 && !old(self).kv().contains_key(key@)
                ==> (r matches Ok(u) && final(self).views() == old(self).views()),
            match r {
                Ok(()) => final(self).kv() == old(self).kv().remove(key@)
                    && (old(self).kv().contains_key(key@) ==> views_extended_with(
                        old(self).views(), final(self).views(),
                        frame_bytes(LogRecordType::DELETE,
                            crate::varint::varint_enc(0) + key@, Seq::<u8>::empty()),
                        old(self).config().data_file_size)),
                Err(e) => {
                    ||| (e == Error::KeyIsEmpty && final(self).kv() == old(self).kv()
                        && final(self).views() == old(self).views())
                    ||| (e == Error::FailedToSyncDataFile
                        && (final(self).kv() == old(self).kv()
                            || final(self).kv() == old(self).kv().remove(key@)))
                    ||| ((e == Error::FailedToWriteToDataFile
                        || e == Error::FailedToOpenDataFile
                        || e == Error::FailedToCreateDataFile)
                        && final(self).kv() == old(self).kv())
                },
            },
    {
        if key.len() == 0 {
            return Err(Error::KeyIsEmpty);
        }
        match self.index.get(crate::keys::clone_bytes(&key)) {
            None => {
                proof {
                    assert(!self.kv().contains_key(key@));
                    assert(self.kv() =~= self.kv().remove(key@));
                    assert(self.views() =~= old(self).views());
                }
                return Ok(());
            },
            Some(_) => {
                proof {
                    assert(old(self).kv().contains_key(key@));
                }
            },
        }
        let framed = log_record_key_with_seq_num(&key, crate::batch::NON_TRANSACTION_SEQ_NUM);
        let record = LogRecord { key: framed, value: Vec::new(), record_type: LogRecordType::DELETE };
        proof {
            lemma_framed_key(key@, 0);
            crate::varint::lemma_varint_enc_len(0);
        }
        let pos = match self.append_log_record(&record) {
            Ok(p) => p,
            Err(e) => {
                return Err(e);
            },
        };
        let ghost v1 = self.views();
        let sync_res: Result<(), Error> = if self.options.sync_writes {
            self.active_file.sync()
        } else {
            Ok(())
        };
        proof {
            assert(record.value@ =~= Seq::<u8>::empty());
            lemma_apply_one_live(old(self).end_state().idx, key@, LogRecordType::DELETE,
                record.value@, pos);
        }
        self.index.delete(key);
        proof {
            assert(self.views() =~= v1);
        }
        match sync_res {
            Ok(()) => Ok(()),
            Err(e) => Err(e),
        }
    }
}

/// The handed data files in strictly ascending id order, as `open`
/// demands them.
pub open spec fn data_files_sorted<IO: IOManager>(files: Seq<DataFile<IO>>) -> bool {
    forall|a: int, b: int| 0 <= a < b < files.len()
        ==> (#[trigger] files[a]).id() < (#[trigger] files[b]).id()
}

/// The data files, as replay sees them.
pub open spec fn views_of_files<IO: IOManager>(files: Seq<DataFile<IO>>) -> Seq<FileView> {
    files.map_values(|df: DataFile<IO>| FileView { id: df.id(), contents: df.contents() })
}

/// A file set whose log replays cleanly: every frame checks out, the scan
/// of the last file — the active one to be — consumes it exactly, and the
/// largest transaction number leaves room for the counter to resume.  The
/// files an engine leaves behind are always clean.
pub open spec fn clean_files<IO: IOManager>(files: Seq<DataFile<IO>>) -> bool {
    let vs = views_of_files(files);
    &&& replay(vs) is Some
    &&& replay(vs)->Some_0.max_seq < u64::MAX as nat
    &&& (files.len() > 0 ==> {
        let older = vs.take(files.len() - 1);
        let last = vs.last();
        &&& replay(older) is Some
        &&& scan_file(last.id, last.contents, 0, replay(older)->Some_0) is Some
        &&& scan_file(last.id, last.contents, 0, replay(older)->Some_0)->Some_0.1
            == last.contents.len() as int
    })
}

/// One record's frame appended to the file set: it extends the active
/// file when that stays within the rollover threshold, and otherwise
/// opens a fresh active file with the next id holding just this frame,
/// the previous active file closing unchanged.
pub open spec fn views_extended_with(
    pre: Seq<FileView>,
    post: Seq<FileView>,
    frame: Seq<u8>,
    threshold: u64,
) -> bool {
    &&& pre.len() >= 1
    &&& if pre.last().contents.len() + frame.len() <= threshold {
        &&& post.len() == pre.len()
        &&& post.last() == (FileView {
            id: pre.last().id,
            contents: pre.last().contents + frame,
        })
        &&& forall|i: int| 0 <= i < pre.len() - 1 ==> #[trigger] post[i] == pre[i]
    } else {
        &&& post.len() == pre.len() + 1
        &&& post.last() == (FileView { id: (pre.last().id + 1) as u32, contents: frame })
        &&& forall|i: int| 0 <= i < pre.len() ==> #[trigger] post[i] == pre[i]
    }
}

/// A run of frames appended one after another, each under the rollover
/// rule.
pub open spec fn views_extended_with_frames(
    pre: Seq<FileView>,
    post: Seq<FileView>,
    frames: Seq<Seq<u8>>,
    threshold: u64,
) -> bool
    decreases frames.len(),
{
    if frames.len() == 0 {
        post == pre
    } else {
        exists|mid: Seq<FileView>|
            #[trigger] views_extended_with(pre, mid, frames[0], threshold)
            && views_extended_with_frames(mid, post, frames.drop_first(), threshold)
    }
}

/// One more frame extends a run of appends.
pub proof fn lemma_views_extended_snoc(
    pre: Seq<FileView>,
    mid: Seq<FileView>,
    post: Seq<FileView>,
    frames: Seq<Seq<u8>>,
    f: Seq<u8>,
    threshold: u64,
)
    requires
        views_extended_with_frames(pre, mid, frames, threshold),
        views_extended_with(mid, post, f, threshold),
    ensures
        views_extended_with_frames(pre, post, frames.push(f), threshold),
    decreases frames.len(),
{
    if frames.len() == 0 {
        assert(frames.push(f)[0] == f);
        assert(frames.push(f).drop_first() =~= Seq::<Seq<u8>>::empty());
        assert(views_extended_with(pre, post, frames.push(f)[0], threshold));
        assert(views_extended_with_frames(post, post, frames.push(f).drop_first(),
            threshold));
    } else {
        let m0 = choose|m0: Seq<FileView>|
            #[trigger] views_extended_with(pre, m0, frames[0], threshold)
            && views_extended_with_frames(m0, mid, frames.drop_first(), threshold);
        lemma_views_extended_snoc(m0, mid, post, frames.drop_first(), f, threshold);
        assert(frames.push(f).drop_first() =~= frames.drop_first().push(f));
        assert(frames.push(f)[0] == frames[0]);
        assert(views_extended_with(pre, m0, frames.push(f)[0], threshold));
    }
}

/// The frames a batch's records occupy on disk, in staging order, each
/// framed under the batch's transaction number.
pub open spec fn staged_frames(pairs: Seq<(Seq<u8>, LogRecord)>, seq_num: u64) -> Seq<Seq<u8>> {
    Seq::new(pairs.len(), |t: int| frame_bytes(pairs[t].1.record_type,
        crate::varint::varint_enc(seq_num as nat) + pairs[t].0, pairs[t].1.value@))
}

/// The closing marker's frame for a batch.
pub open spec fn finisher_frame(seq_num: u64) -> Seq<u8> {
    frame_bytes(LogRecordType::TXNFINISHED,
        crate::varint::varint_enc(seq_num as nat) + crate::batch::txn_finish_sentinel(),
        Seq::<u8>::empty())
}

/// A staged batch is fit to commit: every staged record carries its own
/// key, the key and value are within bounds, and only live records and
/// tombstones are staged.
pub open spec fn staged_wf(m: Map<Seq<u8>, LogRecord>) -> bool {
    forall|k: Seq<u8>| #[trigger] m.contains_key(k) ==> {
        &&& m[k].key@ == k
        &&& 0 < k.len() <= MAX_KEY_SIZE
        &&& m[k].value@.len() <= MAX_VALUE_SIZE
        &&& m[k].record_type != LogRecordType::TXNFINISHED
    }
}

/// What committing the staged writes, in staging order, does to the live
/// store: an insert per staged record, a removal per staged tombstone.
pub open spec fn staged_kv(
    kv: Map<Seq<u8>, Seq<u8>>,
    pairs: Seq<(Seq<u8>, LogRecord)>,
) -> Map<Seq<u8>, Seq<u8>>
    decreases pairs.len(),
{
    if pairs.len() == 0 {
        kv
    } else {
        let p = pairs.last();
        let prev = staged_kv(kv, pairs.drop_last());
        match p.1.record_type {
            LogRecordType::NORMAL => prev.insert(p.0, p.1.value@),
            LogRecordType::DELETE => prev.remove(p.0),
            LogRecordType::TXNFINISHED => prev,
        }
    }
}

/// What committing a batch makes visible, read off the staged map alone:
/// a staged record inserts its value, a staged tombstone removes its key,
/// and every other key keeps its old reading.
pub proof fn lemma_staged_kv_map(kv: Map<Seq<u8>, Seq<u8>>, pairs: Seq<(Seq<u8>, LogRecord)>)
    requires
        crate::keymap::keys_strictly_ascending(pairs),
    ensures
        forall|k: Seq<u8>| #[trigger] crate::keymap::pairs_as_map(pairs).contains_key(k) ==> {
            &&& (crate::keymap::pairs_as_map(pairs)[k].record_type == LogRecordType::NORMAL
                ==> staged_kv(kv, pairs).contains_key(k)
                    && staged_kv(kv, pairs)[k]
                        == crate::keymap::pairs_as_map(pairs)[k].value@)
            &&& (crate::keymap::pairs_as_map(pairs)[k].record_type == LogRecordType::DELETE
                ==> !staged_kv(kv, pairs).contains_key(k))
        },
        forall|k: Seq<u8>| !crate::keymap::pairs_as_map(pairs).contains_key(k)
            ==> #[trigger] staged_kv(kv, pairs).contains_key(k) == kv.contains_key(k),
        forall|k: Seq<u8>| !crate::keymap::pairs_as_map(pairs).contains_key(k)
            && kv.contains_key(k) ==> #[trigger] staged_kv(kv, pairs)[k] == kv[k],
    decreases pairs.len(),
{
    lemma_pairs_map(pairs);
    if pairs.len() == 0 {
        assert(staged_kv(kv, pairs) == kv);
    } else {
        let pre = pairs.drop_last();
        let p = pairs.last();
        assert forall|i: int, j: int| 0 <= i < j < pre.len()
            implies crate::keys::lex_lt((#[trigger] pre[i]).0, (#[trigger] pre[j]).0) by {
            assert(pre[i] == pairs[i] && pre[j] == pairs[j]);
        }
        lemma_staged_kv_map(kv, pre);
        lemma_pairs_map(pre);
        let prevkv = staged_kv(kv, pre);
        assert(!crate::keymap::pairs_as_map(pre).contains_key(p.0)) by {
            if crate::keymap::pairs_as_map(pre).contains_key(p.0) {
                let i = crate::keymap::pairs_index_of(pre, p.0);
                assert(0 <= i < pre.len() && pre[i].0 == p.0);
                assert(pairs[i].0 == pairs[pairs.len() - 1].0);
            }
        }
        assert forall|k: Seq<u8>| #[trigger] crate::keymap::pairs_as_map(pairs).contains_key(
            k) implies {
            &&& (crate::keymap::pairs_as_map(pairs)[k].record_type == LogRecordType::NORMAL
                ==> staged_kv(kv, pairs).contains_key(k)
                    && staged_kv(kv, pairs)[k]
                        == crate::keymap::pairs_as_map(pairs)[k].value@)
            &&& (crate::keymap::pairs_as_map(pairs)[k].record_type == LogRecordType::DELETE
                ==> !staged_kv(kv, pairs).contains_key(k))
        } by {
            let i = crate::keymap::pairs_index_of(pairs, k);
            assert(0 <= i < pairs.len() && pairs[i].0 == k);
            assert(crate::keymap::pairs_as_map(pairs)[k] == pairs[i].1);
            if i == pairs.len() - 1 {
                assert(k == p.0);
            } else {
                assert(pre[i] == pairs[i]);
                assert(crate::keymap::pairs_as_map(pre).contains_key(k));
                assert(crate::keymap::pairs_as_map(pre)[k] == pre[i].1);
                assert(k != p.0);
            }
            match p.1.record_type {
                LogRecordType::NORMAL => {
                    assert(staged_kv(kv, pairs) == prevkv.insert(p.0, p.1.value@));
                },
                LogRecordType::DELETE => {
                    assert(staged_kv(kv, pairs) == prevkv.remove(p.0));
                },
                LogRecordType::TXNFINISHED => {
                    assert(staged_kv(kv, pairs) == prevkv);
                },
            }
        }
        assert forall|k: Seq<u8>| !crate::keymap::pairs_as_map(pairs).contains_key(k)
            implies #[trigger] staged_kv(kv, pairs).contains_key(k) == kv.contains_key(k)
                && (kv.contains_key(k) ==> staged_kv(kv, pairs)[k] == kv[k]) by {
            assert(k != p.0) by {
                assert(crate::keymap::pairs_as_map(pairs).contains_key(p.0));
            }
            assert(!crate::keymap::pairs_as_map(pre).contains_key(k)) by {
                if crate::keymap::pairs_as_map(pre).contains_key(k) {
                    let i = crate::keymap::pairs_index_of(pre, k);
                    assert(0 <= i < pre.len() && pre[i].0 == k);
                    assert(pairs[i].0 == k);
                    assert(crate::keymap::pairs_as_map(pairs).contains_key(k));
                }
            }
            assert(staged_kv(kv, pre).contains_key(k) <==> kv.contains_key(k));
            assert(kv.contains_key(k) ==> staged_kv(kv, pre)[k] == kv[k]);
            match p.1.record_type {
                LogRecordType::NORMAL => {
                    assert(staged_kv(kv, pairs) == prevkv.insert(p.0, p.1.value@));
                },
                LogRecordType::DELETE => {
                    assert(staged_kv(kv, pairs) == prevkv.remove(p.0));
                },
                LogRecordType::TXNFINISHED => {
                    assert(staged_kv(kv, pairs) == prevkv);
                },
            }
        }
    }
}

/// The staged pairs as the records replay buffers for them, with the
/// locations their commit appended them at.
pub open spec fn staged_recs(
    pairs: Seq<(Seq<u8>, LogRecord)>,
    poss: Seq<LogRecordPos>,
) -> Seq<PendingRec> {
    Seq::new(pairs.len(), |t: int| PendingRec {
        key: pairs[t].0,
        rtype: pairs[t].1.record_type,
        value: pairs[t].1.value@,
        pos: poss[t],
    })
}

/// Draining a batch's buffered records applies the staged writes.
proof fn lemma_staged_kv(
    idx: Map<Seq<u8>, LiveEntry>,
    pairs: Seq<(Seq<u8>, LogRecord)>,
    poss: Seq<LogRecordPos>,
)
    requires
        poss.len() == pairs.len(),
    ensures
        idx_kv(apply_pending(idx, staged_recs(pairs, poss)))
            == staged_kv(idx_kv(idx), pairs),
    decreases pairs.len(),
{
    if pairs.len() > 0 {
        let sr = staged_recs(pairs, poss);
        assert(sr.drop_last() =~= staged_recs(pairs.drop_last(), poss.drop_last()));
        lemma_staged_kv(idx, pairs.drop_last(), poss.drop_last());
        let r = sr.last();
        lemma_apply_one_live(apply_pending(idx, sr.drop_last()), r.key, r.rtype, r.value,
            r.pos);
    }
}

impl<IO: IOManager> Engine<IO> {
    /// Whether the index holds an entry for this key.
    pub(crate) fn index_contains(&self, key: &Vec<u8>) -> (r: bool)
        requires
            self.wf(),
        ensures
            r == self.kv().contains_key(key@),
    {
        match self.index.get(crate::keys::clone_bytes(key)) {
            Some(_) => true,
            None => false,
        }
    }

    /// Commit a staged batch: allocate the next transaction number, append
    /// every staged record under it, seal them with the closing marker,
    /// flush if asked to, and only then apply the batch to the index.
    /// Until the marker is on disk none of the batch is visible, to this
    /// engine or to a restart.  A failed flush surfaces after the index is
    /// brought in line with the sealed batch on disk, so the store always
    /// equals its replay.
    pub(crate) fn commit_batch(
        &mut self,
        pending: &KeyMap<LogRecord>,
        sync_writes: bool,
    ) -> (r: Result<(), Error>)
        requires
            old(self).wf(),
            old(self).seq() < u64::MAX,
            pending.pairs().len() >= 1,
            staged_wf(pending.as_map()),
        ensures
            final(self).config() == old(self).config(),
            final(self).seq() == old(self).seq() + 1,
            final(self).wf(),
            r is Ok ==> final(self).end_state().max_seq == old(self).seq() as nat,
            r is Ok && sync_writes ==> final(self).active_durable(),
            r is Ok ==> views_extended_with_frames(old(self).views(), final(self).views(),
                staged_frames(pending.pairs(), old(self).seq()).push(
                    finisher_frame(old(self).seq())),
                old(self).config().data_file_size),
            match r {
                Ok(()) => final(self).kv() == staged_kv(old(self).kv(), pending.pairs()),
                Err(e) => {
                    &&& (e == Error::FailedToWriteToDataFile
                        || e == Error::FailedToSyncDataFile
                        || e == Error::FailedToOpenDataFile
                        || e == Error::FailedToCreateDataFile)
                    &&& (final(self).kv() == old(self).kv()
                        || (e == Error::FailedToSyncDataFile && final(self).kv()
                            == staged_kv(old(self).kv(), pending.pairs())))
                },
            },
    {
        let ghost pairs = pending.pairs();
        let n = pending.len();
        proof {
            lemma_pairs_map(pending.pairs());
            old(self).lemma_wf_seqs();
        }
        let seqn = self.seq_num;
        self.seq_num = seqn + 1;
        let ghost end0 = self.end_state();
        proof {
            assert(staged_frames(pairs, seqn).take(0) =~= Seq::<Seq<u8>>::empty());
            assert(self.views() =~= old(self).views());
        }

        // append every staged record under the allocated number; the
        // records are only buffered by replay, so nothing is visible yet
        let mut positions: Vec<LogRecordPos> = Vec::new();
        let mut j: usize = 0;
        while j < n
            invariant
                j <= n,
                n == pairs.len(),
                pairs == pending.pairs(),
                staged_wf(pending.as_map()),
                forall|t: int| 0 <= t < pairs.len()
                    ==> pending.as_map().contains_key((#[trigger] pairs[t]).0)
                        && pending.as_map()[pairs[t].0] == pairs[t].1,
                self.seq_num == seqn + 1,
                seqn == old(self).seq(),
                seqn < u64::MAX,
                1 <= seqn,
                self.config() == old(self).config(),
                self.index_map() == old(self).index_map(),
                self.index_pairs() == old(self).index_pairs(),
                old(self).index_map() == live_pos(end0),
                self.wf0(),
                positions@.len() == j,
                self.end_state().idx == end0.idx,
                self.end_state().max_seq
                    == (if j == 0 { end0.max_seq } else { seqn as nat }),
                self.end_state().pending == (if j == 0 {
                    end0.pending
                } else {
                    end0.pending.insert(seqn as nat,
                        staged_recs(pairs.take(j as int), positions@))
                }),
                !end0.pending.contains_key(seqn as nat),
                end0.max_seq < seqn,
                idx_kv(end0.idx) == old(self).kv(),
                views_extended_with_frames(old(self).views(), self.views(),
                    staged_frames(pairs, seqn).take(j as int),
                    old(self).config().data_file_size),
            decreases n - j,
        {
            let e = pending.entry_at(j);
            let rec = LogRecord {
                key: log_record_key_with_seq_num(&e.0, seqn),
                value: crate::keys::clone_bytes(&e.1.value),
                record_type: e.1.record_type,
            };
            proof {
                lemma_framed_key(pairs[j as int].0, seqn);
                crate::varint::lemma_varint_enc_len(seqn as nat);
            }
            let ghost vpre = self.views();
            let ghost pre = self.end_state();
            let pos = match self.append_log_record(&rec) {
                Ok(p) => p,
                Err(err) => {
                    return Err(err);
                },
            };
            positions.push(pos);
            proof {
                let st2 = self.end_state();
                assert(bucket_of(pre, seqn as nat) == (if j == 0 {
                    Seq::<PendingRec>::empty()
                } else {
                    staged_recs(pairs.take(j as int), positions@.take(j as int))
                }));
                assert(staged_recs(pairs.take(j as int), positions@.take(j as int))
                    == staged_recs(pairs.take(j as int), positions@)) by {
                    assert(staged_recs(pairs.take(j as int), positions@.take(j as int))
                        =~= staged_recs(pairs.take(j as int), positions@));
                }
                assert(st2.pending == pre.pending.insert(seqn as nat,
                    bucket_of(pre, seqn as nat).push(PendingRec {
                        key: pairs[j as int].0,
                        rtype: pairs[j as int].1.record_type,
                        value: pairs[j as int].1.value@,
                        pos,
                    })));
                assert(st2.pending == end0.pending.insert(seqn as nat,
                    staged_recs(pairs.take(j + 1), positions@))) by {
                    assert(bucket_of(pre, seqn as nat).push(PendingRec {
                        key: pairs[j as int].0,
                        rtype: pairs[j as int].1.record_type,
                        value: pairs[j as int].1.value@,
                        pos,
                    }) =~= staged_recs(pairs.take(j + 1), positions@));
                }
                assert(frame_bytes(rec.record_type, rec.key@, rec.value@)
                    == staged_frames(pairs, seqn)[j as int]);
                lemma_views_extended_snoc(old(self).views(), vpre, self.views(),
                    staged_frames(pairs, seqn).take(j as int),
                    staged_frames(pairs, seqn)[j as int],
                    old(self).config().data_file_size);
                assert(staged_frames(pairs, seqn).take(j as int).push(
                    staged_frames(pairs, seqn)[j as int])
                    =~= staged_frames(pairs, seqn).take(j + 1));
            }
            j = j + 1;
        }

        // the closing marker makes the batch durable and visible
        let fin = LogRecord {
            key: log_record_key_with_seq_num(&txn_finish_key(), seqn),
            value: Vec::new(),
            record_type: LogRecordType::TXNFINISHED,
        };
        proof {
            lemma_framed_key(crate::batch::txn_finish_sentinel(), seqn);
            crate::varint::lemma_varint_enc_len(seqn as nat);
        }
        let ghost vpre_fin = self.views();
        let ghost pre_fin = self.end_state();
        match self.append_log_record(&fin) {
            Ok(_) => {},
            Err(err) => {
                return Err(err);
            },
        }
        let ghost brecs = staged_recs(pairs, positions@);
        let ghost vfin = self.views();
        proof {
            assert(pairs.take(n as int) =~= pairs);
            assert(bucket_of(pre_fin, seqn as nat) == brecs);
            assert(self.end_state().idx == apply_pending(end0.idx, brecs));
            assert(fin.value@ =~= Seq::<u8>::empty());
            assert(frame_bytes(fin.record_type, fin.key@, fin.value@)
                == finisher_frame(seqn));
            assert(staged_frames(pairs, seqn).take(n as int) =~= staged_frames(pairs, seqn));
            lemma_views_extended_snoc(old(self).views(), vpre_fin, vfin,
                staged_frames(pairs, seqn), finisher_frame(seqn),
                old(self).config().data_file_size);
        }
        let sync_res: Result<(), Error> = if sync_writes {
            self.active_file.sync()
        } else {
            Ok(())
        };
        proof {
            assert(self.views() =~= vfin);
        }

        // apply the batch to the index, in staging order
        let ghost ef = self.end_state();
        let mut j: usize = 0;
        while j < n
            invariant
                j <= n,
                n == pairs.len(),
                pairs == pending.pairs(),
                positions@.len() == n,
                brecs == staged_recs(pairs, positions@),
                brecs.len() == n,
                forall|t: int| 0 <= t < pairs.len()
                    ==> pending.as_map().contains_key((#[trigger] pairs[t]).0)
                        && pending.as_map()[pairs[t].0] == pairs[t].1,
                staged_wf(pending.as_map()),
                self.wf0(),
                self.seq_num == seqn + 1,
                seqn == old(self).seq(),
                self.config() == old(self).config(),
                self.end_state() == ef,
                self.views() == vfin,
                sync_writes && sync_res is Ok ==> self.active_durable(),
                ef.idx == apply_pending(end0.idx, brecs),
                self.index_map() == idx_pos(apply_pending(end0.idx, brecs.take(j as int))),
                idx_kv(end0.idx) == old(self).kv(),
            decreases n - j,
        {
            let e = pending.entry_at(j);
            let pos = positions[j];
            proof {
                lemma_apply_pending_step(end0.idx, brecs, j as int);
                lemma_apply_one_live(apply_pending(end0.idx, brecs.take(j as int)),
                    brecs[j as int].key, brecs[j as int].rtype, brecs[j as int].value,
                    brecs[j as int].pos);
                assert(brecs[j as int].pos == positions@[j as int]);
            }
            update_index(&mut self.index, e.1.record_type, crate::keys::clone_bytes(&e.0),
                pos);
            j = j + 1;
        }
        proof {
            assert(brecs.take(n as int) =~= brecs);
            lemma_staged_kv(end0.idx, pairs, positions@);
        }
        match sync_res {
            Ok(()) => Ok(()),
            Err(err) => Err(err),
        }
    }
}

/// A transaction buffer, read as replay's buffered records.
pub open spec fn bucket_view(b: Seq<TransactionRecord>) -> Seq<PendingRec> {
    b.map_values(|tr: TransactionRecord| PendingRec {
        key: tr.record.key@,
        rtype: tr.record.record_type,
        value: tr.record.value@,
        pos: tr.pos,
    })
}

/// The recovery buffers, keyed by the varint of their transaction number,
/// carry exactly the replay state's pending map.
pub open spec fn pend_rel(
    pm: Map<Seq<u8>, Vec<TransactionRecord>>,
    gp: Map<nat, Seq<PendingRec>>,
) -> bool {
    &&& forall|s: nat| #[trigger] gp.contains_key(s) ==> s <= u64::MAX as nat
    &&& forall|s: nat|
        #![trigger gp.contains_key(s)]
        #![trigger pm.contains_key(crate::varint::varint_enc(s))]
        s <= u64::MAX as nat
            ==> (gp.contains_key(s) <==> pm.contains_key(crate::varint::varint_enc(s)))
    &&& forall|s: nat| #[trigger] gp.contains_key(s)
        ==> bucket_view(pm[crate::varint::varint_enc(s)]@) == gp[s]
}

/// The varint key a transaction's buffer is filed under.
fn seq_bucket_key(seq_num: u64) -> (r: Vec<u8>)
    ensures
        r@ == crate::varint::varint_enc(seq_num as nat),
{
    let mut v: Vec<u8> = Vec::new();
    crate::varint::write_varint(&mut v, seq_num);
    v
}

/// Apply one recovered record: a plain record takes effect at once, a
/// transaction's record is buffered, a closing marker drains its buffer
/// into the index.  Mirrors one `scan_step` of the replay model.
fn apply_recovered_record(
    index: &mut BTree,
    pending: &mut KeyMap<Vec<TransactionRecord>>,
    max_seq: &mut u64,
    rec: LogRecord,
    pos: LogRecordPos,
    Ghost(g): Ghost<ScanState>,
) -> (r: Result<Ghost<ScanState>, Error>)
    requires
        old(index).mapping() == idx_pos(g.idx),
        pend_rel(old(pending).as_map(), g.pending),
        *old(max_seq) as nat == g.max_seq,
    ensures
        match r {
            Ok(g2) => {
                &&& scan_step(g, rec.record_type, rec.key@, rec.value@, pos) == Some(g2@)
                &&& final(index).mapping() == idx_pos(g2@.idx)
                &&& pend_rel(final(pending).as_map(), g2@.pending)
                &&& *final(max_seq) as nat == g2@.max_seq
            },
            Err(e) => e == Error::DirectoryCorrupted
                && scan_step(g, rec.record_type, rec.key@, rec.value@, pos) is None,
        },
{
    let (user_key, seqn) = match parse_log_record_key(&rec.key) {
        Ok(p) => p,
        Err(e) => {
            return Err(e);
        },
    };
    if seqn > *max_seq {
        *max_seq = seqn;
    }
    let ghost g2 = scan_step(g, rec.record_type, rec.key@, rec.value@, pos)->Some_0;
    if seqn == 0 {
        proof {
            lemma_apply_one_live(g.idx, user_key@, rec.record_type, rec.value@, pos);
        }
        update_index(index, rec.record_type, user_key, pos);
        return Ok(Ghost(g2));
    }
    let skey = seq_bucket_key(seqn);
    if rec.record_type == LogRecordType::TXNFINISHED {
        let ghost brecs = bucket_of(g, seqn as nat);
        match pending.take(&skey) {
            Some(bucket) => {
                proof {
                    assert(g.pending.contains_key(seqn as nat));
                    assert(bucket_view(bucket@) == brecs);
                }
                let ghost idx0 = g.idx;
                let mut t: usize = 0;
                while t < bucket.len()
                    invariant
                        t <= bucket@.len(),
                        bucket_view(bucket@) == brecs,
                        brecs.len() == bucket@.len(),
                        index.mapping() == idx_pos(apply_pending(idx0, brecs.take(t as int))),
                    decreases bucket@.len() - t,
                {
                    let tr = &bucket[t];
                    proof {
                        lemma_apply_pending_step(idx0, brecs, t as int);
                        lemma_apply_one_live(apply_pending(idx0, brecs.take(t as int)),
                            brecs[t as int].key, brecs[t as int].rtype,
                            brecs[t as int].value, brecs[t as int].pos);
                        assert(brecs[t as int] == bucket_view(bucket@)[t as int]);
                    }
                    update_index(index, tr.record.record_type,
                        crate::keys::clone_bytes(&tr.record.key), tr.pos);
                    t = t + 1;
                }
                proof {
                    assert(brecs.take(brecs.len() as int) =~= brecs);
                }
            },
            None => {
                proof {
                    assert(!g.pending.contains_key(seqn as nat));
                    assert(brecs =~= Seq::<PendingRec>::empty());
                    assert(apply_pending(g.idx, brecs) == g.idx);
                }
            },
        }
        proof {
            assert(g2.idx == apply_pending(g.idx, brecs));
            assert(g2.pending == g.pending.remove(seqn as nat));
            assert forall|s: nat|
                #![trigger g2.pending.contains_key(s)]
                #![trigger pending.as_map().contains_key(crate::varint::varint_enc(s))]
                s <= u64::MAX as nat
                implies (g2.pending.contains_key(s)
                    <==> pending.as_map().contains_key(crate::varint::varint_enc(s))) by {
                if s != seqn as nat {
                    crate::varint::lemma_varint_enc_injective(s as u64, seqn);
                }
            }
            assert forall|s: nat| #[trigger] g2.pending.contains_key(s)
                implies bucket_view(pending.as_map()[crate::varint::varint_enc(s)]@)
                    == g2.pending[s] by {
                crate::varint::lemma_varint_enc_injective(s as u64, seqn);
            }
        }
        return Ok(Ghost(g2));
    }
    // a transaction's record: buffer it under its number
    let ghost brecs = bucket_of(g, seqn as nat);
    let mut bucket = match pending.take(&skey) {
        Some(b) => b,
        None => Vec::new(),
    };
    proof {
        if g.pending.contains_key(seqn as nat) {
            assert(bucket_view(bucket@) == brecs);
        } else {
            assert(bucket@ =~= Seq::<TransactionRecord>::empty());
            assert(bucket_view(bucket@) =~= brecs);
        }
    }
    bucket.push(TransactionRecord {
        record: LogRecord { key: user_key, value: rec.value, record_type: rec.record_type },
        pos,
    });
    proof {
        assert(bucket_view(bucket@) =~= brecs.push(PendingRec {
            key: rec.key@.skip(
                crate::varint::parse_varint_u64(rec.key@, 0, 10)->Some_0.1 as int),
            rtype: rec.record_type,
            value: rec.value@,
            pos,
        }));
    }
    pending.put(skey, bucket);
    proof {
        assert(g2.idx == g.idx);
        assert forall|s: nat|
            #![trigger g2.pending.contains_key(s)]
            #![trigger pending.as_map().contains_key(crate::varint::varint_enc(s))]
            s <= u64::MAX as nat
            implies (g2.pending.contains_key(s)
                <==> pending.as_map().contains_key(crate::varint::varint_enc(s))) by {
            if s != seqn as nat {
                crate::varint::lemma_varint_enc_injective(s as u64, seqn);
            }
        }
        assert forall|s: nat| #[trigger] g2.pending.contains_key(s)
            implies bucket_view(pending.as_map()[crate::varint::varint_enc(s)]@)
                == g2.pending[s] by {
            if s != seqn as nat {
                crate::varint::lemma_varint_enc_injective(s as u64, seqn);
            }
        }
    }
    Ok(Ghost(g2))
}

/// Scan one data file from its start, feeding every frame to
/// `apply_recovered_record`, until its end-of-file header.  The offset the
/// scan stopped at comes back with the replay state.
fn scan_data_file<IO: IOManager>(
    df: &DataFile<IO>,
    index: &mut BTree,
    pending: &mut KeyMap<Vec<TransactionRecord>>,
    max_seq: &mut u64,
    Ghost(g0): Ghost<ScanState>,
) -> (r: Result<(u64, Ghost<ScanState>), Error>)
    requires
        old(index).mapping() == idx_pos(g0.idx),
        pend_rel(old(pending).as_map(), g0.pending),
        *old(max_seq) as nat == g0.max_seq,
    ensures
        match r {
            Ok((end, gg)) => {
                &&& df.contents().len() <= MAX_FILE_BYTES
                &&& scan_file(df.id(), df.contents(), 0, g0) == Some((gg@, end as int))
                &&& end <= df.contents().len()
                &&& final(index).mapping() == idx_pos(gg@.idx)
                &&& pend_rel(final(pending).as_map(), gg@.pending)
                &&& *final(max_seq) as nat == gg@.max_seq
            },
            Err(e) => {
                ||| e == Error::FailedToReadFromDataFile
                ||| ((e == Error::InvalidLogRecordCRC || e == Error::DirectoryCorrupted)
                    && (scan_file(df.id(), df.contents(), 0, g0) is None
                        || (usize::MAX as int) < 0x10_0000_000f))
            },
        },
{
    let sz = match df.file_size() {
        Ok(s) => s,
        Err(e) => {
            return Err(e);
        },
    };
    let mut offset: u64 = 0;
    let ghost mut g: ScanState = g0;
    loop
        invariant
            offset <= sz,
            sz == df.contents().len(),
            df.contents().len() <= MAX_FILE_BYTES,
            scan_file(df.id(), df.contents(), offset as int, g)
                == scan_file(df.id(), df.contents(), 0, g0),
            index.mapping() == idx_pos(g.idx),
            pend_rel(pending.as_map(), g.pending),
            *max_seq as nat == g.max_seq,
        decreases df.contents().len() - offset,
    {
        let rlr = match df.read_log_record(offset) {
            Ok(rlr) => rlr,
            Err(e) => {
                if e == Error::ReadDataFileEOF {
                    return Ok((offset, Ghost(g)));
                }
                proof {
                    let c = df.contents();
                    if e == Error::InvalidLogRecordCRC {
                        assert(scan_file(df.id(), c, offset as int, g) is None);
                    } else if e == Error::DirectoryCorrupted {
                        if crate::data::log_record::parse_frame(c, offset as int)
                            is Corrupt {
                            assert(scan_file(df.id(), c, offset as int, g) is None);
                        } else {
                            // the frame does not fit this address space
                            crate::varint::lemma_parse_varint5(c, offset + 1);
                            let n1 = crate::varint::parse_varint(c, offset + 1, 5)
                                ->Some_0.1;
                            crate::varint::lemma_parse_varint5(c, offset + 1 + n1 as int);
                        }
                    }
                }
                return Err(e);
            },
        };
        proof {
            crate::data::log_record::lemma_frame_size_bounds(df.contents(), offset as int);
        }
        let size = rlr.size;
        if (size as u64) > sz - offset {
            proof {
                assert(offset + size > df.contents().len());
                assert(scan_file(df.id(), df.contents(), offset as int, g) is None);
            }
            return Err(Error::DirectoryCorrupted);
        }
        let pos = LogRecordPos { file_id: df.get_file_id(), offset };
        let g2 = match apply_recovered_record(index, pending, max_seq, rlr.record, pos,
            Ghost(g)) {
            Ok(gg) => gg,
            Err(e) => {
                proof {
                    assert(offset + size <= df.contents().len());
                    assert(scan_file(df.id(), df.contents(), offset as int, g) is None);
                }
                return Err(e);
            },
        };
        proof {
            g = g2@;
        }
        offset = offset + size as u64;
    }
}

/// Whether the handed files come in strictly ascending id order.
fn files_sorted_check<IO: IOManager>(files: &Vec<DataFile<IO>>) -> (r: bool)
    ensures
        r == data_files_sorted(files@),
{
    let mut i: usize = 1;
    while i < files.len()
        invariant
            1 <= i,
            forall|a: int, b: int| 0 <= a < b < i
                ==> (#[trigger] files@[a]).id() < (#[trigger] files@[b]).id(),
        decreases files@.len() - i,
    {
        if files[i - 1].get_file_id() >= files[i].get_file_id() {
            proof {
                if data_files_sorted(files@) {
                    assert(files@[i - 1].id() < files@[i as int].id());
                }
            }
            return false;
        }
        proof {
            assert forall|a: int, b: int| 0 <= a < b < i + 1
                implies (#[trigger] files@[a]).id() < (#[trigger] files@[b]).id() by {
                if b == i && a < i - 1 {
                    assert(files@[a].id() < files@[i - 1].id());
                }
            }
        }
        i = i + 1;
    }
    true
}

/// Replay the closed files in ascending order from the initial state,
/// building the index, the transaction buffers, and the largest number
/// seen.
fn replay_older_files<IO: IOManager>(
    older: &Vec<DataFile<IO>>,
    index: &mut BTree,
    pending: &mut KeyMap<Vec<TransactionRecord>>,
    max_seq: &mut u64,
) -> (r: Result<Ghost<ScanState>, Error>)
    requires
        old(index).mapping() == idx_pos(init_state().idx),
        pend_rel(old(pending).as_map(), init_state().pending),
        *old(max_seq) as nat == init_state().max_seq,
    ensures
        match r {
            Ok(gg) => {
                &&& replay_from(older@.map_values(
                    |df: DataFile<IO>| FileView { id: df.id(), contents: df.contents() }),
                    0, init_state()) == Some(gg@)
                &&& final(index).mapping() == idx_pos(gg@.idx)
                &&& pend_rel(final(pending).as_map(), gg@.pending)
                &&& *final(max_seq) as nat == gg@.max_seq
                &&& forall|q: int| 0 <= q < older@.len()
                    ==> (#[trigger] older@[q]).contents().len() <= MAX_FILE_BYTES
            },
            Err(e) => {
                ||| e == Error::FailedToReadFromDataFile
                ||| ((e == Error::InvalidLogRecordCRC || e == Error::DirectoryCorrupted)
                    && (replay_from(older@.map_values(
                        |df: DataFile<IO>| FileView { id: df.id(), contents: df.contents() }),
                        0, init_state()) is None
                        || (usize::MAX as int) < 0x10_0000_000f))
            },
        },
{
    let ghost ov = older@.map_values(
        |df: DataFile<IO>| FileView { id: df.id(), contents: df.contents() });
    let ghost mut g: ScanState = init_state();
    let mut fi: usize = 0;
    while fi < older.len()
        invariant
            fi <= older@.len(),
            ov == older@.map_values(
                |df: DataFile<IO>| FileView { id: df.id(), contents: df.contents() }),
            replay_from(ov, fi as int, g) == replay_from(ov, 0, init_state()),
            index.mapping() == idx_pos(g.idx),
            pend_rel(pending.as_map(), g.pending),
            *max_seq as nat == g.max_seq,
            forall|q: int| 0 <= q < fi
                ==> (#[trigger] ov[q]).contents.len() <= MAX_FILE_BYTES,
        decreases older@.len() - fi,
    {
        let (_end, g2) = match scan_data_file(&older[fi], index, pending, max_seq,
            Ghost(g)) {
            Ok(p) => p,
            Err(e) => {
                proof {
                    if scan_file(older@[fi as int].id(), older@[fi as int].contents(), 0, g)
                        is None {
                        assert(ov[fi as int].id == older@[fi as int].id());
                        assert(ov[fi as int].contents == older@[fi as int].contents());
                        assert(replay_from(ov, fi as int, g) is None);
                    }
                }
                return Err(e);
            },
        };
        proof {
            assert(ov[fi as int].id == older@[fi as int].id());
            assert(ov[fi as int].contents == older@[fi as int].contents());
            g = g2@;
        }
        fi = fi + 1;
    }
    proof {
        assert forall|q: int| 0 <= q < older@.len()
            implies (#[trigger] older@[q]).contents().len() <= MAX_FILE_BYTES by {
            assert(ov[q].contents == older@[q].contents());
        }
    }
    Ok(Ghost(g))
}

impl<IO: IOManager> Engine<IO> {
    /// Open an engine over the given data files, which must come in
    /// strictly ascending id order (as a directory scan sorted by file id
    /// hands them over); the last one becomes the active file, the rest
    /// are the closed ones.  With no files at all, a fresh empty file with
    /// id zero is created in the configured directory.  Recovery replays
    /// every file into the index and sets the transaction counter one past
    /// the largest number seen, so the engine comes up exactly in the
    /// state the log describes.
    pub fn open(opts: Options, files: Vec<DataFile<IO>>) -> (r: Result<Engine<IO>, Error>)
        requires
            opts.index_type == IndexType::BTree,
        ensures
            opts.dir_path@.len() == 0
                ==> (r matches Err(e2) && e2 == Error::InvalidDbDir),
            opts.dir_path@.len() > 0 && opts.data_file_size == 0
                ==> (r matches Err(e2) && e2 == Error::InvalidDataFileSize),
            opts.dir_path@.len() > 0 && opts.data_file_size > 0
                && !data_files_sorted(files@)
                ==> (r matches Err(e2) && e2 == Error::DirectoryCorrupted),
            (opts.dir_path@.len() > 0 && opts.data_file_size > 0
                && data_files_sorted(files@) && clean_files(files@)
                && 0x10_0000_000f <= usize::MAX as int)
                ==> (r is Ok || (r matches Err(e2)
                    && (e2 == Error::FailedToReadFromDataFile
                        || e2 == Error::FailedToOpenDataFile))),
            match r {
                Ok(e) => {
                    &&& e.wf()
                    &&& e.config() == opts
                    &&& replay(e.views()) == Some(e.end_state())
                    &&& e.seq() as nat == e.end_state().max_seq + 1
                    &&& if files@.len() == 0 {
                        e.views().len() == 1 && e.views()[0] == (FileView {
                            id: INITIAL_FILE_ID,
                            contents: Seq::<u8>::empty(),
                        })
                    } else {
                        e.views().len() == files@.len() && (forall|i: int|
                            0 <= i < files@.len() ==> #[trigger] e.views()[i] == (FileView {
                                id: files@[i].id(),
                                contents: files@[i].contents(),
                            }))
                    }
                },
                Err(e) => {
                    ||| (e == Error::InvalidDbDir && opts.dir_path@.len() == 0)
                    ||| (e == Error::InvalidDataFileSize && opts.data_file_size == 0)
                    ||| e == Error::DirectoryCorrupted
                    ||| e == Error::InvalidLogRecordCRC
                    ||| e == Error::FailedToReadFromDataFile
                    ||| e == Error::FailedToOpenDataFile
                },
            },
    {
        match check_options(&opts) {
            Ok(()) => {},
            Err(e) => {
                return Err(e);
            },
        }
        let mut files = files;
        let ghost infiles = files@;

        // the handed files must come sorted strictly by id
        if !files_sorted_check(&files) {
            return Err(Error::DirectoryCorrupted);
        }

        // the file with the largest id is the active one; a fresh directory
        // starts with a single empty file
        let active0 = match files.pop() {
            Some(f) => f,
            None => match DataFile::<IO>::new(&opts.dir_path, INITIAL_FILE_ID) {
                Ok(f) => f,
                Err(e) => {
                    return Err(e);
                },
            },
        };
        let older = files;
        let ghost ov = older@.map_values(
            |df: DataFile<IO>| FileView { id: df.id(), contents: df.contents() });
        proof {
            if infiles.len() > 0 {
                assert(ov =~= views_of_files(infiles).take(infiles.len() - 1)) by {
                    assert forall|q: int| 0 <= q < ov.len()
                        implies ov[q] == #[trigger] views_of_files(infiles).take(
                            infiles.len() - 1)[q] by {
                        assert(older@[q] == infiles[q]);
                    }
                }
                assert(views_of_files(infiles).last().id == active0.id());
                assert(views_of_files(infiles).last().contents == active0.contents());
                assert(views_of_files(infiles) =~= ov.push(FileView {
                    id: active0.id(),
                    contents: active0.contents(),
                })) by {
                    assert forall|q: int| 0 <= q < infiles.len()
                        implies #[trigger] views_of_files(infiles)[q] == ov.push(FileView {
                            id: active0.id(),
                            contents: active0.contents(),
                        })[q] by {
                        if q < infiles.len() - 1 {
                            assert(older@[q] == infiles[q]);
                        }
                    }
                }
            } else {
                assert(views_of_files(infiles) =~= Seq::<FileView>::empty());
                assert(active0.contents() =~= Seq::<u8>::empty());
            }
        }

        // replay the closed files in order
        let mut index = new_indexer(IndexType::BTree);
        let mut pending: KeyMap<Vec<TransactionRecord>> = KeyMap::new();
        let mut max_seq: u64 = 0;
        proof {
            assert(index.mapping() =~= idx_pos(init_state().idx));
        }
        let gg = match replay_older_files(&older, &mut index, &mut pending, &mut max_seq) {
            Ok(p) => p,
            Err(e) => {
                proof {
                    if clean_files(infiles) {
                        if infiles.len() > 0 {
                            assert(replay_from(ov, 0, init_state()) is Some);
                        } else {
                            assert(ov =~= Seq::<FileView>::empty());
                            assert(replay_from(ov, 0, init_state()) == Some(init_state()));
                        }
                    }
                }
                return Err(e);
            },
        };
        let ghost g: ScanState = gg@;

        // the active file last; its scan must consume it exactly, since
        // appends land at its physical end
        let ghost mid = g;
        let (end, g2) = match scan_data_file(&active0, &mut index, &mut pending, &mut max_seq,
            Ghost(g)) {
            Ok(p) => p,
            Err(e) => {
                proof {
                    if clean_files(infiles) {
                        if infiles.len() > 0 {
                            assert(scan_file(active0.id(), active0.contents(), 0, g)
                                is Some);
                        } else {
                            lemma_scan_empty(active0.id(), g);
                            assert(scan_file(active0.id(), active0.contents(), 0, g)
                                is Some);
                        }
                    }
                }
                return Err(e);
            },
        };
        let asz = match active0.file_size() {
            Ok(s) => s,
            Err(e) => {
                return Err(e);
            },
        };
        if end != asz {
            proof {
                if clean_files(infiles) {
                    if infiles.len() > 0 {
                        assert(scan_file(active0.id(), active0.contents(), 0, g)
                            ->Some_0.1 == active0.contents().len() as int);
                    } else {
                        lemma_scan_empty(active0.id(), g);
                    }
                    assert(end == asz);
                }
            }
            return Err(Error::DirectoryCorrupted);
        }
        let mut active = active0;
        active.set_write_offset(end);

        // the counter resumes one past the largest number in the log
        if max_seq == u64::MAX {
            proof {
                if clean_files(infiles) {
                    if infiles.len() > 0 {
                        lemma_replay_snoc(ov, FileView {
                            id: active0.id(),
                            contents: active0.contents(),
                        });
                        assert(replay(views_of_files(infiles)) == Some(g2@));
                        assert(g2@.max_seq < u64::MAX as nat);
                    } else {
                        lemma_scan_empty(active0.id(), g);
                        assert(g2@ == g);
                        assert(g == init_state());
                        assert(g2@.max_seq == 0);
                    }
                }
            }
            return Err(Error::DirectoryCorrupted);
        }
        let seq_num = max_seq + 1;

        let engine = Engine {
            options: opts,
            active_file: active,
            older_files: older,
            index,
            seq_num,
        };
        proof {
            assert(engine.older_views() =~= ov);
            assert(replay_from(ov, older@.len() as int, mid) == Some(mid));
            assert(engine.mid_state() == mid);
            assert(engine.end_state() == g2@);
            if infiles.len() == 0 {
                assert(engine.views().len() == 1);
                assert(engine.views()[0] == engine.active_view());
            } else {
                assert(older@ =~= infiles.take(infiles.len() - 1));
                assert forall|i: int| 0 <= i < infiles.len()
                    implies #[trigger] engine.views()[i] == (FileView {
                        id: infiles[i].id(),
                        contents: infiles[i].contents(),
                    }) by {
                    if i < infiles.len() - 1 {
                        assert(engine.views()[i] == ov[i]);
                        assert(older@[i] == infiles[i]);
                    } else {
                        assert(engine.views()[i] == engine.active_view());
                    }
                }
            }
            assert(forall|a: int, b: int| 0 <= a < b < engine.older_files@.len()
                ==> (#[trigger] engine.older_files@[a]).id()
                    < (#[trigger] engine.older_files@[b]).id());
            assert(forall|a: int| 0 <= a < engine.older_files@.len()
                ==> (#[trigger] engine.older_files@[a]).id() < engine.active_file.id());
            assert forall|a: int| 0 <= a < engine.older_files@.len()
                implies (#[trigger] engine.older_files@[a]).contents().len()
                    <= MAX_FILE_BYTES by {
                assert(ov[a].contents == engine.older_files@[a].contents());
            }
            assert(engine.active_file.contents().len() <= MAX_FILE_BYTES);
            assert(replay_from(engine.older_views(), 0, init_state()) is Some);
            assert(scan_file(engine.active_file.id(), engine.active_file.contents(), 0,
                engine.mid_state()) == Some((g2@, end as int)));
            assert(engine.active_file.off() == engine.active_file.contents().len());
            assert(1 <= engine.seq_num);
            assert(engine.end_state().max_seq < engine.seq_num);
            assert(engine.wf0());
            engine.lemma_wf_replay();
        }
        Ok(engine)
    }
}

impl<IO: IOManager> Engine<IO> {
    /// All live keys, in ascending lexicographic order.
    pub fn list_keys(&self) -> (r: Vec<Vec<u8>>)
        requires
            self.wf(),
        ensures
            r@.len() == self.index_pairs().len(),
            forall|i: int| 0 <= i < r@.len()
                ==> (#[trigger] r@[i])@ == self.index_pairs()[i].0,
            crate::keymap::keys_strictly_ascending(self.index_pairs()),
            forall|i: int| 0 <= i < r@.len() ==> self.kv().contains_key((#[trigger] r@[i])@),
            forall|k: Seq<u8>| #[trigger] self.kv().contains_key(k)
                ==> crate::keymap::pairs_contain(self.index_pairs(), k),
    {
        let keys = self.index.list_keys();
        proof {
            lemma_pairs_map(self.index.pairs());
            assert forall|i: int| 0 <= i < keys@.len()
                implies self.kv().contains_key((#[trigger] keys@[i])@) by {
                assert(self.index_map().contains_key(self.index_pairs()[i].0));
                assert(self.end_state().idx.contains_key(self.index_pairs()[i].0));
            }
            assert forall|k: Seq<u8>| #[trigger] self.kv().contains_key(k)
                implies crate::keymap::pairs_contain(self.index_pairs(), k) by {
                assert(self.end_state().idx.contains_key(k));
                assert(self.index_map().contains_key(k));
            }
        }
        keys
    }

    /// A snapshot of the index for iteration: the entries in ascending key
    /// order, reversed when the options say so, each entry a live key of
    /// the engine.
    pub(crate) fn index_iterator(&self, options: IteratorOptions) -> (r: crate::index::btree::BTreeIterator)
        requires
            self.wf(),
        ensures
            r.cursor() == 0,
            r.prefix() == options.prefix@,
            r.reverse() == options.reverse,
            crate::keymap::keys_strictly_ascending(self.index_pairs()),
            !options.reverse ==> r.items() == self.index_pairs(),
            options.reverse ==> r.items().len() == self.index_pairs().len()
                && (forall|i: int| 0 <= i < self.index_pairs().len()
                    ==> #[trigger] r.items()[i]
                        == self.index_pairs()[self.index_pairs().len() - 1 - i]),
            !options.reverse ==> crate::keymap::keys_strictly_ascending(r.items()),
            options.reverse ==> crate::index::keys_strictly_descending(r.items()),
            forall|t: int| 0 <= t < r.items().len()
                ==> self.kv().contains_key((#[trigger] r.items()[t]).0)
                    && self.index_map().contains_key(r.items()[t].0)
                    && self.index_map()[r.items()[t].0] == r.items()[t].1,
            forall|k: Seq<u8>| #[trigger] self.kv().contains_key(k)
                ==> crate::keymap::pairs_contain(r.items(), k),
    {
        let it = self.index.iterator(options);
        proof {
            if options.reverse {
                let ps = self.index_pairs();
                assert forall|i: int, j: int| 0 <= i < j < it.items().len()
                    implies crate::keys::lex_lt((#[trigger] it.items()[j]).0,
                        (#[trigger] it.items()[i]).0) by {
                    assert(it.items()[i] == ps[ps.len() - 1 - i]);
                    assert(it.items()[j] == ps[ps.len() - 1 - j]);
                }
            }
        }
        proof {
            lemma_pairs_map(self.index.pairs());
            assert forall|t: int| 0 <= t < it.items().len()
                implies self.kv().contains_key((#[trigger] it.items()[t]).0)
                    && self.index_map().contains_key(it.items()[t].0)
                    && self.index_map()[it.items()[t].0] == it.items()[t].1 by {
                let q: int = if !options.reverse {
                    t
                } else {
                    self.index_pairs().len() - 1 - t
                };
                assert(it.items()[t] == self.index_pairs()[q]);
                assert(self.index_map().contains_key(self.index_pairs()[q].0));
                assert(self.index_map()[self.index_pairs()[q].0]
                    == self.index_pairs()[q].1);
            }
            assert forall|k: Seq<u8>| #[trigger] self.kv().contains_key(k)
                implies crate::keymap::pairs_contain(it.items(), k) by {
                assert(self.index_map().contains_key(k));
                assert(crate::keymap::pairs_contain(self.index_pairs(), k));
                let q = crate::keymap::pairs_index_of(self.index_pairs(), k);
                assert(0 <= q < self.index_pairs().len()
                    && self.index_pairs()[q].0 == k);
                if options.reverse {
                    let t = self.index_pairs().len() - 1 - q;
                    assert(it.items()[t] == self.index_pairs()[q]);
                } else {
                    assert(it.items()[q] == self.index_pairs()[q]);
                }
            }
        }
        it
    }
}

/// Turn a read record into the read's outcome: the value of a live
/// record, `KeyNotFound` for a tombstone, the codec's error otherwise.
fn map_read_result(
    res: Result<crate::data::log_record::ReadLogRecord, Error>,
    Ghost(c): Ghost<Seq<u8>>,
    Ghost(o): Ghost<int>,
) -> (r: Result<Vec<u8>, Error>)
    requires
        match res {
            Ok(rlr) => crate::data::log_record::parse_frame(c, o)
                matches crate::data::log_record::FrameParse::Frame { rtype, key, value, size }
                && rlr.record.record_type == rtype && rlr.record.value@ == value,
            Err(e) => {
                ||| (e == Error::ReadDataFileEOF
                    && crate::data::log_record::parse_frame(c, o) is Eof)
                ||| (e == Error::InvalidLogRecordCRC
                    && crate::data::log_record::parse_frame(c, o) is BadCrc)
                ||| (e == Error::DirectoryCorrupted
                    && (crate::data::log_record::parse_frame(c, o) is Corrupt
                        || !crate::data::log_record::frame_fits_arch(c, o)))
                ||| e == Error::FailedToReadFromDataFile
            },
        },
    ensures
        match r {
            Ok(v) => crate::data::log_record::parse_frame(c, o)
                matches crate::data::log_record::FrameParse::Frame { rtype, key, value, size }
                && rtype != LogRecordType::DELETE && value == v@,
            Err(e) => {
                ||| (e == Error::KeyNotFound
                    && (crate::data::log_record::parse_frame(c, o)
                        matches crate::data::log_record::FrameParse::Frame { rtype, .. }
                        && rtype == LogRecordType::DELETE))
                ||| (e == Error::ReadDataFileEOF
                    && crate::data::log_record::parse_frame(c, o) is Eof)
                ||| (e == Error::InvalidLogRecordCRC
                    && crate::data::log_record::parse_frame(c, o) is BadCrc)
                ||| (e == Error::DirectoryCorrupted
                    && (crate::data::log_record::parse_frame(c, o) is Corrupt
                        || !crate::data::log_record::frame_fits_arch(c, o)))
                ||| e == Error::FailedToReadFromDataFile
            },
        },
{
    match res {
        Ok(rlr) => {
            match rlr.record.record_type {
                LogRecordType::DELETE => Err(Error::KeyNotFound),
                _ => Ok(rlr.record.value),
            }
        },
        Err(e) => Err(e),
    }
}

/// Check the configuration: a directory path must be given and the
/// rollover threshold must be positive.
pub fn check_options(opts: &Options) -> (r: Result<(), Error>)
    ensures
        match r {
            Ok(()) => opts.dir_path@.len() > 0 && opts.data_file_size > 0,
            Err(e) => (e == Error::InvalidDbDir && opts.dir_path@.len() == 0) || (e
                == Error::InvalidDataFileSize && opts.dir_path@.len() > 0
                && opts.data_file_size == 0),
        },
{
    if opts.dir_path.len() == 0 {
        return Err(Error::InvalidDbDir);
    }
    if opts.data_file_size == 0 {
        return Err(Error::InvalidDataFileSize);
    }
    Ok(())
}

/// Apply one recovered record to the index: an insert for a live record, a
/// removal for a tombstone, nothing for a transaction marker.
pub(crate) fn update_index(index: &mut BTree, rt: LogRecordType, key: Vec<u8>, pos: LogRecordPos)
    ensures
        final(index).mapping() == (match rt {
            LogRecordType::NORMAL => old(index).mapping().insert(key@, pos),
            LogRecordType::DELETE => old(index).mapping().remove(key@),
            LogRecordType::TXNFINISHED => old(index).mapping(),
        }),
{
    match rt {
        LogRecordType::NORMAL => {
            index.put(key, pos);
        },
        LogRecordType::DELETE => {
            index.delete(key);
        },
        LogRecordType::TXNFINISHED => {},
    }
}

} // verus!
