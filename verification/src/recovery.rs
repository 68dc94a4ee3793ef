//! The recovery model: what replaying the data files in ascending id order
//! computes.  The engine's index always equals the outcome of this replay
//! over its current files, which is what makes every state the engine can
//! reach survive a restart.
//!
//! Replay scans each file frame by frame.  A record whose on-disk key
//! carries transaction number zero takes effect at once; a record of a
//! transaction is buffered under its number until the transaction's closing
//! marker is seen, at which point the whole buffer takes effect in order;
//! buffers whose marker never arrives are dropped, which is what makes a
//! batch atomic across a crash.

use vstd::prelude::*;

use crate::data::log_record::parse_frame;
use crate::data::log_record::FrameParse;
use crate::data::log_record::LogRecordPos;
use crate::data::log_record::LogRecordType;
use crate::data::log_record::lemma_frame_size_bounds;
use crate::data::log_record::lemma_parse_frame_beyond;
use crate::data::log_record::lemma_parse_frame_shift;
use crate::data::log_record::lemma_parse_frame_window;
use crate::varint::byte_at;
use crate::varint::parse_varint_u64;

verus! {

/// A data file as replay sees it: its id and its bytes.
pub ghost struct FileView {
    pub id: u32,
    pub contents: Seq<u8>,
}

/// A record buffered under its transaction number until the closing marker.
pub ghost struct PendingRec {
    pub key: Seq<u8>,
    pub rtype: LogRecordType,
    pub value: Seq<u8>,
    pub pos: LogRecordPos,
}

/// A key's live entry: where its latest committed record lives and the
/// value that record holds.
pub ghost struct LiveEntry {
    pub pos: LogRecordPos,
    pub value: Seq<u8>,
}

/// The state replay threads through the files.
pub ghost struct ScanState {
    pub idx: Map<Seq<u8>, LiveEntry>,
    pub pending: Map<nat, Seq<PendingRec>>,
    pub max_seq: nat,
}

/// The state before any file is read.
pub open spec fn init_state() -> ScanState {
    ScanState { idx: Map::empty(), pending: Map::empty(), max_seq: 0 }
}

/// Split an on-disk key into its transaction number and the user key.
pub open spec fn parse_key(dk: Seq<u8>) -> Option<(nat, Seq<u8>)> {
    match parse_varint_u64(dk, 0, 10) {
        Some((s, n)) => if n <= dk.len() {
            Some((s, dk.skip(n as int)))
        } else {
            None
        },
        None => None,
    }
}

/// One record taking effect on the live index.
pub open spec fn apply_one(
    idx: Map<Seq<u8>, LiveEntry>,
    key: Seq<u8>,
    rt: LogRecordType,
    value: Seq<u8>,
    pos: LogRecordPos,
) -> Map<Seq<u8>, LiveEntry> {
    match rt {
        LogRecordType::NORMAL => idx.insert(key, LiveEntry { pos, value }),
        LogRecordType::DELETE => idx.remove(key),
        LogRecordType::TXNFINISHED => idx,
    }
}

/// A transaction's buffered records taking effect in order.
pub open spec fn apply_pending(
    idx: Map<Seq<u8>, LiveEntry>,
    recs: Seq<PendingRec>,
) -> Map<Seq<u8>, LiveEntry>
    decreases recs.len(),
{
    if recs.len() == 0 {
        idx
    } else {
        let r = recs.last();
        apply_one(apply_pending(idx, recs.drop_last()), r.key, r.rtype, r.value, r.pos)
    }
}

/// The bucket buffered for a transaction number, empty if none is.
pub open spec fn bucket_of(st: ScanState, seqn: nat) -> Seq<PendingRec> {
    if st.pending.contains_key(seqn) {
        st.pending[seqn]
    } else {
        Seq::empty()
    }
}

/// One scanned record advancing the replay state; `None` when its on-disk
/// key has no readable transaction prefix.
pub open spec fn scan_step(
    st: ScanState,
    rt: LogRecordType,
    dk: Seq<u8>,
    value: Seq<u8>,
    pos: LogRecordPos,
) -> Option<ScanState> {
    match parse_key(dk) {
        None => None,
        Some((seqn, uk)) => {
            let maxs = if seqn > st.max_seq { seqn } else { st.max_seq };
            if seqn == 0 {
                Some(ScanState {
                    idx: apply_one(st.idx, uk, rt, value, pos),
                    pending: st.pending,
                    max_seq: maxs,
                })
            } else if rt == LogRecordType::TXNFINISHED {
                Some(ScanState {
                    idx: apply_pending(st.idx, bucket_of(st, seqn)),
                    pending: st.pending.remove(seqn),
                    max_seq: maxs,
                })
            } else {
                Some(ScanState {
                    idx: st.idx,
                    pending: st.pending.insert(seqn, bucket_of(st, seqn).push(
                        PendingRec { key: uk, rtype: rt, value, pos })),
                    max_seq: maxs,
                })
            }
        },
    }
}

/// Scan one file from `off`: fold `scan_step` over its frames until the
/// end-of-file header.  The result is the state and the offset the scan
/// stopped at; `None` on a bad CRC, a structurally broken frame, a frame
/// reaching past the end of the file, or an unreadable on-disk key.
pub open spec fn scan_file(fid: u32, c: Seq<u8>, off: int, st: ScanState) -> Option<(ScanState, int)>
    decreases c.len() - off,
{
    match parse_frame(c, off) {
        FrameParse::Eof => Some((st, off)),
        FrameParse::BadCrc => None,
        FrameParse::Corrupt => None,
        FrameParse::Frame { rtype, key, value, size } => {
            if off < 0 || off + size > c.len() {
                None
            } else {
                proof {
                    lemma_frame_size_bounds(c, off);
                }
                match scan_step(st, rtype, key, value,
                    LogRecordPos { file_id: fid, offset: off as u64 }) {
                    None => None,
                    Some(st2) => scan_file(fid, c, off + size, st2),
                }
            }
        },
    }
}

/// Replay the files from index `i` on.
pub open spec fn replay_from(views: Seq<FileView>, i: int, st: ScanState) -> Option<ScanState>
    decreases views.len() - i,
{
    if i < 0 || i >= views.len() {
        Some(st)
    } else {
        match scan_file(views[i].id, views[i].contents, 0, st) {
            None => None,
            Some((st2, end)) => replay_from(views, i + 1, st2),
        }
    }
}

/// Replay all files in order.
pub open spec fn replay(views: Seq<FileView>) -> Option<ScanState> {
    replay_from(views, 0, init_state())
}

/// The values of a live index.
pub open spec fn idx_kv(idx: Map<Seq<u8>, LiveEntry>) -> Map<Seq<u8>, Seq<u8>> {
    idx.map_values(|e: LiveEntry| e.value)
}

/// The locations of a live index.
pub open spec fn idx_pos(idx: Map<Seq<u8>, LiveEntry>) -> Map<Seq<u8>, LogRecordPos> {
    idx.map_values(|e: LiveEntry| e.pos)
}

/// The live key/value mapping a replay outcome describes.
pub open spec fn live_kv(st: ScanState) -> Map<Seq<u8>, Seq<u8>> {
    idx_kv(st.idx)
}

/// The live key/location mapping a replay outcome describes.
pub open spec fn live_pos(st: ScanState) -> Map<Seq<u8>, LogRecordPos> {
    idx_pos(st.idx)
}

/// One record's effect, read off the derived key/value and key/location
/// maps: an insert for a live record, a removal for a tombstone, nothing
/// for a marker.
pub proof fn lemma_apply_one_live(
    idx: Map<Seq<u8>, LiveEntry>,
    key: Seq<u8>,
    rt: LogRecordType,
    value: Seq<u8>,
    pos: LogRecordPos,
)
    ensures
        idx_pos(apply_one(idx, key, rt, value, pos)) == (match rt {
            LogRecordType::NORMAL => idx_pos(idx).insert(key, pos),
            LogRecordType::DELETE => idx_pos(idx).remove(key),
            LogRecordType::TXNFINISHED => idx_pos(idx),
        }),
        idx_kv(apply_one(idx, key, rt, value, pos)) == (match rt {
            LogRecordType::NORMAL => idx_kv(idx).insert(key, value),
            LogRecordType::DELETE => idx_kv(idx).remove(key),
            LogRecordType::TXNFINISHED => idx_kv(idx),
        }),
{
    match rt {
        LogRecordType::NORMAL => {
            assert(idx_pos(apply_one(idx, key, rt, value, pos))
                =~= idx_pos(idx).insert(key, pos));
            assert(idx_kv(apply_one(idx, key, rt, value, pos))
                =~= idx_kv(idx).insert(key, value));
        },
        LogRecordType::DELETE => {
            assert(idx_pos(apply_one(idx, key, rt, value, pos))
                =~= idx_pos(idx).remove(key));
            assert(idx_kv(apply_one(idx, key, rt, value, pos))
                =~= idx_kv(idx).remove(key));
        },
        LogRecordType::TXNFINISHED => {},
    }
}

/// Stepping a prefix of a buffer one record further.
pub proof fn lemma_apply_pending_step(
    idx: Map<Seq<u8>, LiveEntry>,
    recs: Seq<PendingRec>,
    j: int,
)
    requires
        0 <= j < recs.len(),
    ensures
        apply_pending(idx, recs.take(j + 1)) == apply_one(
            apply_pending(idx, recs.take(j)),
            recs[j].key, recs[j].rtype, recs[j].value, recs[j].pos),
{
    let p = recs.take(j + 1);
    assert(p.len() == j + 1);
    assert(p.last() == recs[j]);
    assert(p.drop_last() =~= recs.take(j));
}

/// Replaying one more file is scanning it from the replay of the rest.
pub proof fn lemma_replay_snoc(views: Seq<FileView>, a: FileView)
    ensures
        replay(views.push(a)) == (match replay(views) {
            None => None,
            Some(m) => match scan_file(a.id, a.contents, 0, m) {
                None => None::<ScanState>,
                Some((st, end)) => Some(st),
            },
        }),
{
    lemma_replay_from_snoc(views, a, 0, init_state());
}

proof fn lemma_replay_from_snoc(views: Seq<FileView>, a: FileView, i: int, st: ScanState)
    requires
        0 <= i <= views.len(),
    ensures
        replay_from(views.push(a), i, st) == (match replay_from(views, i, st) {
            None => None,
            Some(m) => match scan_file(a.id, a.contents, 0, m) {
                None => None::<ScanState>,
                Some((st2, end)) => Some(st2),
            },
        }),
    decreases views.len() - i,
{
    let vs2 = views.push(a);
    if i == views.len() {
        assert(vs2[i] == a);
        assert(replay_from(vs2, i, st) == (match scan_file(a.id, a.contents, 0, st) {
            None => None::<ScanState>,
            Some((st2, end)) => replay_from(vs2, i + 1, st2),
        }));
    } else {
        assert(vs2[i] == views[i]);
        match scan_file(views[i].id, views[i].contents, 0, st) {
            None => {},
            Some((st2, end)) => {
                lemma_replay_from_snoc(views, a, i + 1, st2);
            },
        }
    }
}

/// Scanning stops exactly where the parse of the zero tail begins, and a
/// clean scan of a file extended by one frame is the clean scan of the file
/// followed by one step on that frame.
pub proof fn lemma_scan_append(
    fid: u32,
    c: Seq<u8>,
    f: Seq<u8>,
    off: int,
    st: ScanState,
    st1: ScanState,
    st2: ScanState,
)
    requires
        0 <= off <= c.len(),
        scan_file(fid, c, off, st) == Some((st1, c.len() as int)),
        parse_frame(f, 0) is Frame,
        parse_frame(f, 0)->size == f.len(),
        scan_step(st1, parse_frame(f, 0)->rtype, parse_frame(f, 0)->Frame_key,
            parse_frame(f, 0)->Frame_value,
            LogRecordPos { file_id: fid, offset: c.len() as u64 }) == Some(st2),
        c.len() <= u64::MAX,
    ensures
        scan_file(fid, c + f, off, st) == Some((st2, (c + f).len() as int)),
    decreases c.len() - off,
{
    let cf = c + f;
    if off == c.len() {
        // the scan of `c` ended here with the zero tail
        lemma_parse_frame_beyond(c, off);
        assert(st1 == st);
        // at this offset `c + f` reads exactly `f`
        assert forall|k: int| 0 <= k implies #[trigger] byte_at(cf, off + k) == byte_at(f, k) by {
            if k < f.len() {
                assert(cf[off + k] == f[k]);
            }
        }
        lemma_parse_frame_shift(cf, off, f, 0);
        let size = parse_frame(f, 0)->size;
        assert(parse_frame(cf, off)->size == size);
        assert(off + size == cf.len());
        lemma_parse_frame_beyond(cf, off + size);
        assert(scan_file(fid, cf, off + size, st2) == Some((st2, cf.len() as int)));
    } else {
        // the scan of `c` consumed a frame here, within `c`
        match parse_frame(c, off) {
            FrameParse::Eof => {
                // then the scan of `c` would have ended before its end
                assert(false);
            },
            FrameParse::BadCrc => {
                assert(false);
            },
            FrameParse::Corrupt => {
                assert(false);
            },
            FrameParse::Frame { rtype, key, value, size } => {
                assert(off + size <= c.len());
                assert forall|k: int| 0 <= k < size
                    implies #[trigger] byte_at(c, off + k) == byte_at(cf, off + k) by {
                    assert(cf[off + k] == c[off + k]);
                }
                lemma_parse_frame_window(c, off, cf, off);
                let stm = scan_step(st, rtype, key, value,
                    LogRecordPos { file_id: fid, offset: off as u64 })->Some_0;
                lemma_frame_size_bounds(c, off);
                lemma_scan_append(fid, c, f, off + size, stm, st1, st2);
            },
        }
    }
}

/// Crash atomicity, the invisible half: a record carried by a transaction,
/// short of the closing marker, changes nothing the live store shows — it
/// is only buffered, and a replay that never sees the marker drops it.
pub proof fn lemma_buffered_step_invisible(
    st: ScanState,
    rt: LogRecordType,
    dk: Seq<u8>,
    value: Seq<u8>,
    pos: LogRecordPos,
)
    requires
        scan_step(st, rt, dk, value, pos) is Some,
        parse_key(dk)->Some_0.0 > 0,
        rt != LogRecordType::TXNFINISHED,
    ensures
        live_kv(scan_step(st, rt, dk, value, pos)->Some_0) == live_kv(st),
        live_pos(scan_step(st, rt, dk, value, pos)->Some_0) == live_pos(st),
{
}

/// Scanning an empty file changes nothing.
pub proof fn lemma_scan_empty(fid: u32, st: ScanState)
    ensures
        scan_file(fid, Seq::empty(), 0, st) == Some((st, 0int)),
{
    lemma_parse_frame_beyond(Seq::empty(), 0);
}

/// Whether some file carries this id.
pub open spec fn has_file(views: Seq<FileView>, fid: u32) -> bool {
    exists|i: int| 0 <= i < views.len() && (#[trigger] views[i]).id == fid
}

/// The position of the file carrying this id.
pub open spec fn file_index_of(views: Seq<FileView>, fid: u32) -> int {
    choose|i: int| 0 <= i < views.len() && (#[trigger] views[i]).id == fid
}

/// The bytes of the file carrying this id.
pub open spec fn file_at(views: Seq<FileView>, fid: u32) -> Seq<u8> {
    views[file_index_of(views, fid)].contents
}

/// No two files share an id.
pub open spec fn ids_distinct(views: Seq<FileView>) -> bool {
    forall|i: int, j: int| 0 <= i < j < views.len()
        ==> (#[trigger] views[i]).id != (#[trigger] views[j]).id
}

/// With distinct ids, each file is the one its id looks up.
pub proof fn lemma_file_at(views: Seq<FileView>, i: int)
    requires
        ids_distinct(views),
        0 <= i < views.len(),
    ensures
        has_file(views, views[i].id),
        file_index_of(views, views[i].id) == i,
        file_at(views, views[i].id) == views[i].contents,
{
    assert(has_file(views, views[i].id));
    let j = file_index_of(views, views[i].id);
    assert(0 <= j < views.len() && views[j].id == views[i].id);
}

/// A live entry points into an existing file, at a well-formed NORMAL
/// frame wholly inside it that carries the entry's value.
pub open spec fn entry_ok(views: Seq<FileView>, e: LiveEntry) -> bool {
    &&& has_file(views, e.pos.file_id)
    &&& (parse_frame(file_at(views, e.pos.file_id), e.pos.offset as int)
        matches FrameParse::Frame { rtype, key, value, size }
        && rtype == LogRecordType::NORMAL
        && value == e.value
        && e.pos.offset + size <= file_at(views, e.pos.file_id).len())
}

/// A buffered record that will insert on commit points at such a frame too.
pub open spec fn rec_ok(views: Seq<FileView>, r: PendingRec) -> bool {
    r.rtype == LogRecordType::NORMAL
        ==> entry_ok(views, LiveEntry { pos: r.pos, value: r.value })
}

/// Every live entry and every buffered insert of the state is backed by
/// its frame on disk.
pub open spec fn state_ok(views: Seq<FileView>, st: ScanState) -> bool {
    &&& forall|k: Seq<u8>| #[trigger] st.idx.contains_key(k) ==> entry_ok(views, st.idx[k])
    &&& forall|s: nat, t: int|
        st.pending.contains_key(s) && 0 <= t < st.pending[s].len()
            ==> rec_ok(views, #[trigger] st.pending[s][t])
}

/// Applying backed records to a backed index leaves it backed.
proof fn lemma_apply_pending_ok(
    views: Seq<FileView>,
    idx: Map<Seq<u8>, LiveEntry>,
    recs: Seq<PendingRec>,
)
    requires
        forall|k: Seq<u8>| #[trigger] idx.contains_key(k) ==> entry_ok(views, idx[k]),
        forall|t: int| 0 <= t < recs.len() ==> rec_ok(views, #[trigger] recs[t]),
    ensures
        forall|k: Seq<u8>| #[trigger] apply_pending(idx, recs).contains_key(k)
            ==> entry_ok(views, apply_pending(idx, recs)[k]),
    decreases recs.len(),
{
    if recs.len() > 0 {
        assert forall|t: int| 0 <= t < recs.drop_last().len()
            implies rec_ok(views, #[trigger] recs.drop_last()[t]) by {
            assert(recs.drop_last()[t] == recs[t]);
        }
        lemma_apply_pending_ok(views, idx, recs.drop_last());
        let prev = apply_pending(idx, recs.drop_last());
        let r = recs.last();
        assert(rec_ok(views, recs[recs.len() - 1]));
        assert forall|k: Seq<u8>| #[trigger] apply_pending(idx, recs).contains_key(k)
            implies entry_ok(views, apply_pending(idx, recs)[k]) by {
            match r.rtype {
                LogRecordType::NORMAL => {
                    if k == r.key {
                        assert(apply_pending(idx, recs)[k]
                            == LiveEntry { pos: r.pos, value: r.value });
                    } else {
                        assert(apply_pending(idx, recs)[k] == prev[k]);
                        assert(prev.contains_key(k));
                    }
                },
                LogRecordType::DELETE => {
                    assert(apply_pending(idx, recs)[k] == prev[k]);
                    assert(prev.contains_key(k));
                },
                LogRecordType::TXNFINISHED => {
                    assert(apply_pending(idx, recs)[k] == prev[k]);
                    assert(prev.contains_key(k));
                },
            }
        }
    }
}

/// One scan step keeps the state backed, provided the stepped record is.
proof fn lemma_scan_step_ok(
    views: Seq<FileView>,
    st: ScanState,
    rt: LogRecordType,
    dk: Seq<u8>,
    value: Seq<u8>,
    pos: LogRecordPos,
)
    requires
        state_ok(views, st),
        scan_step(st, rt, dk, value, pos) is Some,
        rt == LogRecordType::NORMAL ==> entry_ok(views, LiveEntry { pos, value }),
    ensures
        state_ok(views, scan_step(st, rt, dk, value, pos)->Some_0),
{
    let (seqn, uk) = parse_key(dk)->Some_0;
    let st2 = scan_step(st, rt, dk, value, pos)->Some_0;
    if seqn == 0 {
    } else if rt == LogRecordType::TXNFINISHED {
        lemma_apply_pending_ok(views, st.idx, bucket_of(st, seqn));
    } else {
        assert forall|s: nat, t: int|
            st2.pending.contains_key(s) && 0 <= t < st2.pending[s].len()
            implies rec_ok(views, #[trigger] st2.pending[s][t]) by {
            if s == seqn {
                if t < bucket_of(st, seqn).len() {
                    assert(st2.pending[s][t] == bucket_of(st, seqn)[t]);
                    assert(rec_ok(views, bucket_of(st, seqn)[t]));
                } else {
                    assert(st2.pending[s][t] == PendingRec { key: uk, rtype: rt, value, pos });
                }
            } else {
                assert(st2.pending[s][t] == st.pending[s][t]);
            }
        }
    }
}

/// A file scan keeps the state backed.
pub proof fn lemma_scan_file_ok(views: Seq<FileView>, i: int, off: int, st: ScanState)
    requires
        ids_distinct(views),
        0 <= i < views.len(),
        views[i].contents.len() <= u64::MAX,
        0 <= off,
        state_ok(views, st),
        scan_file(views[i].id, views[i].contents, off, st) is Some,
    ensures
        state_ok(views, scan_file(views[i].id, views[i].contents, off, st)->Some_0.0),
    decreases views[i].contents.len() - off,
{
    let fid = views[i].id;
    let c = views[i].contents;
    match parse_frame(c, off) {
        FrameParse::Frame { rtype, key, value, size } => {
            if !(off < 0 || off + size > c.len()) {
                let pos = LogRecordPos { file_id: fid, offset: off as u64 };
                lemma_file_at(views, i);
                assert(rtype == LogRecordType::NORMAL
                    ==> entry_ok(views, LiveEntry { pos, value })) by {
                    assert(pos.offset as int == off);
                }
                lemma_scan_step_ok(views, st, rtype, key, value, pos);
                let st2 = scan_step(st, rtype, key, value, pos)->Some_0;
                lemma_frame_size_bounds(c, off);
                lemma_scan_file_ok(views, i, off + size, st2);
            }
        },
        _ => {},
    }
}

/// A whole replay keeps the state backed.
pub proof fn lemma_replay_from_ok(views: Seq<FileView>, i: int, st: ScanState)
    requires
        ids_distinct(views),
        forall|q: int| 0 <= q < views.len()
            ==> (#[trigger] views[q]).contents.len() <= u64::MAX,
        state_ok(views, st),
        replay_from(views, i, st) is Some,
    ensures
        state_ok(views, replay_from(views, i, st)->Some_0),
    decreases views.len() - i,
{
    if 0 <= i < views.len() {
        match scan_file(views[i].id, views[i].contents, 0, st) {
            Some((st2, end)) => {
                lemma_scan_file_ok(views, i, 0, st);
                lemma_replay_from_ok(views, i + 1, st2);
            },
            None => {},
        }
    }
}

/// Every entry a replay of well-bounded, distinctly named files produces
/// is backed by a NORMAL frame on disk.
pub proof fn lemma_replay_ok(views: Seq<FileView>)
    requires
        ids_distinct(views),
        forall|q: int| 0 <= q < views.len()
            ==> (#[trigger] views[q]).contents.len() <= u64::MAX,
        replay(views) is Some,
    ensures
        state_ok(views, replay(views)->Some_0),
{
    lemma_replay_from_ok(views, 0, init_state());
}

/// Every buffered transaction number is positive and at most the largest
/// number seen.
pub open spec fn seqs_bounded(st: ScanState) -> bool {
    forall|s: nat| #[trigger] st.pending.contains_key(s) ==> 0 < s <= st.max_seq
}

/// A scan step keeps the buffered numbers bounded and never lowers the
/// largest number seen.
pub proof fn lemma_scan_step_seqs(
    st: ScanState,
    rt: LogRecordType,
    dk: Seq<u8>,
    value: Seq<u8>,
    pos: LogRecordPos,
)
    requires
        seqs_bounded(st),
        scan_step(st, rt, dk, value, pos) is Some,
    ensures
        seqs_bounded(scan_step(st, rt, dk, value, pos)->Some_0),
        st.max_seq <= scan_step(st, rt, dk, value, pos)->Some_0.max_seq,
{
}

/// A file scan keeps the buffered numbers bounded and never lowers the
/// largest number seen.
pub proof fn lemma_scan_file_seqs(fid: u32, c: Seq<u8>, off: int, st: ScanState)
    requires
        seqs_bounded(st),
        scan_file(fid, c, off, st) is Some,
    ensures
        seqs_bounded(scan_file(fid, c, off, st)->Some_0.0),
        st.max_seq <= scan_file(fid, c, off, st)->Some_0.0.max_seq,
    decreases c.len() - off,
{
    match parse_frame(c, off) {
        FrameParse::Frame { rtype, key, value, size } => {
            if !(off < 0 || off + size > c.len()) {
                let st2 = scan_step(st, rtype, key, value,
                    LogRecordPos { file_id: fid, offset: off as u64 })->Some_0;
                lemma_scan_step_seqs(st, rtype, key, value,
                    LogRecordPos { file_id: fid, offset: off as u64 });
                lemma_frame_size_bounds(c, off);
                lemma_scan_file_seqs(fid, c, off + size, st2);
            }
        },
        _ => {},
    }
}

/// A whole replay keeps the buffered numbers bounded and never lowers the
/// largest number seen.
pub proof fn lemma_replay_from_seqs(views: Seq<FileView>, i: int, st: ScanState)
    requires
        seqs_bounded(st),
        replay_from(views, i, st) is Some,
    ensures
        seqs_bounded(replay_from(views, i, st)->Some_0),
        st.max_seq <= replay_from(views, i, st)->Some_0.max_seq,
    decreases views.len() - i,
{
    if 0 <= i < views.len() {
        match scan_file(views[i].id, views[i].contents, 0, st) {
            Some((st2, end)) => {
                lemma_scan_file_seqs(views[i].id, views[i].contents, 0, st);
                lemma_replay_from_seqs(views, i + 1, st2);
            },
            None => {},
        }
    }
}

} // verus!
